//! The lottery contract: its state, its entry points and the laws they obey.

use vstd::prelude::*;
use crate::address::Address;
use crate::participants::{ParticipantSet, insert_sorted, lemma_insert_sorted, lemma_sorted_unique, sorted};

verus! {

broadcast use vstd::set::group_set_axioms;

/// What the host supplies with each call: who sent it, and the agreed block time.
#[derive(Clone, Copy, Debug, PartialEq, Eq)]
pub struct ContractContext {
    pub sender: Address,
    pub block_timestamp: u64,
}

/// The state of the lottery that persists between calls.
pub struct LotteryState {
    participants: ParticipantSet,
}

impl View for LotteryState {
    type V = Seq<Address>;

    closed spec fn view(&self) -> Seq<Address> {
        self.participants@
    }
}

impl LotteryState {
    /// The entrants are in canonical order, each once.
    pub open spec fn wf(&self) -> bool {
        sorted(self@)
    }

    /// The entrants of the current round.
    pub fn participants(&self) -> (r: &ParticipantSet)
        ensures
            r@ == self@,
    {
        &self.participants
    }
}

/// The position drawn among `n` entrants at block time `ts`.
pub open spec fn winner_index(ts: u64, n: nat) -> int
    recommends
        n > 0,
{
    (ts as int) % (n as int)
}

/// The winner of a draw at block time `ts` among the entrants `s`, if any.
pub open spec fn drawn_winner(ts: u64, s: Seq<Address>) -> Option<Address> {
    if s.len() == 0 {
        None
    } else {
        Some(s[winner_index(ts, s.len())])
    }
}

/// The entrants after a new lottery has seen the senders `senders`, in that order.
pub open spec fn entered(senders: Seq<Address>) -> Seq<Address>
    decreases senders.len(),
{
    if senders.len() == 0 {
        Seq::empty()
    } else {
        insert_sorted(entered(senders.drop_last()), senders.last())
    }
}

/// Starts a lottery with no entrants.
pub fn initialize(_ctx: ContractContext) -> (r: LotteryState)
    ensures
        r.wf(),
        r@ == Seq::<Address>::empty(),
{
    LotteryState { participants: ParticipantSet::new() }
}

/// Enters the sender into the current round; a sender already in it stays once.
pub fn enter(ctx: ContractContext, state: LotteryState) -> (r: LotteryState)
    requires
        state.wf(),
    ensures
        r.wf(),
        r@ == insert_sorted(state@, ctx.sender),
        forall|x: Address| #[trigger] r@.contains(x) <==> (state@.contains(x) || x == ctx.sender),
{
    proof { lemma_insert_sorted(state@, ctx.sender); }
    let mut state = state;
    state.participants.insert(ctx.sender);
    state
}

/// Draws the winner at position `block_timestamp mod count` of the canonical order,
/// and empties the set for the next round. With no entrants there is no winner.
pub fn pick_winner(ctx: ContractContext, state: LotteryState) -> (r: (LotteryState, Option<Address>))
    requires
        state.wf(),
    ensures
        r.0.wf(),
        r.0@ == Seq::<Address>::empty(),
        state@.len() == 0 ==> r.0@ == state@ && r.1 == None::<Address>,
        r.1 == drawn_winner(ctx.block_timestamp, state@),
{
    let n = state.participants.len();
    if n == 0 {
        proof { assert(state@ =~= Seq::<Address>::empty()); }
        return (state, None);
    }
    let index = (ctx.block_timestamp % (n as u64)) as usize;
    let winner = *state.participants.get(index);
    (LotteryState { participants: ParticipantSet::new() }, Some(winner))
}

/// Entering senders yields their distinct addresses in canonical order: the
/// result is sorted, holds exactly the senders, and depends only on which
/// addresses entered, not on their order or on repeats.
pub proof fn lemma_entries_canonical(a: Seq<Address>, b: Seq<Address>)
    requires
        a.to_set() == b.to_set(),
    ensures
        sorted(entered(a)),
        entered(a).to_set() == a.to_set(),
        entered(a) == entered(b),
{
    lemma_entered(a);
    lemma_entered(b);
    assert forall|x: Address| entered(a).contains(x) <==> entered(b).contains(x) by {
        assert(a.to_set().contains(x) == a.contains(x));
        assert(b.to_set().contains(x) == b.contains(x));
        assert(a.to_set().contains(x) == b.to_set().contains(x));
        assert(entered(a).contains(x) == a.contains(x));
        assert(entered(b).contains(x) == b.contains(x));
    }
    lemma_sorted_unique(entered(a), entered(b));
    assert(entered(a).to_set() =~= a.to_set());
}

proof fn lemma_entered(senders: Seq<Address>)
    ensures
        sorted(entered(senders)),
        forall|x: Address| #[trigger] entered(senders).contains(x) <==> senders.contains(x),
    decreases senders.len(),
{
    if senders.len() > 0 {
        let init = senders.drop_last();
        lemma_entered(init);
        lemma_insert_sorted(entered(init), senders.last());
        assert forall|x: Address| entered(senders).contains(x) <==> senders.contains(x) by {
            if init.contains(x) {
                let k = choose|k: int| 0 <= k < init.len() && init[k] == x;
                assert(senders[k] == x);
            }
            if senders.contains(x) {
                let k = choose|k: int| 0 <= k < senders.len() && senders[k] == x;
                if k < senders.len() - 1 {
                    assert(init[k] == x);
                }
            }
        }
    }
}

/// A draw among no entrants has no winner.
pub proof fn lemma_draw_empty(ts: u64)
    ensures
        drawn_winner(ts, Seq::<Address>::empty()) == None::<Address>,
{
}

/// A draw among entrants picks one of them.
pub proof fn lemma_winner_is_entrant(ts: u64, s: Seq<Address>)
    requires
        s.len() > 0,
    ensures
        drawn_winner(ts, s) is Some,
        s.contains(drawn_winner(ts, s).unwrap()),
{
    let i = winner_index(ts, s.len());
    assert(0 <= i < s.len());
    assert(s[i] == drawn_winner(ts, s).unwrap());
}

/// The same block time and the same entrants give the same winner.
pub proof fn lemma_draw_deterministic(ts: u64, s: Seq<Address>, t: Seq<Address>)
    requires
        s == t,
    ensures
        drawn_winner(ts, s) == drawn_winner(ts, t),
        s.len() > 0 ==> winner_index(ts, s.len()) == winner_index(ts, t.len()),
{
}

} // verus!
