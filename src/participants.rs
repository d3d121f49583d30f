//! The participant set: unique addresses kept in canonical order.

use vstd::prelude::*;
use std::cmp::Ordering;
use crate::address::{
    Address, address_lt, compare_addresses, lemma_address_lt_total, lemma_address_lt_transitive,
    lemma_asymmetric,
};

verus! {

/// Every address comes strictly before each one that follows it, so none repeats.
pub open spec fn sorted(s: Seq<Address>) -> bool {
    forall|i: int, j: int| 0 <= i < j < s.len() ==> address_lt(#[trigger] s[i], #[trigger] s[j])
}

/// The sequence with `a` put in its place, or `s` itself where `a` is already there.
pub open spec fn insert_sorted(s: Seq<Address>, a: Address) -> Seq<Address>
    decreases s.len(),
{
    if s.len() == 0 {
        seq![a]
    } else if s[0] == a {
        s
    } else if address_lt(a, s[0]) {
        seq![a] + s
    } else {
        seq![s[0]] + insert_sorted(s.drop_first(), a)
    }
}

/// Inserting into a sorted sequence keeps it sorted and adds exactly `a`.
pub proof fn lemma_insert_sorted(s: Seq<Address>, a: Address)
    requires
        sorted(s),
    ensures
        sorted(insert_sorted(s, a)),
        forall|x: Address| #[trigger] insert_sorted(s, a).contains(x) <==> (s.contains(x) || x == a),
    decreases s.len(),
{
    let r = insert_sorted(s, a);
    if s.len() == 0 {
        assert forall|x: Address| r.contains(x) <==> (s.contains(x) || x == a) by {
            if r.contains(x) {
                let k = choose|k: int| 0 <= k < r.len() && r[k] == x;
                assert(k == 0);
            }
            if x == a {
                assert(r[0] == a);
            }
        }
    } else if s[0] == a {
        assert forall|x: Address| r.contains(x) <==> (s.contains(x) || x == a) by {
            if x == a {
                assert(s[0] == a);
            }
        }
    } else if address_lt(a, s[0]) {
        assert forall|i: int, j: int| 0 <= i < j < r.len() implies address_lt(r[i], r[j]) by {
            if i == 0 {
                if j > 1 {
                    assert(address_lt(s[0], s[j - 1]));
                    lemma_address_lt_transitive(a, s[0], s[j - 1]);
                }
            } else {
                assert(address_lt(s[i - 1], s[j - 1]));
            }
        }
        assert forall|x: Address| r.contains(x) <==> (s.contains(x) || x == a) by {
            if r.contains(x) {
                let k = choose|k: int| 0 <= k < r.len() && r[k] == x;
                if k > 0 {
                    assert(s[k - 1] == x);
                }
            }
            if s.contains(x) {
                let k = choose|k: int| 0 <= k < s.len() && s[k] == x;
                assert(r[k + 1] == x);
            }
            if x == a {
                assert(r[0] == a);
            }
        }
    } else {
        lemma_address_lt_total(a, s[0]);
        let rest = s.drop_first();
        let t = insert_sorted(rest, a);
        assert(sorted(rest)) by {
            assert forall|i: int, j: int| 0 <= i < j < rest.len() implies address_lt(rest[i], rest[j]) by {
                assert(address_lt(s[i + 1], s[j + 1]));
            }
        }
        lemma_insert_sorted(rest, a);
        assert(r == seq![s[0]] + t);
        assert forall|i: int, j: int| 0 <= i < j < r.len() implies address_lt(r[i], r[j]) by {
            if i == 0 {
                assert(r[j] == t[j - 1]);
                assert(t.contains(t[j - 1]));
                if rest.contains(t[j - 1]) {
                    let k = choose|k: int| 0 <= k < rest.len() && rest[k] == t[j - 1];
                    assert(address_lt(s[0], s[k + 1]));
                }
            } else {
                assert(r[i] == t[i - 1] && r[j] == t[j - 1]);
            }
        }
        assert forall|x: Address| r.contains(x) <==> (s.contains(x) || x == a) by {
            if r.contains(x) {
                let k = choose|k: int| 0 <= k < r.len() && r[k] == x;
                if k > 0 {
                    assert(t[k - 1] == x);
                    assert(t.contains(x));
                    if rest.contains(x) {
                        let m = choose|m: int| 0 <= m < rest.len() && rest[m] == x;
                        assert(s[m + 1] == x);
                    }
                } else {
                    assert(s[0] == x);
                }
            }
            if s.contains(x) {
                let k = choose|k: int| 0 <= k < s.len() && s[k] == x;
                if k > 0 {
                    assert(rest[k - 1] == x);
                    assert(t.contains(x));
                    let m = choose|m: int| 0 <= m < t.len() && t[m] == x;
                    assert(r[m + 1] == x);
                } else {
                    assert(r[0] == x);
                }
            }
            if x == a {
                assert(t.contains(x));
                let m = choose|m: int| 0 <= m < t.len() && t[m] == x;
                assert(r[m + 1] == x);
            }
        }
    }
}

/// A sorted sequence is fixed by its members: two with the same members are equal.
pub proof fn lemma_sorted_unique(a: Seq<Address>, b: Seq<Address>)
    requires
        sorted(a),
        sorted(b),
        forall|x: Address| a.contains(x) <==> b.contains(x),
    ensures
        a == b,
    decreases a.len(),
{
    if a.len() == 0 {
        if b.len() > 0 {
            assert(b.contains(b[0]));
        }
        assert(a =~= b);
    } else {
        assert(a.contains(a[0]));
        assert(b.contains(a[0]));
        assert(b.len() > 0);
        assert(b.contains(b[0]));
        let i = choose|i: int| 0 <= i < a.len() && a[i] == b[0];
        let j = choose|j: int| 0 <= j < b.len() && b[j] == a[0];
        if i > 0 && j > 0 {
            assert(address_lt(a[0], a[i]));
            assert(address_lt(b[0], b[j]));
            lemma_address_lt_transitive(a[0], b[0], a[0]);
            lemma_asymmetric(a[0], a[0]);
        }
        assert(a[0] == b[0]);
        let ta = a.drop_first();
        let tb = b.drop_first();
        assert(sorted(ta)) by {
            assert forall|p: int, q: int| 0 <= p < q < ta.len() implies address_lt(ta[p], ta[q]) by {
                assert(address_lt(a[p + 1], a[q + 1]));
            }
        }
        assert(sorted(tb)) by {
            assert forall|p: int, q: int| 0 <= p < q < tb.len() implies address_lt(tb[p], tb[q]) by {
                assert(address_lt(b[p + 1], b[q + 1]));
            }
        }
        assert forall|x: Address| ta.contains(x) <==> tb.contains(x) by {
            if ta.contains(x) {
                let k = choose|k: int| 0 <= k < ta.len() && ta[k] == x;
                assert(a[k + 1] == x);
                assert(address_lt(a[0], a[k + 1]));
                lemma_asymmetric(a[0], x);
                assert(b.contains(x));
                let m = choose|m: int| 0 <= m < b.len() && b[m] == x;
                assert(m != 0);
                assert(tb[m - 1] == x);
            }
            if tb.contains(x) {
                let k = choose|k: int| 0 <= k < tb.len() && tb[k] == x;
                assert(b[k + 1] == x);
                assert(address_lt(b[0], b[k + 1]));
                lemma_asymmetric(b[0], x);
                assert(a.contains(x));
                let m = choose|m: int| 0 <= m < a.len() && a[m] == x;
                assert(m != 0);
                assert(ta[m - 1] == x);
            }
        }
        lemma_sorted_unique(ta, tb);
        assert(a =~= seq![a[0]] + ta);
        assert(b =~= seq![b[0]] + tb);
    }
}

/// Unique addresses in canonical order.
pub struct ParticipantSet {
    items: Vec<Address>,
}

impl View for ParticipantSet {
    type V = Seq<Address>;

    closed spec fn view(&self) -> Seq<Address> {
        self.items@
    }
}

impl ParticipantSet {
    /// The members are in canonical order, each once.
    pub open spec fn wf(&self) -> bool {
        sorted(self@)
    }

    /// The empty set.
    pub fn new() -> (r: ParticipantSet)
        ensures
            r@ == Seq::<Address>::empty(),
            r.wf(),
    {
        ParticipantSet { items: Vec::new() }
    }

    /// The number of members.
    pub fn len(&self) -> (r: usize)
        ensures
            r == self@.len(),
    {
        self.items.len()
    }

    /// Whether the set has no member.
    pub fn is_empty(&self) -> (r: bool)
        ensures
            r == (self@.len() == 0),
    {
        self.items.len() == 0
    }

    /// The member at position `i` of the canonical order.
    pub fn get(&self, i: usize) -> (r: &Address)
        requires
            i < self@.len(),
        ensures
            *r == self@[i as int],
    {
        &self.items[i]
    }

    /// The members in canonical order.
    pub fn to_vec(&self) -> (r: Vec<Address>)
        ensures
            r@ == self@,
    {
        let mut out: Vec<Address> = Vec::new();
        let mut i: usize = 0;
        while i < self.items.len()
            invariant
                i <= self.items@.len(),
                out@ == self.items@.subrange(0, i as int),
            decreases self.items@.len() - i,
        {
            out.push(self.items[i]);
            i = i + 1;
            assert(out@ =~= self.items@.subrange(0, i as int));
        }
        assert(out@ =~= self.items@);
        out
    }

    /// Adds `a` in its place; an address already present is left as it is.
    pub fn insert(&mut self, a: Address)
        requires
            old(self).wf(),
        ensures
            final(self).wf(),
            final(self)@ == insert_sorted(old(self)@, a),
    {
        let ghost s = self@;
        proof { lemma_insert_sorted(s, a); }
        let n = self.items.len();
        let mut i: usize = 0;
        let mut placed = false;
        while i < n && !placed
            invariant
                placed ==> i < n && address_lt(a, s[i as int]),
                n == s.len(),
                self@ == s,
                sorted(s),
                i <= n,
                forall|j: int| 0 <= j < i ==> address_lt(#[trigger] s[j], a),
            decreases n - i + (if placed { 0int } else { 1int }),
        {
            match compare_addresses(&self.items[i], &a) {
                Ordering::Less => {
                    i = i + 1;
                },
                Ordering::Equal => {
                    proof {
                        lemma_insert_sorted(s, a);
                        assert(s[i as int] == a);
                        assert forall|x: Address| s.contains(x) <==> (s.contains(x) || x == a) by {
                            if x == a {
                                assert(s.contains(s[i as int]));
                            }
                        }
                        lemma_sorted_unique(s, insert_sorted(s, a));
                    }
                    return;
                },
                Ordering::Greater => {
                    placed = true;
                },
            }
        }
        self.items.insert(i, a);
        proof {
            let r = self@;
            assert(r =~= s.insert(i as int, a));
            assert forall|p: int, q: int| 0 <= p < q < r.len() implies address_lt(r[p], r[q]) by {
                if q < i {
                    assert(address_lt(s[p], s[q]));
                } else if q == i {
                    assert(address_lt(s[p], a));
                } else if p < i {
                    assert(address_lt(s[p], a));
                    if q - 1 > i {
                        assert(address_lt(s[i as int], s[q - 1]));
                        lemma_address_lt_transitive(a, s[i as int], s[q - 1]);
                    }
                    lemma_address_lt_transitive(s[p], a, s[q - 1]);
                } else if p == i {
                    if q - 1 > i {
                        assert(address_lt(s[i as int], s[q - 1]));
                        lemma_address_lt_transitive(a, s[i as int], s[q - 1]);
                    }
                } else {
                    assert(address_lt(s[p - 1], s[q - 1]));
                }
            }
            assert forall|x: Address| r.contains(x) <==> (s.contains(x) || x == a) by {
                if r.contains(x) {
                    let k = choose|k: int| 0 <= k < r.len() && r[k] == x;
                    if k < i {
                        assert(s[k] == x);
                    } else if k > i {
                        assert(s[k - 1] == x);
                    }
                }
                if s.contains(x) {
                    let k = choose|k: int| 0 <= k < s.len() && s[k] == x;
                    if k < i {
                        assert(r[k] == x);
                    } else {
                        assert(r[k + 1] == x);
                    }
                }
                if x == a {
                    assert(r[i as int] == x);
                }
            }
            lemma_sorted_unique(r, insert_sorted(s, a));
        }
    }
}

} // verus!
