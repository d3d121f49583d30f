use std::cmp::Ordering;

use lottery::address::compare_addresses;
use lottery::{enter, initialize, pick_winner, Address, AddressType, ContractContext, LotteryState, ParticipantSet};

fn account(last: u8) -> Address {
    let mut identifier = [0u8; 20];
    identifier[19] = last;
    Address { address_type: AddressType::Account, identifier }
}

fn alice() -> Address {
    account(1)
}

fn bob() -> Address {
    account(2)
}

fn carol() -> Address {
    account(3)
}

fn ctx(sender: Address, block_timestamp: u64) -> ContractContext {
    ContractContext { sender, block_timestamp }
}

fn members(state: &LotteryState) -> Vec<Address> {
    state.participants().to_vec()
}

fn enter_all(senders: &[Address]) -> LotteryState {
    let mut state = initialize(ctx(alice(), 0));
    for s in senders {
        state = enter(ctx(*s, 0), state);
    }
    state
}

#[test]
fn initialize_is_empty() {
    let state = initialize(ctx(alice(), 7));
    assert!(state.participants().is_empty());
    assert_eq!(state.participants().len(), 0);
}

#[test]
fn repeated_entry_is_counted_once() {
    let state = enter_all(&[alice(), bob(), alice()]);
    assert_eq!(state.participants().len(), 2);
    assert_eq!(members(&state), vec![alice(), bob()]);
}

#[test]
fn entry_order_does_not_matter() {
    let a = enter_all(&[carol(), alice(), bob(), carol()]);
    let b = enter_all(&[bob(), bob(), carol(), alice()]);
    assert_eq!(members(&a), vec![alice(), bob(), carol()]);
    assert_eq!(members(&a), members(&b));
}

#[test]
fn draw_picks_by_timestamp_modulo_count() {
    let state = enter_all(&[bob(), alice()]);
    let (after, winner) = pick_winner(ctx(carol(), 5), state);
    assert_eq!(winner, Some(bob()));
    assert!(after.participants().is_empty());
}

#[test]
fn draw_at_even_timestamp_picks_first() {
    let state = enter_all(&[carol(), bob(), alice()]);
    let (after, winner) = pick_winner(ctx(alice(), 9), state);
    assert_eq!(winner, Some(alice()));
    assert_eq!(after.participants().len(), 0);
}

#[test]
fn draw_on_empty_set_has_no_winner() {
    let state = initialize(ctx(alice(), 0));
    let (after, winner) = pick_winner(ctx(alice(), 123_456), state);
    assert_eq!(winner, None);
    assert!(after.participants().is_empty());
}

#[test]
fn draw_at_largest_timestamp() {
    let state = enter_all(&[alice(), bob(), carol()]);
    let (_, winner) = pick_winner(ctx(alice(), u64::MAX), state);
    // u64::MAX % 3 == 0
    assert_eq!(winner, Some(alice()));
}

#[test]
fn winner_is_an_entrant() {
    for ts in 0u64..20 {
        let entrants = vec![alice(), bob(), carol()];
        let state = enter_all(&entrants);
        let (after, winner) = pick_winner(ctx(alice(), ts), state);
        let w = winner.expect("a winner among entrants");
        assert!(entrants.contains(&w));
        assert!(after.participants().is_empty());
    }
}

#[test]
fn draw_is_deterministic() {
    let first = pick_winner(ctx(alice(), 41), enter_all(&[alice(), bob(), carol()])).1;
    let second = pick_winner(ctx(bob(), 41), enter_all(&[carol(), bob(), alice()])).1;
    assert_eq!(first, second);
    assert_eq!(first, Some(carol()));
}

#[test]
fn entry_after_draw_starts_new_round() {
    let state = enter_all(&[alice(), bob()]);
    let (after, winner) = pick_winner(ctx(alice(), 5), state);
    assert_eq!(winner, Some(bob()));
    let next = enter(ctx(carol(), 6), after);
    assert_eq!(members(&next), vec![carol()]);
}

#[test]
fn addresses_order_by_type_then_identifier() {
    let mut contract = account(0);
    contract.address_type = AddressType::PublicContract;
    assert_eq!(compare_addresses(&alice(), &bob()), Ordering::Less);
    assert_eq!(compare_addresses(&bob(), &alice()), Ordering::Greater);
    assert_eq!(compare_addresses(&bob(), &bob()), Ordering::Equal);
    assert_eq!(compare_addresses(&carol(), &contract), Ordering::Less);
    let mut high = account(0);
    high.identifier[0] = 1;
    assert_eq!(compare_addresses(&high, &carol()), Ordering::Greater);
}

#[test]
fn participant_set_keeps_canonical_order() {
    let mut set = ParticipantSet::new();
    let mut gov = account(0);
    gov.address_type = AddressType::SystemContract;
    set.insert(gov);
    set.insert(carol());
    set.insert(alice());
    set.insert(carol());
    assert_eq!(set.len(), 3);
    assert_eq!(*set.get(0), alice());
    assert_eq!(*set.get(1), carol());
    assert_eq!(*set.get(2), gov);
    assert_eq!(set.to_vec(), vec![alice(), carol(), gov]);
}

#[test]
fn address_type_bytes() {
    assert_eq!(AddressType::Account.to_byte(), 0);
    assert_eq!(AddressType::SystemContract.to_byte(), 1);
    assert_eq!(AddressType::PublicContract.to_byte(), 2);
    assert_eq!(AddressType::ZkContract.to_byte(), 3);
}
