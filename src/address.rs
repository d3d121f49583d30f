//! Participant addresses and their canonical order.

use std::cmp::Ordering;
use vstd::prelude::*;
use crate::order::{
    bytes_lt, diverges_at, lemma_bytes_lt_irreflexive, lemma_bytes_lt_total, lemma_bytes_lt_transitive,
};

verus! {

broadcast use vstd::array::group_array_axioms;

/// Number of bytes that identify an address within its kind.
pub const IDENTIFIER_LEN: usize = 20;

/// The kind of account or contract that an address designates.
#[derive(Clone, Copy, Debug, PartialEq, Eq)]
pub enum AddressType {
    Account,
    SystemContract,
    PublicContract,
    ZkContract,
}

pub open spec fn type_byte(t: AddressType) -> u8 {
    match t {
        AddressType::Account => 0u8,
        AddressType::SystemContract => 1u8,
        AddressType::PublicContract => 2u8,
        AddressType::ZkContract => 3u8,
    }
}

impl AddressType {
    /// The byte that encodes this kind, first in an address's canonical form.
    pub fn to_byte(&self) -> (r: u8)
        ensures
            r == type_byte(*self),
    {
        match self {
            AddressType::Account => 0,
            AddressType::SystemContract => 1,
            AddressType::PublicContract => 2,
            AddressType::ZkContract => 3,
        }
    }
}

/// The address of a transaction sender.
#[derive(Clone, Copy, Debug, PartialEq, Eq)]
pub struct Address {
    pub address_type: AddressType,
    pub identifier: [u8; 20],
}

impl View for Address {
    /// The canonical byte form: the kind's byte, then the identifier.
    type V = Seq<u8>;

    open spec fn view(&self) -> Seq<u8> {
        seq![type_byte(self.address_type)] + self.identifier@
    }
}

/// The canonical order of addresses: lexicographic on their byte form.
pub open spec fn address_lt(a: Address, b: Address) -> bool {
    bytes_lt(a@, b@)
}

/// Two addresses with the same byte form are the same address.
pub proof fn lemma_view_injective(a: Address, b: Address)
    requires
        a@ == b@,
    ensures
        a == b,
{
    let ka = seq![type_byte(a.address_type)];
    let kb = seq![type_byte(b.address_type)];
    assert((ka + a.identifier@)[0] == ka[0]);
    assert((kb + b.identifier@)[0] == kb[0]);
    assert(type_byte(a.address_type) == type_byte(b.address_type));
    assert(a.address_type == b.address_type) by {
        match a.address_type {
            AddressType::Account => {},
            AddressType::SystemContract => {},
            AddressType::PublicContract => {},
            AddressType::ZkContract => {},
        }
    }
    assert forall|i: int| 0 <= i < IDENTIFIER_LEN implies a.identifier[i] == b.identifier[i] by {
        assert((ka + a.identifier@)[i + 1] == a.identifier@[i]);
        assert((kb + b.identifier@)[i + 1] == b.identifier@[i]);
    }
    assert(a.identifier =~= b.identifier);
}

/// Distinct addresses are ordered one way or the other.
pub proof fn lemma_address_lt_total(a: Address, b: Address)
    requires
        a != b,
    ensures
        address_lt(a, b) || address_lt(b, a),
{
    if a@ == b@ {
        lemma_view_injective(a, b);
    }
    lemma_bytes_lt_total(a@, b@);
}

/// The canonical order is transitive.
pub proof fn lemma_address_lt_transitive(a: Address, b: Address, c: Address)
    requires
        address_lt(a, b),
        address_lt(b, c),
    ensures
        address_lt(a, c),
{
    lemma_bytes_lt_transitive(a@, b@, c@);
}

/// Compares two addresses in canonical order.
pub fn compare_addresses(a: &Address, b: &Address) -> (r: Ordering)
    ensures
        r == Ordering::Less <==> address_lt(*a, *b),
        r == Ordering::Greater <==> address_lt(*b, *a),
        r == Ordering::Equal <==> *a == *b,
{
    let ta = a.address_type.to_byte();
    let tb = b.address_type.to_byte();
    if ta < tb {
        assert(diverges_at(a@, b@, 0));
        proof { lemma_asymmetric(*a, *b); }
        return Ordering::Less;
    }
    if tb < ta {
        assert(diverges_at(b@, a@, 0));
        proof { lemma_asymmetric(*b, *a); }
        return Ordering::Greater;
    }
    let mut i: usize = 0;
    while i < IDENTIFIER_LEN
        invariant
            0 <= i <= IDENTIFIER_LEN,
            ta == tb,
            ta == type_byte(a.address_type),
            tb == type_byte(b.address_type),
            forall|j: int| 0 <= j < i ==> a.identifier[j] == b.identifier[j],
        decreases IDENTIFIER_LEN - i,
    {
        let x = a.identifier[i];
        let y = b.identifier[i];
        if x < y {
            assert(diverges_at(a@, b@, i + 1));
            proof { lemma_asymmetric(*a, *b); }
            return Ordering::Less;
        }
        if y < x {
            assert(diverges_at(b@, a@, i + 1));
            proof { lemma_asymmetric(*b, *a); }
            return Ordering::Greater;
        }
        i = i + 1;
    }
    assert(a@ =~= b@);
    proof { lemma_view_injective(*a, *b); }
    Ordering::Equal
}

/// The canonical order is asymmetric, so in particular irreflexive.
pub proof fn lemma_asymmetric(a: Address, b: Address)
    requires
        address_lt(a, b),
    ensures
        !address_lt(b, a),
        a != b,
{
    if address_lt(b, a) {
        lemma_bytes_lt_transitive(a@, b@, a@);
        lemma_bytes_lt_irreflexive(a@);
    }
    lemma_bytes_lt_irreflexive(a@);
}

} // verus!
