//! The synthetic rows that a fresh `items` table is seeded with.

use vstd::prelude::*;
use vstd::string::StringExecFns;
use crate::decimal::{padded_digits, push_padded};

verus! {

/// How many rows a seeded table holds.
pub const SEED_ROW_COUNT: u64 = 100;

/// The price, in hundredths, of every even-indexed seed row.
pub const SEED_PRICE_CENTS: u32 = 1125;

/// A row to insert: a name and an optional price in hundredths
/// (`1125` stands for `11.25`).
pub struct SeedRow {
    pub name: String,
    pub price_cents: Option<u32>,
}

impl View for SeedRow {
    type V = (Seq<char>, Option<u32>);

    open spec fn view(&self) -> (Seq<char>, Option<u32>) {
        (self.name@, self.price_cents)
    }
}

/// The name of the seed row at 0-based index `i`: `item` and the 1-based
/// index, zero-padded to four digits.
pub open spec fn seed_name_text(i: nat) -> Seq<char> {
    seq!['i', 't', 'e', 'm'] + padded_digits(i + 1, 4)
}

/// The price of the seed row at 0-based index `i`: `11.25` at even indices,
/// none at odd ones.
pub open spec fn seed_price(i: nat) -> Option<u32> {
    if i % 2 == 0 {
        Some(1125u32)
    } else {
        None
    }
}

/// The seed row at 0-based index `i`.
pub open spec fn seed_row(i: nat) -> (Seq<char>, Option<u32>) {
    (seed_name_text(i), seed_price(i))
}

/// The name of the seed row at 0-based index `i`.
pub fn seed_name(i: u64) -> (r: String)
    requires
        i < u64::MAX,
    ensures
        r@ == seed_name_text(i as nat),
{
    proof {
        reveal_strlit("item");
    }
    let mut r = String::from_str("item");
    push_padded(&mut r, i + 1, 4);
    assert(r@ =~= seed_name_text(i as nat));
    r
}

/// The rows that seed an empty table, in insertion order.
pub fn seed_rows() -> (r: Vec<SeedRow>)
    ensures
        r@.len() == SEED_ROW_COUNT,
        forall|i: int| 0 <= i < r@.len() ==> #[trigger] r@[i]@ == seed_row(i as nat),
{
    let mut r: Vec<SeedRow> = Vec::new();
    let mut i: u64 = 0;
    while i < SEED_ROW_COUNT
        invariant
            i <= SEED_ROW_COUNT,
            r@.len() == i,
            forall|j: int| 0 <= j < i ==> #[trigger] r@[j]@ == seed_row(j as nat),
        decreases SEED_ROW_COUNT - i,
    {
        let price = if i % 2 == 0 {
            Some(SEED_PRICE_CENTS)
        } else {
            None
        };
        r.push(SeedRow { name: seed_name(i), price_cents: price });
        i = i + 1;
    }
    r
}

} // verus!
