//! A CART-style binary decision-tree classifier over a rectangular table of
//! totally ordered feature keys and a vector of small class codes.
//!
//! Feature measurements enter the library as `u64` keys; a front end maps
//! real measurements to keys by any strictly monotone encoding, so that the
//! key order is the measurement order. Class-probability distributions are
//! kept as exact occurrence counts over a common total, and split scores as
//! exact rationals, so every training decision is proved, not approximated.

pub mod data;
pub mod model;
pub mod tree;

use vstd::prelude::*;

verus! {

/// True when every row of `m` has exactly `width` entries.
pub open spec fn rectangular(m: Seq<Seq<u64>>, width: int) -> bool {
    forall|i: int| 0 <= i < m.len() ==> #[trigger] m[i].len() == width
}

} // verus!
