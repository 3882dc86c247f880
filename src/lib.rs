//! Fixed-universe bitsets with rank and select.
//!
//! `broadword` treats one machine word as a tiny bitset and answers rank and
//! select queries on it in constant time. `bucket` builds on it a set over
//! the positions `0..65536` that keeps either a sorted array of members or a
//! packed bitmap (`repr`), with lazy two-ended iteration (`iter`),
//! streaming set operators over ascending sequences (`pair`) and set algebra
//! between representations (`setops`). `laws` states properties that hold
//! of every bucket.
use vstd::prelude::*;

pub mod broadword;
pub mod repr;
pub mod iter;
pub mod pair;
pub mod bucket;
pub mod setops;
pub mod laws;

pub use broadword::{Rank, Select};

verus! {

/// A set of positions of constant size `SIZE`.
pub trait Bits: Sized {
    /// Number of positions that a value can hold.
    const SIZE: usize;

    /// Number of positions, as `SIZE` states it.
    spec fn width() -> nat;

    /// Whether position `i` is a member.
    spec fn has(&self, i: int) -> bool;

    /// Number of members.
    spec fn popcount(&self) -> nat;

    /// The empty set.
    fn zero() -> (r: Self)
        ensures
            forall|i: int| !r.has(i),
            r.popcount() == 0,
    ;

    /// Count the members.
    fn ones(&self) -> (r: usize)
        ensures
            r == self.popcount(),
    ;
}

} // verus!
