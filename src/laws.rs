//! Properties that hold of every bucket, proved over the models that the
//! operations' contracts speak of.
use vstd::prelude::*;

use crate::bucket::{optimized, Bucket};
use crate::pair::sym_diff;
use crate::repr::{count_below, lemma_count_monotone, universe};
use crate::{Bits, Rank};

verus! {

/// Members below a position and non-members below it add up to the
/// position; below the end of the universe lie all members.
pub proof fn lemma_rank_split(b: Bucket, i: int)
    requires
        0 <= i <= universe(),
    ensures
        b.rank_of(i) <= i,
        b.rank_of(i) + (i - b.rank_of(i)) == i,
        b.rank_of(universe()) == b.popcount(),
{
    lemma_count_monotone(b@, 0, i);
}

/// Below `c` members there is always a member with exactly `c` members
/// below it: `select1(c)` has an answer for every `c < ones()`.
pub proof fn lemma_select_exists(s: Set<int>, c: int, j: int)
    requires
        0 <= c < count_below(s, j),
    ensures
        exists|p: int| 0 <= p < j && s.contains(p) && #[trigger] count_below(s, p) == c,
    decreases j,
{
    if count_below(s, j - 1) > c {
        lemma_select_exists(s, c, j - 1);
        let p = choose|p: int| 0 <= p < j - 1 && s.contains(p) && #[trigger] count_below(s, p) == c;
        assert(0 <= p < j && s.contains(p) && count_below(s, p) == c);
    } else {
        assert(s.contains(j - 1) && count_below(s, j - 1) == c);
    }
}

/// Two members never share a rank, so the answer of `select1` is the only
/// one its contract allows.
pub proof fn lemma_select_unique(s: Set<int>, p: int, q: int)
    requires
        0 <= p < q,
        s.contains(p),
        s.contains(q),
    ensures
        count_below(s, p) < count_below(s, q),
{
    lemma_count_monotone(s, p + 1, q);
}

/// Membership, rank and population depend on the members alone, not on
/// whether they are kept as an array or as a bitmap.
pub proof fn lemma_representation_transparent(a: Bucket, b: Bucket)
    requires
        a@ == b@,
    ensures
        forall|i: int| a.has(i) == b.has(i),
        forall|i: int| a.rank_of(i) == b.rank_of(i),
        a.popcount() == b.popcount(),
{
}

/// A second `optimize` keeps what the first one made: the same members in
/// the same representation.
pub proof fn lemma_optimize_idempotent(b0: Bucket, b1: Bucket, b2: Bucket)
    requires
        optimized(b0, b1),
        optimized(b1, b2),
    ensures
        b2@ == b1@,
        b2.spec_is_vec() == b1.spec_is_vec(),
        b2.popcount() == b1.popcount(),
{
}

/// Inserting a position that was not a member and removing it again gives
/// back the same members and the same population.
pub proof fn lemma_insert_then_remove(b: Bucket, v: u16)
    requires
        !b.has(v as int),
    ensures
        b@.insert(v as int).remove(v as int) == b@,
        count_below(b@.insert(v as int).remove(v as int), universe()) == b.popcount(),
{
    assert(b@.insert(v as int).remove(v as int) =~= b@);
}

/// The intersection lies in both operands and both lie in the union; the
/// symmetric difference is the union of the two differences.
pub proof fn lemma_set_laws(a: Set<int>, b: Set<int>)
    ensures
        a.intersect(b).subset_of(a),
        a.intersect(b).subset_of(b),
        a.subset_of(a.union(b)),
        b.subset_of(a.union(b)),
        sym_diff(a, b) == a.difference(b).union(b.difference(a)),
{
    assert(sym_diff(a, b) =~= a.difference(b).union(b.difference(a)));
}

} // verus!
