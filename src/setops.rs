//! Intersection, union and symmetric difference of two representations,
//! case by case: two arrays merge as ascending sequences, an array and a
//! bitmap probe or update the bitmap, two bitmaps combine word by word.
use vstd::prelude::*;

use crate::broadword::{bit_set, lemma_rank_monotone};
use crate::pair::{op_set, sym_diff, Op, Pair};
use crate::iter::Iter;
use crate::repr::{
    array_set,
    count_below,
    lemma_array_rank,
    lemma_count_monotone,
    lemma_count_remove,
    lemma_map_set_word_at,
    lemma_map_total,
    lemma_words_ones_prefix,
    map_set,
    sorted,
    universe,
    word_at,
    words_ones,
    Repr,
};
use crate::Bits;

verus! {

/// Bitwise form of each set operator on one word.
spec fn word_op(op: Op, x: u64, y: u64) -> u64 {
    match op {
        Op::Intersection => x & y,
        Op::Union => x | y,
        Op::Difference => x & !y,
        Op::SymmetricDifference => x ^ y,
    }
}

proof fn lemma_word_op(op: Op, x: u64, y: u64)
    ensures
        forall|r: int|
            #[trigger] bit_set(word_op(op, x, y), r) <==> 0 <= r < 64 && match op {
                Op::Intersection => bit_set(x, r) && bit_set(y, r),
                Op::Union => bit_set(x, r) || bit_set(y, r),
                Op::Difference => bit_set(x, r) && !bit_set(y, r),
                Op::SymmetricDifference => bit_set(x, r) != bit_set(y, r),
            },
        x == 0 && y == 0 ==> word_op(op, x, y) == 0,
        x == 0 && !(op is Union) && !(op is SymmetricDifference) ==> word_op(op, x, y) == 0,
        y == 0 && op is Intersection ==> word_op(op, x, y) == 0,
{
    assert forall|r: int|
        #[trigger] bit_set(word_op(op, x, y), r) <==> 0 <= r < 64 && match op {
            Op::Intersection => bit_set(x, r) && bit_set(y, r),
            Op::Union => bit_set(x, r) || bit_set(y, r),
            Op::Difference => bit_set(x, r) && !bit_set(y, r),
            Op::SymmetricDifference => bit_set(x, r) != bit_set(y, r),
        } by {
        if 0 <= r < 64 {
            let k = r as u64;
            assert(((x & y) >> k) & 1 == 1 <==> (x >> k) & 1 == 1 && (y >> k) & 1 == 1)
                by (bit_vector);
            assert(((x | y) >> k) & 1 == 1 <==> (x >> k) & 1 == 1 || (y >> k) & 1 == 1)
                by (bit_vector);
            assert(((x & !y) >> k) & 1 == 1 <==> (x >> k) & 1 == 1 && !((y >> k) & 1 == 1))
                by (bit_vector)
                requires
                    k < 64,
            ;
            assert(((x ^ y) >> k) & 1 == 1 <==> ((x >> k) & 1 == 1) != ((y >> k) & 1 == 1))
                by (bit_vector);
        }
    }
    assert(x == 0 ==> x & y == 0 && x & !y == 0) by (bit_vector);
    assert(y == 0 ==> x & y == 0) by (bit_vector);
    assert(x == 0 && y == 0 ==> x | y == 0 && x ^ y == 0) by (bit_vector);
}

/// Combine two bitmaps word by word, counting the result as it grows.
fn combine_words(a: &Vec<u64>, b: &Vec<u64>, op: Op) -> (r: (Vec<u64>, usize))
    requires
        a@.len() <= 1024,
        b@.len() <= 1024,
    ensures
        r.0@.len() <= 1024,
        map_set(r.0@) == op_set(op, map_set(a@), map_set(b@)),
        r.1 == count_below(map_set(r.0@), universe()),
{
    let n = match op {
        Op::Intersection => if a.len() < b.len() {
            a.len()
        } else {
            b.len()
        },
        Op::Difference => a.len(),
        _ => if a.len() < b.len() {
            b.len()
        } else {
            a.len()
        },
    };
    let mut out: Vec<u64> = Vec::with_capacity(n);
    let mut ones: usize = 0;
    let mut k: usize = 0;
    while k < n
        invariant
            n <= 1024,
            n <= a@.len() || n <= b@.len(),
            op is Intersection ==> n <= a@.len() && n <= b@.len(),
            op is Difference ==> n == a@.len(),
            !(op is Intersection) && !(op is Difference) ==> n >= a@.len() && n >= b@.len(),
            k <= n,
            out@.len() == k,
            forall|j: int|
                0 <= j < k ==> out@[j] == word_op(op, word_at(a@, j), word_at(b@, j)),
            ones == words_ones(out@, k as int),
            ones <= 64 * k,
        decreases n - k,
    {
        let x = if k < a.len() {
            a[k]
        } else {
            0
        };
        let y = if k < b.len() {
            b[k]
        } else {
            0
        };
        let w = match op {
            Op::Intersection => x & y,
            Op::Union => x | y,
            Op::Difference => x & !y,
            Op::SymmetricDifference => x ^ y,
        };
        let ghost before = out@;
        out.push(w);
        proof {
            lemma_words_ones_prefix(before, out@, k as int);
            lemma_rank_monotone(w, 0, 64);
        }
        ones = ones + w.ones();
        k = k + 1;
    }
    proof {
        lemma_map_total(out@, universe());
        lemma_map_set_word_at(out@);
        lemma_map_set_word_at(a@);
        lemma_map_set_word_at(b@);
        assert forall|x: int| #[trigger]
            map_set(out@).contains(x) <==> op_set(op, map_set(a@), map_set(b@)).contains(x) by {
            if 0 <= x {
                let q = x / 64;
                lemma_word_op(op, word_at(a@, q), word_at(b@, q));
                if q >= n {
                    if op is Intersection {
                        if q >= a@.len() {
                            assert(word_at(a@, q) == 0);
                        } else {
                            assert(word_at(b@, q) == 0);
                        }
                    }
                    assert(word_at(a@, q) == 0 || (op is Intersection && word_at(b@, q) == 0));
                    assert(!bit_set(0u64, x % 64)) by {
                        crate::broadword::lemma_bit_of_zero();
                    }
                }
            }
        }
        assert(map_set(out@) =~= op_set(op, map_set(a@), map_set(b@)));
    }
    (out, ones)
}

/// Read a merge out into a sorted array.
fn collect(pair: Pair) -> (r: Vec<u16>)
    requires
        pair.wf(),
    ensures
        sorted(r@),
        array_set(r@) == pair@,
{
    let mut pair = pair;
    let ghost all = pair@;
    let mut out: Vec<u16> = Vec::new();
    loop
        invariant
            pair.wf(),
            sorted(out@),
            array_set(out@).union(pair@) == all,
            forall|j: int, y: int|
                #![trigger out@[j], pair@.contains(y)]
                0 <= j < out@.len() && pair@.contains(y) ==> out@[j] < y,
        ensures
            sorted(out@),
            array_set(out@) == all,
        decreases count_below(pair@, universe()),
    {
        let ghost rest = pair@;
        match pair.next() {
            Some(x) => {
                let ghost before = out@;
                out.push(x);
                proof {
                    lemma_count_remove(rest, x as int, universe());
                    assert(rest.contains(x as int));
                    assert forall|j: int, y: int|
                        #![trigger out@[j], pair@.contains(y)]
                        0 <= j < out@.len() && pair@.contains(y) implies out@[j] < y by {
                        if j < before.len() {
                            assert(rest.contains(y));
                        }
                    }
                    assert(array_set(out@) =~= array_set(before).insert(x as int)) by {
                        assert forall|z: u16| out@.contains(z) implies before.contains(z) || z == x by {
                            let j = choose|j: int| 0 <= j < out@.len() && out@[j] == z;
                            if j < before.len() {
                                assert(before[j] == z);
                            }
                        }
                        assert forall|z: u16| before.contains(z) implies out@.contains(z) by {
                            let j = choose|j: int| 0 <= j < before.len() && before[j] == z;
                            assert(out@[j] == z);
                        }
                        assert(out@[before.len() as int] == x);
                    }
                    assert(array_set(out@).union(pair@) =~= all);
                }
            },
            None => {
                proof {
                    assert(array_set(out@) =~= all);
                }
                break ;
            },
        }
    }
    out
}

/// The entries of the sorted `v` whose membership in `other` is `keep`.
fn filter_members(v: &Vec<u16>, other: &Repr, keep: bool) -> (r: Vec<u16>)
    requires
        sorted(v@),
        other.wf(),
    ensures
        sorted(r@),
        keep ==> array_set(r@) == array_set(v@).intersect(other@),
        !keep ==> array_set(r@) == array_set(v@).difference(other@),
{
    let mut out: Vec<u16> = Vec::new();
    let mut k: usize = 0;
    while k < v.len()
        invariant
            sorted(v@),
            other.wf(),
            k <= v@.len(),
            sorted(out@),
            out@.len() > 0 ==> k > 0 && out@[out@.len() - 1] <= v@[k - 1],
            forall|x: int|
                #[trigger] array_set(out@).contains(x) <==> array_set(v@.subrange(0, k as int)).contains(
                    x,
                ) && other@.contains(x) == keep,
        decreases v@.len() - k,
    {
        let x = v[k];
        let ghost before = out@;
        if other.contains(x) == keep {
            out.push(x);
            proof {
                assert(sorted(out@)) by {
                    assert forall|i: int, j: int| 0 <= i < j < out@.len() implies out@[i] < out@[j] by {
                        if j == before.len() {
                            assert(before[i] <= before[before.len() - 1]);
                            assert(v@[k - 1] < v@[k as int]);
                        }
                    }
                }
            }
        }
        proof {
            if out@.len() > 0 && out@.len() == before.len() {
                assert(v@[k - 1] < v@[k as int]);
            }
            let sub = v@.subrange(0, k + 1);
            let prev = v@.subrange(0, k as int);
            assert forall|x: int| #[trigger]
                array_set(out@).contains(x) <==> array_set(sub).contains(x) && other@.contains(x)
                    == keep by {
                if array_set(out@).contains(x) {
                    let j = choose|j: int| 0 <= j < out@.len() && out@[j] == x as u16;
                    if j < before.len() {
                        assert(before.contains(x as u16));
                        assert(array_set(before).contains(x));
                        let t = choose|t: int| 0 <= t < prev.len() && prev[t] == x as u16;
                        assert(sub[t] == x as u16);
                    } else {
                        assert(sub[k as int] == x as u16);
                    }
                }
                if array_set(sub).contains(x) && other@.contains(x) == keep {
                    let t = choose|t: int| 0 <= t < sub.len() && sub[t] == x as u16;
                    if t < k {
                        assert(prev[t] == x as u16);
                        assert(array_set(prev).contains(x));
                        assert(array_set(before).contains(x));
                        let j = choose|j: int| 0 <= j < before.len() && before[j] == x as u16;
                        assert(out@[j] == x as u16);
                    } else {
                        assert(out@[before.len() as int] == x as u16);
                    }
                }
            }
        }
        k = k + 1;
    }
    proof {
        assert(v@.subrange(0, v@.len() as int) =~= v@);
        if keep {
            assert(array_set(out@) =~= array_set(v@).intersect(other@));
        } else {
            assert(array_set(out@) =~= array_set(v@).difference(other@));
        }
    }
    out
}

/// Read a merge out into a fresh representation chosen for `cap` members.
fn fill(pair: Pair, cap: usize) -> (r: Repr)
    requires
        pair.wf(),
    ensures
        r.wf(),
        r@ == pair@,
{
    let mut pair = pair;
    let ghost all = pair@;
    let mut out = Repr::with_capacity(cap);
    loop
        invariant
            pair.wf(),
            out.wf(),
            out@.union(pair@) == all,
        ensures
            out.wf(),
            out@ == all,
        decreases count_below(pair@, universe()),
    {
        let ghost rest = pair@;
        match pair.next() {
            Some(x) => {
                out.insert(x);
                proof {
                    lemma_count_remove(rest, x as int, universe());
                    assert(out@.union(pair@) =~= all);
                }
            },
            None => {
                proof {
                    assert(out@ =~= all);
                }
                break ;
            },
        }
    }
    out
}

/// A copy of `v`.
fn copy_vec<T: Copy>(v: &Vec<T>) -> (r: Vec<T>)
    ensures
        r@ == v@,
{
    let mut out: Vec<T> = Vec::with_capacity(v.len());
    let mut k: usize = 0;
    while k < v.len()
        invariant
            k <= v@.len(),
            out@ == v@.subrange(0, k as int),
        decreases v@.len() - k,
    {
        out.push(v[k]);
        k = k + 1;
        proof {
            assert(out@ =~= v@.subrange(0, k as int));
        }
    }
    proof {
        assert(v@.subrange(0, v@.len() as int) =~= v@);
    }
    out
}

impl Repr {
    /// A copy.
    pub fn duplicate(&self) -> (r: Repr)
        requires
            self.wf(),
        ensures
            r.wf(),
            r@ == self@,
            r.spec_is_vec() == self.spec_is_vec(),
    {
        match self {
            Repr::Vec(bits) => Repr::Vec(copy_vec(bits)),
            Repr::Bitmap(bits) => Repr::Bitmap(copy_vec(bits)),
        }
    }

    /// Replace the set by `op` of it and `that`; count the result.
    fn combine(&mut self, that: &Repr, op: Op) -> (n: usize)
        requires
            old(self).wf(),
            that.wf(),
            !(op is Difference),
        ensures
            final(self).wf(),
            final(self)@ == op_set(op, old(self)@, that@),
            n == count_below(final(self)@, universe()),
    {
        let mut mine = Repr::new();
        std::mem::swap(self, &mut mine);
        proof {
            lemma_count_monotone(mine@, 0, universe());
            lemma_count_monotone(that@, 0, universe());
        }
        let (result, n) = match (&mine, that) {
            (Repr::Vec(a), Repr::Vec(b)) => {
                let cap = mine.ones() + that.ones();
                let to_array = cap <= Repr::VEC_SIZE || op.is_intersection();
                let pair = Pair::new(Iter::vec(a.as_slice()), Iter::vec(b.as_slice()), op);
                if to_array {
                    let out = collect(pair);
                    proof {
                        lemma_array_rank(out@, universe(), out@.len() as int);
                    }
                    let n = out.len();
                    (Repr::Vec(out), n)
                } else {
                    let out = fill(pair, cap);
                    let n = out.ones();
                    (out, n)
                }
            },
            (Repr::Vec(a), Repr::Bitmap(_)) => {
                match op {
                    Op::Intersection => {
                        let out = filter_members(a, that, true);
                        proof {
                            lemma_array_rank(out@, universe(), out@.len() as int);
                        }
                        let n = out.len();
                        (Repr::Vec(out), n)
                    },
                    _ => {
                        let cap = mine.ones() + that.ones();
                        let out = fill(Pair::new(mine.iter(), that.iter(), op), cap);
                        let n = out.ones();
                        (out, n)
                    },
                }
            },
            (Repr::Bitmap(_), Repr::Vec(b)) => {
                match op {
                    Op::Intersection => {
                        let out = filter_members(b, &mine, true);
                        proof {
                            assert(array_set(out@) =~= op_set(op, mine@, that@));
                            lemma_array_rank(out@, universe(), out@.len() as int);
                        }
                        let n = out.len();
                        (Repr::Vec(out), n)
                    },
                    _ => {
                        let cap = mine.ones() + that.ones();
                        let out = fill(Pair::new(mine.iter(), that.iter(), op), cap);
                        let n = out.ones();
                        (out, n)
                    },
                }
            },
            (Repr::Bitmap(a), Repr::Bitmap(b)) => {
                let (words, n) = combine_words(a, b, op);
                (Repr::Bitmap(words), n)
            },
        };
        *self = result;
        n
    }

    /// Keep only the members that `that` also has; return their number.
    pub fn intersect_with(&mut self, that: &Repr) -> (n: usize)
        requires
            old(self).wf(),
            that.wf(),
        ensures
            final(self).wf(),
            final(self)@ == old(self)@.intersect(that@),
            n == count_below(final(self)@, universe()),
    {
        self.combine(that, Op::Intersection)
    }

    /// Add the members of `that`; return the new number of members.
    pub fn union_with(&mut self, that: &Repr) -> (n: usize)
        requires
            old(self).wf(),
            that.wf(),
        ensures
            final(self).wf(),
            final(self)@ == old(self)@.union(that@),
            n == count_below(final(self)@, universe()),
    {
        self.combine(that, Op::Union)
    }

    /// Keep the positions in exactly one of the two sets; return their
    /// number.
    pub fn symmetric_difference_with(&mut self, that: &Repr) -> (n: usize)
        requires
            old(self).wf(),
            that.wf(),
        ensures
            final(self).wf(),
            final(self)@ == sym_diff(old(self)@, that@),
            n == count_below(final(self)@, universe()),
    {
        self.combine(that, Op::SymmetricDifference)
    }
}

} // verus!
