//! A set over the positions `0..65536` that keeps its member count and picks
//! between a sorted array and a bitmap.
//!
//! Mutation never switches representation; `optimize` does, when asked, so
//! that a run of inserts pays for one rebuild at most.
use vstd::prelude::*;

use crate::broadword::lemma_rank_monotone;
use crate::iter::Iter;
use crate::pair::{sym_diff, Difference, Intersection, SymmetricDifference, Union};
use crate::repr::{
    array_set,
    count_below,
    is_lower_bound,
    lemma_array_rank,
    lemma_count_empty,
    lemma_count_flat,
    lemma_count_insert,
    lemma_count_monotone,
    lemma_count_remove,
    lemma_map_word,
    lower_bound,
    map_set,
    sorted,
    universe,
    word_at,
    Repr,
};
use crate::{Bits, Rank, Select};

verus! {

/// A set of 16-bit positions with its member count.
#[derive(Debug)]
pub struct Bucket {
    popc: usize,
    repr: Repr,
}

impl View for Bucket {
    type V = Set<int>;

    /// The members, positions of the universe.
    closed spec fn view(&self) -> Set<int> {
        Set::new(|x: int| 0 <= x < universe() && self.repr@.contains(x))
    }
}

/// A bucket's members are those of its representation.
proof fn lemma_view(b: Bucket)
    requires
        b.repr.wf(),
    ensures
        b@ == b.repr@,
{
    b.repr.lemma_bounded();
    assert(b@ =~= b.repr@);
}

/// Past the universe a count no longer grows.
proof fn lemma_count_universe(s: Set<int>, i: int)
    requires
        universe() <= i,
        forall|x: int| #[trigger] s.contains(x) ==> 0 <= x < universe(),
    ensures
        count_below(s, i) == count_below(s, universe()),
{
    lemma_count_flat(s, universe(), i);
}

impl Bucket {
    #[verifier::type_invariant]
    spec fn inv(&self) -> bool {
        &&& self.repr.wf()
        &&& self.popc == count_below(self.repr@, universe())
    }

    /// Every member lies in the universe `0..65536`.
    pub proof fn lemma_bounded(&self)
        ensures
            forall|x: int| #[trigger] self@.contains(x) ==> 0 <= x < universe(),
    {
    }

    /// The members are kept as a sorted array.
    pub closed spec fn spec_is_vec(&self) -> bool {
        self.repr is Vec
    }

    /// The representation suits the member count: an array for at most
    /// `Repr::VEC_SIZE` members, a bitmap above.
    pub open spec fn is_fitted(&self) -> bool {
        self.spec_is_vec() == (count_below(self@, universe()) <= Repr::VEC_SIZE)
    }

    /// The empty set, in the representation that suits `size` members.
    pub fn with_capacity(size: usize) -> (r: Bucket)
        ensures
            r@ == Set::<int>::empty(),
            r.spec_is_vec() == (size <= Repr::VEC_SIZE),
    {
        let repr = Repr::with_capacity(size);
        proof {
            lemma_count_empty(universe());
        }
        let r = Bucket { popc: 0, repr };
        proof {
            lemma_view(r);
        }
        r
    }

    /// Whether the members are kept as a sorted array.
    pub fn is_vec(&self) -> (r: bool)
        ensures
            r == self.spec_is_vec(),
    {
        self.repr.is_vec()
    }

    /// Whether the members are kept as a bitmap.
    pub fn is_map(&self) -> (r: bool)
        ensures
            r == !self.spec_is_vec(),
    {
        self.repr.is_map()
    }

    /// The members in ascending order, from either end.
    pub fn iter(&self) -> (r: Iter<'_>)
        ensures
            r.wf(),
            r@ == self@,
    {
        proof {
            use_type_invariant(self);
            lemma_view(*self);
        }
        iter_of(&self.repr, self.popc)
    }

    /// Bring the representation in line with the member count: a sorted
    /// array for at most `Repr::VEC_SIZE` members, a bitmap above. A bucket
    /// already in line keeps its representation and only gives back spare
    /// capacity; otherwise the members are read out in order into a fresh
    /// instance of the other representation.
    pub fn optimize(&mut self)
        ensures
            optimized(*old(self), *final(self)),
    {
        proof {
            use_type_invariant(&*self);
            lemma_view(*self);
        }
        let mut b = Bucket::zero();
        std::mem::swap(self, &mut b);
        proof {
            use_type_invariant(&b);
            lemma_view(b);
        }
        let Bucket { popc, mut repr } = b;
        if repr.fitted(popc) {
            *self = Bucket { popc, repr };
            proof {
                lemma_view(*self);
            }
            return ;
        }
        let mut fresh = Repr::with_capacity(popc);
        let mut it = iter_of(&repr, popc);
        loop
            invariant
                repr.wf(),
                popc == count_below(repr@, universe()),
                fresh.wf(),
                fresh.spec_fitted(popc as int),
                it.wf(),
                fresh@.union(it@) == repr@,
            ensures
                fresh.wf(),
                fresh.spec_fitted(popc as int),
                fresh@ == repr@,
            decreases count_below(it@, universe()),
        {
            proof {
                it.lemma_bounded();
            }
            let ghost rest = it@;
            match it.next() {
                Some(x) => {
                    fresh.insert(x);
                    proof {
                        lemma_count_remove(rest, x as int, universe());
                        assert(fresh@.union(it@) =~= repr@);
                    }
                },
                None => {
                    proof {
                        assert(fresh@ =~= repr@);
                    }
                    break ;
                },
            }
        }
        *self = Bucket { popc, repr: fresh };
        proof {
            lemma_view(*self);
        }
    }

    /// The set of the given positions, in the representation that suits
    /// its size.
    pub fn from_positions(items: &[u16]) -> (r: Bucket)
        ensures
            r@ == array_set(items@),
            r.is_fitted(),
    {
        let mut repr = Repr::with_capacity(items.len());
        proof {
            lemma_count_empty(universe());
        }
        let popc = insert_u16_all(items, &mut repr);
        proof {
            assert(repr@ =~= array_set(items@));
        }
        let mut bucket = Bucket { popc, repr };
        proof {
            lemma_view(bucket);
        }
        bucket.optimize();
        bucket
    }

    /// The set of the positions `i` whose flag `flags[i]` is set; flags
    /// past the first 65536 are ignored.
    pub fn from_flags(flags: &[bool]) -> (r: Bucket)
        ensures
            r@ == Set::new(|i: int| 0 <= i < universe() && i < flags@.len() && flags@[i]),
            r.is_fitted(),
    {
        let n = if flags.len() < Self::SIZE {
            flags.len()
        } else {
            Self::SIZE
        };
        let mut bits: Vec<u16> = Vec::new();
        let mut i: usize = 0;
        while i < n
            invariant
                n <= flags@.len(),
                n <= universe(),
                i <= n,
                sorted(bits@),
                forall|j: int| 0 <= j < bits@.len() ==> bits@[j] < i,
                array_set(bits@) == Set::new(
                    |k: int| 0 <= k < universe() && k < i && flags@[k],
                ),
            decreases n - i,
        {
            if flags[i] {
                let ghost before = bits@;
                bits.push(i as u16);
                proof {
                    assert(array_set(bits@) =~= array_set(before).insert(i as int)) by {
                        assert forall|x: u16| bits@.contains(x) implies before.contains(x) || x
                            == i as u16 by {
                            let j = choose|j: int| 0 <= j < bits@.len() && bits@[j] == x;
                            if j < before.len() {
                                assert(before[j] == x);
                            }
                        }
                        assert forall|x: u16| before.contains(x) implies bits@.contains(x) by {
                            let j = choose|j: int| 0 <= j < before.len() && before[j] == x;
                            assert(bits@[j] == x);
                        }
                        assert(bits@[before.len() as int] == i as u16);
                    }
                }
            }
            i = i + 1;
            proof {
                assert(array_set(bits@) =~= Set::new(
                    |k: int| 0 <= k < universe() && k < i && flags@[k],
                ));
            }
        }
        proof {
            lemma_array_rank(bits@, universe(), bits@.len() as int);
            assert(array_set(bits@) =~= Set::new(
                |k: int| 0 <= k < universe() && k < flags@.len() && flags@[k],
            ));
        }
        let popc = bits.len();
        let mut bucket = Bucket { popc, repr: Repr::Vec(bits) };
        proof {
            lemma_view(bucket);
        }
        bucket.optimize();
        bucket
    }

    /// Whether `bit` is a member.
    pub fn contains(&self, bit: u16) -> (r: bool)
        ensures
            r == self@.contains(bit as int),
    {
        proof {
            use_type_invariant(self);
            lemma_view(*self);
        }
        self.repr.contains(bit)
    }

    /// Add `bit`; false, and no change, if it was a member already.
    pub fn insert(&mut self, bit: u16) -> (r: bool)
        ensures
            final(self)@ == old(self)@.insert(bit as int),
            r == !old(self)@.contains(bit as int),
            final(self).spec_is_vec() == old(self).spec_is_vec(),
    {
        proof {
            use_type_invariant(&*self);
            lemma_view(*self);
        }
        let mut b = Bucket::zero();
        std::mem::swap(self, &mut b);
        proof {
            use_type_invariant(&b);
            lemma_view(b);
        }
        let Bucket { popc, mut repr } = b;
        let ghost before = repr@;
        let ok = repr.insert(bit);
        proof {
            lemma_count_insert(before, bit as int, universe());
            lemma_count_monotone(repr@, 0, universe());
        }
        let popc = if ok {
            popc + 1
        } else {
            popc
        };
        *self = Bucket { popc, repr };
        proof {
            lemma_view(*self);
        }
        ok
    }

    /// Take `bit` out; false, and no change, if it was not a member.
    pub fn remove(&mut self, bit: u16) -> (r: bool)
        ensures
            final(self)@ == old(self)@.remove(bit as int),
            r == old(self)@.contains(bit as int),
            final(self).spec_is_vec() == old(self).spec_is_vec(),
    {
        proof {
            use_type_invariant(&*self);
            lemma_view(*self);
        }
        let mut b = Bucket::zero();
        std::mem::swap(self, &mut b);
        proof {
            use_type_invariant(&b);
            lemma_view(b);
        }
        let Bucket { popc, mut repr } = b;
        let ghost before = repr@;
        let ok = repr.remove(bit);
        proof {
            lemma_count_remove(before, bit as int, universe());
        }
        let popc = if ok {
            popc - 1
        } else {
            popc
        };
        *self = Bucket { popc, repr };
        proof {
            lemma_view(*self);
        }
        ok
    }
}

/// What `optimize` makes of `before`: the same members, kept as an array
/// exactly when there are at most `Repr::VEC_SIZE` of them.
pub open spec fn optimized(before: Bucket, after: Bucket) -> bool {
    &&& after@ == before@
    &&& after.is_fitted()
}

/// The members of `repr`, which has `ones` of them, in ascending order.
fn iter_of(repr: &Repr, ones: usize) -> (r: Iter<'_>)
    requires
        repr.wf(),
        ones == count_below(repr@, universe()),
    ensures
        r.wf(),
        r@ == repr@,
{
    match repr {
        Repr::Vec(bits) => Iter::vec(bits.as_slice()),
        Repr::Bitmap(bits) => Iter::map(bits.as_slice(), ones),
    }
}

/// Add every position of `items` to `repr` and count those that were new.
fn insert_u16_all(items: &[u16], repr: &mut Repr) -> (n: usize)
    requires
        old(repr).wf(),
    ensures
        final(repr).wf(),
        final(repr)@ == old(repr)@.union(array_set(items@)),
        count_below(final(repr)@, universe()) == count_below(old(repr)@, universe()) + n,
        final(repr).spec_is_vec() == old(repr).spec_is_vec(),
{
    let mut n: usize = 0;
    let mut k: usize = 0;
    while k < items.len()
        invariant
            k <= items@.len(),
            repr.wf(),
            repr.spec_is_vec() == old(repr).spec_is_vec(),
            repr@ == old(repr)@.union(array_set(items@.subrange(0, k as int))),
            count_below(repr@, universe()) == count_below(old(repr)@, universe()) + n,
        decreases items@.len() - k,
    {
        let ghost before = repr@;
        let x = items[k];
        let added = repr.insert(x);
        proof {
            lemma_count_insert(before, x as int, universe());
            lemma_count_monotone(repr@, 0, universe());
        }
        if added {
            n = n + 1;
        }
        k = k + 1;
        proof {
            let sub = items@.subrange(0, k as int);
            let prev = items@.subrange(0, k - 1);
            assert(array_set(sub) =~= array_set(prev).insert(x as int)) by {
                assert forall|y: u16| sub.contains(y) implies prev.contains(y) || y == x by {
                    let j = choose|j: int| 0 <= j < sub.len() && sub[j] == y;
                    if j < k - 1 {
                        assert(prev[j] == y);
                    }
                }
                assert forall|y: u16| prev.contains(y) implies sub.contains(y) by {
                    let j = choose|j: int| 0 <= j < prev.len() && prev[j] == y;
                    assert(sub[j] == y);
                }
                assert(sub[k - 1] == x);
            }
            assert(repr@ =~= old(repr)@.union(array_set(sub)));
        }
    }
    proof {
        assert(items@.subrange(0, items@.len() as int) =~= items@);
    }
    n
}

impl Bits for Bucket {
    /// Number of positions in the universe.
    const SIZE: usize = 65536;

    open spec fn width() -> nat {
        65536
    }

    open spec fn has(&self, i: int) -> bool {
        self@.contains(i)
    }

    open spec fn popcount(&self) -> nat {
        count_below(self@, universe())
    }

    fn zero() -> (r: Bucket) {
        let repr = Repr::new();
        proof {
            lemma_count_empty(universe());
        }
        let r = Bucket { popc: 0, repr };
        proof {
            lemma_view(r);
        }
        r
    }

    fn ones(&self) -> (r: usize) {
        proof {
            use_type_invariant(self);
            lemma_view(*self);
        }
        self.popc
    }
}

impl Rank for Bucket {
    open spec fn rank_of(&self, i: int) -> nat {
        count_below(self@, i)
    }

    fn rank1(&self, i: usize) -> (r: usize) {
        proof {
            use_type_invariant(self);
            lemma_view(*self);
            self.repr.lemma_bounded();
            lemma_count_monotone(self@, 0, i as int);
        }
        if i >= Self::SIZE {
            proof {
                lemma_count_universe(self@, i as int);
            }
            return self.popc;
        }
        match &self.repr {
            Repr::Vec(bits) => {
                let k = lower_bound(bits.as_slice(), i as u16);
                proof {
                    lemma_array_rank(bits@, i as int, k as int);
                }
                k
            },
            Repr::Bitmap(bits) => {
                let q = i / Repr::BITS_SIZE;
                let r = i % Repr::BITS_SIZE;
                let ghost s = map_set(bits@);
                let mut acc: usize = 0;
                let mut j: usize = 0;
                while j < q && j < bits.len()
                    invariant
                        j <= q < 1024,
                        s == map_set(bits@),
                        acc == count_below(s, 64 * j),
                        acc <= 64 * j,
                    decreases q - j,
                {
                    proof {
                        lemma_map_word(bits@, j as int, 64);
                        lemma_rank_monotone(bits@[j as int], 0, 64);
                    }
                    acc = acc + bits[j].ones();
                    j = j + 1;
                }
                proof {
                    if j < q {
                        assert forall|k: int| 64 * j <= k < 64 * q implies !s.contains(k) by {
                            assert(k / 64 >= bits@.len());
                        }
                        lemma_count_flat(s, 64 * j as int, 64 * q as int);
                    }
                    lemma_map_word(bits@, q as int, r as int);
                    assert(i == 64 * q + r);
                }
                if q < bits.len() {
                    acc + bits[q].rank1(r)
                } else {
                    proof {
                        crate::broadword::lemma_rank_of_zero(r as int);
                    }
                    acc
                }
            },
        }
    }

    fn rank0(&self, i: usize) -> (r: usize) {
        let r1 = self.rank1(i);
        i - r1
    }
}

impl Select for Bucket {
    fn select1(&self, c: usize) -> (r: Option<usize>) {
        proof {
            use_type_invariant(self);
            lemma_view(*self);
        }
        if c >= self.popc {
            return None;
        }
        match &self.repr {
            Repr::Vec(bits) => {
                proof {
                    lemma_array_rank(bits@, universe(), bits@.len() as int);
                    assert(is_lower_bound(bits@, bits@[c as int] as int, c as int)) by {
                        assert forall|j: int| 0 <= j < c implies bits@[j] < bits@[c as int] by {}
                        assert forall|j: int| c <= j < bits@.len() implies bits@[j] >= bits@[
                            c as int] by {
                            if j > c {
                                assert(bits@[c as int] < bits@[j]);
                            }
                        }
                    }
                    lemma_array_rank(bits@, bits@[c as int] as int, c as int);
                    assert(bits@.contains(bits@[c as int]));
                }
                Some(bits[c] as usize)
            },
            Repr::Bitmap(bits) => {
                let ghost s = map_set(bits@);
                let mut r = c;
                let mut i: usize = 0;
                while i < bits.len()
                    invariant
                        i <= bits@.len() <= 1024,
                        s == map_set(bits@),
                        self@ == s,
                        c < count_below(s, universe()),
                        r + count_below(s, 64 * i) == c,
                    decreases bits@.len() - i,
                {
                    let x = bits[i];
                    let w = x.ones();
                    proof {
                        lemma_map_word(bits@, i as int, 64);
                    }
                    if r < w {
                        let p = x.select1(r).unwrap();
                        proof {
                            lemma_map_word(bits@, i as int, p as int);
                            assert((64 * i + p) / 64 == i && (64 * i + p) % 64 == p);
                            assert(s.contains(64 * i + p));
                        }
                        return Some(Repr::BITS_SIZE * i + p);
                    }
                    r = r - w;
                    i = i + 1;
                }
                proof {
                    crate::repr::lemma_map_total(bits@, universe());
                    crate::repr::lemma_map_total(bits@, 64 * i as int);
                }
                None
            },
        }
    }

    fn select0(&self, c: usize) -> (r: Option<usize>) {
        proof {
            use_type_invariant(self);
            lemma_view(*self);
            self.repr.lemma_bounded();
            lemma_count_monotone(self@, 0, universe());
        }
        if c >= Self::SIZE - self.popc {
            return None;
        }
        match &self.repr {
            Repr::Vec(bits) => {
                proof {
                    lemma_array_rank(bits@, universe(), bits@.len() as int);
                }
                let mut k: usize = 0;
                while k < bits.len() && bits[k] as usize <= c + k
                    invariant
                        sorted(bits@),
                        k <= bits@.len(),
                        bits@.len() == count_below(array_set(bits@), universe()),
                        c + bits@.len() < universe(),
                        forall|j: int| 0 <= j < k ==> bits@[j] <= c + j,
                    decreases bits@.len() - k,
                {
                    k = k + 1;
                }
                let p = c + k;
                proof {
                    assert(is_lower_bound(bits@, p as int, k as int)) by {
                        assert forall|j: int| k <= j < bits@.len() implies bits@[j] >= p by {
                            if j > k {
                                assert(bits@[k as int] < bits@[j]);
                            }
                        }
                    }
                    lemma_array_rank(bits@, p as int, k as int);
                    assert(!bits@.contains(p as u16)) by {
                        if bits@.contains(p as u16) {
                            let j = choose|j: int| 0 <= j < bits@.len() && bits@[j] == p as u16;
                            if j < k {
                                assert(bits@[j] <= c + j);
                            } else if j > k {
                                assert(bits@[k as int] < bits@[j]);
                            }
                        }
                    }
                }
                Some(p)
            },
            Repr::Bitmap(bits) => {
                let ghost s = map_set(bits@);
                let mut r = c;
                let mut i: usize = 0;
                while i < Repr::MAP_SIZE
                    invariant
                        self@ == s,
                        i <= 1024,
                        bits@.len() <= 1024,
                        s == map_set(bits@),
                        c < universe() - count_below(s, universe()),
                        r + (64 * i - count_below(s, 64 * i)) == c,
                        count_below(s, 64 * i) <= 64 * i,
                    decreases 1024 - i,
                {
                    let x = if i < bits.len() {
                        bits[i]
                    } else {
                        0
                    };
                    proof {
                        assert(x == word_at(bits@, i as int));
                        lemma_map_word(bits@, i as int, 64);
                        lemma_rank_monotone(x, 0, 64);
                    }
                    let z = 64 - x.ones();
                    if r < z {
                        let p = x.select0(r).unwrap();
                        proof {
                            lemma_map_word(bits@, i as int, p as int);
                            assert((64 * i + p) / 64 == i && (64 * i + p) % 64 == p);
                            assert(!s.contains(64 * i + p)) by {
                                if i >= bits@.len() {
                                    assert(!s.contains(64 * i + p));
                                }
                            }
                        }
                        return Some(Repr::BITS_SIZE * i + p);
                    }
                    r = r - z;
                    i = i + 1;
                }
                None
            },
        }
    }
}

impl Bucket {
    /// Keep only the members that `that` also has.
    pub fn bitand_assign(&mut self, that: &Bucket)
        ensures
            final(self)@ == old(self)@.intersect(that@),
    {
        proof {
            use_type_invariant(&*self);
            lemma_view(*self);
            use_type_invariant(that);
            lemma_view(*that);
        }
        let mut b = Bucket::zero();
        std::mem::swap(self, &mut b);
        proof {
            use_type_invariant(&b);
            lemma_view(b);
        }
        let Bucket { popc: _, mut repr } = b;
        let popc = repr.intersect_with(&that.repr);
        *self = Bucket { popc, repr };
        proof {
            lemma_view(*self);
        }
    }

    /// The members of both.
    pub fn bitand(&self, that: &Bucket) -> (r: Bucket)
        ensures
            r@ == self@.intersect(that@),
    {
        let mut r = self.duplicate();
        r.bitand_assign(that);
        r
    }

    /// Add the members of `that`.
    pub fn bitor_assign(&mut self, that: &Bucket)
        ensures
            final(self)@ == old(self)@.union(that@),
    {
        proof {
            use_type_invariant(&*self);
            lemma_view(*self);
            use_type_invariant(that);
            lemma_view(*that);
        }
        let mut b = Bucket::zero();
        std::mem::swap(self, &mut b);
        proof {
            use_type_invariant(&b);
            lemma_view(b);
        }
        let Bucket { popc: _, mut repr } = b;
        let popc = repr.union_with(&that.repr);
        *self = Bucket { popc, repr };
        proof {
            lemma_view(*self);
        }
    }

    /// The members of either.
    pub fn bitor(&self, that: &Bucket) -> (r: Bucket)
        ensures
            r@ == self@.union(that@),
    {
        let mut r = self.duplicate();
        r.bitor_assign(that);
        r
    }

    /// Keep the positions that exactly one of the two has.
    pub fn bitxor_assign(&mut self, that: &Bucket)
        ensures
            final(self)@ == sym_diff(old(self)@, that@),
    {
        proof {
            use_type_invariant(&*self);
            lemma_view(*self);
            use_type_invariant(that);
            lemma_view(*that);
        }
        let mut b = Bucket::zero();
        std::mem::swap(self, &mut b);
        proof {
            use_type_invariant(&b);
            lemma_view(b);
        }
        let Bucket { popc: _, mut repr } = b;
        let popc = repr.symmetric_difference_with(&that.repr);
        *self = Bucket { popc, repr };
        proof {
            lemma_view(*self);
        }
    }

    /// The positions that exactly one of the two has.
    pub fn bitxor(&self, that: &Bucket) -> (r: Bucket)
        ensures
            r@ == sym_diff(self@, that@),
    {
        let mut r = self.duplicate();
        r.bitxor_assign(that);
        r
    }

    /// A copy.
    pub fn duplicate(&self) -> (r: Bucket)
        ensures
            r@ == self@,
            r.spec_is_vec() == self.spec_is_vec(),
    {
        proof {
            use_type_invariant(self);
            lemma_view(*self);
        }
        let r = Bucket { popc: self.popc, repr: self.repr.duplicate() };
        proof {
            lemma_view(r);
        }
        r
    }

    /// The members of both, streamed in ascending order.
    pub fn intersection<'a>(&'a self, that: &'a Bucket) -> (r: Intersection<'a>)
        ensures
            r.wf(),
            r@ == self@.intersect(that@),
    {
        Intersection::new(self.iter(), that.iter())
    }

    /// The members of either, streamed in ascending order.
    pub fn union<'a>(&'a self, that: &'a Bucket) -> (r: Union<'a>)
        ensures
            r.wf(),
            r@ == self@.union(that@),
    {
        Union::new(self.iter(), that.iter())
    }

    /// The members that `that` lacks, streamed in ascending order.
    pub fn difference<'a>(&'a self, that: &'a Bucket) -> (r: Difference<'a>)
        ensures
            r.wf(),
            r@ == self@.difference(that@),
    {
        Difference::new(self.iter(), that.iter())
    }

    /// The positions that exactly one of the two has, streamed in ascending
    /// order.
    pub fn symmetric_difference<'a>(&'a self, that: &'a Bucket) -> (r: SymmetricDifference<'a>)
        ensures
            r.wf(),
            r@ == sym_diff(self@, that@),
    {
        SymmetricDifference::new(self.iter(), that.iter())
    }
}

} // verus!
