//! The two representations of a set of 16-bit positions: a sorted array of
//! the members, or a bitmap of 64-bit words.
use vstd::prelude::*;

use crate::broadword::{
    bit_set,
    lemma_bit_of_zero,
    lemma_rank_monotone,
    lemma_rank_of_zero,
    word_ones,
    word_rank,
};
use crate::iter::Iter;
use crate::Bits;

verus! {

/// Number of positions in the universe.
pub open spec fn universe() -> int {
    65536
}

/// Number of members of `s` at positions below `i`.
pub open spec fn count_below(s: Set<int>, i: int) -> nat
    decreases i,
{
    if i <= 0 {
        0
    } else {
        count_below(s, i - 1) + if s.contains(i - 1) {
            1nat
        } else {
            0nat
        }
    }
}

/// The empty set counts nothing.
pub proof fn lemma_count_empty(i: int)
    ensures
        count_below(Set::<int>::empty(), i) == 0,
    decreases i,
{
    if i > 0 {
        lemma_count_empty(i - 1);
    }
}

/// Adding a member raises the count at every position above it by one.
pub proof fn lemma_count_insert(s: Set<int>, x: int, i: int)
    ensures
        count_below(s.insert(x), i) == count_below(s, i) + if 0 <= x < i && !s.contains(x) {
            1nat
        } else {
            0nat
        },
    decreases i,
{
    if i > 0 {
        lemma_count_insert(s, x, i - 1);
    }
}

/// Dropping a member lowers the count at every position above it by one.
pub proof fn lemma_count_remove(s: Set<int>, x: int, i: int)
    ensures
        count_below(s.remove(x), i) + if 0 <= x < i && s.contains(x) {
            1nat
        } else {
            0nat
        } == count_below(s, i),
    decreases i,
{
    if i > 0 {
        lemma_count_remove(s, x, i - 1);
    }
}

/// A count grows with the position, by at most one per position.
pub proof fn lemma_count_monotone(s: Set<int>, i: int, j: int)
    requires
        0 <= i <= j,
    ensures
        count_below(s, i) <= count_below(s, j),
        count_below(s, j) <= count_below(s, i) + (j - i),
    decreases j - i,
{
    if i < j {
        lemma_count_monotone(s, i, j - 1);
    }
}

/// Past the last member a count stays put.
pub proof fn lemma_count_flat(s: Set<int>, i: int, j: int)
    requires
        i <= j,
        forall|k: int| i <= k < j ==> !s.contains(k),
    ensures
        count_below(s, j) == count_below(s, i),
    decreases j - i,
{
    if i < j {
        lemma_count_flat(s, i, j - 1);
    }
}

/// Strictly ascending.
pub open spec fn sorted(v: Seq<u16>) -> bool {
    forall|i: int, j: int| 0 <= i < j < v.len() ==> v[i] < v[j]
}

/// The members of a sorted array.
pub open spec fn array_set(v: Seq<u16>) -> Set<int> {
    Set::new(|i: int| 0 <= i < universe() && v.contains(i as u16))
}

/// `k` is where `x` goes in the sorted `v`: everything before is smaller,
/// everything from there on is not.
pub open spec fn is_lower_bound(v: Seq<u16>, x: int, k: int) -> bool {
    &&& 0 <= k <= v.len()
    &&& forall|j: int| 0 <= j < k ==> v[j] < x
    &&& forall|j: int| k <= j < v.len() ==> v[j] >= x
}

/// In a sorted array the rank of `x` is its insertion point.
pub proof fn lemma_array_rank(v: Seq<u16>, x: int, k: int)
    requires
        sorted(v),
        0 <= x <= universe(),
        is_lower_bound(v, x, k),
    ensures
        count_below(array_set(v), x) == k,
    decreases x,
{
    if x > 0 {
        let s = array_set(v);
        if k > 0 && v[k - 1] == x - 1 {
            assert(s.contains(x - 1));
            assert(is_lower_bound(v, x - 1, k - 1));
            lemma_array_rank(v, x - 1, k - 1);
        } else {
            assert(!s.contains(x - 1)) by {
                if v.contains((x - 1) as u16) {
                    let j = choose|j: int| 0 <= j < v.len() && v[j] == (x - 1) as u16;
                    if j < k {
                        assert(v[j] <= v[k - 1]) by {
                            if j < k - 1 {
                                assert(v[j] < v[k - 1]);
                            }
                        }
                    }
                }
            }
            lemma_array_rank(v, x - 1, k);
        }
    } else {
        assert(k == 0) by {
            if k > 0 {
                assert(v[0] < x);
            }
        }
    }
}

/// The insertion point of `x` in the sorted `v`, by binary search.
pub fn lower_bound(v: &[u16], x: u16) -> (k: usize)
    requires
        sorted(v@),
    ensures
        is_lower_bound(v@, x as int, k as int),
{
    let mut lo: usize = 0;
    let mut hi: usize = v.len();
    while lo < hi
        invariant
            sorted(v@),
            0 <= lo <= hi <= v@.len(),
            forall|j: int| 0 <= j < lo ==> v@[j] < x,
            forall|j: int| hi <= j < v@.len() ==> v@[j] >= x,
        decreases hi - lo,
    {
        let mid = lo + (hi - lo) / 2;
        if v[mid] < x {
            lo = mid + 1;
        } else {
            hi = mid;
        }
    }
    lo
}

/// The members of a bitmap: bit `i % 64` of word `i / 64`.
pub open spec fn map_set(m: Seq<u64>) -> Set<int> {
    Set::new(|i: int| 0 <= i < 64 * m.len() && bit_set(m[i / 64], i % 64))
}

/// Number of set bits in the first `q` words.
pub open spec fn words_ones(m: Seq<u64>, q: int) -> nat
    decreases q,
{
    if q <= 0 {
        0
    } else {
        words_ones(m, q - 1) + word_ones(m[q - 1])
    }
}

/// The rank in a bitmap: whole words below, then a word rank.
pub proof fn lemma_map_rank(m: Seq<u64>, i: int)
    requires
        0 <= i <= 64 * m.len(),
    ensures
        count_below(map_set(m), i) == words_ones(m, i / 64) + if i / 64 < m.len() {
            word_rank(m[i / 64], i % 64)
        } else {
            0
        },
    decreases i,
{
    if i > 0 {
        let j = i - 1;
        lemma_map_rank(m, j);
        let q = j / 64;
        let r = j % 64;
        assert(map_set(m).contains(j) == bit_set(m[q], r));
        if r + 1 == 64 {
            assert(i / 64 == q + 1 && i % 64 == 0);
        } else {
            assert(i / 64 == q && i % 64 == r + 1);
        }
    }
}

/// All members of a bitmap lie below `64 * m.len()`, and `words_ones` counts
/// them.
pub proof fn lemma_map_total(m: Seq<u64>, i: int)
    requires
        64 * m.len() <= i,
    ensures
        count_below(map_set(m), i) == words_ones(m, m.len() as int),
{
    lemma_map_rank(m, 64 * m.len() as int);
    assert((64 * m.len()) / 64 == m.len());
    lemma_count_flat(map_set(m), 64 * m.len() as int, i);
}

/// `words_ones` reads only the first `j` words.
pub proof fn lemma_words_ones_prefix(m1: Seq<u64>, m2: Seq<u64>, j: int)
    requires
        0 <= j <= m1.len(),
        j <= m2.len(),
        forall|k: int| 0 <= k < j ==> m1[k] == m2[k],
    ensures
        words_ones(m1, j) == words_ones(m2, j),
    decreases j,
{
    if j > 0 {
        lemma_words_ones_prefix(m1, m2, j - 1);
    }
}

/// Membership in a bitmap, read through `word_at`.
pub proof fn lemma_map_set_word_at(m: Seq<u64>)
    ensures
        forall|x: int|
            0 <= x ==> (#[trigger] map_set(m).contains(x) <==> bit_set(word_at(m, x / 64), x % 64)),
{
    lemma_bit_of_zero();
}

/// Word `i` of a bitmap, zero past the end.
pub open spec fn word_at(m: Seq<u64>, i: int) -> u64 {
    if 0 <= i < m.len() {
        m[i]
    } else {
        0
    }
}

/// Inside word `i` the rank of a bitmap grows as the word's own rank.
pub proof fn lemma_map_word(m: Seq<u64>, i: int, p: int)
    requires
        0 <= i,
        0 <= p <= 64,
    ensures
        count_below(map_set(m), 64 * i + p) == count_below(map_set(m), 64 * i) + word_rank(
            word_at(m, i),
            p,
        ),
{
    if i < m.len() {
        lemma_map_rank(m, 64 * i + p);
        lemma_map_rank(m, 64 * i);
        assert((64 * i) / 64 == i && (64 * i) % 64 == 0);
        if p == 64 {
            assert((64 * i + p) / 64 == i + 1 && (64 * i + p) % 64 == 0);
            if i + 1 < m.len() {
                lemma_rank_of_zero(0);
            }
        } else {
            assert((64 * i + p) / 64 == i && (64 * i + p) % 64 == p);
        }
    } else {
        lemma_map_total(m, 64 * i + p);
        lemma_map_total(m, 64 * i);
        lemma_rank_of_zero(p);
    }
}

/// Bit `r` of `w | (1 << r)` is set and the others are those of `w`;
/// `w & !(1 << r)` clears it.
pub proof fn lemma_bit_update(w: u64, r: u64)
    requires
        r < 64,
    ensures
        forall|j: int| bit_set(w | (1u64 << r), j) <==> bit_set(w, j) || j == r,
        forall|j: int| bit_set(w & !(1u64 << r), j) <==> bit_set(w, j) && j != r,
        (w & (1u64 << r) != 0) == bit_set(w, r as int),
{
    assert forall|j: int| bit_set(w | (1u64 << r), j) <==> bit_set(w, j) || j == r by {
        if 0 <= j < 64 {
            let k = j as u64;
            assert(((w | (1u64 << r)) >> k) & 1 == 1 <==> (w >> k) & 1 == 1 || k == r)
                by (bit_vector)
                requires
                    r < 64,
                    k < 64,
            ;
            assert(bit_set(w | (1u64 << r), j) == (((w | (1u64 << r)) >> k) & 1 == 1));
            assert(bit_set(w, j) == ((w >> k) & 1 == 1));
        }
    }
    assert forall|j: int| bit_set(w & !(1u64 << r), j) <==> bit_set(w, j) && j != r by {
        if 0 <= j < 64 {
            let k = j as u64;
            assert(((w & !(1u64 << r)) >> k) & 1 == 1 <==> (w >> k) & 1 == 1 && k != r)
                by (bit_vector)
                requires
                    r < 64,
                    k < 64,
            ;
            assert(bit_set(w & !(1u64 << r), j) == (((w & !(1u64 << r)) >> k) & 1 == 1));
            assert(bit_set(w, j) == ((w >> k) & 1 == 1));
        }
    }
    assert((w & (1u64 << r) != 0) == ((w >> r) & 1 == 1)) by (bit_vector)
        requires
            r < 64,
    ;
}

/// Relies on `Vec::shrink_to_fit`: it lowers the capacity and leaves the
/// contents alone.
#[verifier::external_body]
fn shrink_to_fit<T>(v: &mut Vec<T>)
    ensures
        final(v)@ == old(v)@,
{
    v.shrink_to_fit()
}

/// A set of positions `0..65536`, as a sorted array of members or as a
/// bitmap.
#[derive(Debug)]
pub enum Repr {
    /// The members in ascending order, without repeats.
    Vec(Vec<u16>),
    /// Bit `i % 64` of word `i / 64` tells whether `i` is a member. The
    /// words grow on demand up to the highest one in use; words past the
    /// end count as zero.
    Bitmap(Vec<u64>),
}

impl View for Repr {
    type V = Set<int>;

    open spec fn view(&self) -> Set<int> {
        match self {
            Repr::Vec(v) => array_set(v@),
            Repr::Bitmap(m) => map_set(m@),
        }
    }
}

impl Repr {
    /// Largest population kept as a sorted array by `fitted`.
    pub const VEC_SIZE: usize = 4096;

    /// Number of words that cover the universe.
    pub const MAP_SIZE: usize = 1024;

    /// Number of bits per bitmap word.
    pub const BITS_SIZE: usize = 64;

    /// The array is sorted; the bitmap has at most `MAP_SIZE` words.
    pub open spec fn wf(&self) -> bool {
        match self {
            Repr::Vec(v) => sorted(v@),
            Repr::Bitmap(m) => m.len() <= 1024,
        }
    }

    pub open spec fn spec_is_vec(&self) -> bool {
        self is Vec
    }

    /// The entries of an array (none for a bitmap).
    pub open spec fn entries(&self) -> Seq<u16> {
        match self {
            Repr::Vec(v) => v@,
            Repr::Bitmap(_) => Seq::empty(),
        }
    }

    /// The words of a bitmap (none for an array).
    pub open spec fn words(&self) -> Seq<u64> {
        match self {
            Repr::Vec(_) => Seq::empty(),
            Repr::Bitmap(m) => m@,
        }
    }

    /// Whether this representation suits a set of `ones` members: an array
    /// for at most `VEC_SIZE`, a bitmap above.
    pub open spec fn spec_fitted(&self, ones: int) -> bool {
        if ones <= 4096 {
            self is Vec
        } else {
            self is Bitmap
        }
    }

    /// Every member lies in the universe.
    pub proof fn lemma_bounded(&self)
        requires
            self.wf(),
        ensures
            forall|x: int| #[trigger] self@.contains(x) ==> 0 <= x < universe(),
    {
    }

    /// Whether the representation suits `ones` members; if so, give back
    /// the spare capacity.
    pub fn fitted(&mut self, ones: usize) -> (r: bool)
        requires
            old(self).wf(),
        ensures
            final(self).wf(),
            r == old(self).spec_fitted(ones as int),
            final(self)@ == old(self)@,
            final(self).spec_is_vec() == old(self).spec_is_vec(),
    {
        match self {
            Repr::Vec(_) if ones > Self::VEC_SIZE => false,
            Repr::Bitmap(_) if ones <= Self::VEC_SIZE => false,
            Repr::Vec(bits) => {
                shrink_to_fit(bits);
                true
            },
            Repr::Bitmap(bits) => {
                shrink_to_fit(bits);
                true
            },
        }
    }

    /// The empty set, as an array.
    pub fn new() -> (r: Repr)
        ensures
            r.wf(),
            r is Vec,
            r@ == Set::<int>::empty(),
    {
        let r = Repr::Vec(Vec::new());
        assert(r@ =~= Set::<int>::empty());
        r
    }

    /// The empty set, in the representation that suits `cap` members.
    pub fn with_capacity(cap: usize) -> (r: Repr)
        ensures
            r.wf(),
            r.spec_fitted(cap as int),
            r@ == Set::<int>::empty(),
    {
        if cap <= Self::VEC_SIZE {
            let r = Repr::Vec(Vec::with_capacity(cap));
            assert(r@ =~= Set::<int>::empty());
            r
        } else {
            let words = if cap / Self::BITS_SIZE < Self::MAP_SIZE {
                cap / Self::BITS_SIZE + 1
            } else {
                Self::MAP_SIZE
            };
            let r = Repr::Bitmap(Vec::with_capacity(words));
            assert(r@ =~= Set::<int>::empty());
            r
        }
    }

    pub fn is_vec(&self) -> (r: bool)
        ensures
            r == self is Vec,
    {
        match self {
            Repr::Vec(_) => true,
            _ => false,
        }
    }

    pub fn is_map(&self) -> (r: bool)
        ensures
            r == self is Bitmap,
    {
        match self {
            Repr::Bitmap(_) => true,
            _ => false,
        }
    }

    /// Count the members.
    pub fn ones(&self) -> (n: usize)
        requires
            self.wf(),
        ensures
            n == count_below(self@, universe()),
    {
        match self {
            Repr::Vec(bits) => {
                proof {
                    lemma_array_rank(bits@, universe(), bits@.len() as int);
                }
                bits.len()
            },
            Repr::Bitmap(bits) => {
                let mut n: usize = 0;
                let mut k: usize = 0;
                while k < bits.len()
                    invariant
                        bits@.len() <= 1024,
                        k <= bits@.len(),
                        n == words_ones(bits@, k as int),
                        n <= 64 * k,
                    decreases bits@.len() - k,
                {
                    proof {
                        lemma_rank_monotone(bits@[k as int], 0, 64);
                    }
                    n = n + bits[k].ones();
                    k = k + 1;
                }
                proof {
                    lemma_map_total(bits@, universe());
                }
                n
            },
        }
    }

    /// The members in ascending order, from either end.
    pub fn iter(&self) -> (r: Iter<'_>)
        requires
            self.wf(),
        ensures
            r.wf(),
            r@ == self@,
    {
        match self {
            Repr::Vec(bits) => Iter::vec(bits.as_slice()),
            Repr::Bitmap(bits) => Iter::map(bits.as_slice(), self.ones()),
        }
    }

    /// Whether `bit` is a member.
    pub fn contains(&self, bit: u16) -> (r: bool)
        requires
            self.wf(),
        ensures
            r == self@.contains(bit as int),
    {
        match self {
            Repr::Vec(bits) => {
                let k = lower_bound(bits.as_slice(), bit);
                proof {
                    if bits@.contains(bit) {
                        let j = choose|j: int| 0 <= j < bits@.len() && bits@[j] == bit;
                        if j > k {
                            assert(bits@[k as int] < bits@[j]);
                        }
                    }
                }
                k < bits.len() && bits[k] == bit
            },
            Repr::Bitmap(bits) => {
                let i = bit as usize / Self::BITS_SIZE;
                let shift = (bit % 64) as u64;
                if i < bits.len() {
                    proof {
                        lemma_bit_update(bits@[i as int], shift);
                    }
                    bits[i] & (1u64 << shift) != 0
                } else {
                    false
                }
            },
        }
    }

    /// Add `bit`; false if it was a member already.
    pub fn insert(&mut self, bit: u16) -> (r: bool)
        requires
            old(self).wf(),
        ensures
            final(self).wf(),
            final(self)@ == old(self)@.insert(bit as int),
            r == !old(self)@.contains(bit as int),
            final(self).spec_is_vec() == old(self).spec_is_vec(),
            !r ==> final(self).entries() == old(self).entries() && final(self).words() == old(
                self,
            ).words(),
            !old(self).spec_is_vec() ==> {
                let i = bit as int / 64;
                let before = old(self).words();
                let after = final(self).words();
                &&& after.len() == if i < before.len() {
                    before.len() as int
                } else {
                    i + 1
                }
                &&& forall|j: int|
                    0 <= j < after.len() && j != i ==> after[j] == word_at(before, j)
                &&& r ==> after[i] == word_at(before, i) | (1u64 << (bit % 64) as u64)
            },
    {
        match self {
            Repr::Vec(bits) => {
                let k = lower_bound(bits.as_slice(), bit);
                if k < bits.len() && bits[k] == bit {
                    proof {
                        assert(old(self)@.insert(bit as int) =~= old(self)@);
                    }
                    return false;
                }
                let ghost before = bits@;
                proof {
                    assert(!before.contains(bit)) by {
                        if before.contains(bit) {
                            let j = choose|j: int| 0 <= j < before.len() && before[j] == bit;
                            if j > k {
                                assert(before[k as int] < before[j]);
                            }
                        }
                    }
                }
                bits.insert(k, bit);
                proof {
                    before.insert_ensures(k as int, bit);
                    let after = bits@;
                    assert(sorted(after)) by {
                        assert forall|i: int, j: int| 0 <= i < j < after.len() implies after[i]
                            < after[j] by {
                            if j < k {
                            } else if j == k {
                            } else if i < k {
                                assert(after[j] == before[j - 1]);
                            } else if i == k {
                                assert(after[j] == before[j - 1]);
                            } else {
                                assert(after[i] == before[i - 1] && after[j] == before[j - 1]);
                            }
                        }
                    }
                    assert(array_set(after) =~= array_set(before).insert(bit as int)) by {
                        assert forall|x: u16| after.contains(x) <==> before.contains(x) || x == bit by {
                            if after.contains(x) {
                                let j = choose|j: int| 0 <= j < after.len() && after[j] == x;
                                if j < k {
                                    assert(before[j] == x);
                                } else if j > k {
                                    assert(before[j - 1] == x);
                                }
                            }
                            if before.contains(x) {
                                let j = choose|j: int| 0 <= j < before.len() && before[j] == x;
                                if j < k {
                                    assert(after[j] == x);
                                } else {
                                    assert(after[j + 1] == x);
                                }
                            }
                            if x == bit {
                                assert(after[k as int] == x);
                            }
                        }
                    }
                }
                true
            },
            Repr::Bitmap(bits) => {
                let i = bit as usize / Self::BITS_SIZE;
                let shift = (bit % 64) as u64;
                let ghost before = bits@;
                proof {
                    lemma_bit_of_zero();
                }
                while bits.len() <= i
                    invariant
                        i < 1024,
                        bits@.len() <= 1024,
                        bits@.len() >= before.len(),
                        bits@.len() == before.len() || bits@.len() <= i + 1,
                        forall|j: int| 0 <= j < before.len() ==> bits@[j] == before[j],
                        forall|j: int| before.len() <= j < bits@.len() ==> bits@[j] == 0u64,
                        forall|j: int| !bit_set(0u64, j),
                    decreases 1024 - bits@.len(),
                {
                    bits.push(0);
                }
                let ghost grown = bits@;
                assert(map_set(grown) =~= map_set(before)) by {
                    assert forall|x: int| map_set(grown).contains(x) implies map_set(before).contains(
                        x,
                    ) by {
                        if x / 64 >= before.len() {
                            assert(grown[x / 64] == 0u64);
                        }
                    }
                }
                let w = bits[i];
                proof {
                    lemma_bit_update(w, shift);
                    assert(map_set(grown).contains(bit as int) == bit_set(w, shift as int));
                }
                if w & (1u64 << shift) != 0 {
                    proof {
                        assert(old(self)@.insert(bit as int) =~= old(self)@);
                        assert(grown =~= before);
                    }
                    return false;
                }
                bits.set(i, w | (1u64 << shift));
                proof {
                    assert(shift == (bit % 64) as u64);
                }
                proof {
                    assert(map_set(bits@) =~= map_set(grown).insert(bit as int)) by {
                        assert forall|x: int| #[trigger]
                            map_set(bits@).contains(x) <==> map_set(grown).contains(x) || x
                                == bit as int by {
                            if 0 <= x < 64 * bits@.len() && x / 64 == i as int {
                                assert(bits@[x / 64] == w | (1u64 << shift));
                            }
                        }
                    }
                }
                true
            },
        }
    }

    /// Take `bit` out; false if it was not a member.
    pub fn remove(&mut self, bit: u16) -> (r: bool)
        requires
            old(self).wf(),
        ensures
            final(self).wf(),
            final(self)@ == old(self)@.remove(bit as int),
            r == old(self)@.contains(bit as int),
            final(self).spec_is_vec() == old(self).spec_is_vec(),
            !r ==> final(self).entries() == old(self).entries() && final(self).words() == old(
                self,
            ).words(),
            !old(self).spec_is_vec() ==> {
                let i = bit as int / 64;
                let before = old(self).words();
                let after = final(self).words();
                &&& after.len() == before.len()
                &&& forall|j: int| 0 <= j < after.len() && j != i ==> after[j] == before[j]
                &&& r ==> after[i] == before[i] & !(1u64 << (bit % 64) as u64)
            },
    {
        match self {
            Repr::Vec(bits) => {
                let k = lower_bound(bits.as_slice(), bit);
                let ghost before = bits@;
                if k < bits.len() && bits[k] == bit {
                    let _ = bits.remove(k);
                    proof {
                        before.remove_ensures(k as int);
                        let after = bits@;
                        assert(sorted(after)) by {
                            assert forall|i: int, j: int| 0 <= i < j < after.len() implies after[i]
                                < after[j] by {
                                if j < k {
                                } else if i < k {
                                    assert(after[j] == before[j + 1]);
                                } else {
                                    assert(after[i] == before[i + 1] && after[j] == before[j + 1]);
                                }
                            }
                        }
                        assert(array_set(after) =~= array_set(before).remove(bit as int)) by {
                            assert forall|x: u16|
                                after.contains(x) <==> before.contains(x) && x != bit by {
                                if after.contains(x) {
                                    let j = choose|j: int| 0 <= j < after.len() && after[j] == x;
                                    if j < k {
                                        assert(before[j] == x);
                                        assert(before[j] < before[k as int]);
                                    } else {
                                        assert(before[j + 1] == x);
                                        assert(before[k as int] < before[j + 1]);
                                    }
                                }
                                if before.contains(x) && x != bit {
                                    let j = choose|j: int| 0 <= j < before.len() && before[j] == x;
                                    if j < k {
                                        assert(after[j] == x);
                                    } else {
                                        assert(j != k);
                                        assert(after[j - 1] == x);
                                    }
                                }
                            }
                        }
                    }
                    true
                } else {
                    proof {
                        assert(!before.contains(bit)) by {
                            if before.contains(bit) {
                                let j = choose|j: int| 0 <= j < before.len() && before[j] == bit;
                                if j > k {
                                    assert(before[k as int] < before[j]);
                                }
                            }
                        }
                        assert(old(self)@.remove(bit as int) =~= old(self)@);
                    }
                    false
                }
            },
            Repr::Bitmap(bits) => {
                let i = bit as usize / Self::BITS_SIZE;
                let shift = (bit % 64) as u64;
                if i >= bits.len() {
                    proof {
                        assert(old(self)@.remove(bit as int) =~= old(self)@);
                    }
                    return false;
                }
                let w = bits[i];
                let ghost before = bits@;
                proof {
                    lemma_bit_update(w, shift);
                }
                if w & (1u64 << shift) == 0 {
                    proof {
                        assert(old(self)@.remove(bit as int) =~= old(self)@);
                    }
                    return false;
                }
                bits.set(i, w & !(1u64 << shift));
                proof {
                    assert(map_set(bits@) =~= map_set(before).remove(bit as int)) by {
                        assert forall|x: int| #[trigger]
                            map_set(bits@).contains(x) <==> map_set(before).contains(x) && x
                                != bit as int by {
                            if 0 <= x < 64 * bits@.len() && x / 64 == i as int {
                                assert(bits@[x / 64] == w & !(1u64 << shift));
                            }
                        }
                    }
                }
                true
            },
        }
    }
}

} // verus!
