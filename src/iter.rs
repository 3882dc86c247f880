//! Lazy two-ended iteration over a set in either representation.
//!
//! Over a sorted array the iterator keeps two indices. Over a bitmap it
//! keeps two cursors, one moving up from the lowest position and one moving
//! down from the highest; the iteration ends when they meet on the same bit.
use vstd::prelude::*;

use crate::broadword::{bit_set, lemma_bit_of_zero};
use crate::repr::{
    array_set,
    count_below,
    lemma_array_rank,
    lemma_count_empty,
    lemma_count_remove,
    map_set,
    sorted,
    universe,
};

verus! {

/// A cursor over a bitmap: word `idx`, bit `pos`, and the position it last
/// produced, if any.
#[derive(Debug)]
pub struct Ptr<'a> {
    bits: &'a [u64],
    idx: usize,
    pos: usize,
    bit: Option<u16>,
}

impl<'a> Ptr<'a> {
    /// The members of the bitmap under the cursor.
    pub closed spec fn members(&self) -> Set<int> {
        map_set(self.bits@)
    }

    pub closed spec fn words(&self) -> Seq<u64> {
        self.bits@
    }

    /// Moving up: the lowest position not yet passed.
    pub closed spec fn front(&self) -> int {
        match self.bit {
            None => 64 * self.idx + self.pos,
            Some(b) => b + 1,
        }
    }

    /// Moving down: one past the highest position not yet passed.
    pub closed spec fn back_end(&self) -> int {
        match self.bit {
            None => 64 * self.idx + self.pos + 1,
            Some(b) => b as int,
        }
    }

    /// The cursor stands on the set bit it produced.
    pub closed spec fn on_bit(&self) -> bool {
        match self.bit {
            None => true,
            Some(b) => {
                &&& self.idx < self.bits@.len()
                &&& self.pos < 64
                &&& b == 64 * self.idx + self.pos
                &&& bit_set(self.bits@[self.idx as int], self.pos as int)
            },
        }
    }

    /// A cursor that moves up: it has produced nothing and stands at the
    /// start of a word, or it stands on the position it produced.
    pub closed spec fn wf_forward(&self) -> bool {
        &&& self.bits@.len() <= 1024
        &&& match self.bit {
            None => self.pos == 0,
            Some(b) => self.pos < 64 && b == 64 * self.idx + self.pos,
        }
    }

    /// A cursor that moves down: it has produced nothing and stands at the
    /// end of a word, or it stands on the position it produced.
    pub closed spec fn wf_backward(&self) -> bool {
        &&& self.bits@.len() <= 1024
        &&& match self.bit {
            None => self.pos == 63,
            Some(b) => self.pos < 64 && b == 64 * self.idx + self.pos,
        }
    }

    /// Both cursors stand on the same produced position.
    pub closed spec fn same_bit(&self, that: &Ptr<'a>) -> bool {
        &&& self.idx == that.idx
        &&& self.pos == that.pos
        &&& self.bit is Some
        &&& self.bit == that.bit
    }

    /// The position that the cursor last produced.
    pub closed spec fn spec_bit(&self) -> Option<u16> {
        self.bit
    }

    /// The word the cursor stands in.
    pub closed spec fn spec_idx(&self) -> usize {
        self.idx
    }

    /// The bit of that word the cursor stands on.
    pub closed spec fn spec_pos(&self) -> usize {
        self.pos
    }

    /// A cursor over `bits` at word `idx`, bit `pos`, that last produced
    /// `bit`.
    pub fn at(bits: &'a [u64], idx: usize, pos: usize, bit: Option<u16>) -> (r: Ptr<'a>)
        ensures
            r.words() == bits@,
            r.spec_idx() == idx,
            r.spec_pos() == pos,
            r.spec_bit() == bit,
    {
        Ptr { bits, idx, pos, bit }
    }

    /// Forget the produced position and stand on bit `p` of the word.
    fn reset(&mut self, p: usize)
        ensures
            final(self).bits == old(self).bits,
            final(self).idx == old(self).idx,
            final(self).pos == p,
            final(self).bit is None,
    {
        self.pos = p;
        self.bit = None;
    }

    /// The position of bit `p` of word `i`, if that bit of `v` is set.
    fn checkbit(i: usize, p: usize, v: u64) -> (r: Option<u16>)
        requires
            i < 1024,
            p < 64,
        ensures
            r == if bit_set(v, p as int) {
                Some((64 * i + p) as u16)
            } else {
                None::<u16>
            },
    {
        let shift = p as u64;
        assert((v & (1u64 << shift) != 0) == ((v >> shift) & 1 == 1)) by (bit_vector)
            requires
                shift < 64,
        ;
        if v & (1u64 << shift) != 0 {
            Some((64 * i + p) as u16)
        } else {
            None
        }
    }

    /// Find the first set bit of the current word at `pos` or above, and
    /// stand on it.
    fn nextpos(&mut self) -> (found: bool)
        requires
            old(self).bits@.len() <= 1024,
        ensures
            final(self).bits == old(self).bits,
            final(self).idx == old(self).idx,
            found ==> {
                &&& final(self).bit == Some((64 * final(self).idx + final(self).pos) as u16)
                &&& final(self).on_bit()
                &&& old(self).pos <= final(self).pos
                &&& forall|q: int|
                    old(self).pos <= q < final(self).pos ==> !bit_set(
                        old(self).bits@[old(self).idx as int],
                        q,
                    )
            },
            !found ==> *final(self) == *old(self),
            !found && old(self).idx < old(self).bits@.len() ==> forall|q: int|
                old(self).pos <= q < 64 ==> !bit_set(old(self).bits@[old(self).idx as int], q),
    {
        if self.pos >= 64 || self.idx >= self.bits.len() {
            return false;
        }
        let i = self.idx;
        let v = self.bits[i];
        let mut p = self.pos;
        while p < 64
            invariant
                i == self.idx,
                i < self.bits@.len() <= 1024,
                v == self.bits@[i as int],
                *self == *old(self),
                old(self).pos <= p <= 64,
                forall|q: int| old(self).pos <= q < p ==> !bit_set(v, q),
            decreases 64 - p,
        {
            if let Some(b) = Ptr::checkbit(i, p, v) {
                self.bit = Some(b);
                self.pos = p;
                return true;
            }
            p += 1;
        }
        false
    }

    /// Find the last set bit of the current word at `pos` or below, and
    /// stand on it.
    fn backpos(&mut self) -> (found: bool)
        requires
            old(self).bits@.len() <= 1024,
            old(self).pos < 64,
        ensures
            final(self).bits == old(self).bits,
            final(self).idx == old(self).idx,
            found ==> {
                &&& final(self).bit == Some((64 * final(self).idx + final(self).pos) as u16)
                &&& final(self).on_bit()
                &&& final(self).pos <= old(self).pos
                &&& forall|q: int|
                    final(self).pos < q <= old(self).pos ==> !bit_set(
                        old(self).bits@[old(self).idx as int],
                        q,
                    )
            },
            !found ==> *final(self) == *old(self),
            !found && old(self).idx < old(self).bits@.len() ==> forall|q: int|
                0 <= q <= old(self).pos ==> !bit_set(old(self).bits@[old(self).idx as int], q),
    {
        if self.idx >= self.bits.len() {
            return false;
        }
        let i = self.idx;
        let v = self.bits[i];
        let mut n = self.pos + 1;
        while n > 0
            invariant
                i == self.idx,
                i < self.bits@.len() <= 1024,
                v == self.bits@[i as int],
                *self == *old(self),
                old(self).pos < 64,
                0 <= n <= old(self).pos + 1,
                forall|q: int| n <= q <= old(self).pos ==> !bit_set(v, q),
            decreases n,
        {
            let p = n - 1;
            if let Some(b) = Ptr::checkbit(i, p, v) {
                self.bit = Some(b);
                self.pos = p;
                return true;
            }
            n = p;
        }
        false
    }

    /// Move up to the next member and produce it; stay put when there is
    /// none.
    fn next(&mut self) -> (r: Option<u16>)
        requires
            old(self).wf_forward(),
        ensures
            final(self).wf_forward(),
            final(self).bits == old(self).bits,
            r is None ==> *final(self) == *old(self) && forall|x: int|
                #[trigger] old(self).members().contains(x) ==> x < old(self).front(),
            r matches Some(m) ==> {
                &&& final(self).bit == r
                &&& final(self).on_bit()
                &&& old(self).members().contains(m as int)
                &&& old(self).front() <= m
                &&& forall|x: int|
                    old(self).front() <= x < m ==> !#[trigger] old(self).members().contains(x)
            },
    {
        let ghost start = *self;
        let idx = self.idx;
        let pos = self.pos;
        let bit = self.bit;
        if bit.is_some() {
            self.pos = self.pos + 1;
        }
        if self.nextpos() {
            proof {
                assert forall|x: int|
                    start.front() <= x < self.bit.unwrap() implies !#[trigger] start.members().contains(
                    x,
                ) by {
                    assert(x / 64 == idx as int);
                }
            }
            return self.bit;
        }
        proof {
            lemma_bit_of_zero();
            assert forall|x: int|
                start.front() <= x < 64 * (idx + 1) implies !#[trigger] start.members().contains(
                x,
            ) by {
                if idx < self.bits@.len() {
                    assert(x / 64 == idx as int);
                }
            }
        }
        self.reset(0);
        while self.idx < self.bits.len() && self.idx + 1 < self.bits.len()
            invariant
                start == *old(self),
                self.bits == start.bits,
                start.front() <= 64 * (self.idx + 1),
                self.bits@.len() <= 1024,
                self.pos == 0,
                self.bit is None,
                start.wf_forward(),
                forall|j: int| !bit_set(0u64, j),
                forall|x: int|
                    start.front() <= x < 64 * (self.idx + 1) ==> !#[trigger] start.members().contains(
                        x,
                    ),
            decreases self.bits@.len() - self.idx,
        {
            self.idx = self.idx + 1;
            let ghost here = *self;
            let found = if self.bits[self.idx] != 0 {
                self.nextpos()
            } else {
                false
            };
            if found {
                proof {
                    let m = self.bit.unwrap() as int;
                    assert(m / 64 == self.idx as int && m % 64 == self.pos as int);
                    assert forall|x: int|
                        start.front() <= x < self.bit.unwrap() implies !#[trigger] start.members().contains(
                        x,
                    ) by {
                        if x >= 64 * here.idx {
                            assert(x / 64 == here.idx as int);
                        }
                    }
                }
                return self.bit;
            }
            proof {
                assert forall|x: int|
                    start.front() <= x < 64 * (self.idx + 1) implies !#[trigger] start.members().contains(
                    x,
                ) by {
                    if x >= 64 * here.idx {
                        assert(x / 64 == here.idx as int);
                    }
                }
            }
        }
        self.idx = idx;
        self.pos = pos;
        self.bit = bit;
        None
    }

    /// Move down to the previous member and produce it; stay put when there
    /// is none.
    fn back(&mut self) -> (r: Option<u16>)
        requires
            old(self).wf_backward(),
        ensures
            final(self).wf_backward(),
            final(self).bits == old(self).bits,
            r is None ==> *final(self) == *old(self) && forall|x: int|
                #[trigger] old(self).members().contains(x) ==> x >= old(self).back_end(),
            r matches Some(m) ==> {
                &&& final(self).bit == r
                &&& final(self).on_bit()
                &&& old(self).members().contains(m as int)
                &&& m < old(self).back_end()
                &&& forall|x: int|
                    m < x < old(self).back_end() ==> !#[trigger] old(self).members().contains(x)
            },
    {
        let ghost start = *self;
        let idx = self.idx;
        let pos = self.pos;
        let bit = self.bit;
        let fresh = if bit.is_none() {
            true
        } else if self.pos > 0 {
            self.pos = self.pos - 1;
            true
        } else {
            false
        };
        let ghost here = *self;
        if fresh && self.backpos() {
            proof {
                assert forall|x: int|
                    self.bit.unwrap() < x < start.back_end() implies !#[trigger] start.members().contains(
                    x,
                ) by {
                    assert(x / 64 == idx as int);
                }
            }
            return self.bit;
        }
        proof {
            lemma_bit_of_zero();
            assert forall|x: int|
                64 * idx <= x < start.back_end() implies !#[trigger] start.members().contains(x) by {
                if idx < self.bits@.len() {
                    assert(x / 64 == idx as int);
                }
            }
        }
        self.reset(63);
        while self.idx >= 1
            invariant
                start == *old(self),
                self.bits == start.bits,
                self.bits@.len() <= 1024,
                self.pos == 63,
                self.bit is None,
                self.idx <= idx,
                idx == start.idx,
                start.wf_backward(),
                forall|j: int| !bit_set(0u64, j),
                forall|x: int|
                    64 * self.idx <= x < start.back_end() ==> !#[trigger] start.members().contains(
                        x,
                    ),
            decreases self.idx,
        {
            self.idx = self.idx - 1;
            let ghost here = *self;
            let found = if self.idx < self.bits.len() && self.bits[self.idx] != 0 {
                self.backpos()
            } else {
                false
            };
            if found {
                proof {
                    assert forall|x: int|
                        self.bit.unwrap() < x < start.back_end() implies !#[trigger] start.members().contains(
                        x,
                    ) by {
                        if x < 64 * (here.idx + 1) {
                            assert(x / 64 == here.idx as int);
                        }
                    }
                }
                return self.bit;
            }
            proof {
                assert forall|x: int|
                    64 * self.idx <= x < start.back_end() implies !#[trigger] start.members().contains(
                    x,
                ) by {
                    if x < 64 * (here.idx + 1) {
                        assert(x / 64 == here.idx as int);
                    }
                }
            }
        }
        self.idx = idx;
        self.pos = pos;
        self.bit = bit;
        None
    }
}

/// Two cursors are equal when both stand on the same produced position; a
/// cursor that has produced nothing equals no cursor. The two ends of one
/// iteration share their words, so the words are not compared.
impl<'a> PartialEq for Ptr<'a> {
    fn eq(&self, that: &Ptr<'a>) -> (r: bool) {
        let same_point = self.idx == that.idx && self.pos == that.pos;
        let both_valid = match (self.bit, that.bit) {
            (Some(a), Some(b)) => a == b,
            _ => false,
        };
        same_point && both_valid
    }
}

impl<'a> vstd::std_specs::cmp::PartialEqSpecImpl for Ptr<'a> {
    open spec fn obeys_eq_spec() -> bool {
        true
    }

    open spec fn eq_spec(&self, that: &Ptr<'a>) -> bool {
        self.same_bit(that)
    }
}

/// A cursor that moves up from the first word.
fn forward<'a>(bits: &'a [u64]) -> (r: Ptr<'a>)
    requires
        bits@.len() <= 1024,
    ensures
        r.wf_forward(),
        r.on_bit(),
        r.bits == bits,
        r.front() == 0,
{
    Ptr { bits, idx: 0, pos: 0, bit: None }
}

/// A cursor that moves down from the last word.
fn reverse<'a>(bits: &'a [u64]) -> (r: Ptr<'a>)
    requires
        bits@.len() <= 1024,
    ensures
        r.wf_backward(),
        r.on_bit(),
        r.bits == bits,
        r.back_end() >= 64 * bits@.len(),
{
    let idx = if bits.len() == 0 {
        0
    } else {
        bits.len() - 1
    };
    Ptr { bits, idx, pos: 63, bit: None }
}

/// `x` is the least member of `s`.
pub open spec fn is_least(s: Set<int>, x: int) -> bool {
    s.contains(x) && forall|y: int| #[trigger] s.contains(y) ==> x <= y
}

/// `x` is the greatest member of `s`.
pub open spec fn is_greatest(s: Set<int>, x: int) -> bool {
    s.contains(x) && forall|y: int| #[trigger] s.contains(y) ==> y <= x
}

/// The positions of a set in ascending order, produced from either end.
pub enum Iter<'a> {
    /// Entries `front..back` of a sorted array are still to come.
    Vec { bits: &'a [u16], front: usize, back: usize },
    /// The set bits strictly between the two cursors are still to come.
    Bitmap {
        /// Number of positions still to come.
        ones: usize,
        /// The cursors have met.
        done: bool,
        fwd: Ptr<'a>,
        rev: Ptr<'a>,
    },
}

impl<'a> View for Iter<'a> {
    type V = Set<int>;

    /// The positions not yet produced from either end.
    closed spec fn view(&self) -> Set<int> {
        match self {
            Iter::Vec { bits, front, back } => array_set(bits@.subrange(*front as int, *back as int)),
            Iter::Bitmap { done, fwd, rev, .. } => {
                if *done {
                    Set::empty()
                } else {
                    Set::new(
                        |p: int| fwd.members().contains(p) && fwd.front() <= p < rev.back_end(),
                    )
                }
            },
        }
    }
}

proof fn lemma_subrange_member(v: Seq<u16>, f: int, b: int, x: int)
    requires
        0 <= f <= b <= v.len(),
        array_set(v.subrange(f, b)).contains(x),
    ensures
        exists|j: int| f <= j < b && v[j] == x,
{
    let j = choose|j: int| 0 <= j < b - f && v.subrange(f, b)[j] == x as u16;
    assert(v[f + j] == x);
}

impl<'a> Iter<'a> {
    pub closed spec fn wf(&self) -> bool {
        match self {
            Iter::Vec { bits, front, back } => sorted(bits@) && *front <= *back <= bits@.len(),
            Iter::Bitmap { ones, done, fwd, rev } => {
                &&& *ones == count_below(self@, universe())
                &&& fwd.wf_forward()
                &&& fwd.on_bit()
                &&& rev.wf_backward()
                &&& rev.on_bit()
                &&& fwd.spec_bit() is None ==> fwd.front() == 0
                &&& rev.spec_bit() is None ==> rev.back_end() >= 64 * rev.words().len()
                &&& fwd.words() == rev.words()
                &&& !*done ==> fwd.front() <= rev.back_end()
            },
        }
    }

    /// All members of the sorted array `data`, in ascending order.
    pub fn vec(data: &'a [u16]) -> (r: Iter<'a>)
        requires
            sorted(data@),
        ensures
            r.wf(),
            r@ == array_set(data@),
    {
        let r = Iter::Vec { bits: data, front: 0, back: data.len() };
        assert(data@.subrange(0, data@.len() as int) =~= data@);
        r
    }

    /// All members of the bitmap `data`, which has `ones` of them, in
    /// ascending order.
    pub fn map(data: &'a [u64], ones: usize) -> (r: Iter<'a>)
        requires
            data@.len() <= 1024,
            ones == count_below(map_set(data@), universe()),
        ensures
            r.wf(),
            r@ == map_set(data@),
    {
        let fwd = forward(data);
        let rev = reverse(data);
        let r = Iter::Bitmap { ones, done: false, fwd, rev };
        assert(r@ =~= map_set(data@));
        r
    }

    /// Produce the least position not yet produced.
    pub fn next(&mut self) -> (r: Option<u16>)
        requires
            old(self).wf(),
        ensures
            final(self).wf(),
            r is None ==> old(self)@ == Set::<int>::empty() && final(self)@ == Set::<int>::empty(),
            r matches Some(x) ==> is_least(old(self)@, x as int) && final(self)@ == old(self)@.remove(
                x as int,
            ),
    {
        match self {
            Iter::Vec { bits, front, back } => {
                let ghost v = bits@;
                let ghost f = *front as int;
                let ghost b = *back as int;
                if *front < *back {
                    let x = bits[*front];
                    *front = *front + 1;
                    proof {
                        let s = array_set(v.subrange(f, b));
                        assert(v.subrange(f, b)[0] == x);
                        assert forall|y: int| #[trigger] s.contains(y) implies x <= y by {
                            lemma_subrange_member(v, f, b, y);
                            let j = choose|j: int| f <= j < b && v[j] == y;
                            if j > f {
                                assert(v[f] < v[j]);
                            }
                        }
                        assert(array_set(v.subrange(f + 1, b)) =~= s.remove(x as int)) by {
                            assert forall|y: int|
                                #[trigger] array_set(v.subrange(f + 1, b)).contains(y) implies s.contains(y)
                                && y != x by {
                                lemma_subrange_member(v, f + 1, b, y);
                                let j = choose|j: int| f + 1 <= j < b && v[j] == y;
                                assert(v[f] < v[j]);
                                assert(v.subrange(f, b)[j - f] == v[j]);
                            }
                            assert forall|y: int|
                                #[trigger] s.contains(y) && y != x implies array_set(
                                v.subrange(f + 1, b),
                            ).contains(y) by {
                                lemma_subrange_member(v, f, b, y);
                                let j = choose|j: int| f <= j < b && v[j] == y;
                                assert(v.subrange(f + 1, b)[j - f - 1] == v[j]);
                            }
                        }
                    }
                    Some(x)
                } else {
                    proof {
                        assert(array_set(v.subrange(f, b)) =~= Set::<int>::empty());
                    }
                    None
                }
            },
            Iter::Bitmap { ones, done, fwd, rev } => {
                if *done {
                    return None;
                }
                let ghost s = Set::new(
                    |p: int| fwd.members().contains(p) && fwd.front() <= p < rev.back_end(),
                );
                let ghost lo = fwd.front();
                let ghost hi = rev.back_end();
                let next = fwd.next();
                if *fwd == *rev {
                    *done = true;
                    *ones = 0;
                    proof {
                        lemma_count_empty(universe());
                        assert(s =~= Set::<int>::empty()) by {
                            assert forall|p: int| !#[trigger] s.contains(p) by {
                                if s.contains(p) {
                                    assert(p < rev.spec_bit().unwrap());
                                }
                            }
                        }
                    }
                    return None;
                }
                proof {
                    match next {
                        Some(m) => {
                            assert(m < hi) by {
                                if m >= hi {
                                    assert(rev.spec_bit() is Some);
                                    assert(fwd.members().contains(hi));
                                }
                            }
                            assert(fwd.front() <= rev.back_end());
                        },
                        None => {},
                    }
                }
                proof {
                    assert(match next {
                        None => s =~= Set::<int>::empty(),
                        Some(m) => is_least(s, m as int) && Set::new(
                            |p: int| fwd.members().contains(p) && fwd.front() <= p < rev.back_end(),
                        ) =~= s.remove(m as int),
                    });
                }
                match next {
                    Some(m) => {
                        proof {
                            lemma_count_remove(s, m as int, universe());
                        }
                        *ones = *ones - 1;
                    },
                    None => {},
                }
                next
            },
        }
    }

    /// Produce the greatest position not yet produced.
    pub fn next_back(&mut self) -> (r: Option<u16>)
        requires
            old(self).wf(),
        ensures
            final(self).wf(),
            r is None ==> old(self)@ == Set::<int>::empty() && final(self)@ == Set::<int>::empty(),
            r matches Some(x) ==> is_greatest(old(self)@, x as int) && final(self)@ == old(
                self,
            )@.remove(x as int),
    {
        match self {
            Iter::Vec { bits, front, back } => {
                let ghost v = bits@;
                let ghost f = *front as int;
                let ghost b = *back as int;
                if *front < *back {
                    let x = bits[*back - 1];
                    *back = *back - 1;
                    proof {
                        let s = array_set(v.subrange(f, b));
                        assert(v.subrange(f, b)[b - 1 - f] == x);
                        assert forall|y: int| #[trigger] s.contains(y) implies y <= x by {
                            lemma_subrange_member(v, f, b, y);
                            let j = choose|j: int| f <= j < b && v[j] == y;
                            if j < b - 1 {
                                assert(v[j] < v[b - 1]);
                            }
                        }
                        assert(array_set(v.subrange(f, b - 1)) =~= s.remove(x as int)) by {
                            assert forall|y: int|
                                #[trigger] array_set(v.subrange(f, b - 1)).contains(y) implies s.contains(y)
                                && y != x by {
                                lemma_subrange_member(v, f, b - 1, y);
                                let j = choose|j: int| f <= j < b - 1 && v[j] == y;
                                assert(v[j] < v[b - 1]);
                                assert(v.subrange(f, b)[j - f] == v[j]);
                            }
                            assert forall|y: int|
                                #[trigger] s.contains(y) && y != x implies array_set(
                                v.subrange(f, b - 1),
                            ).contains(y) by {
                                lemma_subrange_member(v, f, b, y);
                                let j = choose|j: int| f <= j < b && v[j] == y;
                                assert(v.subrange(f, b - 1)[j - f] == v[j]);
                            }
                        }
                    }
                    Some(x)
                } else {
                    proof {
                        assert(array_set(v.subrange(f, b)) =~= Set::<int>::empty());
                    }
                    None
                }
            },
            Iter::Bitmap { ones, done, fwd, rev } => {
                if *done {
                    return None;
                }
                let ghost s = Set::new(
                    |p: int| fwd.members().contains(p) && fwd.front() <= p < rev.back_end(),
                );
                let ghost lo = fwd.front();
                let ghost hi = rev.back_end();
                let back = rev.back();
                if *fwd == *rev {
                    *done = true;
                    *ones = 0;
                    proof {
                        lemma_count_empty(universe());
                        assert(s =~= Set::<int>::empty()) by {
                            assert forall|p: int| !#[trigger] s.contains(p) by {
                                if s.contains(p) {
                                    assert(p > fwd.spec_bit().unwrap());
                                }
                            }
                        }
                    }
                    return None;
                }
                proof {
                    match back {
                        Some(m) => {
                            assert(m >= lo) by {
                                if m < lo {
                                    assert(fwd.spec_bit() is Some);
                                    assert(fwd.members().contains(lo - 1));
                                }
                            }
                            assert(fwd.front() <= rev.back_end());
                        },
                        None => {
                            assert forall|p: int| !#[trigger] s.contains(p) by {
                                if s.contains(p) {
                                    assert(rev.members().contains(p));
                                }
                            }
                        },
                    }
                }
                proof {
                    assert(match back {
                        None => s =~= Set::<int>::empty(),
                        Some(m) => is_greatest(s, m as int) && Set::new(
                            |p: int| fwd.members().contains(p) && fwd.front() <= p < rev.back_end(),
                        ) =~= s.remove(m as int),
                    });
                }
                match back {
                    Some(m) => {
                        proof {
                            lemma_count_remove(s, m as int, universe());
                        }
                        *ones = *ones - 1;
                    },
                    None => {},
                }
                back
            },
        }
    }

    /// Number of positions still to come.
    pub fn len(&self) -> (r: usize)
        requires
            self.wf(),
        ensures
            r == count_below(self@, universe()),
    {
        match self {
            Iter::Vec { bits, front, back } => {
                proof {
                    let sub = bits@.subrange(*front as int, *back as int);
                    assert(sorted(sub)) by {
                        assert forall|i: int, j: int| 0 <= i < j < sub.len() implies sub[i] < sub[j] by {
                            assert(sub[i] == bits@[*front + i] && sub[j] == bits@[*front + j]);
                        }
                    }
                    lemma_array_rank(sub, universe(), sub.len() as int);
                }
                *back - *front
            },
            Iter::Bitmap { ones, .. } => *ones,
        }
    }

    /// What is still to come lies in the universe.
    pub proof fn lemma_bounded(&self)
        requires
            self.wf(),
        ensures
            forall|x: int| #[trigger] self@.contains(x) ==> 0 <= x < 65536,
    {
        match self {
            Iter::Vec { .. } => {},
            Iter::Bitmap { fwd, .. } => {
                assert forall|x: int| #[trigger] self@.contains(x) implies 0 <= x < 65536 by {
                    assert(fwd.members().contains(x));
                }
            },
        }
    }
}

} // verus!
