//! Streaming set operators over two ascending sequences.
//!
//! Each operator looks at the head of both sequences, moves on the smaller
//! one (or both on a tie) and emits by its own rule, in one pass.
use std::cmp::Ordering;

use vstd::prelude::*;

use crate::iter::{is_least, Iter};
use crate::repr::{count_below, lemma_count_remove};

verus! {

/// Compare `a` and `b`, but return `x` if `a` is `None` and otherwise `y`
/// if `b` is `None`.
pub fn comparing(a: Option<u16>, b: Option<u16>, x: Ordering, y: Ordering) -> (r: Ordering)
    ensures
        r == match (a, b) {
            (None, _) => x,
            (_, None) => y,
            (Some(p), Some(q)) => if p < q {
                Ordering::Less
            } else if p == q {
                Ordering::Equal
            } else {
                Ordering::Greater
            },
        },
{
    match (a, b) {
        (None, _) => x,
        (_, None) => y,
        (Some(p), Some(q)) => {
            if p < q {
                Ordering::Less
            } else if p == q {
                Ordering::Equal
            } else {
                Ordering::Greater
            }
        },
    }
}

/// An ascending sequence whose least position has been taken out to be
/// looked at.
struct Peek<'a> {
    iter: Iter<'a>,
    head: Option<u16>,
}

impl<'a> View for Peek<'a> {
    type V = Set<int>;

    closed spec fn view(&self) -> Set<int> {
        match self.head {
            None => Set::empty(),
            Some(h) => self.iter@.insert(h as int),
        }
    }
}

impl<'a> Peek<'a> {
    spec fn wf(&self) -> bool {
        &&& self.iter.wf()
        &&& match self.head {
            None => self.iter@ == Set::<int>::empty(),
            Some(h) => forall|y: int| #[trigger] self.iter@.contains(y) ==> h < y,
        }
    }

    proof fn lemma_head(&self)
        requires
            self.wf(),
        ensures
            self.head is None <==> self@ == Set::<int>::empty(),
            self.head matches Some(h) ==> is_least(self@, h as int),
            forall|x: int| #[trigger] self@.contains(x) ==> 0 <= x < 65536,
    {
        self.iter.lemma_bounded();
        if self.head is None {
            assert(self@ =~= Set::<int>::empty());
        } else {
            assert(self@.contains(self.head.unwrap() as int));
        }
    }

    fn new(iter: Iter<'a>) -> (r: Peek<'a>)
        requires
            iter.wf(),
        ensures
            r.wf(),
            r@ == iter@,
    {
        let mut iter = iter;
        let ghost all = iter@;
        let head = iter.next();
        let r = Peek { iter, head };
        proof {
            if head is Some {
                assert(r@ =~= all);
            }
        }
        r
    }

    /// Take the head out and look at the next one.
    fn advance(&mut self) -> (r: Option<u16>)
        requires
            old(self).wf(),
        ensures
            final(self).wf(),
            r == old(self).head,
            r matches Some(h) ==> final(self)@ == old(self)@.remove(h as int),
            r is None ==> final(self)@ == old(self)@,
    {
        let r = self.head;
        if r.is_some() {
            let ghost rest = self.iter@;
            let head = self.iter.next();
            self.head = head;
            proof {
                let h = r.unwrap() as int;
                if head is Some {
                    assert(self@ =~= old(self)@.remove(h));
                } else {
                    assert(self@ =~= old(self)@.remove(h));
                }
            }
        }
        r
    }
}

/// The four set operators.
pub enum Op {
    Intersection,
    Union,
    Difference,
    SymmetricDifference,
}

impl Op {
    pub(crate) fn is_intersection(&self) -> (r: bool)
        ensures
            r == (*self is Intersection),
    {
        match self {
            Op::Intersection => true,
            _ => false,
        }
    }
}

/// The positions in exactly one of `a` and `b`.
pub open spec fn sym_diff(a: Set<int>, b: Set<int>) -> Set<int> {
    Set::new(|x: int| a.contains(x) != b.contains(x))
}

/// What `op` makes of `a` and `b`.
pub open spec fn op_set(op: Op, a: Set<int>, b: Set<int>) -> Set<int> {
    match op {
        Op::Intersection => a.intersect(b),
        Op::Union => a.union(b),
        Op::Difference => a.difference(b),
        Op::SymmetricDifference => sym_diff(a, b),
    }
}

proof fn lemma_emit_lhs(op: Op, a: Set<int>, b: Set<int>, x: int)
    requires
        is_least(a, x),
        forall|y: int| #[trigger] b.contains(y) ==> x < y,
        !(op is Intersection),
    ensures
        is_least(op_set(op, a, b), x),
        op_set(op, a.remove(x), b) == op_set(op, a, b).remove(x),
{
    assert(op_set(op, a.remove(x), b) =~= op_set(op, a, b).remove(x));
}

proof fn lemma_emit_rhs(op: Op, a: Set<int>, b: Set<int>, y: int)
    requires
        is_least(b, y),
        forall|x: int| #[trigger] a.contains(x) ==> y < x,
        op is Union || op is SymmetricDifference,
    ensures
        is_least(op_set(op, a, b), y),
        op_set(op, a, b.remove(y)) == op_set(op, a, b).remove(y),
{
    assert(op_set(op, a, b.remove(y)) =~= op_set(op, a, b).remove(y));
}

proof fn lemma_emit_both(op: Op, a: Set<int>, b: Set<int>, x: int)
    requires
        is_least(a, x),
        is_least(b, x),
        op is Intersection || op is Union,
    ensures
        is_least(op_set(op, a, b), x),
        op_set(op, a.remove(x), b.remove(x)) == op_set(op, a, b).remove(x),
{
    assert(op_set(op, a.remove(x), b.remove(x)) =~= op_set(op, a, b).remove(x));
}

proof fn lemma_skip_lhs(op: Op, a: Set<int>, b: Set<int>, x: int)
    requires
        is_least(a, x),
        forall|y: int| #[trigger] b.contains(y) ==> x < y,
        op is Intersection,
    ensures
        op_set(op, a.remove(x), b) == op_set(op, a, b),
{
    assert(op_set(op, a.remove(x), b) =~= op_set(op, a, b));
}

proof fn lemma_skip_rhs(op: Op, a: Set<int>, b: Set<int>, y: int)
    requires
        is_least(b, y),
        forall|x: int| #[trigger] a.contains(x) ==> y < x,
        op is Intersection || op is Difference,
    ensures
        op_set(op, a, b.remove(y)) == op_set(op, a, b),
{
    assert(op_set(op, a, b.remove(y)) =~= op_set(op, a, b));
}

proof fn lemma_skip_both(op: Op, a: Set<int>, b: Set<int>, x: int)
    requires
        a.contains(x),
        b.contains(x),
        op is Difference || op is SymmetricDifference,
    ensures
        op_set(op, a.remove(x), b.remove(x)) == op_set(op, a, b),
{
    assert(op_set(op, a.remove(x), b.remove(x)) =~= op_set(op, a, b));
}

/// Two ascending sequences merged by a set operator.
pub struct Pair<'a> {
    lhs: Peek<'a>,
    rhs: Peek<'a>,
    op: Op,
}

impl<'a> View for Pair<'a> {
    type V = Set<int>;

    /// The positions still to come.
    closed spec fn view(&self) -> Set<int> {
        op_set(self.op, self.lhs@, self.rhs@)
    }
}

impl<'a> Pair<'a> {
    pub closed spec fn wf(&self) -> bool {
        self.lhs.wf() && self.rhs.wf()
    }

    pub closed spec fn spec_op(&self) -> Op {
        self.op
    }

    spec fn size(&self) -> nat {
        count_below(self.lhs@, 65536) + count_below(self.rhs@, 65536)
    }

    /// `op` over all positions of `x` and `y`.
    pub fn new(x: Iter<'a>, y: Iter<'a>, op: Op) -> (r: Pair<'a>)
        requires
            x.wf(),
            y.wf(),
        ensures
            r.wf(),
            r.spec_op() == op,
            r@ == op_set(op, x@, y@),
    {
        Pair { lhs: Peek::new(x), rhs: Peek::new(y), op }
    }

    /// Produce the least position still to come.
    pub fn next(&mut self) -> (r: Option<u16>)
        requires
            old(self).wf(),
        ensures
            final(self).wf(),
            final(self).spec_op() == old(self).spec_op(),
            r is None ==> old(self)@ == Set::<int>::empty() && final(self)@ == Set::<int>::empty(),
            r matches Some(x) ==> is_least(old(self)@, x as int) && final(self)@ == old(self)@.remove(
                x as int,
            ),
    {
        let ghost start = self@;
        loop
            invariant
                self.wf(),
                self.op == old(self).op,
                self@ == start,
                start == old(self)@,
            decreases self.size(),
        {
            proof {
                self.lhs.lemma_head();
                self.rhs.lemma_head();
            }
            let ghost a = self.lhs@;
            let ghost b = self.rhs@;
            let hx = self.lhs.head;
            let hy = self.rhs.head;
            match self.op {
                Op::Intersection => {
                    match (hx, hy) {
                        (Some(x), Some(y)) => {
                            if x < y {
                                self.lhs.advance();
                                proof {
                                    lemma_skip_lhs(self.op, a, b, x as int);
                                    lemma_count_remove(a, x as int, 65536);
                                }
                            } else if x == y {
                                self.rhs.advance();
                                self.lhs.advance();
                                proof {
                                    lemma_emit_both(self.op, a, b, x as int);
                                }
                                return Some(x);
                            } else {
                                self.rhs.advance();
                                proof {
                                    lemma_skip_rhs(self.op, a, b, y as int);
                                    lemma_count_remove(b, y as int, 65536);
                                }
                            }
                        },
                        _ => {
                            proof {
                                assert(start =~= Set::<int>::empty());
                            }
                            return None;
                        },
                    }
                },
                Op::Union => {
                    match comparing(hx, hy, Ordering::Greater, Ordering::Less) {
                        Ordering::Less => {
                            let x = self.lhs.advance().unwrap();
                            proof {
                                lemma_emit_lhs(self.op, a, b, x as int);
                            }
                            return Some(x);
                        },
                        Ordering::Equal => {
                            self.rhs.advance();
                            let x = self.lhs.advance().unwrap();
                            proof {
                                lemma_emit_both(self.op, a, b, x as int);
                            }
                            return Some(x);
                        },
                        Ordering::Greater => {
                            if hy.is_none() {
                                proof {
                                    assert(start =~= Set::<int>::empty());
                                }
                                return None;
                            }
                            let y = self.rhs.advance().unwrap();
                            proof {
                                lemma_emit_rhs(self.op, a, b, y as int);
                            }
                            return Some(y);
                        },
                    }
                },
                Op::Difference => {
                    match comparing(hx, hy, Ordering::Less, Ordering::Less) {
                        Ordering::Less => {
                            if hx.is_none() {
                                proof {
                                    assert(start =~= Set::<int>::empty());
                                }
                                return None;
                            }
                            let x = self.lhs.advance().unwrap();
                            proof {
                                lemma_emit_lhs(self.op, a, b, x as int);
                            }
                            return Some(x);
                        },
                        Ordering::Equal => {
                            let x = hx.unwrap();
                            self.lhs.advance();
                            self.rhs.advance();
                            proof {
                                lemma_skip_both(self.op, a, b, x as int);
                                lemma_count_remove(a, x as int, 65536);
                                lemma_count_remove(b, x as int, 65536);
                            }
                        },
                        Ordering::Greater => {
                            let y = hy.unwrap();
                            self.rhs.advance();
                            proof {
                                lemma_skip_rhs(self.op, a, b, y as int);
                                lemma_count_remove(b, y as int, 65536);
                            }
                        },
                    }
                },
                Op::SymmetricDifference => {
                    match comparing(hx, hy, Ordering::Greater, Ordering::Less) {
                        Ordering::Less => {
                            let x = self.lhs.advance().unwrap();
                            proof {
                                lemma_emit_lhs(self.op, a, b, x as int);
                            }
                            return Some(x);
                        },
                        Ordering::Equal => {
                            let x = hx.unwrap();
                            self.lhs.advance();
                            self.rhs.advance();
                            proof {
                                lemma_skip_both(self.op, a, b, x as int);
                                lemma_count_remove(a, x as int, 65536);
                                lemma_count_remove(b, x as int, 65536);
                            }
                        },
                        Ordering::Greater => {
                            if hy.is_none() {
                                proof {
                                    assert(start =~= Set::<int>::empty());
                                }
                                return None;
                            }
                            let y = self.rhs.advance().unwrap();
                            proof {
                                lemma_emit_rhs(self.op, a, b, y as int);
                            }
                            return Some(y);
                        },
                    }
                },
            }
        }
    }
}

/// The positions in both sequences: on a tie emit once; stop when either side runs out.
pub struct Intersection<'a> {
    pair: Pair<'a>,
}

impl<'a> View for Intersection<'a> {
    type V = Set<int>;

    /// The positions still to come.
    closed spec fn view(&self) -> Set<int> {
        self.pair@
    }
}

impl<'a> Intersection<'a> {
    pub closed spec fn wf(&self) -> bool {
        self.pair.wf() && self.pair.spec_op() is Intersection
    }

    pub fn new(x: Iter<'a>, y: Iter<'a>) -> (r: Intersection<'a>)
        requires
            x.wf(),
            y.wf(),
        ensures
            r.wf(),
            r@ == x@.intersect(y@),
    {
        Intersection { pair: Pair::new(x, y, Op::Intersection) }
    }

    /// Produce the least position still to come.
    pub fn next(&mut self) -> (r: Option<u16>)
        requires
            old(self).wf(),
        ensures
            final(self).wf(),
            r is None ==> old(self)@ == Set::<int>::empty() && final(self)@ == Set::<int>::empty(),
            r matches Some(x) ==> is_least(old(self)@, x as int) && final(self)@ == old(self)@.remove(
                x as int,
            ),
    {
        self.pair.next()
    }
}

/// Stream the positions in both `x` and `y`.
pub fn intersection<'a>(x: Iter<'a>, y: Iter<'a>) -> (r: Intersection<'a>)
    requires
        x.wf(),
        y.wf(),
    ensures
        r.wf(),
        r@ == x@.intersect(y@),
{
    Intersection::new(x, y)
}

/// The positions in either sequence: emit the smaller head, a tie once; drain the other side when one runs out.
pub struct Union<'a> {
    pair: Pair<'a>,
}

impl<'a> View for Union<'a> {
    type V = Set<int>;

    /// The positions still to come.
    closed spec fn view(&self) -> Set<int> {
        self.pair@
    }
}

impl<'a> Union<'a> {
    pub closed spec fn wf(&self) -> bool {
        self.pair.wf() && self.pair.spec_op() is Union
    }

    pub fn new(x: Iter<'a>, y: Iter<'a>) -> (r: Union<'a>)
        requires
            x.wf(),
            y.wf(),
        ensures
            r.wf(),
            r@ == x@.union(y@),
    {
        Union { pair: Pair::new(x, y, Op::Union) }
    }

    /// Produce the least position still to come.
    pub fn next(&mut self) -> (r: Option<u16>)
        requires
            old(self).wf(),
        ensures
            final(self).wf(),
            r is None ==> old(self)@ == Set::<int>::empty() && final(self)@ == Set::<int>::empty(),
            r matches Some(x) ==> is_least(old(self)@, x as int) && final(self)@ == old(self)@.remove(
                x as int,
            ),
    {
        self.pair.next()
    }
}

/// Stream the positions in `x` or `y`.
pub fn union<'a>(x: Iter<'a>, y: Iter<'a>) -> (r: Union<'a>)
    requires
        x.wf(),
        y.wf(),
    ensures
        r.wf(),
        r@ == x@.union(y@),
{
    Union::new(x, y)
}

/// The positions of the first sequence that the second lacks: drop a tie; drain the first when the second runs out, stop when the first does.
pub struct Difference<'a> {
    pair: Pair<'a>,
}

impl<'a> View for Difference<'a> {
    type V = Set<int>;

    /// The positions still to come.
    closed spec fn view(&self) -> Set<int> {
        self.pair@
    }
}

impl<'a> Difference<'a> {
    pub closed spec fn wf(&self) -> bool {
        self.pair.wf() && self.pair.spec_op() is Difference
    }

    pub fn new(x: Iter<'a>, y: Iter<'a>) -> (r: Difference<'a>)
        requires
            x.wf(),
            y.wf(),
        ensures
            r.wf(),
            r@ == x@.difference(y@),
    {
        Difference { pair: Pair::new(x, y, Op::Difference) }
    }

    /// Produce the least position still to come.
    pub fn next(&mut self) -> (r: Option<u16>)
        requires
            old(self).wf(),
        ensures
            final(self).wf(),
            r is None ==> old(self)@ == Set::<int>::empty() && final(self)@ == Set::<int>::empty(),
            r matches Some(x) ==> is_least(old(self)@, x as int) && final(self)@ == old(self)@.remove(
                x as int,
            ),
    {
        self.pair.next()
    }
}

/// Stream the positions of `x` that `y` lacks.
pub fn difference<'a>(x: Iter<'a>, y: Iter<'a>) -> (r: Difference<'a>)
    requires
        x.wf(),
        y.wf(),
    ensures
        r.wf(),
        r@ == x@.difference(y@),
{
    Difference::new(x, y)
}

/// The positions in exactly one of the sequences: drop a tie; drain the other side when one runs out.
pub struct SymmetricDifference<'a> {
    pair: Pair<'a>,
}

impl<'a> View for SymmetricDifference<'a> {
    type V = Set<int>;

    /// The positions still to come.
    closed spec fn view(&self) -> Set<int> {
        self.pair@
    }
}

impl<'a> SymmetricDifference<'a> {
    pub closed spec fn wf(&self) -> bool {
        self.pair.wf() && self.pair.spec_op() is SymmetricDifference
    }

    pub fn new(x: Iter<'a>, y: Iter<'a>) -> (r: SymmetricDifference<'a>)
        requires
            x.wf(),
            y.wf(),
        ensures
            r.wf(),
            r@ == sym_diff(x@, y@),
    {
        SymmetricDifference { pair: Pair::new(x, y, Op::SymmetricDifference) }
    }

    /// Produce the least position still to come.
    pub fn next(&mut self) -> (r: Option<u16>)
        requires
            old(self).wf(),
        ensures
            final(self).wf(),
            r is None ==> old(self)@ == Set::<int>::empty() && final(self)@ == Set::<int>::empty(),
            r matches Some(x) ==> is_least(old(self)@, x as int) && final(self)@ == old(self)@.remove(
                x as int,
            ),
    {
        self.pair.next()
    }
}

/// Stream the positions in exactly one of `x` and `y`.
pub fn symmetric_difference<'a>(x: Iter<'a>, y: Iter<'a>) -> (r: SymmetricDifference<'a>)
    requires
        x.wf(),
        y.wf(),
    ensures
        r.wf(),
        r@ == sym_diff(x@, y@),
{
    SymmetricDifference::new(x, y)
}

} // verus!
