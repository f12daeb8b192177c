//! The four merge algorithms, each written once as a step function shared
//! by the consuming (`next`) and non-consuming (`peep`) entry points, so
//! the two are identical but for the mutation; concrete merge iterators
//! over set cursors; and a composable merge node generic over any two
//! cursors.

use core::marker::PhantomData;
use vstd::prelude::*;

verus! {

use crate::order::{Orderable, Rank, lemma_order_laws};
use crate::seqs::{
    union_seq, inter_seq, diff_seq, sym_diff_seq, lemma_union_props, lemma_inter_props,
    lemma_diff_props, lemma_sym_diff_props, lemma_union_drop, lemma_inter_drop, lemma_diff_drop,
    lemma_sym_diff_drop, lemma_inter_drop_left, lemma_inter_drop_right, lemma_diff_drop_right,
    lemma_drop_ahead_shape,
};
use crate::cursor::{SkipAheadIterator, OrdListSetIter};

/// One union step: the head of the union merge of the two cursors, consumed
/// from them when `consume` is set.
pub fn union_step<'a, T: Orderable + 'a, L: SkipAheadIterator<'a, T>, R: SkipAheadIterator<'a, T>>(
    l: &mut L,
    r: &mut R,
    consume: bool,
) -> (res: Option<&'a T>)
    requires
        old(l).wf(),
        old(r).wf(),
    ensures
        final(l).wf(),
        final(r).wf(),
        ({
            let u0 = union_seq(old(l).remaining(), old(r).remaining());
            let u1 = union_seq(final(l).remaining(), final(r).remaining());
            match res {
                Some(x) => {
                    &&& u0.len() > 0
                    &&& *x == u0[0]
                    &&& u1 == if consume {
                        u0.skip(1)
                    } else {
                        u0
                    }
                },
                None => u0.len() == 0 && u1 == u0,
            }
        }),
{
    let ghost la = old(l).remaining();
    let ghost ra = old(r).remaining();
    let li = l.peep();
    let ri = r.peep();
    match (li, ri) {
        (Some(a), Some(b)) => {
            match a.rank_with(b) {
                Rank::Less => {
                    proof {
                        let rest = union_seq(la.skip(1), ra);
                        assert(union_seq(la, ra) == seq![la[0]] + rest);
                        assert((seq![la[0]] + rest)[0] == la[0]);
                        assert((seq![la[0]] + rest).skip(1) =~= rest);
                    }
                    if consume {
                        l.next()
                    } else {
                        Some(a)
                    }
                },
                Rank::Greater => {
                    proof {
                        let rest = union_seq(la, ra.skip(1));
                        assert(union_seq(la, ra) == seq![ra[0]] + rest);
                        assert((seq![ra[0]] + rest)[0] == ra[0]);
                        assert((seq![ra[0]] + rest).skip(1) =~= rest);
                    }
                    if consume {
                        r.next()
                    } else {
                        Some(b)
                    }
                },
                Rank::Equal => {
                    proof {
                        let rest = union_seq(la.skip(1), ra.skip(1));
                        assert(union_seq(la, ra) == seq![la[0]] + rest);
                        assert((seq![la[0]] + rest)[0] == la[0]);
                        assert((seq![la[0]] + rest).skip(1) =~= rest);
                    }
                    if consume {
                        r.next();
                        l.next()
                    } else {
                        Some(a)
                    }
                },
            }
        },
        (Some(a), None) => {
            if consume {
                l.next()
            } else {
                Some(a)
            }
        },
        (None, Some(b)) => {
            if consume {
                r.next()
            } else {
                Some(b)
            }
        },
        (None, None) => None,
    }
}

/// Visits the elements of both sets, in ascending order, ties once.
pub struct Union<'a, T: Orderable> {
    left_iter: OrdListSetIter<'a, T>,
    right_iter: OrdListSetIter<'a, T>,
}

impl<'a, T: Orderable> Union<'a, T> {
    pub fn new(left_iter: OrdListSetIter<'a, T>, right_iter: OrdListSetIter<'a, T>) -> (r: Self)
        requires
            left_iter.wf(),
            right_iter.wf(),
        ensures
            r.wf(),
            r.remaining() == union_seq(left_iter.remaining(), right_iter.remaining()),
    {
        Union { left_iter, right_iter }
    }
}

impl<'a, T: Orderable> SkipAheadIterator<'a, T> for Union<'a, T> {
    closed spec fn remaining(self) -> Seq<T> {
        union_seq(self.left_iter.remaining(), self.right_iter.remaining())
    }

    closed spec fn wf(self) -> bool {
        self.left_iter.wf() && self.right_iter.wf()
    }

    proof fn remaining_sorted(self) {
        self.left_iter.remaining_sorted();
        self.right_iter.remaining_sorted();
        lemma_union_props(self.left_iter.remaining(), self.right_iter.remaining());
    }

    fn peep(&mut self) -> (r: Option<&'a T>) {
        union_step(&mut self.left_iter, &mut self.right_iter, false)
    }

    fn next(&mut self) -> (r: Option<&'a T>) {
        union_step(&mut self.left_iter, &mut self.right_iter, true)
    }

    fn advance_until(&mut self, target: &T) {
        proof {
            self.left_iter.remaining_sorted();
            self.right_iter.remaining_sorted();
            lemma_union_drop(
                self.left_iter.remaining(),
                self.right_iter.remaining(),
                *target,
                true,
            );
        }
        self.left_iter.advance_until(target);
        self.right_iter.advance_until(target);
    }

    fn advance_after(&mut self, target: &T) {
        proof {
            self.left_iter.remaining_sorted();
            self.right_iter.remaining_sorted();
            lemma_union_drop(
                self.left_iter.remaining(),
                self.right_iter.remaining(),
                *target,
                false,
            );
        }
        self.left_iter.advance_after(target);
        self.right_iter.advance_after(target);
    }
}


/// One intersection step: skip ahead on whichever side is behind until the
/// heads tie, then yield that element, consuming it from both cursors when
/// `consume` is set.
pub fn intersection_step<
    'a,
    T: Orderable + 'a,
    L: SkipAheadIterator<'a, T>,
    R: SkipAheadIterator<'a, T>,
>(l: &mut L, r: &mut R, consume: bool) -> (res: Option<&'a T>)
    requires
        old(l).wf(),
        old(r).wf(),
    ensures
        final(l).wf(),
        final(r).wf(),
        ({
            let u0 = inter_seq(old(l).remaining(), old(r).remaining());
            let u1 = inter_seq(final(l).remaining(), final(r).remaining());
            match res {
                Some(x) => {
                    &&& u0.len() > 0
                    &&& *x == u0[0]
                    &&& u1 == if consume {
                        u0.skip(1)
                    } else {
                        u0
                    }
                },
                None => u0.len() == 0 && u1 == u0,
            }
        }),
{
    proof {
        lemma_order_laws::<T>();
    }
    loop
        invariant
            l.wf(),
            r.wf(),
            inter_seq(l.remaining(), r.remaining()) == inter_seq(
                old(l).remaining(),
                old(r).remaining(),
            ),
        decreases l.remaining().len() + r.remaining().len(),
    {
        let ghost la = l.remaining();
        let ghost ra = r.remaining();
        let li = l.peep();
        let ri = r.peep();
        match (li, ri) {
            (Some(a), Some(b)) => {
                match a.rank_with(b) {
                    Rank::Less => {
                        proof {
                            lemma_order_laws::<T>();
                            l.remaining_sorted();
                            r.remaining_sorted();
                            lemma_inter_drop_left(la, ra, ra[0]);
                            lemma_drop_ahead_shape(la, ra[0], true);
                        }
                        l.advance_until(b);
                    },
                    Rank::Greater => {
                        proof {
                            lemma_order_laws::<T>();
                            l.remaining_sorted();
                            r.remaining_sorted();
                            lemma_inter_drop_right(la, ra, la[0]);
                            lemma_drop_ahead_shape(ra, la[0], true);
                        }
                        r.advance_until(a);
                    },
                    Rank::Equal => {
                        proof {
                            let rest = inter_seq(la.skip(1), ra.skip(1));
                            assert(inter_seq(la, ra) == seq![la[0]] + rest);
                            assert((seq![la[0]] + rest)[0] == la[0]);
                            assert((seq![la[0]] + rest).skip(1) =~= rest);
                        }
                        if consume {
                            r.next();
                            return l.next();
                        } else {
                            return Some(a);
                        }
                    },
                }
            },
            _ => {
                return None;
            },
        }
    }
}

/// One difference step: yield the next element of the left cursor with no
/// tie in the right one, skipping the right cursor ahead in blocks.
pub fn difference_step<
    'a,
    T: Orderable + 'a,
    L: SkipAheadIterator<'a, T>,
    R: SkipAheadIterator<'a, T>,
>(l: &mut L, r: &mut R, consume: bool) -> (res: Option<&'a T>)
    requires
        old(l).wf(),
        old(r).wf(),
    ensures
        final(l).wf(),
        final(r).wf(),
        ({
            let u0 = diff_seq(old(l).remaining(), old(r).remaining());
            let u1 = diff_seq(final(l).remaining(), final(r).remaining());
            match res {
                Some(x) => {
                    &&& u0.len() > 0
                    &&& *x == u0[0]
                    &&& u1 == if consume {
                        u0.skip(1)
                    } else {
                        u0
                    }
                },
                None => u0.len() == 0 && u1 == u0,
            }
        }),
{
    proof {
        lemma_order_laws::<T>();
    }
    loop
        invariant
            l.wf(),
            r.wf(),
            diff_seq(l.remaining(), r.remaining()) == diff_seq(
                old(l).remaining(),
                old(r).remaining(),
            ),
        decreases l.remaining().len() + r.remaining().len(),
    {
        let ghost la = l.remaining();
        let ghost ra = r.remaining();
        let li = l.peep();
        let ri = r.peep();
        match (li, ri) {
            (Some(a), Some(b)) => {
                match a.rank_with(b) {
                    Rank::Less => {
                        proof {
                            let rest = diff_seq(la.skip(1), ra);
                            assert(diff_seq(la, ra) == seq![la[0]] + rest);
                            assert((seq![la[0]] + rest)[0] == la[0]);
                            assert((seq![la[0]] + rest).skip(1) =~= rest);
                        }
                        if consume {
                            return l.next();
                        } else {
                            return Some(a);
                        }
                    },
                    Rank::Greater => {
                        proof {
                            lemma_order_laws::<T>();
                            l.remaining_sorted();
                            r.remaining_sorted();
                            lemma_diff_drop_right(la, ra, la[0]);
                            lemma_drop_ahead_shape(ra, la[0], true);
                        }
                        r.advance_until(a);
                    },
                    Rank::Equal => {
                        proof {
                            assert(diff_seq(la, ra) == diff_seq(la.skip(1), ra.skip(1)));
                        }
                        l.next();
                        r.next();
                    },
                }
            },
            (Some(a), None) => {
                proof {
                    assert(diff_seq(la, ra) == la);
                    assert(diff_seq(la.skip(1), ra) == la.skip(1));
                }
                if consume {
                    return l.next();
                } else {
                    return Some(a);
                }
            },
            (None, _) => {
                return None;
            },
        }
    }
}

/// One symmetric-difference step: yield the next element present in
/// exactly one of the two cursors.
pub fn symmetric_difference_step<
    'a,
    T: Orderable + 'a,
    L: SkipAheadIterator<'a, T>,
    R: SkipAheadIterator<'a, T>,
>(l: &mut L, r: &mut R, consume: bool) -> (res: Option<&'a T>)
    requires
        old(l).wf(),
        old(r).wf(),
    ensures
        final(l).wf(),
        final(r).wf(),
        ({
            let u0 = sym_diff_seq(old(l).remaining(), old(r).remaining());
            let u1 = sym_diff_seq(final(l).remaining(), final(r).remaining());
            match res {
                Some(x) => {
                    &&& u0.len() > 0
                    &&& *x == u0[0]
                    &&& u1 == if consume {
                        u0.skip(1)
                    } else {
                        u0
                    }
                },
                None => u0.len() == 0 && u1 == u0,
            }
        }),
{
    proof {
        lemma_order_laws::<T>();
    }
    loop
        invariant
            l.wf(),
            r.wf(),
            sym_diff_seq(l.remaining(), r.remaining()) == sym_diff_seq(
                old(l).remaining(),
                old(r).remaining(),
            ),
        decreases l.remaining().len() + r.remaining().len(),
    {
        let ghost la = l.remaining();
        let ghost ra = r.remaining();
        let li = l.peep();
        let ri = r.peep();
        match (li, ri) {
            (Some(a), Some(b)) => {
                match a.rank_with(b) {
                    Rank::Less => {
                        proof {
                            let rest = sym_diff_seq(la.skip(1), ra);
                            assert(sym_diff_seq(la, ra) == seq![la[0]] + rest);
                            assert((seq![la[0]] + rest)[0] == la[0]);
                            assert((seq![la[0]] + rest).skip(1) =~= rest);
                        }
                        if consume {
                            return l.next();
                        } else {
                            return Some(a);
                        }
                    },
                    Rank::Greater => {
                        proof {
                            let rest = sym_diff_seq(la, ra.skip(1));
                            assert(sym_diff_seq(la, ra) == seq![ra[0]] + rest);
                            assert((seq![ra[0]] + rest)[0] == ra[0]);
                            assert((seq![ra[0]] + rest).skip(1) =~= rest);
                        }
                        if consume {
                            return r.next();
                        } else {
                            return Some(b);
                        }
                    },
                    Rank::Equal => {
                        proof {
                            assert(sym_diff_seq(la, ra) == sym_diff_seq(la.skip(1), ra.skip(1)));
                        }
                        l.next();
                        r.next();
                    },
                }
            },
            (Some(a), None) => {
                proof {
                    assert(sym_diff_seq(la, ra) == la);
                    assert(sym_diff_seq(la.skip(1), ra) == la.skip(1));
                }
                if consume {
                    return l.next();
                } else {
                    return Some(a);
                }
            },
            (None, Some(b)) => {
                proof {
                    assert(sym_diff_seq(la, ra) == ra);
                    assert(sym_diff_seq(la, ra.skip(1)) == ra.skip(1));
                }
                if consume {
                    return r.next();
                } else {
                    return Some(b);
                }
            },
            (None, None) => {
                return None;
            },
        }
    }
}

/// Visits the elements present in both sets, in ascending order.
pub struct Intersection<'a, T: Orderable> {
    left_iter: OrdListSetIter<'a, T>,
    right_iter: OrdListSetIter<'a, T>,
}

impl<'a, T: Orderable> Intersection<'a, T> {
    pub fn new(left_iter: OrdListSetIter<'a, T>, right_iter: OrdListSetIter<'a, T>) -> (r: Self)
        requires
            left_iter.wf(),
            right_iter.wf(),
        ensures
            r.wf(),
            r.remaining() == inter_seq(left_iter.remaining(), right_iter.remaining()),
    {
        Intersection { left_iter, right_iter }
    }
}

impl<'a, T: Orderable> SkipAheadIterator<'a, T> for Intersection<'a, T> {
    closed spec fn remaining(self) -> Seq<T> {
        inter_seq(self.left_iter.remaining(), self.right_iter.remaining())
    }

    closed spec fn wf(self) -> bool {
        self.left_iter.wf() && self.right_iter.wf()
    }

    proof fn remaining_sorted(self) {
        self.left_iter.remaining_sorted();
        self.right_iter.remaining_sorted();
        lemma_inter_props(self.left_iter.remaining(), self.right_iter.remaining());
    }

    fn peep(&mut self) -> (r: Option<&'a T>) {
        intersection_step(&mut self.left_iter, &mut self.right_iter, false)
    }

    fn next(&mut self) -> (r: Option<&'a T>) {
        intersection_step(&mut self.left_iter, &mut self.right_iter, true)
    }

    fn advance_until(&mut self, target: &T) {
        proof {
            self.left_iter.remaining_sorted();
            self.right_iter.remaining_sorted();
            lemma_inter_drop(
                self.left_iter.remaining(),
                self.right_iter.remaining(),
                *target,
                true,
            );
        }
        self.left_iter.advance_until(target);
        self.right_iter.advance_until(target);
    }

    fn advance_after(&mut self, target: &T) {
        proof {
            self.left_iter.remaining_sorted();
            self.right_iter.remaining_sorted();
            lemma_inter_drop(
                self.left_iter.remaining(),
                self.right_iter.remaining(),
                *target,
                false,
            );
        }
        self.left_iter.advance_after(target);
        self.right_iter.advance_after(target);
    }
}

/// Visits the elements of the left set with no tie in the right one, in
/// ascending order.
pub struct Difference<'a, T: Orderable> {
    left_iter: OrdListSetIter<'a, T>,
    right_iter: OrdListSetIter<'a, T>,
}

impl<'a, T: Orderable> Difference<'a, T> {
    pub fn new(left_iter: OrdListSetIter<'a, T>, right_iter: OrdListSetIter<'a, T>) -> (r: Self)
        requires
            left_iter.wf(),
            right_iter.wf(),
        ensures
            r.wf(),
            r.remaining() == diff_seq(left_iter.remaining(), right_iter.remaining()),
    {
        Difference { left_iter, right_iter }
    }
}

impl<'a, T: Orderable> SkipAheadIterator<'a, T> for Difference<'a, T> {
    closed spec fn remaining(self) -> Seq<T> {
        diff_seq(self.left_iter.remaining(), self.right_iter.remaining())
    }

    closed spec fn wf(self) -> bool {
        self.left_iter.wf() && self.right_iter.wf()
    }

    proof fn remaining_sorted(self) {
        self.left_iter.remaining_sorted();
        self.right_iter.remaining_sorted();
        lemma_diff_props(self.left_iter.remaining(), self.right_iter.remaining());
    }

    fn peep(&mut self) -> (r: Option<&'a T>) {
        difference_step(&mut self.left_iter, &mut self.right_iter, false)
    }

    fn next(&mut self) -> (r: Option<&'a T>) {
        difference_step(&mut self.left_iter, &mut self.right_iter, true)
    }

    fn advance_until(&mut self, target: &T) {
        proof {
            self.left_iter.remaining_sorted();
            self.right_iter.remaining_sorted();
            lemma_diff_drop(
                self.left_iter.remaining(),
                self.right_iter.remaining(),
                *target,
                true,
            );
        }
        self.left_iter.advance_until(target);
        self.right_iter.advance_until(target);
    }

    fn advance_after(&mut self, target: &T) {
        proof {
            self.left_iter.remaining_sorted();
            self.right_iter.remaining_sorted();
            lemma_diff_drop(
                self.left_iter.remaining(),
                self.right_iter.remaining(),
                *target,
                false,
            );
        }
        self.left_iter.advance_after(target);
        self.right_iter.advance_after(target);
    }
}

/// Visits the elements present in exactly one of the two sets, in
/// ascending order.
pub struct SymmetricDifference<'a, T: Orderable> {
    left_iter: OrdListSetIter<'a, T>,
    right_iter: OrdListSetIter<'a, T>,
}

impl<'a, T: Orderable> SymmetricDifference<'a, T> {
    pub fn new(left_iter: OrdListSetIter<'a, T>, right_iter: OrdListSetIter<'a, T>) -> (r: Self)
        requires
            left_iter.wf(),
            right_iter.wf(),
        ensures
            r.wf(),
            r.remaining() == sym_diff_seq(left_iter.remaining(), right_iter.remaining()),
    {
        SymmetricDifference { left_iter, right_iter }
    }
}

impl<'a, T: Orderable> SkipAheadIterator<'a, T> for SymmetricDifference<'a, T> {
    closed spec fn remaining(self) -> Seq<T> {
        sym_diff_seq(self.left_iter.remaining(), self.right_iter.remaining())
    }

    closed spec fn wf(self) -> bool {
        self.left_iter.wf() && self.right_iter.wf()
    }

    proof fn remaining_sorted(self) {
        self.left_iter.remaining_sorted();
        self.right_iter.remaining_sorted();
        lemma_sym_diff_props(self.left_iter.remaining(), self.right_iter.remaining());
    }

    fn peep(&mut self) -> (r: Option<&'a T>) {
        symmetric_difference_step(&mut self.left_iter, &mut self.right_iter, false)
    }

    fn next(&mut self) -> (r: Option<&'a T>) {
        symmetric_difference_step(&mut self.left_iter, &mut self.right_iter, true)
    }

    fn advance_until(&mut self, target: &T) {
        proof {
            self.left_iter.remaining_sorted();
            self.right_iter.remaining_sorted();
            lemma_sym_diff_drop(
                self.left_iter.remaining(),
                self.right_iter.remaining(),
                *target,
                true,
            );
        }
        self.left_iter.advance_until(target);
        self.right_iter.advance_until(target);
    }

    fn advance_after(&mut self, target: &T) {
        proof {
            self.left_iter.remaining_sorted();
            self.right_iter.remaining_sorted();
            lemma_sym_diff_drop(
                self.left_iter.remaining(),
                self.right_iter.remaining(),
                *target,
                false,
            );
        }
        self.left_iter.advance_after(target);
        self.right_iter.advance_after(target);
    }
}

/// Which merge a composable merge node performs.
#[derive(Clone, Copy, PartialEq, Eq, Debug)]
pub enum SetOperation {
    Difference,
    Intersection,
    SymmetricDifference,
    Union,
}

/// A merge node over any two cursors.  It satisfies the cursor capability
/// itself, so nodes nest to evaluate whole set expressions lazily.
pub struct OrdSetOpsIter<'a, T: Orderable + 'a, L: SkipAheadIterator<'a, T>, R: SkipAheadIterator<
    'a,
    T,
>> {
    l_iter: L,
    r_iter: R,
    set_operation: SetOperation,
    phantom: PhantomData<&'a T>,
}

impl<'a, T: Orderable + 'a, L: SkipAheadIterator<'a, T>, R: SkipAheadIterator<'a, T>> OrdSetOpsIter<
    'a,
    T,
    L,
    R,
> {
    pub fn difference(l_iter: L, r_iter: R) -> (r: Self)
        requires
            l_iter.wf(),
            r_iter.wf(),
        ensures
            r.wf(),
            r.remaining() == diff_seq(l_iter.remaining(), r_iter.remaining()),
    {
        OrdSetOpsIter { l_iter, r_iter, set_operation: SetOperation::Difference, phantom: PhantomData }
    }

    pub fn intersection(l_iter: L, r_iter: R) -> (r: Self)
        requires
            l_iter.wf(),
            r_iter.wf(),
        ensures
            r.wf(),
            r.remaining() == inter_seq(l_iter.remaining(), r_iter.remaining()),
    {
        OrdSetOpsIter {
            l_iter,
            r_iter,
            set_operation: SetOperation::Intersection,
            phantom: PhantomData,
        }
    }

    pub fn symmetric_difference(l_iter: L, r_iter: R) -> (r: Self)
        requires
            l_iter.wf(),
            r_iter.wf(),
        ensures
            r.wf(),
            r.remaining() == sym_diff_seq(l_iter.remaining(), r_iter.remaining()),
    {
        OrdSetOpsIter {
            l_iter,
            r_iter,
            set_operation: SetOperation::SymmetricDifference,
            phantom: PhantomData,
        }
    }

    pub fn union(l_iter: L, r_iter: R) -> (r: Self)
        requires
            l_iter.wf(),
            r_iter.wf(),
        ensures
            r.wf(),
            r.remaining() == union_seq(l_iter.remaining(), r_iter.remaining()),
    {
        OrdSetOpsIter { l_iter, r_iter, set_operation: SetOperation::Union, phantom: PhantomData }
    }
}

impl<'a, T: Orderable + 'a, L: SkipAheadIterator<'a, T>, R: SkipAheadIterator<
    'a,
    T,
>> SkipAheadIterator<'a, T> for OrdSetOpsIter<'a, T, L, R> {
    closed spec fn remaining(self) -> Seq<T> {
        match self.set_operation {
            SetOperation::Difference => diff_seq(self.l_iter.remaining(), self.r_iter.remaining()),
            SetOperation::Intersection => inter_seq(
                self.l_iter.remaining(),
                self.r_iter.remaining(),
            ),
            SetOperation::SymmetricDifference => sym_diff_seq(
                self.l_iter.remaining(),
                self.r_iter.remaining(),
            ),
            SetOperation::Union => union_seq(self.l_iter.remaining(), self.r_iter.remaining()),
        }
    }

    closed spec fn wf(self) -> bool {
        self.l_iter.wf() && self.r_iter.wf()
    }

    proof fn remaining_sorted(self) {
        self.l_iter.remaining_sorted();
        self.r_iter.remaining_sorted();
        match self.set_operation {
            SetOperation::Difference => lemma_diff_props(
                self.l_iter.remaining(),
                self.r_iter.remaining(),
            ),
            SetOperation::Intersection => lemma_inter_props(
                self.l_iter.remaining(),
                self.r_iter.remaining(),
            ),
            SetOperation::SymmetricDifference => lemma_sym_diff_props(
                self.l_iter.remaining(),
                self.r_iter.remaining(),
            ),
            SetOperation::Union => lemma_union_props(
                self.l_iter.remaining(),
                self.r_iter.remaining(),
            ),
        }
    }

    fn peep(&mut self) -> (r: Option<&'a T>) {
        match self.set_operation {
            SetOperation::Difference => difference_step(&mut self.l_iter, &mut self.r_iter, false),
            SetOperation::Intersection => intersection_step(
                &mut self.l_iter,
                &mut self.r_iter,
                false,
            ),
            SetOperation::SymmetricDifference => symmetric_difference_step(
                &mut self.l_iter,
                &mut self.r_iter,
                false,
            ),
            SetOperation::Union => union_step(&mut self.l_iter, &mut self.r_iter, false),
        }
    }

    fn next(&mut self) -> (r: Option<&'a T>) {
        match self.set_operation {
            SetOperation::Difference => difference_step(&mut self.l_iter, &mut self.r_iter, true),
            SetOperation::Intersection => intersection_step(&mut self.l_iter, &mut self.r_iter, true),
            SetOperation::SymmetricDifference => symmetric_difference_step(
                &mut self.l_iter,
                &mut self.r_iter,
                true,
            ),
            SetOperation::Union => union_step(&mut self.l_iter, &mut self.r_iter, true),
        }
    }

    fn advance_until(&mut self, target: &T) {
        proof {
            self.l_iter.remaining_sorted();
            self.r_iter.remaining_sorted();
            match self.set_operation {
                SetOperation::Difference => lemma_diff_drop(
                    self.l_iter.remaining(),
                    self.r_iter.remaining(),
                    *target,
                    true,
                ),
                SetOperation::Intersection => lemma_inter_drop(
                    self.l_iter.remaining(),
                    self.r_iter.remaining(),
                    *target,
                    true,
                ),
                SetOperation::SymmetricDifference => lemma_sym_diff_drop(
                    self.l_iter.remaining(),
                    self.r_iter.remaining(),
                    *target,
                    true,
                ),
                SetOperation::Union => lemma_union_drop(
                    self.l_iter.remaining(),
                    self.r_iter.remaining(),
                    *target,
                    true,
                ),
            }
        }
        self.l_iter.advance_until(target);
        self.r_iter.advance_until(target);
    }

    fn advance_after(&mut self, target: &T) {
        proof {
            self.l_iter.remaining_sorted();
            self.r_iter.remaining_sorted();
            match self.set_operation {
                SetOperation::Difference => lemma_diff_drop(
                    self.l_iter.remaining(),
                    self.r_iter.remaining(),
                    *target,
                    false,
                ),
                SetOperation::Intersection => lemma_inter_drop(
                    self.l_iter.remaining(),
                    self.r_iter.remaining(),
                    *target,
                    false,
                ),
                SetOperation::SymmetricDifference => lemma_sym_diff_drop(
                    self.l_iter.remaining(),
                    self.r_iter.remaining(),
                    *target,
                    false,
                ),
                SetOperation::Union => lemma_union_drop(
                    self.l_iter.remaining(),
                    self.r_iter.remaining(),
                    *target,
                    false,
                ),
            }
        }
        self.l_iter.advance_after(target);
        self.r_iter.advance_after(target);
    }
}

} // verus!
