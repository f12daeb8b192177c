//! The cursor capability: peek without consuming, consume one element,
//! skip ahead to a target.  Implemented here by three cursors over borrowed
//! sorted slices; the merge iterators implement the same capability and so
//! compose with these and with each other.

use vstd::prelude::*;

verus! {

use crate::order::{Orderable, Rank, below, lemma_order_laws};
use crate::seqs::{sorted, passed_by, drop_ahead, lemma_sorted_skip, lemma_drop_ahead_at};

/// A positioned view over an ordered sequence.  `remaining` is the sequence
/// of elements the cursor has yet to yield, always strictly sorted; `peep`
/// reads its head without consuming, `next` consumes it, and the two
/// advance calls drop a prefix in one step.
pub trait SkipAheadIterator<'a, T: Orderable>: Sized {
    /// The elements this cursor has yet to yield.
    spec fn remaining(self) -> Seq<T>;

    /// The cursor's internal invariant.
    spec fn wf(self) -> bool;

    proof fn remaining_sorted(self)
        requires
            self.wf(),
        ensures
            sorted(self.remaining()),
    ;

    /// Peek at the next item without consuming it.  Repeated calls agree
    /// until the next consuming call.
    fn peep(&mut self) -> (r: Option<&'a T>)
        requires
            old(self).wf(),
        ensures
            final(self).wf(),
            final(self).remaining() == old(self).remaining(),
            match r {
                Some(x) => old(self).remaining().len() > 0 && *x == old(self).remaining()[0],
                None => old(self).remaining().len() == 0,
            },
    ;

    /// Return the next item, if any, and move past it.
    fn next(&mut self) -> (r: Option<&'a T>)
        requires
            old(self).wf(),
        ensures
            final(self).wf(),
            match r {
                Some(x) => {
                    &&& old(self).remaining().len() > 0
                    &&& *x == old(self).remaining()[0]
                    &&& final(self).remaining() == old(self).remaining().skip(1)
                },
                None => {
                    &&& old(self).remaining().len() == 0
                    &&& final(self).remaining() == old(self).remaining()
                },
            },
    ;

    /// Move past every element strictly less than `target`; never moves
    /// backward.
    fn advance_until(&mut self, target: &T)
        requires
            old(self).wf(),
        ensures
            final(self).wf(),
            final(self).remaining() == drop_ahead(old(self).remaining(), *target, true),
    ;

    /// Move past every element less than or tied with `target`.
    fn advance_after(&mut self, target: &T)
        requires
            old(self).wf(),
        ensures
            final(self).wf(),
            final(self).remaining() == drop_ahead(old(self).remaining(), *target, false),
    ;
}

/// Binary search over a sorted slice: the first index at or after `from`
/// whose element an advance towards `t` would keep.
pub fn seek_index<T: Orderable>(v: &[T], from: usize, t: &T, strict: bool) -> (k: usize)
    requires
        sorted(v@),
        from <= v@.len(),
    ensures
        from <= k <= v@.len(),
        forall|i: int| from <= i < k ==> passed_by(#[trigger] v@[i], *t, strict),
        k < v@.len() ==> !passed_by(v@[k as int], *t, strict),
{
    proof {
        lemma_order_laws::<T>();
    }
    let mut lo: usize = from;
    let mut hi: usize = v.len();
    while lo < hi
        invariant
            sorted(v@),
            from <= lo <= hi <= v@.len(),
            forall|i: int| from <= i < lo ==> passed_by(#[trigger] v@[i], *t, strict),
            forall|i: int| hi <= i < v@.len() ==> !passed_by(#[trigger] v@[i], *t, strict),
        decreases hi - lo,
    {
        let mid: usize = lo + (hi - lo) / 2;
        let passes: bool = match v[mid].rank_with(t) {
            Rank::Less => true,
            Rank::Equal => !strict,
            Rank::Greater => false,
        };
        if passes {
            proof {
                lemma_order_laws::<T>();
                assert forall|i: int| from <= i < mid + 1 implies passed_by(
                    #[trigger] v@[i],
                    *t,
                    strict,
                ) by {
                    if i < mid {
                        assert(below(v@[i], v@[mid as int]));
                    }
                }
            }
            lo = mid + 1;
        } else {
            proof {
                lemma_order_laws::<T>();
                assert forall|i: int| mid <= i < v@.len() implies !passed_by(
                    #[trigger] v@[i],
                    *t,
                    strict,
                ) by {
                    if i > mid {
                        assert(below(v@[mid as int], v@[i]));
                    }
                }
            }
            hi = mid;
        }
    }
    lo
}

/// Linear scan over a slice: the first index at or after `from` whose
/// element an advance towards `t` would keep.  O(n), where a binary search
/// is O(log n); this is the default every cursor could fall back on.
pub fn scan_index<T: Orderable>(v: &[T], from: usize, t: &T, strict: bool) -> (k: usize)
    requires
        from <= v@.len(),
    ensures
        from <= k <= v@.len(),
        forall|i: int| from <= i < k ==> passed_by(#[trigger] v@[i], *t, strict),
        k < v@.len() ==> !passed_by(v@[k as int], *t, strict),
{
    let mut k: usize = from;
    let mut done: bool = false;
    while !done && k < v.len()
        invariant
            from <= k <= v@.len(),
            forall|i: int| from <= i < k ==> passed_by(#[trigger] v@[i], *t, strict),
            done ==> k < v@.len() && !passed_by(v@[k as int], *t, strict),
        decreases v@.len() - k + (if done { 0int } else { 1int }),
    {
        let passes: bool = match v[k].rank_with(t) {
            Rank::Less => true,
            Rank::Equal => !strict,
            Rank::Greater => false,
        };
        if passes {
            k = k + 1;
        } else {
            done = true;
        }
    }
    k
}

/// Moving a slice cursor to the boundary index that `seek_index` or
/// `scan_index` found performs exactly a `drop_ahead` on what remained.
proof fn lemma_seek_result<T: Orderable>(es: Seq<T>, from: int, k: int, t: T, strict: bool)
    requires
        0 <= from <= k <= es.len(),
        forall|i: int| from <= i < k ==> passed_by(#[trigger] es[i], t, strict),
        k < es.len() ==> !passed_by(es[k], t, strict),
    ensures
        drop_ahead(es.skip(from), t, strict) == es.skip(k),
{
    let rem = es.skip(from);
    assert forall|i: int| 0 <= i < k - from implies passed_by(#[trigger] rem[i], t, strict) by {
        assert(rem[i] == es[i + from]);
    }
    if k - from < rem.len() {
        assert(rem[k - from] == es[k]);
    }
    lemma_drop_ahead_at(rem, t, strict, k - from);
    assert(rem.skip(k - from) == es.skip(k));
}

/// A cursor over a borrowed sorted slice whose skip-ahead is a binary
/// search over the remaining elements.
pub struct OrdListSetIter<'a, T: Orderable> {
    elements: &'a [T],
    index: usize,
}

impl<'a, T: Orderable> OrdListSetIter<'a, T> {
    pub fn new(elements: &'a [T]) -> (r: OrdListSetIter<'a, T>)
        requires
            sorted(elements@),
        ensures
            r.wf(),
            r.remaining() == elements@,
    {
        OrdListSetIter { elements, index: 0 }
    }

    /// How many elements are left.
    pub fn len(&self) -> (r: usize)
        requires
            self.wf(),
        ensures
            r == self.remaining().len(),
    {
        // guard against underflow when the cursor is already exhausted
        if self.is_empty() {
            0
        } else {
            self.elements.len() - self.index
        }
    }

    /// Return the element `n` places ahead, if any, and move past it; a
    /// cursor asked past its end is left exhausted.
    pub fn nth(&mut self, n: usize) -> (r: Option<&'a T>)
        requires
            old(self).wf(),
        ensures
            final(self).wf(),
            match r {
                Some(x) => {
                    &&& n < old(self).remaining().len()
                    &&& *x == old(self).remaining()[n as int]
                    &&& final(self).remaining() == old(self).remaining().skip(n + 1)
                },
                None => {
                    &&& n >= old(self).remaining().len()
                    &&& final(self).remaining() == Seq::<T>::empty()
                },
            },
    {
        let avail = self.elements.len() - self.index;
        if n < avail {
            let r = &self.elements[self.index + n];
            proof {
                assert(self.elements@.skip(self.index as int).skip(n + 1) =~= self.elements@.skip(
                    self.index + n + 1,
                ));
            }
            self.index = self.index + n + 1;
            Some(r)
        } else {
            proof {
                assert(self.elements@.skip(self.elements@.len() as int) =~= Seq::<T>::empty());
            }
            self.index = self.elements.len();
            None
        }
    }

    /// Will the next `next` call return `None`?
    pub fn is_empty(&self) -> (r: bool)
        requires
            self.wf(),
        ensures
            r == (self.remaining().len() == 0),
    {
        self.index >= self.elements.len()
    }
}

impl<'a, T: Orderable> Clone for OrdListSetIter<'a, T> {
    fn clone(&self) -> (r: Self)
        ensures
            r == *self,
    {
        OrdListSetIter { elements: self.elements, index: self.index }
    }
}

impl<'a, T: Orderable> SkipAheadIterator<'a, T> for OrdListSetIter<'a, T> {
    closed spec fn remaining(self) -> Seq<T> {
        self.elements@.skip(self.index as int)
    }

    closed spec fn wf(self) -> bool {
        self.index <= self.elements@.len() && sorted(self.elements@)
    }

    proof fn remaining_sorted(self) {
        lemma_sorted_skip(self.elements@, self.index as int);
    }

    fn peep(&mut self) -> (r: Option<&'a T>) {
        if self.index < self.elements.len() {
            Some(&self.elements[self.index])
        } else {
            None
        }
    }

    fn next(&mut self) -> (r: Option<&'a T>) {
        if self.index < self.elements.len() {
            let r = &self.elements[self.index];
            self.index = self.index + 1;
            Some(r)
        } else {
            None
        }
    }

    fn advance_until(&mut self, target: &T) {
        let k = seek_index(self.elements, self.index, target, true);
        proof {
            lemma_seek_result(self.elements@, self.index as int, k as int, *target, true);
        }
        self.index = k;
    }

    fn advance_after(&mut self, target: &T) {
        let k = seek_index(self.elements, self.index, target, false);
        proof {
            lemma_seek_result(self.elements@, self.index as int, k as int, *target, false);
        }
        self.index = k;
    }
}

/// A cursor over a borrowed sorted slice whose skip-ahead is the naive
/// linear scan: consume while the peeked element is still short of the
/// target.
pub struct AdvanceUntilIter<'a, T: Orderable> {
    elements: &'a [T],
    index: usize,
}

impl<'a, T: Orderable> AdvanceUntilIter<'a, T> {
    pub fn new(elements: &'a [T]) -> (r: AdvanceUntilIter<'a, T>)
        requires
            sorted(elements@),
        ensures
            r.wf(),
            r.remaining() == elements@,
    {
        AdvanceUntilIter { elements, index: 0 }
    }
}

impl<'a, T: Orderable> SkipAheadIterator<'a, T> for AdvanceUntilIter<'a, T> {
    closed spec fn remaining(self) -> Seq<T> {
        self.elements@.skip(self.index as int)
    }

    closed spec fn wf(self) -> bool {
        self.index <= self.elements@.len() && sorted(self.elements@)
    }

    proof fn remaining_sorted(self) {
        lemma_sorted_skip(self.elements@, self.index as int);
    }

    fn peep(&mut self) -> (r: Option<&'a T>) {
        if self.index < self.elements.len() {
            Some(&self.elements[self.index])
        } else {
            None
        }
    }

    fn next(&mut self) -> (r: Option<&'a T>) {
        if self.index < self.elements.len() {
            let r = &self.elements[self.index];
            self.index = self.index + 1;
            Some(r)
        } else {
            None
        }
    }

    fn advance_until(&mut self, target: &T) {
        let k = scan_index(self.elements, self.index, target, true);
        proof {
            lemma_seek_result(self.elements@, self.index as int, k as int, *target, true);
        }
        self.index = k;
    }

    fn advance_after(&mut self, target: &T) {
        let k = scan_index(self.elements, self.index, target, false);
        proof {
            lemma_seek_result(self.elements@, self.index as int, k as int, *target, false);
        }
        self.index = k;
    }
}

/// A cursor adapting a borrowed sorted slice to the capability with the
/// default linear-scan skip-ahead, as an iterator adaptor would.
pub struct OrdSetOpsIterAdapter<'a, T: Orderable> {
    elements: &'a [T],
    index: usize,
}

impl<'a, T: Orderable> OrdSetOpsIterAdapter<'a, T> {
    pub fn from_slice(elements: &'a [T]) -> (r: OrdSetOpsIterAdapter<'a, T>)
        requires
            sorted(elements@),
        ensures
            r.wf(),
            r.remaining() == elements@,
    {
        OrdSetOpsIterAdapter { elements, index: 0 }
    }
}

impl<'a, T: Orderable> SkipAheadIterator<'a, T> for OrdSetOpsIterAdapter<'a, T> {
    closed spec fn remaining(self) -> Seq<T> {
        self.elements@.skip(self.index as int)
    }

    closed spec fn wf(self) -> bool {
        self.index <= self.elements@.len() && sorted(self.elements@)
    }

    proof fn remaining_sorted(self) {
        lemma_sorted_skip(self.elements@, self.index as int);
    }

    fn peep(&mut self) -> (r: Option<&'a T>) {
        if self.index < self.elements.len() {
            Some(&self.elements[self.index])
        } else {
            None
        }
    }

    fn next(&mut self) -> (r: Option<&'a T>) {
        if self.index < self.elements.len() {
            let r = &self.elements[self.index];
            self.index = self.index + 1;
            Some(r)
        } else {
            None
        }
    }

    fn advance_until(&mut self, target: &T) {
        let k = scan_index(self.elements, self.index, target, true);
        proof {
            lemma_seek_result(self.elements@, self.index as int, k as int, *target, true);
        }
        self.index = k;
    }

    fn advance_after(&mut self, target: &T) {
        let k = scan_index(self.elements, self.index, target, false);
        proof {
            lemma_seek_result(self.elements@, self.index as int, k as int, *target, false);
        }
        self.index = k;
    }
}

} // verus!
