//! The concrete ordered set: an immutable value holding a strictly
//! increasing, duplicate-free vector of elements, constructed by sorting
//! and deduplicating arbitrary input, queried through cursors, merge
//! iterators and lock-step predicates.

use vstd::prelude::*;
use vstd::slice::slice_subrange;

verus! {

use crate::order::{Orderable, Rank, below, equiv, eq_reflecting, lemma_order_laws};
use crate::seqs::{
    sorted, contains_equiv, subset_equiv, disjoint_equiv, drop_ahead, union_seq, inter_seq,
    diff_seq, sym_diff_seq, lemma_push_membership, lemma_insert_membership,
    lemma_insert_sorted, lemma_sorted_from_adjacent, lemma_drop_ahead_at,
};
use crate::cursor::{SkipAheadIterator, OrdListSetIter, AdvanceUntilIter, seek_index};
use crate::ops::{Union, Intersection, Difference, SymmetricDifference, OrdSetOpsIter};
use crate::relations;
use crate::laws::{
    lemma_contains_equiv_is_contains, lemma_subset_equiv_as_set, lemma_disjoint_equiv_as_set,
};

/// A set of elements ordered by `Orderable::leq`, with no duplicates.
#[derive(Clone, Debug, Hash, PartialEq, Eq, PartialOrd, Ord)]
pub struct OrdListSet<T: Orderable> {
    members: Vec<T>,
}

impl<T: Orderable> View for OrdListSet<T> {
    type V = Seq<T>;

    closed spec fn view(&self) -> Seq<T> {
        self.members@
    }
}

/// A range of positions, mirroring the forms a range expression can take.
pub enum UsizeRangeBounds {
    Range(usize, usize),
    RangeFrom(usize),
    RangeFull,
    RangeInclusive(usize, usize),
    RangeTo(usize),
    RangeToInclusive(usize),
}

/// A range of element values, mirroring the forms a range expression can
/// take.
pub enum ItemRangeBounds<T: Orderable> {
    Range(T, T),
    RangeFrom(T),
    RangeFull,
    RangeInclusive(T, T),
    RangeTo(T),
    RangeToInclusive(T),
}

/// A subrange when the clipped bounds are coherent, else nothing, as
/// slice indexing by a range behaves.
pub open spec fn clipped<T>(s: Seq<T>, lo: int, hi: int) -> Seq<T> {
    if 0 <= lo <= hi <= s.len() {
        s.subrange(lo, hi)
    } else {
        Seq::empty()
    }
}

/// The subslice a position range selects.
pub open spec fn usize_range_slice<T>(s: Seq<T>, b: UsizeRangeBounds) -> Seq<T> {
    match b {
        UsizeRangeBounds::Range(start, end) => clipped(s, start as int, end as int),
        UsizeRangeBounds::RangeFrom(start) => clipped(s, start as int, s.len() as int),
        UsizeRangeBounds::RangeFull => s,
        UsizeRangeBounds::RangeInclusive(start, end) => if end < s.len() {
            clipped(s, start as int, end + 1)
        } else {
            Seq::empty()
        },
        UsizeRangeBounds::RangeTo(end) => clipped(s, 0, end as int),
        UsizeRangeBounds::RangeToInclusive(end) => if end < s.len() {
            clipped(s, 0, end + 1)
        } else {
            Seq::empty()
        },
    }
}

/// The number of elements of `s` strictly before `t`.
pub open spec fn below_count<T: Orderable>(s: Seq<T>, t: T) -> int {
    s.len() - drop_ahead(s, t, true).len()
}

/// The number of elements of `s` before or tied with `t`.
pub open spec fn through_count<T: Orderable>(s: Seq<T>, t: T) -> int {
    s.len() - drop_ahead(s, t, false).len()
}

/// The subslice a value range selects from a sorted sequence: bounds are
/// translated to positions as binary search on the boundary values does.
pub open spec fn item_range_slice<T: Orderable>(s: Seq<T>, b: ItemRangeBounds<T>) -> Seq<T> {
    match b {
        ItemRangeBounds::Range(start, end) => clipped(s, below_count(s, start), below_count(s, end)),
        ItemRangeBounds::RangeFrom(start) => clipped(s, below_count(s, start), s.len() as int),
        ItemRangeBounds::RangeFull => s,
        ItemRangeBounds::RangeInclusive(start, end) => clipped(
            s,
            below_count(s, start),
            through_count(s, end),
        ),
        ItemRangeBounds::RangeTo(end) => clipped(s, 0, below_count(s, end)),
        ItemRangeBounds::RangeToInclusive(end) => clipped(s, 0, through_count(s, end)),
    }
}

/// Duplicate a slice element by element.
pub fn copy_slice<T: Orderable>(v: &[T]) -> (r: Vec<T>)
    ensures
        r@ == v@,
{
    let mut out: Vec<T> = Vec::new();
    let mut i: usize = 0;
    while i < v.len()
        invariant
            i <= v@.len(),
            out@ == v@.take(i as int),
        decreases v@.len() - i,
    {
        let x = v[i].copy_val();
        out.push(x);
        proof {
            assert(v@.take(i + 1) =~= v@.take(i as int).push(v@[i as int]));
        }
        i = i + 1;
    }
    proof {
        assert(v@.take(v@.len() as int) =~= v@);
    }
    out
}

/// Is this slice strictly increasing under the element order?
pub fn is_sorted_and_no_dups<T: Orderable>(list: &[T]) -> (r: bool)
    ensures
        r == sorted(list@),
{
    let mut i: usize = 1;
    while i < list.len()
        invariant
            1 <= i,
            list@.len() > 0 ==> i <= list@.len(),
            forall|m: int| 0 <= m < i - 1 ==> below(#[trigger] list@[m], list@[m + 1]),
        decreases list@.len() - i,
    {
        match list[i - 1].rank_with(&list[i]) {
            Rank::Less => {},
            _ => {
                proof {
                    assert(!below(list@[i - 1], list@[i as int]));
                }
                return false;
            },
        }
        i = i + 1;
    }
    proof {
        lemma_sorted_from_adjacent(list@);
    }
    true
}

/// Insert an element at the boundary position the search found, keeping
/// the vector strictly sorted.
fn insert_at<T: Orderable>(members: &mut Vec<T>, k: usize, x: T)
    requires
        sorted(old(members)@),
        k <= old(members)@.len(),
        forall|i: int| 0 <= i < k ==> below(#[trigger] old(members)@[i], x),
        forall|i: int| k <= i < old(members)@.len() ==> below(x, #[trigger] old(members)@[i]),
    ensures
        final(members)@ == old(members)@.insert(k as int, x),
        sorted(final(members)@),
{
    proof {
        lemma_insert_sorted(members@, k as int, x);
    }
    members.insert(k, x);
}

impl<T: Orderable> Default for OrdListSet<T> {
    fn default() -> (r: Self)
        ensures
            r@ == Seq::<T>::empty(),
    {
        OrdListSet { members: Vec::new() }
    }
}

impl<T: Orderable> OrdListSet<T> {
    /// The set's invariant: its members are strictly increasing.
    pub open spec fn wf(self) -> bool {
        sorted(self@)
    }

    /// The set with no members.
    pub fn empty_set() -> (r: Self)
        ensures
            r@ == Seq::<T>::empty(),
            r.wf(),
    {
        OrdListSet { members: Vec::new() }
    }

    /// Build a set from arbitrary input: sort it and drop the ties, each
    /// member drawn from the input.  Input already strictly sorted comes
    /// out unchanged.
    pub fn from_vec(input: Vec<T>) -> (r: Self)
        ensures
            r.wf(),
            forall|x: T| contains_equiv(r@, x) == contains_equiv(input@, x),
            forall|i: int| 0 <= i < r@.len() ==> input@.contains(#[trigger] r@[i]),
            sorted(input@) ==> r@ == input@,
            eq_reflecting::<T>() ==> r@.to_set() == input@.to_set(),
    {
        let mut members: Vec<T> = Vec::new();
        let mut i: usize = 0;
        while i < input.len()
            invariant
                i <= input@.len(),
                sorted(members@),
                forall|x: T|
                    contains_equiv(members@, x) == contains_equiv(input@.take(i as int), x),
                forall|j: int| 0 <= j < members@.len() ==> input@.contains(#[trigger] members@[j]),
                sorted(input@) ==> members@ == input@.take(i as int),
            decreases input@.len() - i,
        {
            let ghost mem0 = members@;
            let x = input[i].copy_val();
            let k = seek_index(members.as_slice(), 0, &x, true);
            let tie: bool = if k < members.len() {
                matches!(members[k].rank_with(&x), Rank::Equal)
            } else {
                false
            };
            proof {
                lemma_order_laws::<T>();
                assert(input@.take(i + 1) =~= input@.take(i as int).push(input@[i as int]));
                lemma_push_membership(input@.take(i as int), input@[i as int]);
            }
            if tie {
                proof {
                    assert(equiv(mem0[k as int], x));
                    assert forall|y: T|
                        contains_equiv(members@, y) == contains_equiv(
                            input@.take(i + 1),
                            y,
                        ) by {
                        if equiv(input@[i as int], y) {
                            assert(equiv(mem0[k as int], y));
                            assert(contains_equiv(members@, y));
                        }
                    }
                    if sorted(input@) {
                        assert(mem0[k as int] == input@[k as int]);
                        assert(below(input@[k as int], input@[i as int]));
                        assert(false);
                    }
                }
            } else {
                proof {
                    assert forall|j: int| k <= j < mem0.len() implies below(
                        x,
                        #[trigger] mem0[j],
                    ) by {
                        if j > k {
                            assert(below(mem0[k as int], mem0[j]));
                        }
                    }
                    lemma_insert_membership(mem0, k as int, x);
                }
                insert_at(&mut members, k, x);
                proof {
                    assert forall|y: T|
                        contains_equiv(members@, y) == contains_equiv(
                            input@.take(i + 1),
                            y,
                        ) by {
                        assert(members@ == mem0.insert(k as int, x));
                        assert(contains_equiv(members@, y) == (contains_equiv(mem0, y) || equiv(
                            x,
                            y,
                        )));
                        assert(contains_equiv(input@.take(i + 1), y) == (contains_equiv(
                            input@.take(i as int),
                            y,
                        ) || equiv(input@[i as int], y)));
                    }
                    assert forall|j: int| 0 <= j < members@.len() implies input@.contains(
                        #[trigger] members@[j],
                    ) by {
                        if j < k {
                            assert(members@[j] == mem0[j]);
                        } else if j == k {
                            assert(members@[j] == input@[i as int]);
                        } else {
                            assert(members@[j] == mem0[j - 1]);
                        }
                    }
                    if sorted(input@) {
                        if k < mem0.len() {
                            assert(mem0[k as int] == input@[k as int]);
                            assert(below(input@[k as int], input@[i as int]));
                            assert(false);
                        }
                        assert(members@ =~= input@.take(i as int).push(input@[i as int]));
                    }
                }
            }
            i = i + 1;
        }
        proof {
            assert(input@.take(input@.len() as int) =~= input@);
            if eq_reflecting::<T>() {
                lemma_contains_equiv_is_contains(members@);
                lemma_contains_equiv_is_contains(input@);
                assert forall|x: T|
                    members@.to_set().contains(x) == input@.to_set().contains(x) by {
                    assert(contains_equiv(members@, x) == contains_equiv(input@, x));
                }
                assert(members@.to_set() =~= input@.to_set());
            }
        }
        OrdListSet { members }
    }

    /// Return number of members in this set.
    pub fn len(&self) -> (r: usize)
        ensures
            r == self@.len(),
    {
        self.members.len()
    }

    /// Return `true` if the set is empty.
    pub fn is_empty(&self) -> (r: bool)
        ensures
            r == (self@.len() == 0),
    {
        self.members.len() == 0
    }

    /// Do the members satisfy the set's invariant?
    pub fn is_valid(&self) -> (r: bool)
        ensures
            r == self.wf(),
    {
        is_sorted_and_no_dups(self.members.as_slice())
    }

    /// An iterator over the members in ascending order, with binary-search
    /// skip-ahead.
    pub fn iter<'a>(&'a self) -> (r: OrdListSetIter<'a, T>)
        requires
            self.wf(),
        ensures
            r.wf(),
            r.remaining() == self@,
    {
        OrdListSetIter::new(self.members.as_slice())
    }

    /// Does the set hold a member tied with the value?
    pub fn contains(&self, item: &T) -> (r: bool)
        requires
            self.wf(),
        ensures
            r == contains_equiv(self@, *item),
            eq_reflecting::<T>() ==> r == self@.to_set().contains(*item),
    {
        proof {
            lemma_order_laws::<T>();
            if eq_reflecting::<T>() {
                lemma_contains_equiv_is_contains(self@);
            }
        }
        let k = seek_index(self.members.as_slice(), 0, item, true);
        if k < self.members.len() {
            match self.members[k].rank_with(item) {
                Rank::Equal => {
                    proof {
                        assert(contains_equiv(self@, *item));
                    }
                    true
                },
                _ => {
                    proof {
                        assert forall|j: int| 0 <= j < self@.len() implies !equiv(
                            #[trigger] self@[j],
                            *item,
                        ) by {
                            if j < k {
                                assert(below(self@[j], *item));
                            } else if j > k {
                                assert(below(self@[k as int], self@[j]));
                            }
                        }
                    }
                    false
                },
            }
        } else {
            proof {
                assert forall|j: int| 0 <= j < self@.len() implies !equiv(
                    #[trigger] self@[j],
                    *item,
                ) by {
                    assert(below(self@[j], *item));
                }
            }
            false
        }
    }

    /// The member at the given position, in ascending order.
    pub fn get(&self, index: usize) -> (r: Option<&T>)
        ensures
            match r {
                Some(x) => index < self@.len() && *x == self@[index as int],
                None => index >= self@.len(),
            },
    {
        if index < self.members.len() {
            Some(&self.members[index])
        } else {
            None
        }
    }

    /// The minimum member, if any.
    pub fn first(&self) -> (r: Option<&T>)
        ensures
            match r {
                Some(x) => self@.len() > 0 && *x == self@[0],
                None => self@.len() == 0,
            },
    {
        if self.members.len() > 0 {
            Some(&self.members[0])
        } else {
            None
        }
    }

    /// The maximum member, if any.
    pub fn last(&self) -> (r: Option<&T>)
        ensures
            match r {
                Some(x) => self@.len() > 0 && *x == self@[self@.len() - 1],
                None => self@.len() == 0,
            },
    {
        if self.members.len() > 0 {
            Some(&self.members[self.members.len() - 1])
        } else {
            None
        }
    }

    /// The minimum member together with the set of all the others.
    pub fn first_and_tail<'a>(&'a self) -> (r: Option<(&'a T, OrdListSet<T>)>)
        requires
            self.wf(),
        ensures
            match r {
                Some(p) => {
                    &&& self@.len() > 0
                    &&& *p.0 == self@[0]
                    &&& p.1@ == self@.skip(1)
                    &&& p.1.wf()
                },
                None => self@.len() == 0,
            },
    {
        if self.members.len() > 0 {
            let first = &self.members[0];
            let tail = self.get_subset(&UsizeRangeBounds::RangeFrom(1));
            proof {
                assert(self@.subrange(1, self@.len() as int) =~= self@.skip(1));
            }
            Some((first, tail))
        } else {
            None
        }
    }

    /// The members of this set as a fresh vector, in ascending order.
    pub fn to_vec(&self) -> (r: Vec<T>)
        ensures
            r@ == self@,
    {
        copy_slice(self.members.as_slice())
    }

    /// A subslice of the members selected by position.
    pub fn items<'a>(&'a self, bounds: &UsizeRangeBounds) -> (r: &'a [T])
        ensures
            r@ == usize_range_slice(self@, *bounds),
    {
        let n = self.members.len();
        let v = self.members.as_slice();
        match bounds {
            UsizeRangeBounds::Range(start, end) => {
                if *start <= *end && *end <= n {
                    slice_subrange(v, *start, *end)
                } else {
                    empty_subslice(v)
                }
            },
            UsizeRangeBounds::RangeFrom(start) => {
                if *start <= n {
                    slice_subrange(v, *start, n)
                } else {
                    empty_subslice(v)
                }
            },
            UsizeRangeBounds::RangeFull => slice_subrange(v, 0, n),
            UsizeRangeBounds::RangeInclusive(start, end) => {
                if *end < n && *start <= *end + 1 {
                    slice_subrange(v, *start, *end + 1)
                } else {
                    empty_subslice(v)
                }
            },
            UsizeRangeBounds::RangeTo(end) => {
                if *end <= n {
                    slice_subrange(v, 0, *end)
                } else {
                    empty_subslice(v)
                }
            },
            UsizeRangeBounds::RangeToInclusive(end) => {
                if *end < n {
                    slice_subrange(v, 0, *end + 1)
                } else {
                    empty_subslice(v)
                }
            },
        }
    }

    /// A subslice of the members selected by element values: the boundary
    /// values are turned into positions by binary search.
    pub fn item_items<'a>(&'a self, range: &ItemRangeBounds<T>) -> (r: &'a [T])
        requires
            self.wf(),
        ensures
            r@ == item_range_slice(self@, *range),
    {
        let n = self.members.len();
        let v = self.members.as_slice();
        match range {
            ItemRangeBounds::Range(start, end) => {
                let lo = lower_position(v, start);
                let hi = lower_position(v, end);
                if lo <= hi {
                    slice_subrange(v, lo, hi)
                } else {
                    empty_subslice(v)
                }
            },
            ItemRangeBounds::RangeFrom(start) => {
                let lo = lower_position(v, start);
                slice_subrange(v, lo, n)
            },
            ItemRangeBounds::RangeFull => slice_subrange(v, 0, n),
            ItemRangeBounds::RangeInclusive(start, end) => {
                let lo = lower_position(v, start);
                let hi = upper_position(v, end);
                if lo <= hi {
                    slice_subrange(v, lo, hi)
                } else {
                    empty_subslice(v)
                }
            },
            ItemRangeBounds::RangeTo(end) => {
                let hi = lower_position(v, end);
                slice_subrange(v, 0, hi)
            },
            ItemRangeBounds::RangeToInclusive(end) => {
                let hi = upper_position(v, end);
                slice_subrange(v, 0, hi)
            },
        }
    }

    /// A new set holding the members a position range selects.
    pub fn get_subset(&self, bounds: &UsizeRangeBounds) -> (r: OrdListSet<T>)
        requires
            self.wf(),
        ensures
            r@ == usize_range_slice(self@, *bounds),
            r.wf(),
    {
        let items = self.items(bounds);
        let members = copy_slice(items);
        proof {
            lemma_usize_range_sorted(self@, *bounds);
        }
        OrdListSet { members }
    }

    /// A new set holding the members a value range selects.
    pub fn get_item_subset(&self, range: &ItemRangeBounds<T>) -> (r: OrdListSet<T>)
        requires
            self.wf(),
        ensures
            r@ == item_range_slice(self@, *range),
            r.wf(),
    {
        let items = self.item_items(range);
        let members = copy_slice(items);
        proof {
            lemma_item_range_sorted(self@, *range);
        }
        OrdListSet { members }
    }

    /// Visits the members of `self` not tied with a member of `other`, in
    /// ascending order.
    pub fn difference<'a>(&'a self, other: &'a Self) -> (r: Difference<'a, T>)
        requires
            self.wf(),
            other.wf(),
        ensures
            r.wf(),
            r.remaining() == diff_seq(self@, other@),
    {
        Difference::new(self.iter(), other.iter())
    }

    /// Visits the members present in both `self` and `other`, in ascending
    /// order.
    pub fn intersection<'a>(&'a self, other: &'a Self) -> (r: Intersection<'a, T>)
        requires
            self.wf(),
            other.wf(),
        ensures
            r.wf(),
            r.remaining() == inter_seq(self@, other@),
    {
        Intersection::new(self.iter(), other.iter())
    }

    /// Visits the members present in exactly one of `self` and `other`, in
    /// ascending order.
    pub fn symmetric_difference<'a>(&'a self, other: &'a Self) -> (r: SymmetricDifference<'a, T>)
        requires
            self.wf(),
            other.wf(),
        ensures
            r.wf(),
            r.remaining() == sym_diff_seq(self@, other@),
    {
        SymmetricDifference::new(self.iter(), other.iter())
    }

    /// Visits the members of `self` or `other`, ties once, in ascending
    /// order.
    pub fn union<'a>(&'a self, other: &'a Self) -> (r: Union<'a, T>)
        requires
            self.wf(),
            other.wf(),
        ensures
            r.wf(),
            r.remaining() == union_seq(self@, other@),
    {
        Union::new(self.iter(), other.iter())
    }

    /// Do `self` and `other` share no members?
    pub fn is_disjoint(&self, other: &Self) -> (r: bool)
        requires
            self.wf(),
            other.wf(),
        ensures
            r == disjoint_equiv(self@, other@),
            eq_reflecting::<T>() ==> r == self@.to_set().disjoint(other@.to_set()),
    {
        proof {
            if eq_reflecting::<T>() {
                lemma_disjoint_equiv_as_set(self@, other@);
            }
        }
        relations::is_disjoint(self.iter(), other.iter())
    }

    /// Is every member of `self` in `other`, and some member of `other`
    /// not in `self`?
    pub fn is_proper_subset(&self, other: &Self) -> (r: bool)
        requires
            self.wf(),
            other.wf(),
        ensures
            r == (subset_equiv(self@, other@) && !subset_equiv(other@, self@)),
            eq_reflecting::<T>() ==> r == (self@.to_set().subset_of(other@.to_set())
                && self@.to_set() != other@.to_set()),
    {
        proof {
            if eq_reflecting::<T>() {
                lemma_subset_equiv_as_set(self@, other@);
                lemma_subset_equiv_as_set(other@, self@);
                if self@.to_set().subset_of(other@.to_set()) && other@.to_set().subset_of(
                    self@.to_set(),
                ) {
                    assert(self@.to_set() =~= other@.to_set());
                }
            }
        }
        relations::is_proper_subset(self.iter(), other.iter())
    }

    /// Is every member of `other` in `self`, and some member of `self`
    /// not in `other`?
    pub fn is_proper_superset(&self, other: &Self) -> (r: bool)
        requires
            self.wf(),
            other.wf(),
        ensures
            r == (subset_equiv(other@, self@) && !subset_equiv(self@, other@)),
            eq_reflecting::<T>() ==> r == (other@.to_set().subset_of(self@.to_set())
                && self@.to_set() != other@.to_set()),
    {
        proof {
            if eq_reflecting::<T>() {
                lemma_subset_equiv_as_set(other@, self@);
                lemma_subset_equiv_as_set(self@, other@);
                if other@.to_set().subset_of(self@.to_set()) && self@.to_set().subset_of(
                    other@.to_set(),
                ) {
                    assert(self@.to_set() =~= other@.to_set());
                }
            }
        }
        relations::is_proper_superset(self.iter(), other.iter())
    }

    /// Is every member of `self` in `other`?
    pub fn is_subset(&self, other: &Self) -> (r: bool)
        requires
            self.wf(),
            other.wf(),
        ensures
            r == subset_equiv(self@, other@),
            eq_reflecting::<T>() ==> r == self@.to_set().subset_of(other@.to_set()),
    {
        proof {
            if eq_reflecting::<T>() {
                lemma_subset_equiv_as_set(self@, other@);
            }
        }
        relations::is_subset(self.iter(), other.iter())
    }

    /// Is every member of `other` in `self`?
    pub fn is_superset(&self, other: &Self) -> (r: bool)
        requires
            self.wf(),
            other.wf(),
        ensures
            r == subset_equiv(other@, self@),
            eq_reflecting::<T>() ==> r == other@.to_set().subset_of(self@.to_set()),
    {
        proof {
            if eq_reflecting::<T>() {
                lemma_subset_equiv_as_set(other@, self@);
            }
        }
        relations::is_superset(self.iter(), other.iter())
    }
}

/// The empty subslice of a slice.
fn empty_subslice<'a, T>(v: &'a [T]) -> (r: &'a [T])
    ensures
        r@ == Seq::<T>::empty(),
{
    let r = slice_subrange(v, 0, 0);
    proof {
        assert(v@.subrange(0, 0) =~= Seq::<T>::empty());
    }
    r
}

/// The position of the first member at or above the value.
fn lower_position<T: Orderable>(v: &[T], t: &T) -> (k: usize)
    requires
        sorted(v@),
    ensures
        0 <= k <= v@.len(),
        k == below_count(v@, *t),
{
    let k = seek_index(v, 0, t, true);
    proof {
        lemma_drop_ahead_at(v@, *t, true, k as int);
    }
    k
}

/// The position just past the last member at or below the value.
fn upper_position<T: Orderable>(v: &[T], t: &T) -> (k: usize)
    requires
        sorted(v@),
    ensures
        0 <= k <= v@.len(),
        k == through_count(v@, *t),
{
    let k = seek_index(v, 0, t, false);
    proof {
        lemma_drop_ahead_at(v@, *t, false, k as int);
    }
    k
}

/// A clipped slice of a strictly sorted sequence is strictly sorted.
proof fn lemma_clipped_sorted<T: Orderable>(s: Seq<T>, lo: int, hi: int)
    requires
        sorted(s),
    ensures
        sorted(clipped(s, lo, hi)),
{
    if 0 <= lo <= hi <= s.len() {
        let r = clipped(s, lo, hi);
        assert forall|i: int, j: int| 0 <= i < j < r.len() implies below(r[i], r[j]) by {
            assert(r[i] == s[i + lo]);
            assert(r[j] == s[j + lo]);
        }
    }
}

/// What a position range selects from a sorted sequence is sorted.
proof fn lemma_usize_range_sorted<T: Orderable>(s: Seq<T>, b: UsizeRangeBounds)
    requires
        sorted(s),
    ensures
        sorted(usize_range_slice(s, b)),
{
    match b {
        UsizeRangeBounds::Range(start, end) => lemma_clipped_sorted(s, start as int, end as int),
        UsizeRangeBounds::RangeFrom(start) => lemma_clipped_sorted(
            s,
            start as int,
            s.len() as int,
        ),
        UsizeRangeBounds::RangeFull => {},
        UsizeRangeBounds::RangeInclusive(start, end) => {
            if end < s.len() {
                lemma_clipped_sorted(s, start as int, end + 1);
            }
        },
        UsizeRangeBounds::RangeTo(end) => lemma_clipped_sorted(s, 0, end as int),
        UsizeRangeBounds::RangeToInclusive(end) => {
            if end < s.len() {
                lemma_clipped_sorted(s, 0, end + 1);
            }
        },
    }
}

/// What a value range selects from a sorted sequence is sorted.
proof fn lemma_item_range_sorted<T: Orderable>(s: Seq<T>, b: ItemRangeBounds<T>)
    requires
        sorted(s),
    ensures
        sorted(item_range_slice(s, b)),
{
    match b {
        ItemRangeBounds::Range(start, end) => lemma_clipped_sorted(
            s,
            below_count(s, start),
            below_count(s, end),
        ),
        ItemRangeBounds::RangeFrom(start) => lemma_clipped_sorted(
            s,
            below_count(s, start),
            s.len() as int,
        ),
        ItemRangeBounds::RangeFull => {},
        ItemRangeBounds::RangeInclusive(start, end) => lemma_clipped_sorted(
            s,
            below_count(s, start),
            through_count(s, end),
        ),
        ItemRangeBounds::RangeTo(end) => lemma_clipped_sorted(s, 0, below_count(s, end)),
        ItemRangeBounds::RangeToInclusive(end) => lemma_clipped_sorted(s, 0, through_count(s, end)),
    }
}


/// Drain a cursor into a vector: plain iteration by repeated `next`.
#[verifier::loop_isolation(false)]
pub fn collect_vec<'a, T: Orderable + 'a, C: SkipAheadIterator<'a, T>>(cursor: C) -> (r: Vec<T>)
    requires
        cursor.wf(),
    ensures
        r@ == cursor.remaining(),
{
    let mut c = cursor;
    let mut out: Vec<T> = Vec::new();
    loop
        invariant
            c.wf(),
            out@ + c.remaining() == cursor.remaining(),
        decreases c.remaining().len(),
    {
        let ghost o0 = out@;
        let ghost rem = c.remaining();
        match c.next() {
            Some(x) => {
                out.push(x.copy_val());
                proof {
                    assert(o0.push(rem[0]) + rem.skip(1) =~= o0 + rem);
                }
            },
            None => {
                proof {
                    assert(out@ + c.remaining() =~= out@);
                }
                return out;
            },
        }
    }
}

impl<'a, T: Orderable> OrdListSetIter<'a, T> {
    /// Drain the rest of this cursor into a vector.
    pub fn into_vec(self) -> (r: Vec<T>)
        requires
            self.wf(),
        ensures
            r@ == self.remaining(),
    {
        collect_vec(self)
    }
}

impl<'a, T: Orderable> AdvanceUntilIter<'a, T> {
    /// Drain the rest of this cursor into a vector.
    pub fn into_vec(self) -> (r: Vec<T>)
        requires
            self.wf(),
        ensures
            r@ == self.remaining(),
    {
        collect_vec(self)
    }
}

impl<'a, T: Orderable> Union<'a, T> {
    /// Drain into a vector.
    pub fn into_vec(self) -> (r: Vec<T>)
        requires
            self.wf(),
        ensures
            r@ == self.remaining(),
    {
        collect_vec(self)
    }

    /// Materialize into a concrete set.
    pub fn into_set(self) -> (r: OrdListSet<T>)
        requires
            self.wf(),
        ensures
            r.wf(),
            r@ == self.remaining(),
    {
        proof {
            self.remaining_sorted();
        }
        let members = collect_vec(self);
        OrdListSet { members }
    }
}

impl<'a, T: Orderable> Intersection<'a, T> {
    /// Drain into a vector.
    pub fn into_vec(self) -> (r: Vec<T>)
        requires
            self.wf(),
        ensures
            r@ == self.remaining(),
    {
        collect_vec(self)
    }

    /// Materialize into a concrete set.
    pub fn into_set(self) -> (r: OrdListSet<T>)
        requires
            self.wf(),
        ensures
            r.wf(),
            r@ == self.remaining(),
    {
        proof {
            self.remaining_sorted();
        }
        let members = collect_vec(self);
        OrdListSet { members }
    }
}

impl<'a, T: Orderable> Difference<'a, T> {
    /// Drain into a vector.
    pub fn into_vec(self) -> (r: Vec<T>)
        requires
            self.wf(),
        ensures
            r@ == self.remaining(),
    {
        collect_vec(self)
    }

    /// Materialize into a concrete set.
    pub fn into_set(self) -> (r: OrdListSet<T>)
        requires
            self.wf(),
        ensures
            r.wf(),
            r@ == self.remaining(),
    {
        proof {
            self.remaining_sorted();
        }
        let members = collect_vec(self);
        OrdListSet { members }
    }
}

impl<'a, T: Orderable> SymmetricDifference<'a, T> {
    /// Drain into a vector.
    pub fn into_vec(self) -> (r: Vec<T>)
        requires
            self.wf(),
        ensures
            r@ == self.remaining(),
    {
        collect_vec(self)
    }

    /// Materialize into a concrete set.
    pub fn into_set(self) -> (r: OrdListSet<T>)
        requires
            self.wf(),
        ensures
            r.wf(),
            r@ == self.remaining(),
    {
        proof {
            self.remaining_sorted();
        }
        let members = collect_vec(self);
        OrdListSet { members }
    }
}

impl<'a, T: Orderable + 'a, L: SkipAheadIterator<'a, T>, R: SkipAheadIterator<'a, T>> OrdSetOpsIter<
    'a,
    T,
    L,
    R,
> {
    /// Drain into a vector.
    pub fn into_vec(self) -> (r: Vec<T>)
        requires
            self.wf(),
        ensures
            r@ == self.remaining(),
    {
        collect_vec(self)
    }

    /// Materialize into a concrete set.
    pub fn into_set(self) -> (r: OrdListSet<T>)
        requires
            self.wf(),
        ensures
            r.wf(),
            r@ == self.remaining(),
    {
        proof {
            self.remaining_sorted();
        }
        let members = collect_vec(self);
        OrdListSet { members }
    }
}

} // verus!
