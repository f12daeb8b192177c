//! Set-relationship predicates over any two cursors: single-pass lock-step
//! comparisons that short-circuit as soon as the answer is determined and
//! skip ahead over non-matching runs.

use vstd::prelude::*;

verus! {

use crate::order::{Orderable, Rank, equiv, lemma_order_laws};
use crate::seqs::{
    subset_equiv, disjoint_equiv, contains_equiv, lemma_no_tie_above, lemma_subset_drop_right,
    lemma_subset_tie_step, lemma_disjoint_drop_left, lemma_disjoint_drop_right,
    lemma_drop_ahead_shape,
};
use crate::cursor::SkipAheadIterator;

/// Do the two cursors yield no tied pair of elements?
#[verifier::loop_isolation(false)]
pub fn is_disjoint<'a, T: Orderable + 'a, L: SkipAheadIterator<'a, T>, R: SkipAheadIterator<'a, T>>(
    l: L,
    r: R,
) -> (res: bool)
    requires
        l.wf(),
        r.wf(),
    ensures
        res == disjoint_equiv(l.remaining(), r.remaining()),
{
    let ghost a0 = l.remaining();
    let ghost b0 = r.remaining();
    let mut lc = l;
    let mut rc = r;
    loop
        invariant
            lc.wf(),
            rc.wf(),
            disjoint_equiv(lc.remaining(), rc.remaining()) == disjoint_equiv(a0, b0),
        decreases lc.remaining().len() + rc.remaining().len(),
    {
        let ghost la = lc.remaining();
        let ghost ra = rc.remaining();
        let li = lc.peep();
        let ri = rc.peep();
        match (li, ri) {
            (Some(a), Some(b)) => {
                match a.rank_with(b) {
                    Rank::Less => {
                        proof {
                            lemma_order_laws::<T>();
                            lc.remaining_sorted();
                            rc.remaining_sorted();
                            lemma_disjoint_drop_left(la, ra, ra[0]);
                            lemma_drop_ahead_shape(la, ra[0], true);
                        }
                        lc.advance_until(b);
                    },
                    Rank::Greater => {
                        proof {
                            lemma_order_laws::<T>();
                            lc.remaining_sorted();
                            rc.remaining_sorted();
                            lemma_disjoint_drop_right(la, ra, la[0]);
                            lemma_drop_ahead_shape(ra, la[0], true);
                        }
                        rc.advance_until(a);
                    },
                    Rank::Equal => {
                        proof {
                            assert(equiv(la[0], ra[0]));
                            assert(!disjoint_equiv(la, ra));
                        }
                        return false;
                    },
                }
            },
            _ => {
                return true;
            },
        }
    }
}

/// Does every element of the left cursor have a tie in the right one?
#[verifier::loop_isolation(false)]
pub fn is_subset<'a, T: Orderable + 'a, L: SkipAheadIterator<'a, T>, R: SkipAheadIterator<'a, T>>(
    l: L,
    r: R,
) -> (res: bool)
    requires
        l.wf(),
        r.wf(),
    ensures
        res == subset_equiv(l.remaining(), r.remaining()),
{
    let ghost a0 = l.remaining();
    let ghost b0 = r.remaining();
    let mut lc = l;
    let mut rc = r;
    loop
        invariant
            lc.wf(),
            rc.wf(),
            subset_equiv(lc.remaining(), rc.remaining()) == subset_equiv(a0, b0),
        decreases lc.remaining().len() + rc.remaining().len(),
    {
        let ghost la = lc.remaining();
        let ghost ra = rc.remaining();
        let li = lc.peep();
        let ri = rc.peep();
        match (li, ri) {
            (Some(a), Some(b)) => {
                match a.rank_with(b) {
                    Rank::Less => {
                        proof {
                            lemma_order_laws::<T>();
                            rc.remaining_sorted();
                            lemma_no_tie_above(la[0], ra);
                            assert(equiv(la[0], la[0]));
                            assert(!contains_equiv(ra, la[0]));
                            assert(!subset_equiv(la, ra));
                        }
                        return false;
                    },
                    Rank::Greater => {
                        proof {
                            lemma_order_laws::<T>();
                            lc.remaining_sorted();
                            rc.remaining_sorted();
                            lemma_subset_drop_right(la, ra, la[0]);
                            lemma_drop_ahead_shape(ra, la[0], true);
                        }
                        rc.advance_until(a);
                    },
                    Rank::Equal => {
                        proof {
                            lc.remaining_sorted();
                            rc.remaining_sorted();
                            lemma_subset_tie_step(la, ra);
                        }
                        lc.next();
                        rc.next();
                    },
                }
            },
            (Some(_), None) => {
                proof {
                    assert(!contains_equiv(ra, la[0]));
                    assert(!subset_equiv(la, ra));
                }
                return false;
            },
            (None, _) => {
                return true;
            },
        }
    }
}

/// Does every element of the right cursor have a tie in the left one?
pub fn is_superset<'a, T: Orderable + 'a, L: SkipAheadIterator<'a, T>, R: SkipAheadIterator<'a, T>>(
    l: L,
    r: R,
) -> (res: bool)
    requires
        l.wf(),
        r.wf(),
    ensures
        res == subset_equiv(r.remaining(), l.remaining()),
{
    is_subset(r, l)
}

/// Is the left cursor a subset of the right one which is not a subset
/// back?
#[verifier::loop_isolation(false)]
pub fn is_proper_subset<
    'a,
    T: Orderable + 'a,
    L: SkipAheadIterator<'a, T>,
    R: SkipAheadIterator<'a, T>,
>(l: L, r: R) -> (res: bool)
    requires
        l.wf(),
        r.wf(),
    ensures
        res == (subset_equiv(l.remaining(), r.remaining()) && !subset_equiv(
            r.remaining(),
            l.remaining(),
        )),
{
    let ghost a0 = l.remaining();
    let ghost b0 = r.remaining();
    let mut lc = l;
    let mut rc = r;
    let mut result: bool = false;
    loop
        invariant
            lc.wf(),
            rc.wf(),
            subset_equiv(lc.remaining(), rc.remaining()) == subset_equiv(a0, b0),
            result ==> !subset_equiv(b0, a0),
            !result ==> (subset_equiv(rc.remaining(), lc.remaining()) == subset_equiv(b0, a0)),
        decreases lc.remaining().len() + rc.remaining().len(),
    {
        let ghost la = lc.remaining();
        let ghost ra = rc.remaining();
        let li = lc.peep();
        let ri = rc.peep();
        match (li, ri) {
            (Some(a), Some(b)) => {
                match a.rank_with(b) {
                    Rank::Less => {
                        proof {
                            lemma_order_laws::<T>();
                            rc.remaining_sorted();
                            lemma_no_tie_above(la[0], ra);
                            assert(equiv(la[0], la[0]));
                            assert(!contains_equiv(ra, la[0]));
                            assert(!subset_equiv(la, ra));
                        }
                        return false;
                    },
                    Rank::Greater => {
                        proof {
                            lemma_order_laws::<T>();
                            lc.remaining_sorted();
                            rc.remaining_sorted();
                            if !result {
                                lemma_no_tie_above(ra[0], la);
                                assert(equiv(ra[0], ra[0]));
                                assert(!contains_equiv(la, ra[0]));
                                assert(!subset_equiv(ra, la));
                            }
                            lemma_subset_drop_right(la, ra, la[0]);
                            lemma_drop_ahead_shape(ra, la[0], true);
                        }
                        result = true;
                        rc.advance_until(a);
                    },
                    Rank::Equal => {
                        proof {
                            lemma_order_laws::<T>();
                            lc.remaining_sorted();
                            rc.remaining_sorted();
                            lemma_subset_tie_step(la, ra);
                            lemma_subset_tie_step(ra, la);
                        }
                        lc.next();
                        rc.next();
                    },
                }
            },
            (Some(_), None) => {
                proof {
                    assert(!contains_equiv(ra, la[0]));
                    assert(!subset_equiv(la, ra));
                }
                return false;
            },
            (None, Some(_)) => {
                proof {
                    if !result {
                        assert(!contains_equiv(la, ra[0]));
                        assert(!subset_equiv(ra, la));
                    }
                }
                return true;
            },
            (None, None) => {
                proof {
                    if !result {
                        assert(subset_equiv(ra, la));
                    }
                }
                return result;
            },
        }
    }
}

/// Is the right cursor a subset of the left one which is not a subset
/// back?
pub fn is_proper_superset<
    'a,
    T: Orderable + 'a,
    L: SkipAheadIterator<'a, T>,
    R: SkipAheadIterator<'a, T>,
>(l: L, r: R) -> (res: bool)
    requires
        l.wf(),
        r.wf(),
    ensures
        res == (subset_equiv(r.remaining(), l.remaining()) && !subset_equiv(
            l.remaining(),
            r.remaining(),
        )),
{
    is_proper_subset(r, l)
}

} // verus!
