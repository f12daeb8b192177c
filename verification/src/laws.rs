//! The laws of the merge algebra: commutativity of the symmetric merges,
//! disjointness of the two difference directions, the tie between the
//! disjointness predicate and an empty intersection, and the agreement of
//! every merge with the plain mathematical set operations.

use vstd::prelude::*;

verus! {

use crate::order::{Orderable, below, equiv, eq_reflecting, lemma_order_laws};
use crate::seqs::{
    sorted, contains_equiv, subset_equiv, disjoint_equiv, union_seq, inter_seq, diff_seq,
    sym_diff_seq,
    lemma_sorted_skip, lemma_head_membership, lemma_sorted_no_later_tie, lemma_union_props,
    lemma_inter_props, lemma_diff_props, lemma_sym_diff_props, lemma_union_membership,
    lemma_inter_membership, lemma_diff_membership, lemma_sym_diff_membership,
};

/// Two strictly sorted sequences with ties in the same places are the same
/// sequence, for elements whose ties are equalities.
pub proof fn lemma_sorted_unique<T: Orderable>(a: Seq<T>, b: Seq<T>)
    requires
        sorted(a),
        sorted(b),
        eq_reflecting::<T>(),
        forall|x: T| contains_equiv(a, x) == contains_equiv(b, x),
    ensures
        a == b,
    decreases a.len(),
{
    lemma_order_laws::<T>();
    if a.len() == 0 {
        if b.len() > 0 {
            assert(equiv(b[0], b[0]));
            assert(contains_equiv(b, b[0]));
            assert(false);
        }
        assert(a =~= b);
    } else if b.len() == 0 {
        assert(equiv(a[0], a[0]));
        assert(contains_equiv(a, a[0]));
        assert(false);
    } else {
        assert(equiv(a[0], a[0]));
        assert(contains_equiv(b, a[0]));
        let k = choose|k: int| 0 <= k < b.len() && equiv(b[k], a[0]);
        assert(equiv(b[0], b[0]));
        assert(contains_equiv(a, b[0]));
        let m = choose|m: int| 0 <= m < a.len() && equiv(a[m], b[0]);
        if k > 0 {
            assert(below(b[0], b[k]));
        }
        if m > 0 {
            assert(below(a[0], a[m]));
        }
        assert(equiv(a[0], b[0]));
        assert(a[0] == b[0]);
        lemma_sorted_skip(a, 1);
        lemma_sorted_skip(b, 1);
        lemma_head_membership(a);
        lemma_head_membership(b);
        lemma_sorted_no_later_tie(a);
        lemma_sorted_no_later_tie(b);
        assert forall|x: T|
            contains_equiv(a.skip(1), x) == contains_equiv(b.skip(1), x) by {
            if contains_equiv(a.skip(1), x) {
                assert(contains_equiv(a, x));
                assert(contains_equiv(b, x));
                if equiv(b[0], x) {
                    assert(equiv(a[0], x));
                    assert(false);
                }
            }
            if contains_equiv(b.skip(1), x) {
                assert(contains_equiv(b, x));
                assert(contains_equiv(a, x));
                if equiv(a[0], x) {
                    assert(equiv(b[0], x));
                    assert(false);
                }
            }
        }
        lemma_sorted_unique(a.skip(1), b.skip(1));
        assert forall|i: int| 0 <= i < a.len() implies a[i] == b[i] by {
            if i > 0 {
                assert(a.skip(1)[i - 1] == a[i]);
                assert(b.skip(1)[i - 1] == b[i]);
            }
        }
        assert(a =~= b);
    }
}

/// The union merge does not depend on the order of its inputs.
pub proof fn lemma_union_commutes<T: Orderable>(a: Seq<T>, b: Seq<T>)
    requires
        sorted(a),
        sorted(b),
        eq_reflecting::<T>(),
    ensures
        union_seq(a, b) == union_seq(b, a),
{
    lemma_union_props(a, b);
    lemma_union_props(b, a);
    lemma_union_membership(a, b);
    lemma_union_membership(b, a);
    assert forall|x: T|
        contains_equiv(union_seq(a, b), x) == contains_equiv(union_seq(b, a), x) by {
        assert(contains_equiv(union_seq(a, b), x) == (contains_equiv(a, x) || contains_equiv(
            b,
            x,
        )));
        assert(contains_equiv(union_seq(b, a), x) == (contains_equiv(b, x) || contains_equiv(
            a,
            x,
        )));
    }
    lemma_sorted_unique(union_seq(a, b), union_seq(b, a));
}

/// The intersection merge does not depend on the order of its inputs.
pub proof fn lemma_inter_commutes<T: Orderable>(a: Seq<T>, b: Seq<T>)
    requires
        sorted(a),
        sorted(b),
        eq_reflecting::<T>(),
    ensures
        inter_seq(a, b) == inter_seq(b, a),
{
    lemma_inter_props(a, b);
    lemma_inter_props(b, a);
    lemma_inter_membership(a, b);
    lemma_inter_membership(b, a);
    assert forall|x: T|
        contains_equiv(inter_seq(a, b), x) == contains_equiv(inter_seq(b, a), x) by {
        assert(contains_equiv(inter_seq(a, b), x) == (contains_equiv(a, x) && contains_equiv(
            b,
            x,
        )));
        assert(contains_equiv(inter_seq(b, a), x) == (contains_equiv(b, x) && contains_equiv(
            a,
            x,
        )));
    }
    lemma_sorted_unique(inter_seq(a, b), inter_seq(b, a));
}

/// The symmetric-difference merge does not depend on the order of its
/// inputs.
pub proof fn lemma_sym_diff_commutes<T: Orderable>(a: Seq<T>, b: Seq<T>)
    requires
        sorted(a),
        sorted(b),
        eq_reflecting::<T>(),
    ensures
        sym_diff_seq(a, b) == sym_diff_seq(b, a),
{
    lemma_sym_diff_props(a, b);
    lemma_sym_diff_props(b, a);
    lemma_sym_diff_membership(a, b);
    lemma_sym_diff_membership(b, a);
    assert forall|x: T|
        contains_equiv(sym_diff_seq(a, b), x) == contains_equiv(sym_diff_seq(b, a), x) by {
        assert(contains_equiv(sym_diff_seq(a, b), x) == (contains_equiv(a, x) != contains_equiv(
            b,
            x,
        )));
        assert(contains_equiv(sym_diff_seq(b, a), x) == (contains_equiv(b, x) != contains_equiv(
            a,
            x,
        )));
    }
    lemma_sorted_unique(sym_diff_seq(a, b), sym_diff_seq(b, a));
}

/// The difference merge is not symmetric, but its two directions never
/// share an element: their intersection merge is empty.
pub proof fn lemma_diff_opposites_disjoint<T: Orderable>(a: Seq<T>, b: Seq<T>)
    requires
        sorted(a),
        sorted(b),
    ensures
        inter_seq(diff_seq(a, b), diff_seq(b, a)) == Seq::<T>::empty(),
{
    lemma_order_laws::<T>();
    lemma_diff_props(a, b);
    lemma_diff_props(b, a);
    lemma_diff_membership(a, b);
    lemma_diff_membership(b, a);
    lemma_inter_membership(diff_seq(a, b), diff_seq(b, a));
    let u = inter_seq(diff_seq(a, b), diff_seq(b, a));
    if u.len() > 0 {
        assert(equiv(u[0], u[0]));
        assert(contains_equiv(u, u[0]));
        assert(contains_equiv(diff_seq(a, b), u[0]) && contains_equiv(diff_seq(b, a), u[0]));
        assert(contains_equiv(a, u[0]) && !contains_equiv(b, u[0]));
        assert(contains_equiv(b, u[0]) && !contains_equiv(a, u[0]));
        assert(false);
    }
    assert(u =~= Seq::<T>::empty());
}

/// Two sorted inputs are disjoint exactly when their intersection merge is
/// empty.
pub proof fn lemma_disjoint_iff_empty_intersection<T: Orderable>(a: Seq<T>, b: Seq<T>)
    requires
        sorted(a),
        sorted(b),
    ensures
        disjoint_equiv(a, b) == (inter_seq(a, b).len() == 0),
{
    lemma_order_laws::<T>();
    lemma_inter_membership(a, b);
    let u = inter_seq(a, b);
    if u.len() > 0 {
        assert(equiv(u[0], u[0]));
        assert(contains_equiv(u, u[0]));
        assert(contains_equiv(a, u[0]));
        assert(contains_equiv(b, u[0]));
        let i = choose|i: int| 0 <= i < a.len() && equiv(a[i], u[0]);
        let j = choose|j: int| 0 <= j < b.len() && equiv(b[j], u[0]);
        assert(equiv(a[i], b[j]));
        assert(!disjoint_equiv(a, b));
    } else {
        if !disjoint_equiv(a, b) {
            let (i, j) = choose|i: int, j: int|
                0 <= i < a.len() && 0 <= j < b.len() && equiv(a[i], b[j]);
            assert(equiv(a[i], a[i]));
            assert(contains_equiv(a, a[i]));
            assert(equiv(b[j], a[i]));
            assert(contains_equiv(b, a[i]));
            assert(contains_equiv(u, a[i]));
            assert(false);
        }
    }
}

/// For elements whose ties are equalities, having a tie in a sequence is
/// plain membership in its element set.
pub proof fn lemma_contains_equiv_is_contains<T: Orderable>(s: Seq<T>)
    requires
        eq_reflecting::<T>(),
    ensures
        forall|x: T| contains_equiv(s, x) == s.to_set().contains(x),
{
    lemma_order_laws::<T>();
    assert forall|x: T| contains_equiv(s, x) == s.to_set().contains(x) by {
        if contains_equiv(s, x) {
            let i = choose|i: int| 0 <= i < s.len() && equiv(s[i], x);
            assert(s[i] == x);
            assert(s.contains(x));
        }
        if s.to_set().contains(x) {
            let i = choose|i: int| 0 <= i < s.len() && s[i] == x;
            assert(equiv(s[i], x));
            assert(contains_equiv(s, x));
        }
    }
}

/// The union merge computes exactly the union of the two element sets.
pub proof fn lemma_union_as_set<T: Orderable>(a: Seq<T>, b: Seq<T>)
    requires
        sorted(a),
        sorted(b),
        eq_reflecting::<T>(),
    ensures
        union_seq(a, b).to_set() == a.to_set().union(b.to_set()),
{
    lemma_union_membership(a, b);
    lemma_contains_equiv_is_contains(union_seq(a, b));
    lemma_contains_equiv_is_contains(a);
    lemma_contains_equiv_is_contains(b);
    assert forall|x: T|
        union_seq(a, b).to_set().contains(x) == a.to_set().union(b.to_set()).contains(x) by {
        assert(contains_equiv(union_seq(a, b), x) == (contains_equiv(a, x) || contains_equiv(
            b,
            x,
        )));
    }
    assert(union_seq(a, b).to_set() =~= a.to_set().union(b.to_set()));
}

/// The intersection merge computes exactly the intersection of the two
/// element sets.
pub proof fn lemma_inter_as_set<T: Orderable>(a: Seq<T>, b: Seq<T>)
    requires
        sorted(a),
        sorted(b),
        eq_reflecting::<T>(),
    ensures
        inter_seq(a, b).to_set() == a.to_set().intersect(b.to_set()),
{
    lemma_inter_membership(a, b);
    lemma_contains_equiv_is_contains(inter_seq(a, b));
    lemma_contains_equiv_is_contains(a);
    lemma_contains_equiv_is_contains(b);
    assert forall|x: T|
        inter_seq(a, b).to_set().contains(x) == a.to_set().intersect(b.to_set()).contains(
            x,
        ) by {
        assert(contains_equiv(inter_seq(a, b), x) == (contains_equiv(a, x) && contains_equiv(
            b,
            x,
        )));
    }
    assert(inter_seq(a, b).to_set() =~= a.to_set().intersect(b.to_set()));
}

/// The difference merge computes exactly the difference of the two element
/// sets.
pub proof fn lemma_diff_as_set<T: Orderable>(a: Seq<T>, b: Seq<T>)
    requires
        sorted(a),
        sorted(b),
        eq_reflecting::<T>(),
    ensures
        diff_seq(a, b).to_set() == a.to_set().difference(b.to_set()),
{
    lemma_diff_membership(a, b);
    lemma_contains_equiv_is_contains(diff_seq(a, b));
    lemma_contains_equiv_is_contains(a);
    lemma_contains_equiv_is_contains(b);
    assert forall|x: T|
        diff_seq(a, b).to_set().contains(x) == a.to_set().difference(b.to_set()).contains(
            x,
        ) by {
        assert(contains_equiv(diff_seq(a, b), x) == (contains_equiv(a, x) && !contains_equiv(
            b,
            x,
        )));
    }
    assert(diff_seq(a, b).to_set() =~= a.to_set().difference(b.to_set()));
}

/// The symmetric-difference merge computes exactly the union of the two
/// set differences.
pub proof fn lemma_sym_diff_as_set<T: Orderable>(a: Seq<T>, b: Seq<T>)
    requires
        sorted(a),
        sorted(b),
        eq_reflecting::<T>(),
    ensures
        sym_diff_seq(a, b).to_set() == a.to_set().difference(b.to_set()).union(
            b.to_set().difference(a.to_set()),
        ),
{
    lemma_sym_diff_membership(a, b);
    lemma_contains_equiv_is_contains(sym_diff_seq(a, b));
    lemma_contains_equiv_is_contains(a);
    lemma_contains_equiv_is_contains(b);
    assert forall|x: T|
        sym_diff_seq(a, b).to_set().contains(x) == a.to_set().difference(b.to_set()).union(
            b.to_set().difference(a.to_set()),
        ).contains(x) by {
        assert(contains_equiv(sym_diff_seq(a, b), x) == (contains_equiv(a, x)
            != contains_equiv(b, x)));
    }
    assert(sym_diff_seq(a, b).to_set() =~= a.to_set().difference(b.to_set()).union(
        b.to_set().difference(a.to_set()),
    ));
}


/// For elements whose ties are equalities, the subset predicate decides
/// plain set inclusion.
pub proof fn lemma_subset_equiv_as_set<T: Orderable>(a: Seq<T>, b: Seq<T>)
    requires
        eq_reflecting::<T>(),
    ensures
        subset_equiv(a, b) == a.to_set().subset_of(b.to_set()),
{
    lemma_order_laws::<T>();
    lemma_contains_equiv_is_contains(a);
    lemma_contains_equiv_is_contains(b);
    if subset_equiv(a, b) {
        assert forall|x: T| a.to_set().contains(x) implies b.to_set().contains(x) by {
            let i = choose|i: int| 0 <= i < a.len() && a[i] == x;
            assert(contains_equiv(b, a[i]));
        }
    }
    if a.to_set().subset_of(b.to_set()) {
        assert forall|i: int| 0 <= i < a.len() implies contains_equiv(b, #[trigger] a[i]) by {
            assert(a.contains(a[i]));
            assert(a.to_set().contains(a[i]));
        }
    }
}

/// For elements whose ties are equalities, the disjointness predicate
/// decides plain set disjointness.
pub proof fn lemma_disjoint_equiv_as_set<T: Orderable>(a: Seq<T>, b: Seq<T>)
    requires
        eq_reflecting::<T>(),
    ensures
        disjoint_equiv(a, b) == a.to_set().disjoint(b.to_set()),
{
    lemma_order_laws::<T>();
    if disjoint_equiv(a, b) {
        assert forall|x: T| a.to_set().contains(x) implies !b.to_set().contains(x) by {
            let i = choose|i: int| 0 <= i < a.len() && a[i] == x;
            if b.to_set().contains(x) {
                let j = choose|j: int| 0 <= j < b.len() && b[j] == x;
                assert(equiv(a[i], b[j]));
            }
        }
    }
    if a.to_set().disjoint(b.to_set()) {
        assert forall|i: int, j: int| 0 <= i < a.len() && 0 <= j < b.len() implies !equiv(
            #[trigger] a[i],
            #[trigger] b[j],
        ) by {
            if equiv(a[i], b[j]) {
                assert(a[i] == b[j]);
                assert(a.to_set().contains(a[i]));
                assert(b.to_set().contains(a[i]));
            }
        }
    }
}

} // verus!
