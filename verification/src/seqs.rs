//! The mathematical model: strictly sorted sequences and the four
//! lock-step merges, together with the lemmas the executable code and the
//! public laws rest on.

use vstd::prelude::*;

verus! {

use crate::order::{Orderable, below, equiv, lemma_order_laws};

/// Strictly increasing under the element order: sorted and duplicate-free.
pub open spec fn sorted<T: Orderable>(s: Seq<T>) -> bool {
    forall|i: int, j: int| 0 <= i < j < s.len() ==> below(s[i], s[j])
}

/// Some element of `s` is tied with `x`.
pub open spec fn contains_equiv<T: Orderable>(s: Seq<T>, x: T) -> bool {
    exists|i: int| 0 <= i < s.len() && equiv(s[i], x)
}

/// Every element of `a` has a tied element in `b`.
pub open spec fn subset_equiv<T: Orderable>(a: Seq<T>, b: Seq<T>) -> bool {
    forall|i: int| 0 <= i < a.len() ==> contains_equiv(b, #[trigger] a[i])
}

/// No element of `a` is tied with an element of `b`.
pub open spec fn disjoint_equiv<T: Orderable>(a: Seq<T>, b: Seq<T>) -> bool {
    forall|i: int, j: int|
        0 <= i < a.len() && 0 <= j < b.len() ==> !equiv(#[trigger] a[i], #[trigger] b[j])
}

/// Is `x` skipped by an advance towards `t`?  A skip-ahead to `t` drops the
/// elements strictly before `t`; an advance past `t` also drops one tied
/// with `t`.
pub open spec fn passed_by<T: Orderable>(x: T, t: T, strict: bool) -> bool {
    if strict {
        below(x, t)
    } else {
        x.leq(t)
    }
}

/// What remains of `s` after advancing towards `t`: the longest suffix whose
/// head is not passed by the advance.
pub open spec fn drop_ahead<T: Orderable>(s: Seq<T>, t: T, strict: bool) -> Seq<T>
    decreases s.len(),
{
    if s.len() == 0 {
        s
    } else if passed_by(s[0], t, strict) {
        drop_ahead(s.skip(1), t, strict)
    } else {
        s
    }
}

/// The merged sequence holding the elements of either input, ties emitted
/// once, from the left input.
pub open spec fn union_seq<T: Orderable>(a: Seq<T>, b: Seq<T>) -> Seq<T>
    decreases a.len() + b.len(),
{
    if a.len() == 0 {
        b
    } else if b.len() == 0 {
        a
    } else if below(a[0], b[0]) {
        seq![a[0]] + union_seq(a.skip(1), b)
    } else if below(b[0], a[0]) {
        seq![b[0]] + union_seq(a, b.skip(1))
    } else {
        seq![a[0]] + union_seq(a.skip(1), b.skip(1))
    }
}

/// The merged sequence holding the elements present in both inputs.
pub open spec fn inter_seq<T: Orderable>(a: Seq<T>, b: Seq<T>) -> Seq<T>
    decreases a.len() + b.len(),
{
    if a.len() == 0 || b.len() == 0 {
        Seq::empty()
    } else if below(a[0], b[0]) {
        inter_seq(a.skip(1), b)
    } else if below(b[0], a[0]) {
        inter_seq(a, b.skip(1))
    } else {
        seq![a[0]] + inter_seq(a.skip(1), b.skip(1))
    }
}

/// The merged sequence holding the elements of `a` not present in `b`.
pub open spec fn diff_seq<T: Orderable>(a: Seq<T>, b: Seq<T>) -> Seq<T>
    decreases a.len() + b.len(),
{
    if a.len() == 0 {
        a
    } else if b.len() == 0 {
        a
    } else if below(a[0], b[0]) {
        seq![a[0]] + diff_seq(a.skip(1), b)
    } else if below(b[0], a[0]) {
        diff_seq(a, b.skip(1))
    } else {
        diff_seq(a.skip(1), b.skip(1))
    }
}

/// The merged sequence holding the elements present in exactly one input.
pub open spec fn sym_diff_seq<T: Orderable>(a: Seq<T>, b: Seq<T>) -> Seq<T>
    decreases a.len() + b.len(),
{
    if a.len() == 0 {
        b
    } else if b.len() == 0 {
        a
    } else if below(a[0], b[0]) {
        seq![a[0]] + sym_diff_seq(a.skip(1), b)
    } else if below(b[0], a[0]) {
        seq![b[0]] + sym_diff_seq(a, b.skip(1))
    } else {
        sym_diff_seq(a.skip(1), b.skip(1))
    }
}

/// A strictly sorted sequence is strictly sorted after any skip.
pub proof fn lemma_sorted_skip<T: Orderable>(s: Seq<T>, n: int)
    requires
        sorted(s),
        0 <= n <= s.len(),
    ensures
        sorted(s.skip(n)),
{
    assert forall|i: int, j: int| 0 <= i < j < s.skip(n).len() implies below(
        s.skip(n)[i],
        s.skip(n)[j],
    ) by {
        assert(s.skip(n)[i] == s[i + n]);
        assert(s.skip(n)[j] == s[j + n]);
    }
}

/// Membership in a non-empty sequence splits into the head and the tail.
pub proof fn lemma_head_membership<T: Orderable>(s: Seq<T>)
    requires
        s.len() > 0,
    ensures
        forall|x: T|
            contains_equiv(s, x) <==> equiv(s[0], x) || contains_equiv(s.skip(1), x),
{
    assert forall|x: T|
        contains_equiv(s, x) <==> equiv(s[0], x) || contains_equiv(s.skip(1), x) by {
        if contains_equiv(s, x) {
            let i = choose|i: int| 0 <= i < s.len() && equiv(s[i], x);
            if i > 0 {
                assert(s.skip(1)[i - 1] == s[i]);
                assert(contains_equiv(s.skip(1), x));
            }
        }
        if contains_equiv(s.skip(1), x) {
            let i = choose|i: int| 0 <= i < s.skip(1).len() && equiv(s.skip(1)[i], x);
            assert(s.skip(1)[i] == s[i + 1]);
            assert(contains_equiv(s, x));
        }
    }
}

/// In a strictly sorted sequence nothing after the head is tied with it.
pub proof fn lemma_sorted_no_later_tie<T: Orderable>(s: Seq<T>)
    requires
        sorted(s),
        s.len() > 0,
    ensures
        forall|x: T| equiv(s[0], x) ==> !contains_equiv(s.skip(1), x),
{
    lemma_order_laws::<T>();
    assert forall|x: T| equiv(s[0], x) implies !contains_equiv(s.skip(1), x) by {
        if contains_equiv(s.skip(1), x) {
            let i = choose|i: int| 0 <= i < s.skip(1).len() && equiv(s.skip(1)[i], x);
            assert(s.skip(1)[i] == s[i + 1]);
            assert(below(s[0], s[i + 1]));
        }
    }
}

/// `drop_ahead` removes exactly the longest passed-by prefix.
pub proof fn lemma_drop_ahead_at<T: Orderable>(s: Seq<T>, t: T, strict: bool, k: int)
    requires
        0 <= k <= s.len(),
        forall|i: int| 0 <= i < k ==> passed_by(#[trigger] s[i], t, strict),
        k < s.len() ==> !passed_by(s[k], t, strict),
    ensures
        drop_ahead(s, t, strict) == s.skip(k),
    decreases k,
{
    if k == 0 {
        if s.len() > 0 {
            assert(!passed_by(s[0], t, strict));
        }
        assert(s.skip(0) == s);
    } else {
        assert(passed_by(s[0], t, strict));
        assert forall|i: int| 0 <= i < k - 1 implies passed_by(
            #[trigger] s.skip(1)[i],
            t,
            strict,
        ) by {
            assert(s.skip(1)[i] == s[i + 1]);
        }
        if k - 1 < s.skip(1).len() {
            assert(s.skip(1)[k - 1] == s[k]);
        }
        lemma_drop_ahead_at(s.skip(1), t, strict, k - 1);
        assert(s.skip(1).skip(k - 1) == s.skip(k));
    }
}

/// What `drop_ahead` keeps is a suffix; what it removed was passed by.
pub proof fn lemma_drop_ahead_shape<T: Orderable>(s: Seq<T>, t: T, strict: bool)
    ensures
        drop_ahead(s, t, strict).len() <= s.len(),
        drop_ahead(s, t, strict) == s.skip(s.len() - drop_ahead(s, t, strict).len()),
        forall|i: int|
            0 <= i < s.len() - drop_ahead(s, t, strict).len() ==> passed_by(
                #[trigger] s[i],
                t,
                strict,
            ),
        drop_ahead(s, t, strict).len() > 0 ==> !passed_by(drop_ahead(s, t, strict)[0], t, strict),
    decreases s.len(),
{
    if s.len() == 0 {
        assert(s.skip(0) == s);
    } else if passed_by(s[0], t, strict) {
        lemma_drop_ahead_shape(s.skip(1), t, strict);
        let d = drop_ahead(s, t, strict);
        assert(d == drop_ahead(s.skip(1), t, strict));
        assert(s.skip(1).skip(s.skip(1).len() - d.len()) == s.skip(s.len() - d.len()));
        assert forall|i: int| 0 <= i < s.len() - d.len() implies passed_by(
            #[trigger] s[i],
            t,
            strict,
        ) by {
            if i > 0 {
                assert(s.skip(1)[i - 1] == s[i]);
            }
        }
    } else {
        assert(s.skip(0) == s);
    }
}


/// Transfer of structural membership from a suffix to the whole sequence.
pub proof fn lemma_skip_contains<T>(s: Seq<T>, n: int)
    requires
        0 <= n <= s.len(),
    ensures
        forall|x: T| s.skip(n).contains(x) ==> s.contains(x),
{
    assert forall|x: T| s.skip(n).contains(x) implies s.contains(x) by {
        let k = choose|k: int| 0 <= k < s.skip(n).len() && s.skip(n)[k] == x;
        assert(s[k + n] == x);
    }
}

/// Prepending an element below every element of a strictly sorted sequence
/// keeps it strictly sorted.
pub proof fn lemma_cons_sorted<T: Orderable>(h: T, rest: Seq<T>)
    requires
        sorted(rest),
        forall|i: int| 0 <= i < rest.len() ==> below(h, #[trigger] rest[i]),
    ensures
        sorted(seq![h] + rest),
{
    let s = seq![h] + rest;
    assert forall|i: int, j: int| 0 <= i < j < s.len() implies below(s[i], s[j]) by {
        assert(s[j] == rest[j - 1]);
        if i > 0 {
            assert(s[i] == rest[i - 1]);
        }
    }
}

/// An element drawn from either of two sequences whose elements all lie
/// above `h` lies above `h` itself.
pub proof fn lemma_below_all<T: Orderable>(h: T, s: Seq<T>, p: Seq<T>, q: Seq<T>)
    requires
        forall|i: int| 0 <= i < s.len() ==> p.contains(#[trigger] s[i]) || q.contains(s[i]),
        forall|i: int| 0 <= i < p.len() ==> below(h, #[trigger] p[i]),
        forall|i: int| 0 <= i < q.len() ==> below(h, #[trigger] q[i]),
    ensures
        forall|i: int| 0 <= i < s.len() ==> below(h, #[trigger] s[i]),
{
    assert forall|i: int| 0 <= i < s.len() implies below(h, #[trigger] s[i]) by {
        if p.contains(s[i]) {
            let k = choose|k: int| 0 <= k < p.len() && p[k] == s[i];
            assert(below(h, p[k]));
        } else {
            let k = choose|k: int| 0 <= k < q.len() && q[k] == s[i];
            assert(below(h, q[k]));
        }
    }
}

/// The head of a strictly sorted non-empty sequence is below the whole tail,
/// and below every element of a second sorted sequence whose head it is
/// below.
proof fn lemma_head_bounds<T: Orderable>(a: Seq<T>, b: Seq<T>)
    requires
        sorted(a),
        sorted(b),
        a.len() > 0,
        b.len() > 0,
        below(a[0], b[0]) || equiv(a[0], b[0]),
    ensures
        forall|i: int| 0 <= i < a.skip(1).len() ==> below(a[0], #[trigger] a.skip(1)[i]),
        forall|i: int| 0 <= i < b.skip(1).len() ==> below(a[0], #[trigger] b.skip(1)[i]),
        below(a[0], b[0]) ==> forall|i: int| 0 <= i < b.len() ==> below(a[0], #[trigger] b[i]),
{
    lemma_order_laws::<T>();
    assert forall|i: int| 0 <= i < a.skip(1).len() implies below(a[0], #[trigger] a.skip(1)[i]) by {
        assert(a.skip(1)[i] == a[i + 1]);
    }
    assert forall|i: int| 0 <= i < b.skip(1).len() implies below(a[0], #[trigger] b.skip(1)[i]) by {
        assert(b.skip(1)[i] == b[i + 1]);
        if i + 1 > 0 {
            assert(below(b[0], b[i + 1]));
        }
    }
    if below(a[0], b[0]) {
        assert forall|i: int| 0 <= i < b.len() implies below(a[0], #[trigger] b[i]) by {
            if i > 0 {
                assert(below(b[0], b[i]));
            }
        }
    }
}

/// The union merge of two strictly sorted sequences is strictly sorted and
/// draws each element from one of its inputs.
pub proof fn lemma_union_props<T: Orderable>(a: Seq<T>, b: Seq<T>)
    requires
        sorted(a),
        sorted(b),
    ensures
        sorted(union_seq(a, b)),
        forall|i: int|
            0 <= i < union_seq(a, b).len() ==> a.contains(#[trigger] union_seq(a, b)[i])
                || b.contains(union_seq(a, b)[i]),
    decreases a.len() + b.len(),
{
    lemma_order_laws::<T>();
    let u = union_seq(a, b);
    if a.len() == 0 {
        assert forall|i: int| 0 <= i < u.len() implies a.contains(#[trigger] u[i]) || b.contains(
            u[i],
        ) by {
            assert(u[i] == b[i]);
        }
    } else if b.len() == 0 {
        assert forall|i: int| 0 <= i < u.len() implies a.contains(#[trigger] u[i]) || b.contains(
            u[i],
        ) by {
            assert(u[i] == a[i]);
        }
    } else if below(a[0], b[0]) {
        lemma_sorted_skip(a, 1);
        lemma_union_props(a.skip(1), b);
        let rest = union_seq(a.skip(1), b);
        lemma_head_bounds(a, b);
        lemma_below_all(a[0], rest, a.skip(1), b);
        lemma_cons_sorted(a[0], rest);
        lemma_skip_contains(a, 1);
        assert forall|i: int| 0 <= i < u.len() implies a.contains(#[trigger] u[i]) || b.contains(
            u[i],
        ) by {
            if i == 0 {
                assert(u[0] == a[0]);
                assert(a[0] == a[0]);
            } else {
                assert(u[i] == rest[i - 1]);
            }
        }
    } else if below(b[0], a[0]) {
        lemma_sorted_skip(b, 1);
        lemma_union_props(a, b.skip(1));
        let rest = union_seq(a, b.skip(1));
        lemma_head_bounds(b, a);
        lemma_below_all(b[0], rest, b.skip(1), a);
        lemma_cons_sorted(b[0], rest);
        lemma_skip_contains(b, 1);
        assert forall|i: int| 0 <= i < u.len() implies a.contains(#[trigger] u[i]) || b.contains(
            u[i],
        ) by {
            if i == 0 {
                assert(u[0] == b[0]);
                assert(b[0] == b[0]);
            } else {
                assert(u[i] == rest[i - 1]);
            }
        }
    } else {
        lemma_sorted_skip(a, 1);
        lemma_sorted_skip(b, 1);
        lemma_union_props(a.skip(1), b.skip(1));
        let rest = union_seq(a.skip(1), b.skip(1));
        lemma_head_bounds(a, b);
        lemma_below_all(a[0], rest, a.skip(1), b.skip(1));
        lemma_cons_sorted(a[0], rest);
        lemma_skip_contains(a, 1);
        lemma_skip_contains(b, 1);
        assert forall|i: int| 0 <= i < u.len() implies a.contains(#[trigger] u[i]) || b.contains(
            u[i],
        ) by {
            if i == 0 {
                assert(u[0] == a[0]);
                assert(a[0] == a[0]);
            } else {
                assert(u[i] == rest[i - 1]);
            }
        }
    }
}

/// The intersection merge of two strictly sorted sequences is strictly
/// sorted and draws each element from its left input.
pub proof fn lemma_inter_props<T: Orderable>(a: Seq<T>, b: Seq<T>)
    requires
        sorted(a),
        sorted(b),
    ensures
        sorted(inter_seq(a, b)),
        forall|i: int|
            0 <= i < inter_seq(a, b).len() ==> a.contains(#[trigger] inter_seq(a, b)[i]),
    decreases a.len() + b.len(),
{
    lemma_order_laws::<T>();
    let u = inter_seq(a, b);
    if a.len() == 0 || b.len() == 0 {
    } else if below(a[0], b[0]) {
        lemma_sorted_skip(a, 1);
        lemma_inter_props(a.skip(1), b);
        lemma_skip_contains(a, 1);
    } else if below(b[0], a[0]) {
        lemma_sorted_skip(b, 1);
        lemma_inter_props(a, b.skip(1));
    } else {
        lemma_sorted_skip(a, 1);
        lemma_sorted_skip(b, 1);
        lemma_inter_props(a.skip(1), b.skip(1));
        let rest = inter_seq(a.skip(1), b.skip(1));
        lemma_head_bounds(a, b);
        lemma_below_all(a[0], rest, a.skip(1), a.skip(1));
        lemma_cons_sorted(a[0], rest);
        lemma_skip_contains(a, 1);
        assert forall|i: int| 0 <= i < u.len() implies a.contains(#[trigger] u[i]) by {
            if i == 0 {
                assert(u[0] == a[0]);
                assert(a[0] == a[0]);
            } else {
                assert(u[i] == rest[i - 1]);
            }
        }
    }
}

/// The difference merge of two strictly sorted sequences is strictly sorted
/// and draws each element from its left input.
pub proof fn lemma_diff_props<T: Orderable>(a: Seq<T>, b: Seq<T>)
    requires
        sorted(a),
        sorted(b),
    ensures
        sorted(diff_seq(a, b)),
        forall|i: int| 0 <= i < diff_seq(a, b).len() ==> a.contains(#[trigger] diff_seq(a, b)[i]),
    decreases a.len() + b.len(),
{
    lemma_order_laws::<T>();
    let u = diff_seq(a, b);
    if a.len() == 0 {
    } else if b.len() == 0 {
        assert forall|i: int| 0 <= i < u.len() implies a.contains(#[trigger] u[i]) by {
            assert(u[i] == a[i]);
        }
    } else if below(a[0], b[0]) {
        lemma_sorted_skip(a, 1);
        lemma_diff_props(a.skip(1), b);
        let rest = diff_seq(a.skip(1), b);
        lemma_head_bounds(a, b);
        lemma_below_all(a[0], rest, a.skip(1), a.skip(1));
        lemma_cons_sorted(a[0], rest);
        lemma_skip_contains(a, 1);
        assert forall|i: int| 0 <= i < u.len() implies a.contains(#[trigger] u[i]) by {
            if i == 0 {
                assert(u[0] == a[0]);
                assert(a[0] == a[0]);
            } else {
                assert(u[i] == rest[i - 1]);
            }
        }
    } else if below(b[0], a[0]) {
        lemma_sorted_skip(b, 1);
        lemma_diff_props(a, b.skip(1));
    } else {
        lemma_sorted_skip(a, 1);
        lemma_sorted_skip(b, 1);
        lemma_diff_props(a.skip(1), b.skip(1));
        lemma_skip_contains(a, 1);
    }
}

/// The symmetric-difference merge of two strictly sorted sequences is
/// strictly sorted and draws each element from one of its inputs.
pub proof fn lemma_sym_diff_props<T: Orderable>(a: Seq<T>, b: Seq<T>)
    requires
        sorted(a),
        sorted(b),
    ensures
        sorted(sym_diff_seq(a, b)),
        forall|i: int|
            0 <= i < sym_diff_seq(a, b).len() ==> a.contains(#[trigger] sym_diff_seq(a, b)[i])
                || b.contains(sym_diff_seq(a, b)[i]),
    decreases a.len() + b.len(),
{
    lemma_order_laws::<T>();
    let u = sym_diff_seq(a, b);
    if a.len() == 0 {
        assert forall|i: int| 0 <= i < u.len() implies a.contains(#[trigger] u[i]) || b.contains(
            u[i],
        ) by {
            assert(u[i] == b[i]);
        }
    } else if b.len() == 0 {
        assert forall|i: int| 0 <= i < u.len() implies a.contains(#[trigger] u[i]) || b.contains(
            u[i],
        ) by {
            assert(u[i] == a[i]);
        }
    } else if below(a[0], b[0]) {
        lemma_sorted_skip(a, 1);
        lemma_sym_diff_props(a.skip(1), b);
        let rest = sym_diff_seq(a.skip(1), b);
        lemma_head_bounds(a, b);
        lemma_below_all(a[0], rest, a.skip(1), b);
        lemma_cons_sorted(a[0], rest);
        lemma_skip_contains(a, 1);
        assert forall|i: int| 0 <= i < u.len() implies a.contains(#[trigger] u[i]) || b.contains(
            u[i],
        ) by {
            if i == 0 {
                assert(u[0] == a[0]);
                assert(a[0] == a[0]);
            } else {
                assert(u[i] == rest[i - 1]);
            }
        }
    } else if below(b[0], a[0]) {
        lemma_sorted_skip(b, 1);
        lemma_sym_diff_props(a, b.skip(1));
        let rest = sym_diff_seq(a, b.skip(1));
        lemma_head_bounds(b, a);
        lemma_below_all(b[0], rest, b.skip(1), a);
        lemma_cons_sorted(b[0], rest);
        lemma_skip_contains(b, 1);
        assert forall|i: int| 0 <= i < u.len() implies a.contains(#[trigger] u[i]) || b.contains(
            u[i],
        ) by {
            if i == 0 {
                assert(u[0] == b[0]);
                assert(b[0] == b[0]);
            } else {
                assert(u[i] == rest[i - 1]);
            }
        }
    } else {
        lemma_sorted_skip(a, 1);
        lemma_sorted_skip(b, 1);
        lemma_sym_diff_props(a.skip(1), b.skip(1));
        lemma_skip_contains(a, 1);
        lemma_skip_contains(b, 1);
    }
}


/// An element tied with `h` has no tie inside a sorted sequence lying
/// entirely above `h`.
pub proof fn lemma_no_tie_above<T: Orderable>(h: T, s: Seq<T>)
    requires
        sorted(s),
        s.len() > 0 ==> below(h, s[0]),
    ensures
        forall|x: T| equiv(h, x) ==> !contains_equiv(s, x),
{
    lemma_order_laws::<T>();
    assert forall|x: T| equiv(h, x) implies !contains_equiv(s, x) by {
        if contains_equiv(s, x) {
            let k = choose|k: int| 0 <= k < s.len() && equiv(s[k], x);
            if k > 0 {
                assert(below(s[0], s[k]));
            }
        }
    }
}

/// Ties with one of two tied elements coincide.
proof fn lemma_tie_same<T: Orderable>(a: T, b: T)
    requires
        equiv(a, b),
    ensures
        forall|x: T| equiv(a, x) <==> equiv(b, x),
{
    lemma_order_laws::<T>();
}

/// An element has a tie in the union merge exactly when it has one in
/// either input.
pub proof fn lemma_union_membership<T: Orderable>(a: Seq<T>, b: Seq<T>)
    requires
        sorted(a),
        sorted(b),
    ensures
        forall|x: T|
            contains_equiv(union_seq(a, b), x) <==> contains_equiv(a, x) || contains_equiv(b, x),
    decreases a.len() + b.len(),
{
    lemma_order_laws::<T>();
    let u = union_seq(a, b);
    if a.len() == 0 || b.len() == 0 {
    } else {
        lemma_head_membership(a);
        lemma_head_membership(b);
        lemma_sorted_skip(a, 1);
        lemma_sorted_skip(b, 1);
        if below(a[0], b[0]) {
            lemma_union_membership(a.skip(1), b);
            let rest = union_seq(a.skip(1), b);
            assert((seq![a[0]] + rest).skip(1) =~= rest);
            lemma_head_membership(u);
            assert(u[0] == a[0]);
        } else if below(b[0], a[0]) {
            lemma_union_membership(a, b.skip(1));
            let rest = union_seq(a, b.skip(1));
            assert((seq![b[0]] + rest).skip(1) =~= rest);
            lemma_head_membership(u);
            assert(u[0] == b[0]);
        } else {
            lemma_union_membership(a.skip(1), b.skip(1));
            let rest = union_seq(a.skip(1), b.skip(1));
            assert((seq![a[0]] + rest).skip(1) =~= rest);
            lemma_head_membership(u);
            assert(u[0] == a[0]);
            lemma_tie_same(a[0], b[0]);
        }
    }
}

/// An element has a tie in the intersection merge exactly when it has one
/// in both inputs.
pub proof fn lemma_inter_membership<T: Orderable>(a: Seq<T>, b: Seq<T>)
    requires
        sorted(a),
        sorted(b),
    ensures
        forall|x: T|
            contains_equiv(inter_seq(a, b), x) <==> contains_equiv(a, x) && contains_equiv(b, x),
    decreases a.len() + b.len(),
{
    lemma_order_laws::<T>();
    let u = inter_seq(a, b);
    if a.len() == 0 || b.len() == 0 {
    } else {
        lemma_head_membership(a);
        lemma_head_membership(b);
        lemma_sorted_skip(a, 1);
        lemma_sorted_skip(b, 1);
        if below(a[0], b[0]) {
            lemma_inter_membership(a.skip(1), b);
            lemma_no_tie_above(a[0], b);
        } else if below(b[0], a[0]) {
            lemma_inter_membership(a, b.skip(1));
            lemma_no_tie_above(b[0], a);
        } else {
            lemma_inter_membership(a.skip(1), b.skip(1));
            let rest = inter_seq(a.skip(1), b.skip(1));
            assert((seq![a[0]] + rest).skip(1) =~= rest);
            lemma_head_membership(u);
            assert(u[0] == a[0]);
            lemma_tie_same(a[0], b[0]);
        }
    }
}

/// An element has a tie in the difference merge exactly when it has one in
/// the left input and none in the right input.
pub proof fn lemma_diff_membership<T: Orderable>(a: Seq<T>, b: Seq<T>)
    requires
        sorted(a),
        sorted(b),
    ensures
        forall|x: T|
            contains_equiv(diff_seq(a, b), x) <==> contains_equiv(a, x) && !contains_equiv(b, x),
    decreases a.len() + b.len(),
{
    lemma_order_laws::<T>();
    let u = diff_seq(a, b);
    if a.len() == 0 || b.len() == 0 {
    } else {
        lemma_head_membership(a);
        lemma_head_membership(b);
        lemma_sorted_skip(a, 1);
        lemma_sorted_skip(b, 1);
        if below(a[0], b[0]) {
            lemma_diff_membership(a.skip(1), b);
            let rest = diff_seq(a.skip(1), b);
            assert((seq![a[0]] + rest).skip(1) =~= rest);
            lemma_head_membership(u);
            assert(u[0] == a[0]);
            lemma_no_tie_above(a[0], b);
        } else if below(b[0], a[0]) {
            lemma_diff_membership(a, b.skip(1));
            lemma_no_tie_above(b[0], a);
        } else {
            lemma_diff_membership(a.skip(1), b.skip(1));
            lemma_tie_same(a[0], b[0]);
            assert(a.skip(1).len() > 0 ==> below(a[0], a.skip(1)[0])) by {
                if a.skip(1).len() > 0 {
                    assert(a.skip(1)[0] == a[1]);
                }
            }
            lemma_no_tie_above(a[0], a.skip(1));
            lemma_sorted_no_later_tie(b);
        }
    }
}

/// An element has a tie in the symmetric-difference merge exactly when it
/// has a tie in exactly one input.
pub proof fn lemma_sym_diff_membership<T: Orderable>(a: Seq<T>, b: Seq<T>)
    requires
        sorted(a),
        sorted(b),
    ensures
        forall|x: T|
            contains_equiv(sym_diff_seq(a, b), x) <==> (contains_equiv(a, x) != contains_equiv(
                b,
                x,
            )),
    decreases a.len() + b.len(),
{
    lemma_order_laws::<T>();
    let u = sym_diff_seq(a, b);
    if a.len() == 0 || b.len() == 0 {
    } else {
        lemma_head_membership(a);
        lemma_head_membership(b);
        lemma_sorted_skip(a, 1);
        lemma_sorted_skip(b, 1);
        if below(a[0], b[0]) {
            lemma_sym_diff_membership(a.skip(1), b);
            let rest = sym_diff_seq(a.skip(1), b);
            assert((seq![a[0]] + rest).skip(1) =~= rest);
            lemma_head_membership(u);
            assert(u[0] == a[0]);
            lemma_no_tie_above(a[0], b);
        } else if below(b[0], a[0]) {
            lemma_sym_diff_membership(a, b.skip(1));
            let rest = sym_diff_seq(a, b.skip(1));
            assert((seq![b[0]] + rest).skip(1) =~= rest);
            lemma_head_membership(u);
            assert(u[0] == b[0]);
            lemma_no_tie_above(b[0], a);
        } else {
            lemma_sym_diff_membership(a.skip(1), b.skip(1));
            lemma_tie_same(a[0], b[0]);
            lemma_sorted_no_later_tie(a);
            lemma_sorted_no_later_tie(b);
        }
    }
}


/// A sequence none of whose elements an advance passes is left whole.
pub proof fn lemma_drop_ahead_all_kept<T: Orderable>(s: Seq<T>, t: T, strict: bool)
    requires
        forall|i: int| 0 <= i < s.len() ==> !passed_by(#[trigger] s[i], t, strict),
    ensures
        drop_ahead(s, t, strict) == s,
{
    if s.len() > 0 {
        assert(!passed_by(s[0], t, strict));
    }
}

/// In a sorted sequence whose head an advance keeps, every element is kept.
pub proof fn lemma_not_passed_all<T: Orderable>(s: Seq<T>, t: T, strict: bool)
    requires
        sorted(s),
        s.len() > 0 ==> !passed_by(s[0], t, strict),
    ensures
        forall|i: int| 0 <= i < s.len() ==> !passed_by(#[trigger] s[i], t, strict),
{
    lemma_order_laws::<T>();
    assert forall|i: int| 0 <= i < s.len() implies !passed_by(#[trigger] s[i], t, strict) by {
        if i > 0 {
            assert(below(s[0], s[i]));
        }
    }
}

/// Elements drawn from two kept sequences are themselves kept, so the
/// advance leaves the merged sequence whole.
proof fn lemma_merge_kept<T: Orderable>(u: Seq<T>, a: Seq<T>, b: Seq<T>, t: T, strict: bool)
    requires
        sorted(a),
        sorted(b),
        a.len() > 0 ==> !passed_by(a[0], t, strict),
        b.len() > 0 ==> !passed_by(b[0], t, strict),
        forall|i: int| 0 <= i < u.len() ==> a.contains(#[trigger] u[i]) || b.contains(u[i]),
    ensures
        drop_ahead(u, t, strict) == u,
{
    lemma_not_passed_all(a, t, strict);
    lemma_not_passed_all(b, t, strict);
    assert forall|i: int| 0 <= i < u.len() implies !passed_by(#[trigger] u[i], t, strict) by {
        if a.contains(u[i]) {
            let k = choose|k: int| 0 <= k < a.len() && a[k] == u[i];
            assert(!passed_by(a[k], t, strict));
        } else {
            let k = choose|k: int| 0 <= k < b.len() && b[k] == u[i];
            assert(!passed_by(b[k], t, strict));
        }
    }
    lemma_drop_ahead_all_kept(u, t, strict);
}

/// Advancing both inputs of a union merge advances the merge itself.
pub proof fn lemma_union_drop<T: Orderable>(a: Seq<T>, b: Seq<T>, t: T, strict: bool)
    requires
        sorted(a),
        sorted(b),
    ensures
        union_seq(drop_ahead(a, t, strict), drop_ahead(b, t, strict)) == drop_ahead(
            union_seq(a, b),
            t,
            strict,
        ),
    decreases a.len() + b.len(),
{
    lemma_order_laws::<T>();
    let u = union_seq(a, b);
    if a.len() == 0 {
        assert(drop_ahead(a, t, strict) == a);
    } else if b.len() == 0 {
        assert(drop_ahead(b, t, strict) == b);
    } else {
        lemma_sorted_skip(a, 1);
        lemma_sorted_skip(b, 1);
        if below(a[0], b[0]) {
            let rest = union_seq(a.skip(1), b);
            assert((seq![a[0]] + rest).skip(1) =~= rest);
            if passed_by(a[0], t, strict) {
                lemma_union_drop(a.skip(1), b, t, strict);
                assert(drop_ahead(a, t, strict) == drop_ahead(a.skip(1), t, strict));
                assert(drop_ahead(u, t, strict) == drop_ahead(rest, t, strict));
            } else {
                assert(!passed_by(b[0], t, strict));
                assert(drop_ahead(a, t, strict) == a);
                assert(drop_ahead(b, t, strict) == b);
                assert(drop_ahead(u, t, strict) == u);
            }
        } else if below(b[0], a[0]) {
            let rest = union_seq(a, b.skip(1));
            assert((seq![b[0]] + rest).skip(1) =~= rest);
            if passed_by(b[0], t, strict) {
                lemma_union_drop(a, b.skip(1), t, strict);
                assert(drop_ahead(b, t, strict) == drop_ahead(b.skip(1), t, strict));
                assert(drop_ahead(u, t, strict) == drop_ahead(rest, t, strict));
            } else {
                assert(!passed_by(a[0], t, strict));
                assert(drop_ahead(a, t, strict) == a);
                assert(drop_ahead(b, t, strict) == b);
                assert(drop_ahead(u, t, strict) == u);
            }
        } else {
            let rest = union_seq(a.skip(1), b.skip(1));
            assert((seq![a[0]] + rest).skip(1) =~= rest);
            if passed_by(a[0], t, strict) {
                assert(passed_by(b[0], t, strict));
                lemma_union_drop(a.skip(1), b.skip(1), t, strict);
                assert(drop_ahead(a, t, strict) == drop_ahead(a.skip(1), t, strict));
                assert(drop_ahead(b, t, strict) == drop_ahead(b.skip(1), t, strict));
                assert(drop_ahead(u, t, strict) == drop_ahead(rest, t, strict));
            } else {
                assert(!passed_by(b[0], t, strict));
                assert(drop_ahead(a, t, strict) == a);
                assert(drop_ahead(b, t, strict) == b);
                assert(drop_ahead(u, t, strict) == u);
            }
        }
    }
}

/// Advancing both inputs of an intersection merge advances the merge itself.
pub proof fn lemma_inter_drop<T: Orderable>(a: Seq<T>, b: Seq<T>, t: T, strict: bool)
    requires
        sorted(a),
        sorted(b),
    ensures
        inter_seq(drop_ahead(a, t, strict), drop_ahead(b, t, strict)) == drop_ahead(
            inter_seq(a, b),
            t,
            strict,
        ),
    decreases a.len() + b.len(),
{
    lemma_order_laws::<T>();
    let u = inter_seq(a, b);
    if a.len() == 0 || b.len() == 0 {
        assert(drop_ahead(Seq::<T>::empty(), t, strict) == Seq::<T>::empty());
        if a.len() == 0 {
            assert(drop_ahead(a, t, strict) == a);
        } else {
            assert(drop_ahead(b, t, strict) == b);
        }
    } else {
        lemma_sorted_skip(a, 1);
        lemma_sorted_skip(b, 1);
        if below(a[0], b[0]) {
            if passed_by(a[0], t, strict) {
                lemma_inter_drop(a.skip(1), b, t, strict);
                assert(drop_ahead(a, t, strict) == drop_ahead(a.skip(1), t, strict));
            } else {
                assert(!passed_by(b[0], t, strict));
                assert(drop_ahead(a, t, strict) == a);
                assert(drop_ahead(b, t, strict) == b);
                lemma_inter_props(a.skip(1), b);
                lemma_skip_contains(a, 1);
                assert forall|i: int| 0 <= i < u.len() implies a.contains(#[trigger] u[i])
                    || b.contains(u[i]) by {
                    assert(a.skip(1).contains(u[i]));
                }
                lemma_merge_kept(u, a, b, t, strict);
            }
        } else if below(b[0], a[0]) {
            if passed_by(b[0], t, strict) {
                lemma_inter_drop(a, b.skip(1), t, strict);
                assert(drop_ahead(b, t, strict) == drop_ahead(b.skip(1), t, strict));
            } else {
                assert(!passed_by(a[0], t, strict));
                assert(drop_ahead(a, t, strict) == a);
                assert(drop_ahead(b, t, strict) == b);
                lemma_inter_props(a, b.skip(1));
                assert forall|i: int| 0 <= i < u.len() implies a.contains(#[trigger] u[i])
                    || b.contains(u[i]) by {
                    assert(a.contains(u[i]));
                }
                lemma_merge_kept(u, a, b, t, strict);
            }
        } else {
            let rest = inter_seq(a.skip(1), b.skip(1));
            assert((seq![a[0]] + rest).skip(1) =~= rest);
            if passed_by(a[0], t, strict) {
                assert(passed_by(b[0], t, strict));
                lemma_inter_drop(a.skip(1), b.skip(1), t, strict);
                assert(drop_ahead(a, t, strict) == drop_ahead(a.skip(1), t, strict));
                assert(drop_ahead(b, t, strict) == drop_ahead(b.skip(1), t, strict));
                assert(drop_ahead(u, t, strict) == drop_ahead(rest, t, strict));
            } else {
                assert(!passed_by(b[0], t, strict));
                assert(drop_ahead(a, t, strict) == a);
                assert(drop_ahead(b, t, strict) == b);
                assert(drop_ahead(u, t, strict) == u);
            }
        }
    }
}

/// Advancing both inputs of a difference merge advances the merge itself.
pub proof fn lemma_diff_drop<T: Orderable>(a: Seq<T>, b: Seq<T>, t: T, strict: bool)
    requires
        sorted(a),
        sorted(b),
    ensures
        diff_seq(drop_ahead(a, t, strict), drop_ahead(b, t, strict)) == drop_ahead(
            diff_seq(a, b),
            t,
            strict,
        ),
    decreases a.len() + b.len(),
{
    lemma_order_laws::<T>();
    let u = diff_seq(a, b);
    if a.len() == 0 {
        assert(drop_ahead(a, t, strict) == a);
    } else if b.len() == 0 {
        assert(drop_ahead(b, t, strict) == b);
    } else {
        lemma_sorted_skip(a, 1);
        lemma_sorted_skip(b, 1);
        if below(a[0], b[0]) {
            let rest = diff_seq(a.skip(1), b);
            assert((seq![a[0]] + rest).skip(1) =~= rest);
            if passed_by(a[0], t, strict) {
                lemma_diff_drop(a.skip(1), b, t, strict);
                assert(drop_ahead(a, t, strict) == drop_ahead(a.skip(1), t, strict));
                assert(drop_ahead(u, t, strict) == drop_ahead(rest, t, strict));
            } else {
                assert(!passed_by(b[0], t, strict));
                assert(drop_ahead(a, t, strict) == a);
                assert(drop_ahead(b, t, strict) == b);
                assert(drop_ahead(u, t, strict) == u);
            }
        } else if below(b[0], a[0]) {
            if passed_by(b[0], t, strict) {
                lemma_diff_drop(a, b.skip(1), t, strict);
                assert(drop_ahead(b, t, strict) == drop_ahead(b.skip(1), t, strict));
            } else {
                assert(!passed_by(a[0], t, strict));
                assert(drop_ahead(a, t, strict) == a);
                assert(drop_ahead(b, t, strict) == b);
                lemma_diff_props(a, b.skip(1));
                assert forall|i: int| 0 <= i < u.len() implies a.contains(#[trigger] u[i])
                    || b.contains(u[i]) by {
                    assert(a.contains(u[i]));
                }
                lemma_merge_kept(u, a, b, t, strict);
            }
        } else {
            if passed_by(a[0], t, strict) {
                assert(passed_by(b[0], t, strict));
                lemma_diff_drop(a.skip(1), b.skip(1), t, strict);
                assert(drop_ahead(a, t, strict) == drop_ahead(a.skip(1), t, strict));
                assert(drop_ahead(b, t, strict) == drop_ahead(b.skip(1), t, strict));
            } else {
                assert(!passed_by(b[0], t, strict));
                assert(drop_ahead(a, t, strict) == a);
                assert(drop_ahead(b, t, strict) == b);
                lemma_diff_props(a.skip(1), b.skip(1));
                lemma_skip_contains(a, 1);
                assert forall|i: int| 0 <= i < u.len() implies a.contains(#[trigger] u[i])
                    || b.contains(u[i]) by {
                    assert(a.skip(1).contains(u[i]));
                }
                lemma_merge_kept(u, a, b, t, strict);
            }
        }
    }
}

/// Advancing both inputs of a symmetric-difference merge advances the
/// merge itself.
pub proof fn lemma_sym_diff_drop<T: Orderable>(a: Seq<T>, b: Seq<T>, t: T, strict: bool)
    requires
        sorted(a),
        sorted(b),
    ensures
        sym_diff_seq(drop_ahead(a, t, strict), drop_ahead(b, t, strict)) == drop_ahead(
            sym_diff_seq(a, b),
            t,
            strict,
        ),
    decreases a.len() + b.len(),
{
    lemma_order_laws::<T>();
    let u = sym_diff_seq(a, b);
    if a.len() == 0 {
        assert(drop_ahead(a, t, strict) == a);
    } else if b.len() == 0 {
        assert(drop_ahead(b, t, strict) == b);
    } else {
        lemma_sorted_skip(a, 1);
        lemma_sorted_skip(b, 1);
        if below(a[0], b[0]) {
            let rest = sym_diff_seq(a.skip(1), b);
            assert((seq![a[0]] + rest).skip(1) =~= rest);
            if passed_by(a[0], t, strict) {
                lemma_sym_diff_drop(a.skip(1), b, t, strict);
                assert(drop_ahead(a, t, strict) == drop_ahead(a.skip(1), t, strict));
                assert(drop_ahead(u, t, strict) == drop_ahead(rest, t, strict));
            } else {
                assert(!passed_by(b[0], t, strict));
                assert(drop_ahead(a, t, strict) == a);
                assert(drop_ahead(b, t, strict) == b);
                assert(drop_ahead(u, t, strict) == u);
            }
        } else if below(b[0], a[0]) {
            let rest = sym_diff_seq(a, b.skip(1));
            assert((seq![b[0]] + rest).skip(1) =~= rest);
            if passed_by(b[0], t, strict) {
                lemma_sym_diff_drop(a, b.skip(1), t, strict);
                assert(drop_ahead(b, t, strict) == drop_ahead(b.skip(1), t, strict));
                assert(drop_ahead(u, t, strict) == drop_ahead(rest, t, strict));
            } else {
                assert(!passed_by(a[0], t, strict));
                assert(drop_ahead(a, t, strict) == a);
                assert(drop_ahead(b, t, strict) == b);
                assert(drop_ahead(u, t, strict) == u);
            }
        } else {
            if passed_by(a[0], t, strict) {
                assert(passed_by(b[0], t, strict));
                lemma_sym_diff_drop(a.skip(1), b.skip(1), t, strict);
                assert(drop_ahead(a, t, strict) == drop_ahead(a.skip(1), t, strict));
                assert(drop_ahead(b, t, strict) == drop_ahead(b.skip(1), t, strict));
            } else {
                assert(!passed_by(b[0], t, strict));
                assert(drop_ahead(a, t, strict) == a);
                assert(drop_ahead(b, t, strict) == b);
                lemma_sym_diff_props(a.skip(1), b.skip(1));
                lemma_skip_contains(a, 1);
                lemma_skip_contains(b, 1);
                assert forall|i: int| 0 <= i < u.len() implies a.contains(#[trigger] u[i])
                    || b.contains(u[i]) by {
                    if a.skip(1).contains(u[i]) {
                    } else {
                        assert(b.skip(1).contains(u[i]));
                    }
                }
                lemma_merge_kept(u, a, b, t, strict);
            }
        }
    }
}

/// Skipping the left elements strictly before a lower bound of the right
/// input leaves an intersection merge unchanged.
pub proof fn lemma_inter_drop_left<T: Orderable>(a: Seq<T>, b: Seq<T>, t: T)
    requires
        sorted(a),
        sorted(b),
        b.len() > 0 ==> !below(b[0], t),
    ensures
        inter_seq(drop_ahead(a, t, true), b) == inter_seq(a, b),
    decreases a.len(),
{
    lemma_order_laws::<T>();
    if a.len() == 0 {
    } else if below(a[0], t) {
        lemma_sorted_skip(a, 1);
        assert(drop_ahead(a, t, true) == drop_ahead(a.skip(1), t, true));
        if b.len() > 0 {
            assert(below(a[0], b[0]));
            assert(inter_seq(a, b) == inter_seq(a.skip(1), b));
        }
        lemma_inter_drop_left(a.skip(1), b, t);
    } else {
        assert(drop_ahead(a, t, true) == a);
    }
}

/// Skipping the right elements strictly before a lower bound of the left
/// input leaves an intersection merge unchanged.
pub proof fn lemma_inter_drop_right<T: Orderable>(a: Seq<T>, b: Seq<T>, t: T)
    requires
        sorted(a),
        sorted(b),
        a.len() > 0 ==> !below(a[0], t),
    ensures
        inter_seq(a, drop_ahead(b, t, true)) == inter_seq(a, b),
    decreases b.len(),
{
    lemma_order_laws::<T>();
    if b.len() == 0 {
    } else if below(b[0], t) {
        lemma_sorted_skip(b, 1);
        assert(drop_ahead(b, t, true) == drop_ahead(b.skip(1), t, true));
        if a.len() > 0 {
            assert(below(b[0], a[0]));
            assert(inter_seq(a, b) == inter_seq(a, b.skip(1)));
        }
        lemma_inter_drop_right(a, b.skip(1), t);
    } else {
        assert(drop_ahead(b, t, true) == b);
    }
}

/// Skipping the right elements strictly before a lower bound of the left
/// input leaves a difference merge unchanged.
pub proof fn lemma_diff_drop_right<T: Orderable>(a: Seq<T>, b: Seq<T>, t: T)
    requires
        sorted(a),
        sorted(b),
        a.len() > 0 ==> !below(a[0], t),
    ensures
        diff_seq(a, drop_ahead(b, t, true)) == diff_seq(a, b),
    decreases b.len(),
{
    lemma_order_laws::<T>();
    if b.len() == 0 {
    } else if below(b[0], t) {
        lemma_sorted_skip(b, 1);
        assert(drop_ahead(b, t, true) == drop_ahead(b.skip(1), t, true));
        if a.len() > 0 {
            assert(below(b[0], a[0]));
            assert(diff_seq(a, b) == diff_seq(a, b.skip(1)));
        }
        lemma_diff_drop_right(a, b.skip(1), t);
    } else {
        assert(drop_ahead(b, t, true) == b);
    }
}


/// Skipping right elements strictly before a lower bound of the left input
/// does not change whether the left is a subset of the right.
pub proof fn lemma_subset_drop_right<T: Orderable>(a: Seq<T>, b: Seq<T>, t: T)
    requires
        sorted(a),
        sorted(b),
        a.len() > 0 ==> !below(a[0], t),
    ensures
        subset_equiv(a, drop_ahead(b, t, true)) == subset_equiv(a, b),
{
    lemma_order_laws::<T>();
    lemma_drop_ahead_shape(b, t, true);
    let d = drop_ahead(b, t, true);
    let m = b.len() - d.len();
    if subset_equiv(a, d) {
        assert forall|i: int| 0 <= i < a.len() implies contains_equiv(b, #[trigger] a[i]) by {
            let k = choose|k: int| 0 <= k < d.len() && equiv(d[k], a[i]);
            assert(b[k + m] == d[k]);
        }
    }
    if subset_equiv(a, b) {
        assert forall|i: int| 0 <= i < a.len() implies contains_equiv(d, #[trigger] a[i]) by {
            let k = choose|k: int| 0 <= k < b.len() && equiv(b[k], a[i]);
            if k < m {
                assert(passed_by(b[k], t, true));
                if i > 0 {
                    assert(below(a[0], a[i]));
                }
                assert(false);
            } else {
                assert(d[k - m] == b[k]);
            }
        }
    }
}

/// When the two heads tie, consuming both does not change whether the left
/// is a subset of the right.
pub proof fn lemma_subset_tie_step<T: Orderable>(a: Seq<T>, b: Seq<T>)
    requires
        sorted(a),
        sorted(b),
        a.len() > 0,
        b.len() > 0,
        equiv(a[0], b[0]),
    ensures
        subset_equiv(a, b) == subset_equiv(a.skip(1), b.skip(1)),
{
    lemma_order_laws::<T>();
    lemma_head_membership(b);
    lemma_sorted_no_later_tie(a);
    if subset_equiv(a, b) {
        assert forall|i: int| 0 <= i < a.skip(1).len() implies contains_equiv(
            b.skip(1),
            #[trigger] a.skip(1)[i],
        ) by {
            assert(a.skip(1)[i] == a[i + 1]);
            assert(contains_equiv(b, a[i + 1]));
            if equiv(b[0], a[i + 1]) {
                assert(equiv(a[0], a[i + 1]));
                assert(equiv(a.skip(1)[i], a[i + 1]));
                assert(contains_equiv(a.skip(1), a[i + 1]));
                assert(false);
            }
        }
    }
    if subset_equiv(a.skip(1), b.skip(1)) {
        assert forall|i: int| 0 <= i < a.len() implies contains_equiv(b, #[trigger] a[i]) by {
            if i == 0 {
                assert(equiv(b[0], a[0]));
                assert(contains_equiv(b, a[0]));
            } else {
                assert(a.skip(1)[i - 1] == a[i]);
                assert(contains_equiv(b.skip(1), a[i]));
            }
        }
    }
}

/// Skipping left elements strictly before a lower bound of the right input
/// does not change whether the two inputs are disjoint.
pub proof fn lemma_disjoint_drop_left<T: Orderable>(a: Seq<T>, b: Seq<T>, t: T)
    requires
        sorted(a),
        sorted(b),
        b.len() > 0 ==> !below(b[0], t),
    ensures
        disjoint_equiv(drop_ahead(a, t, true), b) == disjoint_equiv(a, b),
{
    lemma_order_laws::<T>();
    lemma_drop_ahead_shape(a, t, true);
    let d = drop_ahead(a, t, true);
    let m = a.len() - d.len();
    if disjoint_equiv(a, b) {
        assert forall|i: int, j: int| 0 <= i < d.len() && 0 <= j < b.len() implies !equiv(
            #[trigger] d[i],
            #[trigger] b[j],
        ) by {
            assert(d[i] == a[i + m]);
        }
    }
    if disjoint_equiv(d, b) {
        assert forall|i: int, j: int| 0 <= i < a.len() && 0 <= j < b.len() implies !equiv(
            #[trigger] a[i],
            #[trigger] b[j],
        ) by {
            if i < m {
                assert(passed_by(a[i], t, true));
                if j > 0 {
                    assert(below(b[0], b[j]));
                }
            } else {
                assert(d[i - m] == a[i]);
            }
        }
    }
}

/// Skipping right elements strictly before a lower bound of the left input
/// does not change whether the two inputs are disjoint.
pub proof fn lemma_disjoint_drop_right<T: Orderable>(a: Seq<T>, b: Seq<T>, t: T)
    requires
        sorted(a),
        sorted(b),
        a.len() > 0 ==> !below(a[0], t),
    ensures
        disjoint_equiv(a, drop_ahead(b, t, true)) == disjoint_equiv(a, b),
{
    lemma_order_laws::<T>();
    lemma_drop_ahead_shape(b, t, true);
    let d = drop_ahead(b, t, true);
    let m = b.len() - d.len();
    if disjoint_equiv(a, b) {
        assert forall|i: int, j: int| 0 <= i < a.len() && 0 <= j < d.len() implies !equiv(
            #[trigger] a[i],
            #[trigger] d[j],
        ) by {
            assert(d[j] == b[j + m]);
        }
    }
    if disjoint_equiv(a, d) {
        assert forall|i: int, j: int| 0 <= i < a.len() && 0 <= j < b.len() implies !equiv(
            #[trigger] a[i],
            #[trigger] b[j],
        ) by {
            if j < m {
                assert(passed_by(b[j], t, true));
                if i > 0 {
                    assert(below(a[0], a[i]));
                }
            } else {
                assert(d[j - m] == b[j]);
            }
        }
    }
}


/// Membership after appending one element.
pub proof fn lemma_push_membership<T: Orderable>(s: Seq<T>, y: T)
    ensures
        forall|x: T| contains_equiv(s.push(y), x) <==> contains_equiv(s, x) || equiv(y, x),
{
    assert forall|x: T|
        contains_equiv(s.push(y), x) <==> contains_equiv(s, x) || equiv(y, x) by {
        if contains_equiv(s.push(y), x) {
            let i = choose|i: int| 0 <= i < s.push(y).len() && equiv(s.push(y)[i], x);
            if i < s.len() {
                assert(s.push(y)[i] == s[i]);
                assert(contains_equiv(s, x));
            } else {
                assert(s.push(y)[i] == y);
            }
        }
        if contains_equiv(s, x) {
            let i = choose|i: int| 0 <= i < s.len() && equiv(s[i], x);
            assert(s.push(y)[i] == s[i]);
            assert(contains_equiv(s.push(y), x));
        }
        if equiv(y, x) {
            assert(s.push(y)[s.len() as int] == y);
            assert(contains_equiv(s.push(y), x));
        }
    }
}

/// Membership after inserting one element.
pub proof fn lemma_insert_membership<T: Orderable>(s: Seq<T>, k: int, y: T)
    requires
        0 <= k <= s.len(),
    ensures
        forall|x: T| contains_equiv(s.insert(k, y), x) <==> contains_equiv(s, x) || equiv(y, x),
{
    let t = s.insert(k, y);
    assert forall|x: T| contains_equiv(t, x) <==> contains_equiv(s, x) || equiv(y, x) by {
        if contains_equiv(t, x) {
            let i = choose|i: int| 0 <= i < t.len() && equiv(t[i], x);
            if i < k {
                assert(t[i] == s[i]);
                assert(contains_equiv(s, x));
            } else if i == k {
                assert(t[i] == y);
            } else {
                assert(t[i] == s[i - 1]);
                assert(contains_equiv(s, x));
            }
        }
        if contains_equiv(s, x) {
            let i = choose|i: int| 0 <= i < s.len() && equiv(s[i], x);
            if i < k {
                assert(t[i] == s[i]);
                assert(contains_equiv(t, x));
            } else {
                assert(t[i + 1] == s[i]);
                assert(contains_equiv(t, x));
            }
        }
        if equiv(y, x) {
            assert(t[k] == y);
            assert(contains_equiv(t, x));
        }
    }
}

/// Inserting an element between its strict neighbours keeps a sequence
/// strictly sorted.
pub proof fn lemma_insert_sorted<T: Orderable>(s: Seq<T>, k: int, y: T)
    requires
        sorted(s),
        0 <= k <= s.len(),
        forall|i: int| 0 <= i < k ==> below(#[trigger] s[i], y),
        forall|i: int| k <= i < s.len() ==> below(y, #[trigger] s[i]),
    ensures
        sorted(s.insert(k, y)),
{
    let t = s.insert(k, y);
    assert forall|i: int, j: int| 0 <= i < j < t.len() implies below(t[i], t[j]) by {
        if i < k {
            assert(t[i] == s[i]);
        } else if i == k {
            assert(t[i] == y);
        } else {
            assert(t[i] == s[i - 1]);
        }
        if j < k {
            assert(t[j] == s[j]);
        } else if j == k {
            assert(t[j] == y);
        } else {
            assert(t[j] == s[j - 1]);
        }
    }
}

/// A chain of adjacent strict comparisons yields one between any two
/// positions.
proof fn lemma_adjacent_chain<T: Orderable>(s: Seq<T>, i: int, j: int)
    requires
        forall|m: int| 0 <= m < s.len() - 1 ==> below(#[trigger] s[m], s[m + 1]),
        0 <= i < j < s.len(),
    ensures
        below(s[i], s[j]),
    decreases j - i,
{
    lemma_order_laws::<T>();
    if j == i + 1 {
        assert(below(s[i], s[i + 1]));
    } else {
        lemma_adjacent_chain(s, i, j - 1);
        assert(below(s[j - 1], s[j]));
    }
}

/// Strict sortedness follows from the adjacent comparisons alone.
pub proof fn lemma_sorted_from_adjacent<T: Orderable>(s: Seq<T>)
    requires
        forall|m: int| 0 <= m < s.len() - 1 ==> below(#[trigger] s[m], s[m + 1]),
    ensures
        sorted(s),
{
    assert forall|i: int, j: int| 0 <= i < j < s.len() implies below(s[i], s[j]) by {
        lemma_adjacent_chain(s, i, j);
    }
}

} // verus!
