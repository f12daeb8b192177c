use vstd::prelude::*;
use vstd::string::StrSliceExecFns;

verus! {

/// Outcome of a three-way comparison of two elements.
#[derive(Clone, Copy, PartialEq, Eq, Debug)]
pub enum Rank {
    Less,
    Equal,
    Greater,
}

/// An element type that the sets of this crate can store: a total preorder
/// `leq`, together with an executable three-way comparison that agrees with
/// it, and a way to duplicate a value.
///
/// `leq` must be total and transitive.  Antisymmetry with respect to spec
/// equality is *not* demanded of implementations (it cannot be proved for
/// types, such as `String`, whose spec equality Verus keeps abstract); the
/// few laws that need it take `eq_reflecting::<T>()` as a premise instead.
pub trait Orderable: Sized {
    /// The ordering relation the containers sort by.
    spec fn leq(self, other: Self) -> bool;

    proof fn leq_total(a: Self, b: Self)
        ensures
            a.leq(b) || b.leq(a),
    ;

    proof fn leq_transitive(a: Self, b: Self, c: Self)
        requires
            a.leq(b),
            b.leq(c),
        ensures
            a.leq(c),
    ;

    /// Three-way comparison agreeing with `leq`.
    fn rank_with(&self, other: &Self) -> (r: Rank)
        ensures
            r == Rank::Less <==> self.leq(*other) && !other.leq(*self),
            r == Rank::Greater <==> other.leq(*self) && !self.leq(*other),
            r == Rank::Equal <==> self.leq(*other) && other.leq(*self),
    ;

    /// Produce a value equal to this one.
    fn copy_val(&self) -> (r: Self)
        ensures
            r == *self,
    ;
}

/// Strict order: `a` comes before `b` and they are not tied.
pub open spec fn below<T: Orderable>(a: T, b: T) -> bool {
    a.leq(b) && !b.leq(a)
}

/// The two elements are tied by the order (for most types: equal).
pub open spec fn equiv<T: Orderable>(a: T, b: T) -> bool {
    a.leq(b) && b.leq(a)
}

/// Elements tied by the order are spec-equal.  Holds for the integer and
/// `char` implementations below; it is the premise under which the order
/// relation pins sets of elements down exactly.
pub open spec fn eq_reflecting<T: Orderable>() -> bool {
    forall|a: T, b: T| #[trigger] equiv(a, b) ==> a == b
}

/// Quantified forms of the `Orderable` obligations, for use in proofs.
pub proof fn lemma_order_laws<T: Orderable>()
    ensures
        forall|a: T, b: T| #![trigger a.leq(b)] a.leq(b) || b.leq(a),
        forall|a: T, b: T, c: T| #![trigger a.leq(b), b.leq(c)]
            a.leq(b) && b.leq(c) ==> a.leq(c),
{
    assert forall|a: T, b: T| #![trigger a.leq(b)] a.leq(b) || b.leq(a) by {
        T::leq_total(a, b);
    }
    assert forall|a: T, b: T, c: T| #![trigger a.leq(b), b.leq(c)]
        a.leq(b) && b.leq(c) implies a.leq(c) by {
        T::leq_transitive(a, b, c);
    }
}

impl Orderable for u32 {
    open spec fn leq(self, other: Self) -> bool {
        self <= other
    }

    proof fn leq_total(a: Self, b: Self) {
    }

    proof fn leq_transitive(a: Self, b: Self, c: Self) {
    }

    fn rank_with(&self, other: &Self) -> (r: Rank) {
        if *self < *other {
            Rank::Less
        } else if *other < *self {
            Rank::Greater
        } else {
            Rank::Equal
        }
    }

    fn copy_val(&self) -> (r: Self) {
        *self
    }
}

impl Orderable for u64 {
    open spec fn leq(self, other: Self) -> bool {
        self <= other
    }

    proof fn leq_total(a: Self, b: Self) {
    }

    proof fn leq_transitive(a: Self, b: Self, c: Self) {
    }

    fn rank_with(&self, other: &Self) -> (r: Rank) {
        if *self < *other {
            Rank::Less
        } else if *other < *self {
            Rank::Greater
        } else {
            Rank::Equal
        }
    }

    fn copy_val(&self) -> (r: Self) {
        *self
    }
}

impl Orderable for i32 {
    open spec fn leq(self, other: Self) -> bool {
        self <= other
    }

    proof fn leq_total(a: Self, b: Self) {
    }

    proof fn leq_transitive(a: Self, b: Self, c: Self) {
    }

    fn rank_with(&self, other: &Self) -> (r: Rank) {
        if *self < *other {
            Rank::Less
        } else if *other < *self {
            Rank::Greater
        } else {
            Rank::Equal
        }
    }

    fn copy_val(&self) -> (r: Self) {
        *self
    }
}

impl Orderable for i64 {
    open spec fn leq(self, other: Self) -> bool {
        self <= other
    }

    proof fn leq_total(a: Self, b: Self) {
    }

    proof fn leq_transitive(a: Self, b: Self, c: Self) {
    }

    fn rank_with(&self, other: &Self) -> (r: Rank) {
        if *self < *other {
            Rank::Less
        } else if *other < *self {
            Rank::Greater
        } else {
            Rank::Equal
        }
    }

    fn copy_val(&self) -> (r: Self) {
        *self
    }
}

impl Orderable for usize {
    open spec fn leq(self, other: Self) -> bool {
        self <= other
    }

    proof fn leq_total(a: Self, b: Self) {
    }

    proof fn leq_transitive(a: Self, b: Self, c: Self) {
    }

    fn rank_with(&self, other: &Self) -> (r: Rank) {
        if *self < *other {
            Rank::Less
        } else if *other < *self {
            Rank::Greater
        } else {
            Rank::Equal
        }
    }

    fn copy_val(&self) -> (r: Self) {
        *self
    }
}

/// `eq_reflecting` holds of every implementation whose tie relation forces
/// spec equality; these lemmas discharge it for the primitive elements.
pub proof fn lemma_eq_reflecting_u32()
    ensures
        eq_reflecting::<u32>(),
{
}

pub proof fn lemma_eq_reflecting_u64()
    ensures
        eq_reflecting::<u64>(),
{
}

pub proof fn lemma_eq_reflecting_i32()
    ensures
        eq_reflecting::<i32>(),
{
}

pub proof fn lemma_eq_reflecting_i64()
    ensures
        eq_reflecting::<i64>(),
{
}

pub proof fn lemma_eq_reflecting_usize()
    ensures
        eq_reflecting::<usize>(),
{
}


/// Lexicographic order on character sequences, by code point.
pub open spec fn seq_char_leq(a: Seq<char>, b: Seq<char>) -> bool
    decreases a.len(),
{
    if a.len() == 0 {
        true
    } else if b.len() == 0 {
        false
    } else if (a[0] as int) < (b[0] as int) {
        true
    } else if (b[0] as int) < (a[0] as int) {
        false
    } else {
        seq_char_leq(a.skip(1), b.skip(1))
    }
}

proof fn lemma_seq_char_leq_total(a: Seq<char>, b: Seq<char>)
    ensures
        seq_char_leq(a, b) || seq_char_leq(b, a),
    decreases a.len(),
{
    if a.len() == 0 {
    } else if b.len() == 0 {
    } else if (a[0] as int) < (b[0] as int) {
    } else if (b[0] as int) < (a[0] as int) {
    } else {
        lemma_seq_char_leq_total(a.skip(1), b.skip(1));
    }
}

proof fn lemma_seq_char_leq_trans(a: Seq<char>, b: Seq<char>, c: Seq<char>)
    requires
        seq_char_leq(a, b),
        seq_char_leq(b, c),
    ensures
        seq_char_leq(a, c),
    decreases a.len(),
{
    if a.len() == 0 {
    } else {
        assert(b.len() > 0);
        assert(c.len() > 0);
        if (a[0] as int) == (b[0] as int) && (b[0] as int) == (c[0] as int) {
            lemma_seq_char_leq_trans(a.skip(1), b.skip(1), c.skip(1));
        }
    }
}

/// Two character sequences that agree on a prefix compare as their
/// suffixes do.
proof fn lemma_seq_char_prefix(a: Seq<char>, b: Seq<char>, i: int)
    requires
        0 <= i <= a.len(),
        i <= b.len(),
        forall|j: int| 0 <= j < i ==> (#[trigger] a[j]) as int == (b[j] as int),
    ensures
        seq_char_leq(a, b) == seq_char_leq(a.skip(i), b.skip(i)),
        seq_char_leq(b, a) == seq_char_leq(b.skip(i), a.skip(i)),
    decreases i,
{
    if i == 0 {
        assert(a.skip(0) == a);
        assert(b.skip(0) == b);
    } else {
        assert((a[0] as int) == (b[0] as int));
        assert forall|j: int| 0 <= j < i - 1 implies (#[trigger] a.skip(1)[j]) as int == (b.skip(
            1,
        )[j] as int) by {
            assert(a.skip(1)[j] == a[j + 1]);
            assert(b.skip(1)[j] == b[j + 1]);
        }
        lemma_seq_char_prefix(a.skip(1), b.skip(1), i - 1);
        assert(a.skip(1).skip(i - 1) == a.skip(i));
        assert(b.skip(1).skip(i - 1) == b.skip(i));
    }
}

impl Orderable for String {
    open spec fn leq(self, other: Self) -> bool {
        seq_char_leq(self@, other@)
    }

    proof fn leq_total(a: Self, b: Self) {
        lemma_seq_char_leq_total(a@, b@);
    }

    proof fn leq_transitive(a: Self, b: Self, c: Self) {
        lemma_seq_char_leq_trans(a@, b@, c@);
    }

    fn rank_with(&self, other: &Self) -> (r: Rank) {
        let a = self.as_str();
        let b = other.as_str();
        let an = a.unicode_len();
        let bn = b.unicode_len();
        let mut i: usize = 0;
        loop
            invariant
                i <= an,
                i <= bn,
                an == a@.len(),
                bn == b@.len(),
                a@ == self@,
                b@ == other@,
                forall|j: int| 0 <= j < i ==> (#[trigger] a@[j]) as int == (b@[j] as int),
            decreases an - i,
        {
            if i == an || i == bn {
                proof {
                    lemma_seq_char_prefix(a@, b@, i as int);
                }
                if an == bn {
                    return Rank::Equal;
                } else if i == an {
                    return Rank::Less;
                } else {
                    return Rank::Greater;
                }
            }
            let ca = a.get_char(i);
            let cb = b.get_char(i);
            let x = ca as u32;
            let y = cb as u32;
            if x < y {
                proof {
                    lemma_seq_char_prefix(a@, b@, i as int);
                }
                return Rank::Less;
            } else if y < x {
                proof {
                    lemma_seq_char_prefix(a@, b@, i as int);
                }
                return Rank::Greater;
            } else {
                i = i + 1;
            }
        }
    }

    fn copy_val(&self) -> (r: Self) {
        self.clone()
    }
}

} // verus!
