//! Three-way comparisons and the lexicographic order on sequences.
use vstd::prelude::*;

verus! {

/// The outcome of comparing two values.
#[derive(PartialEq, Eq, Structural, Debug, Clone, Copy)]
pub enum Comparison {
    Less,
    Equal,
    Greater,
}

impl Comparison {
    /// The outcome of the same comparison with its two sides swapped.
    pub open spec fn flip(self) -> Comparison {
        match self {
            Comparison::Less => Comparison::Greater,
            Comparison::Equal => Comparison::Equal,
            Comparison::Greater => Comparison::Less,
        }
    }
}

/// The natural order of the integers.
pub open spec fn compare_int(a: int, b: int) -> Comparison {
    if a < b {
        Comparison::Less
    } else if a == b {
        Comparison::Equal
    } else {
        Comparison::Greater
    }
}

/// Compares two machine integers.
pub fn compare_usize(a: usize, b: usize) -> (r: Comparison)
    ensures
        r == compare_int(a as int, b as int),
{
    if a < b {
        Comparison::Less
    } else if a == b {
        Comparison::Equal
    } else {
        Comparison::Greater
    }
}

/// `order` is a total order: swapping the sides flips the outcome, `Equal` means
/// identical, and `Less` is transitive.
pub open spec fn is_total_order<T>(order: spec_fn(T, T) -> Comparison) -> bool {
    &&& forall|x: T, y: T| #[trigger] order(x, y) == order(y, x).flip()
    &&& forall|x: T, y: T| #[trigger] order(x, y) == Comparison::Equal <==> x == y
    &&& forall|x: T, y: T, z: T|
        #[trigger] order(x, y) == Comparison::Less && #[trigger] order(y, z) == Comparison::Less
            ==> order(x, z) == Comparison::Less
}

/// Lexicographic comparison of two sequences, element by element under `order`;
/// a proper prefix comes first.
pub open spec fn lex_compare<T>(a: Seq<T>, b: Seq<T>, order: spec_fn(T, T) -> Comparison) -> Comparison
    decreases a.len(),
{
    if a.len() == 0 {
        if b.len() == 0 {
            Comparison::Equal
        } else {
            Comparison::Less
        }
    } else if b.len() == 0 {
        Comparison::Greater
    } else if order(a[0], b[0]) != Comparison::Equal {
        order(a[0], b[0])
    } else {
        lex_compare(a.drop_first(), b.drop_first(), order)
    }
}

pub proof fn lemma_lex_flip<T>(a: Seq<T>, b: Seq<T>, order: spec_fn(T, T) -> Comparison)
    requires
        is_total_order(order),
    ensures
        lex_compare(a, b, order) == lex_compare(b, a, order).flip(),
    decreases a.len(),
{
    if a.len() > 0 && b.len() > 0 {
        assert(order(a[0], b[0]) == order(b[0], a[0]).flip());
        lemma_lex_flip(a.drop_first(), b.drop_first(), order);
    }
}

pub proof fn lemma_lex_equal<T>(a: Seq<T>, b: Seq<T>, order: spec_fn(T, T) -> Comparison)
    requires
        is_total_order(order),
    ensures
        lex_compare(a, b, order) == Comparison::Equal <==> a == b,
    decreases a.len(),
{
    if a.len() > 0 && b.len() > 0 {
        lemma_lex_equal(a.drop_first(), b.drop_first(), order);
        if order(a[0], b[0]) == Comparison::Equal && a.drop_first() == b.drop_first() {
            assert(a =~= b) by {
                assert forall|i: int| 0 <= i < a.len() implies a[i] == b[i] by {
                    if i > 0 {
                        assert(a[i] == a.drop_first()[i - 1]);
                        assert(b[i] == b.drop_first()[i - 1]);
                    }
                }
            }
        }
        if a == b {
            assert(order(a[0], b[0]) == Comparison::Equal);
            assert(a.drop_first() =~= b.drop_first());
        }
    } else if a.len() == 0 && b.len() == 0 {
        assert(a =~= b);
    }
}

pub proof fn lemma_lex_trans<T>(a: Seq<T>, b: Seq<T>, d: Seq<T>, order: spec_fn(T, T) -> Comparison)
    requires
        is_total_order(order),
        lex_compare(a, b, order) == Comparison::Less,
        lex_compare(b, d, order) == Comparison::Less,
    ensures
        lex_compare(a, d, order) == Comparison::Less,
    decreases a.len(),
{
    if a.len() > 0 && b.len() > 0 && d.len() > 0 {
        let x = order(a[0], b[0]);
        let y = order(b[0], d[0]);
        if x == Comparison::Equal && y == Comparison::Equal {
            assert(order(a[0], d[0]) == Comparison::Equal);
            lemma_lex_trans(a.drop_first(), b.drop_first(), d.drop_first(), order);
        } else if x == Comparison::Equal {
            assert(a[0] == b[0]);
        } else if y == Comparison::Equal {
            assert(b[0] == d[0]);
        } else {
            assert(order(a[0], d[0]) == Comparison::Less);
        }
    }
}

/// A total preorder: swapping the sides flips the outcome, every value is
/// `Equal` to itself, and "not `Greater`" is transitive.
pub open spec fn is_total_preorder<T>(order: spec_fn(T, T) -> Comparison) -> bool {
    &&& forall|x: T, y: T| #[trigger] order(x, y) == order(y, x).flip()
    &&& forall|x: T| #[trigger] order(x, x) == Comparison::Equal
    &&& forall|x: T, y: T, z: T|
        #[trigger] order(x, y) != Comparison::Greater && #[trigger] order(y, z) != Comparison::Greater
            ==> order(x, z) != Comparison::Greater
}

} // verus!
