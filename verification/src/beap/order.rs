//! The order on the elements of a beap, as contracts speak of it.
use core::cmp::Ordering;
use vstd::laws_cmp::obeys_cmp;
use vstd::laws_cmp::obeys_cmp_ord;
use vstd::laws_cmp::obeys_cmp_partial_ord;
use vstd::laws_cmp::obeys_partial_cmp_spec_properties;
use vstd::laws_eq::obeys_eq_spec_properties;
use vstd::prelude::*;
use vstd::std_specs::cmp::OrdSpec;
use vstd::std_specs::cmp::PartialEqSpec;
use vstd::std_specs::cmp::PartialOrdSpec;

verus! {

/// The comparisons of `T` are those of a total order, and the operators
/// `<`, `>` and `==` report them faithfully. For the integer types, and for
/// tuples, references and options of types of which it holds, vstd shows it
/// in `vstd::laws_cmp::group_laws_cmp`.
pub open spec fn total_order<T: Ord>() -> bool {
    obeys_cmp::<T>()
}

/// `a` is strictly below `b`.
pub open spec fn less<T: Ord>(a: T, b: T) -> bool {
    a.partial_cmp_spec(&b) == Some(Ordering::Less)
}

/// `a` and `b` are of equal rank: neither is below the other.
pub open spec fn same<T: Ord>(a: T, b: T) -> bool {
    a.partial_cmp_spec(&b) == Some(Ordering::Equal)
}

/// `a` is below `b` or of equal rank.
pub open spec fn less_eq<T: Ord>(a: T, b: T) -> bool {
    less(a, b) || same(a, b)
}

/// Of two elements exactly one of three holds: the first is below the second,
/// they are of equal rank, or the second is below the first.
pub proof fn lemma_trichotomy<T: Ord>(a: T, b: T)
    requires
        total_order::<T>(),
    ensures
        less(a, b) || same(a, b) || less(b, a),
        !(less(a, b) && same(a, b)),
        !(less(a, b) && less(b, a)),
        !(same(a, b) && less(b, a)),
        same(a, b) == same(b, a),
        less_eq(a, b) == !less(b, a),
{
    reveal(obeys_eq_spec_properties);
    reveal(obeys_partial_cmp_spec_properties);
    reveal(obeys_cmp_partial_ord);
    reveal(obeys_cmp_ord);
    let ab = a.partial_cmp_spec(&b);
    let ba = b.partial_cmp_spec(&a);
    assert(ab == Some(a.cmp_spec(&b)));
    assert(ba == Some(b.cmp_spec(&a)));
    assert(a.eq_spec(&b) == b.eq_spec(&a));
    if ab == Some(Ordering::Greater) {
        assert(ba == Some(Ordering::Less));
    }
    if ba == Some(Ordering::Greater) {
        assert(ab == Some(Ordering::Less));
    }
}

/// Every element is of equal rank with itself.
pub proof fn lemma_same_reflexive<T: Ord>(a: T)
    requires
        total_order::<T>(),
    ensures
        same(a, a),
        less_eq(a, a),
{
    lemma_trichotomy(a, a);
}

/// Being below is transitive, and it absorbs equal rank on either side.
pub proof fn lemma_less_eq_transitive<T: Ord>(a: T, b: T, c: T)
    requires
        total_order::<T>(),
        less_eq(a, b),
        less_eq(b, c),
    ensures
        less_eq(a, c),
        less(a, b) || less(b, c) ==> less(a, c),
        same(a, b) && same(b, c) ==> same(a, c),
{
    lemma_trichotomy(a, b);
    lemma_trichotomy(b, c);
    lemma_trichotomy(a, c);
    lemma_trichotomy(c, b);
    lemma_trichotomy(b, a);
    reveal(obeys_eq_spec_properties);
    reveal(obeys_partial_cmp_spec_properties);
    reveal(obeys_cmp_partial_ord);
    reveal(obeys_cmp_ord);
    if less(a, b) && less(b, c) {
        assert(less(a, c));
    } else if same(a, b) && same(b, c) {
        assert(a.eq_spec(&b) && b.eq_spec(&c));
        assert(a.eq_spec(&c));
        assert(same(a, c));
    } else if less(a, b) && same(b, c) {
        // `c` below `a` would put `c` below `b`; equal rank of `a` and `c`
        // would make `a` and `b` of equal rank.
        if less(c, a) {
            assert(less(c, b));
        }
        if same(a, c) {
            assert(a.eq_spec(&c) && c.eq_spec(&b));
            assert(a.eq_spec(&b));
        }
    } else {
        assert(same(a, b) && less(b, c));
        if less(c, a) {
            assert(less(b, a));
        }
        if same(a, c) {
            assert(b.eq_spec(&a) && a.eq_spec(&c));
            assert(b.eq_spec(&c));
        }
    }
}

/// The laws of the order, for all elements at once.
pub proof fn lemma_order_laws<T: Ord>()
    requires
        total_order::<T>(),
    ensures
        forall|a: T| #[trigger] less_eq(a, a),
        forall|a: T, b: T| #[trigger] less_eq(a, b) <==> !less(b, a),
        forall|a: T, b: T| #[trigger] less(a, b) <==> !less_eq(b, a),
        forall|a: T, b: T| #[trigger] same(a, b) <==> less_eq(a, b) && less_eq(b, a),
        forall|a: T, b: T, c: T|
            #[trigger] less_eq(a, b) && #[trigger] less_eq(b, c) ==> less_eq(a, c),
{
    assert forall|a: T| #[trigger] less_eq(a, a) by {
        lemma_same_reflexive(a);
    }
    assert forall|a: T, b: T| #[trigger] less_eq(a, b) <==> !less(b, a) by {
        lemma_trichotomy(a, b);
    }
    assert forall|a: T, b: T| #[trigger] less(a, b) <==> !less_eq(b, a) by {
        lemma_trichotomy(b, a);
    }
    assert forall|a: T, b: T| #[trigger] same(a, b) <==> less_eq(a, b) && less_eq(b, a) by {
        lemma_trichotomy(a, b);
        lemma_trichotomy(b, a);
    }
    assert forall|a: T, b: T, c: T| #[trigger]
        less_eq(a, b) && #[trigger] less_eq(b, c) implies less_eq(a, c) by {
        lemma_less_eq_transitive(a, b, c);
    }
}

/// How one element stands to another.
pub enum Rank {
    Below,
    Same,
    Above,
}

/// How `a` stands to `b`.
pub fn rank<T: Ord>(a: &T, b: &T) -> (r: Rank)
    requires
        total_order::<T>(),
    ensures
        r is Below == less(*a, *b),
        r is Same == same(*a, *b),
        r is Above == less(*b, *a),
{
    proof {
        reveal(obeys_cmp_partial_ord);
        reveal(obeys_cmp_ord);
        lemma_trichotomy(*a, *b);
        reveal(obeys_partial_cmp_spec_properties);
    }
    match a.cmp(b) {
        Ordering::Less => Rank::Below,
        Ordering::Equal => Rank::Same,
        Ordering::Greater => Rank::Above,
    }
}

/// Whether `a` is strictly below `b`.
pub fn is_less<T: Ord>(a: &T, b: &T) -> (r: bool)
    requires
        total_order::<T>(),
    ensures
        r == less(*a, *b),
{
    proof {
        reveal(obeys_cmp_partial_ord);
    }
    *a < *b
}

} // verus!
