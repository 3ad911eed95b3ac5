//! The beap as a staircase: seen from the root, every node is reached by
//! some steps to the right child and some steps to the left child, and the
//! elements do not fall along either direction. A search walks this
//! staircase from its lower left corner and rules out a whole line of nodes
//! with every element it looks at.
use crate::beap::coordinate::lemma_child_slots;
use crate::beap::coordinate::lemma_slot_injective;
use crate::beap::coordinate::slot;
use crate::beap::heap_order::heap_ordered;
use crate::beap::heap_order::left_ok;
use crate::beap::heap_order::right_ok;
use crate::beap::order::lemma_order_laws;
use crate::beap::order::less;
use crate::beap::order::less_eq;
use crate::beap::order::same;
use crate::beap::order::total_order;
use vstd::prelude::*;

verus! {

/// The place of the node reached from the root by `right` steps to a right
/// child and `left` steps to a left child, in any order.
pub open spec fn cell(right: int, left: int) -> int {
    slot(right + left, right)
}

/// Further steps from the root lead to later places.
pub proof fn lemma_cell_grows(right_a: int, left_a: int, right_b: int, left_b: int)
    requires
        0 <= right_a <= right_b,
        0 <= left_a <= left_b,
    ensures
        0 <= cell(right_a, left_a) <= cell(right_b, left_b),
        right_a < right_b || left_a < left_b ==> cell(right_a, left_a) < cell(right_b, left_b),
{
    lemma_slot_injective(right_a + left_a, right_a, right_b + left_b, right_b);
}

/// Along steps to the left child the elements of a beap do not fall.
pub proof fn lemma_left_chain<T: Ord>(s: Seq<T>, right: int, left_a: int, left_b: int)
    requires
        total_order::<T>(),
        heap_ordered(s),
        0 <= right,
        0 <= left_a <= left_b,
        cell(right, left_b) < s.len(),
    ensures
        less_eq(s[cell(right, left_a)], s[cell(right, left_b)]),
    decreases left_b - left_a,
{
    lemma_order_laws::<T>();
    if left_a < left_b {
        lemma_child_slots(right + left_b - 1, right);
        lemma_cell_grows(right, left_a, right, left_b - 1);
        assert(left_ok(s, right + left_b - 1, right));
        lemma_left_chain(s, right, left_a, left_b - 1);
    }
}

/// Along steps to the right child the elements of a beap do not fall.
pub proof fn lemma_right_chain<T: Ord>(s: Seq<T>, right_a: int, right_b: int, left: int)
    requires
        total_order::<T>(),
        heap_ordered(s),
        0 <= left,
        0 <= right_a <= right_b,
        cell(right_b, left) < s.len(),
    ensures
        less_eq(s[cell(right_a, left)], s[cell(right_b, left)]),
    decreases right_b - right_a,
{
    lemma_order_laws::<T>();
    if right_a < right_b {
        lemma_child_slots(right_b - 1 + left, right_b - 1);
        lemma_cell_grows(right_a, left, right_b - 1, left);
        assert(right_ok(s, right_b - 1 + left, right_b - 1));
        lemma_right_chain(s, right_a, right_b - 1, left);
    }
}

/// An element of the rank of `target` stands at `cell(right, left)`.
pub open spec fn hit<T: Ord>(s: Seq<T>, target: T, right: int, left: int) -> bool {
    cell(right, left) < s.len() && same(s[cell(right, left)], target)
}

/// No element of the rank of `target` stands fewer than `right` steps to the
/// right or more than `left` steps to the left of the root.
pub open spec fn cleared<T: Ord>(s: Seq<T>, target: T, right: int, left: int) -> bool {
    forall|a: int, b: int|
        0 <= a && 0 <= b && (a < right || b > left) ==> !#[trigger] hit(s, target, a, b)
}

/// A node above the target rules out the nodes to its right; so does a node
/// below the target that has nothing to its right.
pub proof fn lemma_clear_row<T: Ord>(s: Seq<T>, target: T, right: int, left: int)
    requires
        total_order::<T>(),
        heap_ordered(s),
        0 <= right,
        0 <= left,
        cell(right, left) < s.len(),
        cleared(s, target, right, left),
        less(target, s[cell(right, left)]) || (less(s[cell(right, left)], target) && cell(
            right + 1,
            left,
        ) >= s.len()),
    ensures
        cleared(s, target, right, left - 1),
{
    lemma_order_laws::<T>();
    assert forall|a: int, b: int|
        0 <= a && 0 <= b && (a < right || b > left - 1) implies !#[trigger] hit(s, target, a, b) by {
        if a < right || b > left {
            assert(!hit(s, target, a, b));
        } else if less(target, s[cell(right, left)]) {
            if cell(a, left) < s.len() {
                lemma_right_chain(s, right, a, left);
            }
        } else if a > right {
            lemma_cell_grows(right + 1, left, a, left);
        }
    }
}

/// A node below the target rules out the nodes to its left.
pub proof fn lemma_clear_column<T: Ord>(s: Seq<T>, target: T, right: int, left: int)
    requires
        total_order::<T>(),
        heap_ordered(s),
        0 <= right,
        0 <= left,
        cell(right, left) < s.len(),
        cleared(s, target, right, left),
        less(s[cell(right, left)], target),
    ensures
        cleared(s, target, right + 1, left),
{
    lemma_order_laws::<T>();
    assert forall|a: int, b: int|
        0 <= a && 0 <= b && (a < right + 1 || b > left) implies !#[trigger] hit(s, target, a, b) by {
        if a < right || b > left {
            assert(!hit(s, target, a, b));
        } else {
            lemma_cell_grows(right, b, right, left);
            lemma_left_chain(s, right, b, left);
        }
    }
}

/// An element above `floor` stands at `cell(right, left)`.
pub open spec fn candidate<T: Ord>(s: Seq<T>, floor: T, right: int, left: int) -> bool {
    cell(right, left) < s.len() && less(floor, s[cell(right, left)])
}

/// The element at the first node is to be taken before the one at the
/// second: it is below it, or it is of equal rank and stands further to the
/// left in its row or, at the same distance, in a row not above.
pub open spec fn preferred<T: Ord>(s: Seq<T>, best: (int, int), right: int, left: int) -> bool {
    ||| less(s[cell(best.0, best.1)], s[cell(right, left)])
    ||| same(s[cell(best.0, best.1)], s[cell(right, left)]) && (best.0 < right || (best.0 == right
        && best.1 >= left))
}

/// Every element above `floor` that stands fewer than `right` steps to the
/// right or more than `left` steps to the left of the root yields to the
/// one at `best`.
pub open spec fn covered<T: Ord>(
    s: Seq<T>,
    floor: T,
    best: Option<(int, int)>,
    right: int,
    left: int,
) -> bool {
    forall|a: int, b: int|
        0 <= a && 0 <= b && (a < right || b > left) && #[trigger] candidate(s, floor, a, b)
            ==> best is Some && preferred(s, best.unwrap(), a, b)
}

/// `best` is an element above `floor` that the walk to `cell(right, left)`
/// has passed.
pub open spec fn passed<T: Ord>(
    s: Seq<T>,
    floor: T,
    best: Option<(int, int)>,
    right: int,
    left: int,
) -> bool {
    best matches Some(c) ==> {
        &&& 0 <= c.0 <= right
        &&& left <= c.1
        &&& candidate(s, floor, c.0, c.1)
    }
}

/// What a search keeps when it comes upon an element above the floor: that
/// element if it is below the best so far, and else the best so far.
pub open spec fn better<T: Ord>(s: Seq<T>, best: Option<(int, int)>, right: int, left: int)
    -> Option<(int, int)> {
    match best {
        Some(c) => if less(s[cell(right, left)], s[cell(c.0, c.1)]) {
            Some((right, left))
        } else {
            best
        },
        None => Some((right, left)),
    }
}

/// An element above the floor, once weighed against the best so far,
/// settles the nodes to its right.
pub proof fn lemma_cover_row<T: Ord>(
    s: Seq<T>,
    floor: T,
    best: Option<(int, int)>,
    right: int,
    left: int,
)
    requires
        total_order::<T>(),
        heap_ordered(s),
        0 <= right,
        0 <= left,
        candidate(s, floor, right, left),
        covered(s, floor, best, right, left),
        passed(s, floor, best, right, left),
    ensures
        covered(s, floor, better(s, best, right, left), right, left - 1),
        passed(s, floor, better(s, best, right, left), right, left - 1),
{
    lemma_order_laws::<T>();
    let kept = better(s, best, right, left);
    let here = s[cell(right, left)];
    assert forall|a: int, b: int|
        0 <= a && 0 <= b && (a < right || b > left - 1) && #[trigger] candidate(
            s,
            floor,
            a,
            b,
        ) implies kept is Some && preferred(s, kept.unwrap(), a, b) by {
        let there = s[cell(a, b)];
        if a < right || b > left {
            let old_best = s[cell(best.unwrap().0, best.unwrap().1)];
            assert(preferred(s, best.unwrap(), a, b));
            assert(less_eq(old_best, there));
            if kept != best {
                assert(less(here, old_best));
                assert(less_eq(here, old_best));
                assert(less_eq(here, there));
            }
        } else {
            lemma_right_chain(s, right, a, left);
            assert(less_eq(here, there));
            if kept == best && best is Some {
                let old_best = s[cell(best.unwrap().0, best.unwrap().1)];
                assert(less_eq(old_best, here));
                assert(less_eq(old_best, there));
            }
        }
    }
}

/// An element not above the floor settles the nodes to its left.
pub proof fn lemma_skip_column<T: Ord>(
    s: Seq<T>,
    floor: T,
    best: Option<(int, int)>,
    right: int,
    left: int,
)
    requires
        total_order::<T>(),
        heap_ordered(s),
        0 <= right,
        0 <= left,
        cell(right, left) < s.len(),
        !less(floor, s[cell(right, left)]),
        covered(s, floor, best, right, left),
    ensures
        covered(s, floor, best, right + 1, left),
{
    lemma_order_laws::<T>();
    assert forall|a: int, b: int|
        0 <= a && 0 <= b && (a < right + 1 || b > left) && #[trigger] candidate(
            s,
            floor,
            a,
            b,
        ) implies best is Some && preferred(s, best.unwrap(), a, b) by {
        if !(a < right || b > left) {
            lemma_cell_grows(right, b, right, left);
            lemma_left_chain(s, right, b, left);
            assert(less_eq(s[cell(right, left)], floor));
        }
    }
}

/// An element not above the floor that has nothing to its right settles
/// the nodes to its right.
pub proof fn lemma_skip_row<T: Ord>(
    s: Seq<T>,
    floor: T,
    best: Option<(int, int)>,
    right: int,
    left: int,
)
    requires
        0 <= right,
        0 <= left,
        cell(right, left) < s.len(),
        !less(floor, s[cell(right, left)]),
        cell(right + 1, left) >= s.len(),
        covered(s, floor, best, right, left),
    ensures
        covered(s, floor, best, right, left - 1),
{
    assert forall|a: int, b: int|
        0 <= a && 0 <= b && (a < right || b > left - 1) && #[trigger] candidate(
            s,
            floor,
            a,
            b,
        ) implies best is Some && preferred(s, best.unwrap(), a, b) by {
        if !(a < right || b > left) {
            if a > right {
                lemma_cell_grows(right + 1, left, a, left);
            }
        }
    }
}

} // verus!
