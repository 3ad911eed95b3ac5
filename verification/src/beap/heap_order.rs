//! The order that a beap keeps among its elements, and what one exchange of
//! a node with a parent or a child does to it.
use crate::beap::coordinate::lemma_address_of_index;
use crate::beap::coordinate::lemma_child_slots;
use crate::beap::coordinate::lemma_slot_injective;
use crate::beap::coordinate::lemma_slot_nonnegative;
use crate::beap::coordinate::lemma_triangle_zero;
use crate::beap::coordinate::pos_of;
use crate::beap::coordinate::row_of;
use crate::beap::coordinate::slot;
use crate::beap::order::lemma_order_laws;
use crate::beap::order::less;
use crate::beap::order::less_eq;
use crate::beap::order::total_order;
use vstd::prelude::*;
use vstd::seq_lib::to_multiset_update;

verus! {

/// The node at `(row, pos)` is not above its left child, if it has one.
pub open spec fn left_ok<T: Ord>(s: Seq<T>, row: int, pos: int) -> bool {
    slot(row + 1, pos) < s.len() ==> less_eq(s[slot(row, pos)], s[slot(row + 1, pos)])
}

/// The node at `(row, pos)` is not above its right child, if it has one.
pub open spec fn right_ok<T: Ord>(s: Seq<T>, row: int, pos: int) -> bool {
    slot(row + 1, pos + 1) < s.len() ==> less_eq(s[slot(row, pos)], s[slot(row + 1, pos + 1)])
}

/// No node is above either of its children.
pub open spec fn heap_ordered<T: Ord>(s: Seq<T>) -> bool {
    &&& forall|row: int, pos: int| 0 <= pos <= row ==> #[trigger] left_ok(s, row, pos)
    &&& forall|row: int, pos: int| 0 <= pos <= row ==> #[trigger] right_ok(s, row, pos)
}

/// No node is above either of its children, except that the node at
/// `(r, p)` may be below its parents.
pub open spec fn ordered_but_above<T: Ord>(s: Seq<T>, r: int, p: int) -> bool {
    &&& forall|row: int, pos: int|
        0 <= pos <= row && !(row + 1 == r && pos == p) ==> #[trigger] left_ok(s, row, pos)
    &&& forall|row: int, pos: int|
        0 <= pos <= row && !(row + 1 == r && pos + 1 == p) ==> #[trigger] right_ok(s, row, pos)
}

/// No node is above either of its children, except that the node at
/// `(r, p)` may be above its children.
pub open spec fn ordered_but_below<T: Ord>(s: Seq<T>, r: int, p: int) -> bool {
    &&& forall|row: int, pos: int|
        0 <= pos <= row && !(row == r && pos == p) ==> #[trigger] left_ok(s, row, pos)
    &&& forall|row: int, pos: int|
        0 <= pos <= row && !(row == r && pos == p) ==> #[trigger] right_ok(s, row, pos)
}

/// `x` is not above either child of the node at `(r, p)`.
pub open spec fn at_most_children<T: Ord>(s: Seq<T>, x: T, r: int, p: int) -> bool {
    &&& slot(r + 1, p) < s.len() ==> less_eq(x, s[slot(r + 1, p)])
    &&& slot(r + 1, p + 1) < s.len() ==> less_eq(x, s[slot(r + 1, p + 1)])
}

/// `x` is not below either parent of the node at `(r, p)`.
pub open spec fn at_least_parents<T: Ord>(s: Seq<T>, x: T, r: int, p: int) -> bool {
    &&& r >= 1 && p >= 1 ==> less_eq(s[slot(r - 1, p - 1)], x)
    &&& r >= 1 && p < r ==> less_eq(s[slot(r - 1, p)], x)
}

/// Neither parent of the node at `(r, p)` is above either of its children.
pub open spec fn spans<T: Ord>(s: Seq<T>, r: int, p: int) -> bool {
    &&& r >= 1 && p >= 1 ==> at_most_children(s, s[slot(r - 1, p - 1)], r, p)
    &&& r >= 1 && p < r ==> at_most_children(s, s[slot(r - 1, p)], r, p)
}

/// `s` with the elements at `i` and `j` exchanged.
pub open spec fn exchanged<T>(s: Seq<T>, i: int, j: int) -> Seq<T> {
    s.update(i, s[j]).update(j, s[i])
}

/// Exchanges the elements at places `i` and `j` of `v`.
pub(crate) fn exchange<T>(v: &mut Vec<T>, i: usize, j: usize)
    requires
        i < old(v)@.len(),
        j < old(v)@.len(),
    ensures
        final(v)@ == exchanged(old(v)@, i as int, j as int),
{
    if i == j {
        assert(v@ == exchanged(v@, i as int, j as int));
        return ;
    }
    let low: usize = if i < j {
        i
    } else {
        j
    };
    let high: usize = if i < j {
        j
    } else {
        i
    };
    let (head, tail) = v.split_at_mut(high);
    core::mem::swap(&mut head[low], &mut tail[0]);
    assert(v@ == exchanged(old(v)@, i as int, j as int));
}

/// An exchange of two elements neither adds nor removes an element.
pub proof fn lemma_exchanged_multiset<T>(s: Seq<T>, i: int, j: int)
    requires
        0 <= i < s.len(),
        0 <= j < s.len(),
    ensures
        exchanged(s, i, j).to_multiset() == s.to_multiset(),
        exchanged(s, i, j).len() == s.len(),
{
    let half = s.update(i, s[j]);
    to_multiset_update(s, i, s[j]);
    to_multiset_update(half, j, s[i]);
    s.to_multiset_ensures();
    assert(s.contains(s[i]));
    assert(s.contains(s[j]));
    assert(half[j] == s[j]);
    assert(s.to_multiset().insert(s[j]).remove(s[i]).insert(s[i]).remove(half[j])
        =~= s.to_multiset());
}

/// Nothing is out of order where there is nothing.
pub proof fn lemma_empty_ordered<T: Ord>()
    ensures
        heap_ordered(Seq::<T>::empty()),
{
    let s = Seq::<T>::empty();
    assert forall|row: int, pos: int| 0 <= pos <= row implies #[trigger] left_ok(s, row, pos) by {
        lemma_slot_nonnegative(row + 1, pos);
    }
    assert forall|row: int, pos: int| 0 <= pos <= row implies #[trigger] right_ok(s, row, pos) by {
        lemma_slot_nonnegative(row + 1, pos + 1);
    }
}

/// Where only the edges into one node may fail and they do not, none fails.
pub proof fn lemma_settled_above<T: Ord>(s: Seq<T>, r: int, p: int)
    requires
        0 <= p <= r,
        slot(r, p) < s.len(),
        ordered_but_above(s, r, p),
        at_least_parents(s, s[slot(r, p)], r, p),
    ensures
        heap_ordered(s),
{
    assert forall|row: int, pos: int| 0 <= pos <= row implies #[trigger] left_ok(s, row, pos) by {
        if row + 1 == r && pos == p {
        }
    }
    assert forall|row: int, pos: int| 0 <= pos <= row implies #[trigger] right_ok(s, row, pos) by {
        if row + 1 == r && pos + 1 == p {
        }
    }
}

/// Where only the edges out of one node may fail and they do not, none fails.
pub proof fn lemma_settled_below<T: Ord>(s: Seq<T>, r: int, p: int)
    requires
        0 <= p <= r,
        ordered_but_below(s, r, p),
        slot(r, p) < s.len() ==> at_most_children(s, s[slot(r, p)], r, p),
    ensures
        heap_ordered(s),
{
    lemma_child_slots(r, p);
    lemma_slot_nonnegative(r, p);
    assert forall|row: int, pos: int| 0 <= pos <= row implies #[trigger] left_ok(s, row, pos) by {
        if row == r && pos == p {
        }
    }
    assert forall|row: int, pos: int| 0 <= pos <= row implies #[trigger] right_ok(s, row, pos) by {
        if row == r && pos == p {
        }
    }
}

/// Moving a node that is below its greater parent up into that parent's
/// place leaves only the edges into the new place in doubt.
pub proof fn lemma_bubble_step<T: Ord>(s: Seq<T>, r: int, p: int, q: int)
    requires
        total_order::<T>(),
        0 <= p <= r,
        0 <= q <= r - 1,
        q == p - 1 || q == p,
        slot(r, p) < s.len(),
        ordered_but_above(s, r, p),
        spans(s, r, p),
        less(s[slot(r, p)], s[slot(r - 1, q)]),
        at_least_parents(s, s[slot(r - 1, q)], r, p),
    ensures
        ordered_but_above(exchanged(s, slot(r, p), slot(r - 1, q)), r - 1, q),
        spans(exchanged(s, slot(r, p), slot(r - 1, q)), r - 1, q),
{
    let i = slot(r, p);
    let g = slot(r - 1, q);
    let t = exchanged(s, i, g);
    lemma_order_laws::<T>();
    lemma_slot_injective(r - 1, q, r, p);
    lemma_child_slots(r - 1, q);
    lemma_child_slots(r, p);
    assert(less_eq(s[i], s[g]));
    assert forall|row: int, pos: int|
        0 <= pos <= row && !(row + 1 == r - 1 && pos == q) implies #[trigger] left_ok(
        t,
        row,
        pos,
    ) by {
        lemma_slot_injective(row, pos, r, p);
        lemma_slot_injective(row, pos, r - 1, q);
        lemma_slot_injective(row + 1, pos, r, p);
        lemma_slot_injective(row + 1, pos, r - 1, q);
        lemma_slot_injective(r, p, row, pos);
        lemma_slot_injective(r - 1, q, row, pos);
        lemma_slot_injective(r, p, row + 1, pos);
        lemma_slot_injective(r - 1, q, row + 1, pos);
        lemma_child_slots(row, pos);
        if !(row + 1 == r && pos == p) {
            assert(left_ok(s, row, pos));
        }
    }
    assert forall|row: int, pos: int|
        0 <= pos <= row && !(row + 1 == r - 1 && pos + 1 == q) implies #[trigger] right_ok(
        t,
        row,
        pos,
    ) by {
        lemma_slot_injective(row, pos, r, p);
        lemma_slot_injective(row, pos, r - 1, q);
        lemma_slot_injective(row + 1, pos + 1, r, p);
        lemma_slot_injective(row + 1, pos + 1, r - 1, q);
        lemma_slot_injective(r, p, row, pos);
        lemma_slot_injective(r - 1, q, row, pos);
        lemma_slot_injective(r, p, row + 1, pos + 1);
        lemma_slot_injective(r - 1, q, row + 1, pos + 1);
        lemma_child_slots(row, pos);
        if !(row + 1 == r && pos + 1 == p) {
            assert(right_ok(s, row, pos));
        }
    }
    // The parents of the new place were not above the element that stood
    // there, which was above neither of its children.
    if r - 1 >= 1 {
        if q >= 1 {
            lemma_child_slots(r - 2, q - 1);
            lemma_slot_injective(r - 2, q - 1, r - 1, q);
            lemma_slot_injective(r - 2, q - 1, r, p);
            assert(right_ok(s, r - 2, q - 1));
        }
        if q < r - 1 {
            lemma_child_slots(r - 2, q);
            lemma_slot_injective(r - 2, q, r - 1, q);
            lemma_slot_injective(r - 2, q, r, p);
            assert(left_ok(s, r - 2, q));
        }
    }
    if q == p - 1 {
        assert(left_ok(s, r - 1, q));
    } else {
        assert(right_ok(s, r - 1, q));
    }
}

/// Moving a node that is above its smaller child down into that child's
/// place leaves only the edges out of the new place in doubt.
pub proof fn lemma_sink_step<T: Ord>(s: Seq<T>, r: int, p: int, k: int)
    requires
        total_order::<T>(),
        0 <= p <= r,
        k == p || k == p + 1,
        slot(r + 1, k) < s.len(),
        ordered_but_below(s, r, p),
        spans(s, r, p),
        less(s[slot(r + 1, k)], s[slot(r, p)]),
        at_most_children(s, s[slot(r + 1, k)], r, p),
    ensures
        ordered_but_below(exchanged(s, slot(r, p), slot(r + 1, k)), r + 1, k),
        spans(exchanged(s, slot(r, p), slot(r + 1, k)), r + 1, k),
{
    let i = slot(r, p);
    let c = slot(r + 1, k);
    let t = exchanged(s, i, c);
    lemma_order_laws::<T>();
    lemma_slot_injective(r, p, r + 1, k);
    lemma_child_slots(r, p);
    lemma_child_slots(r + 1, k);
    assert(less_eq(s[c], s[i]));
    assert forall|row: int, pos: int|
        0 <= pos <= row && !(row == r + 1 && pos == k) implies #[trigger] left_ok(t, row, pos) by {
        lemma_slot_injective(row, pos, r, p);
        lemma_slot_injective(row, pos, r + 1, k);
        lemma_slot_injective(row + 1, pos, r, p);
        lemma_slot_injective(row + 1, pos, r + 1, k);
        lemma_slot_injective(r, p, row, pos);
        lemma_slot_injective(r + 1, k, row, pos);
        lemma_slot_injective(r, p, row + 1, pos);
        lemma_slot_injective(r + 1, k, row + 1, pos);
        lemma_child_slots(row, pos);
        if !(row == r && pos == p) {
            assert(left_ok(s, row, pos));
        }
    }
    assert forall|row: int, pos: int|
        0 <= pos <= row && !(row == r + 1 && pos == k) implies #[trigger] right_ok(t, row, pos) by {
        lemma_slot_injective(row, pos, r, p);
        lemma_slot_injective(row, pos, r + 1, k);
        lemma_slot_injective(row + 1, pos + 1, r, p);
        lemma_slot_injective(row + 1, pos + 1, r + 1, k);
        lemma_slot_injective(r, p, row, pos);
        lemma_slot_injective(r + 1, k, row, pos);
        lemma_slot_injective(r, p, row + 1, pos + 1);
        lemma_slot_injective(r + 1, k, row + 1, pos + 1);
        lemma_child_slots(row, pos);
        if !(row == r && pos == p) {
            assert(right_ok(s, row, pos));
        }
    }
    // The children of the new place were not below the element that stood
    // there, which was below neither of its parents.
    assert(left_ok(s, r + 1, k));
    assert(right_ok(s, r + 1, k));
    if k >= 1 {
        lemma_child_slots(r, k - 1);
        lemma_slot_injective(r, k - 1, r + 1, k);
        lemma_slot_injective(r, k - 1, r, p);
        if k - 1 != p {
            assert(right_ok(s, r, k - 1));
        }
    }
    if k <= r {
        lemma_child_slots(r, k);
        lemma_slot_injective(r, k, r + 1, k);
        lemma_slot_injective(r, k, r, p);
        if k != p {
            assert(left_ok(s, r, k));
        }
    }
}

/// A new last element leaves only the edges into its place in doubt.
pub proof fn lemma_pushed<T: Ord>(s: Seq<T>, value: T, r: int, p: int)
    requires
        0 <= p <= r,
        slot(r, p) == s.len(),
        heap_ordered(s),
    ensures
        ordered_but_above(s.push(value), r, p),
        spans(s.push(value), r, p),
{
    let t = s.push(value);
    lemma_child_slots(r, p);
    assert forall|row: int, pos: int|
        0 <= pos <= row && !(row + 1 == r && pos == p) implies #[trigger] left_ok(t, row, pos) by {
        lemma_slot_injective(row + 1, pos, r, p);
        lemma_slot_nonnegative(row, pos);
        lemma_child_slots(row, pos);
        assert(left_ok(s, row, pos));
    }
    assert forall|row: int, pos: int|
        0 <= pos <= row && !(row + 1 == r && pos + 1 == p) implies #[trigger] right_ok(
        t,
        row,
        pos,
    ) by {
        lemma_slot_injective(row + 1, pos + 1, r, p);
        lemma_slot_nonnegative(row, pos);
        lemma_child_slots(row, pos);
        assert(right_ok(s, row, pos));
    }
}

/// `s` without the element at `i`, whose place the last element has taken.
pub open spec fn swap_removed<T>(s: Seq<T>, i: int) -> Seq<T> {
    s.update(i, s.last()).drop_last()
}

/// Taking the last element away breaks no edge.
pub proof fn lemma_last_dropped<T: Ord>(s: Seq<T>)
    requires
        s.len() > 0,
        heap_ordered(s),
    ensures
        heap_ordered(s.drop_last()),
{
    let t = s.drop_last();
    assert forall|row: int, pos: int| 0 <= pos <= row implies #[trigger] left_ok(t, row, pos) by {
        lemma_slot_nonnegative(row, pos);
        lemma_child_slots(row, pos);
        assert(left_ok(s, row, pos));
    }
    assert forall|row: int, pos: int| 0 <= pos <= row implies #[trigger] right_ok(t, row, pos) by {
        lemma_slot_nonnegative(row, pos);
        lemma_child_slots(row, pos);
        assert(right_ok(s, row, pos));
    }
}

/// When the last element takes the place of another and is not below the
/// parents of that place, only the edges out of the place are in doubt.
pub proof fn lemma_swap_removed<T: Ord>(s: Seq<T>, r: int, p: int)
    requires
        total_order::<T>(),
        0 <= p <= r,
        slot(r, p) < s.len() - 1,
        heap_ordered(s),
        at_least_parents(s, s.last(), r, p),
    ensures
        ordered_but_below(swap_removed(s, slot(r, p)), r, p),
        spans(swap_removed(s, slot(r, p)), r, p),
{
    let i = slot(r, p);
    let t = swap_removed(s, i);
    lemma_order_laws::<T>();
    lemma_child_slots(r, p);
    lemma_slot_nonnegative(r, p);
    assert forall|row: int, pos: int|
        0 <= pos <= row && !(row == r && pos == p) implies #[trigger] left_ok(t, row, pos) by {
        lemma_slot_injective(row, pos, r, p);
        lemma_slot_injective(row + 1, pos, r, p);
        lemma_child_slots(row, pos);
        assert(left_ok(s, row, pos));
    }
    assert forall|row: int, pos: int|
        0 <= pos <= row && !(row == r && pos == p) implies #[trigger] right_ok(t, row, pos) by {
        lemma_slot_injective(row, pos, r, p);
        lemma_slot_injective(row + 1, pos + 1, r, p);
        lemma_child_slots(row, pos);
        assert(right_ok(s, row, pos));
    }
    assert(left_ok(s, r, p));
    assert(right_ok(s, r, p));
    if r >= 1 {
        if p >= 1 {
            lemma_child_slots(r - 1, p - 1);
            lemma_slot_injective(r - 1, p - 1, r, p);
            assert(right_ok(s, r - 1, p - 1));
        }
        if p < r {
            lemma_child_slots(r - 1, p);
            lemma_slot_injective(r - 1, p, r, p);
            assert(left_ok(s, r - 1, p));
        }
    }
}

/// A smaller value in the place of an element leaves only the edges into
/// that place in doubt.
pub proof fn lemma_lowered<T: Ord>(s: Seq<T>, value: T, r: int, p: int)
    requires
        total_order::<T>(),
        0 <= p <= r,
        slot(r, p) < s.len(),
        heap_ordered(s),
        less(value, s[slot(r, p)]),
    ensures
        ordered_but_above(s.update(slot(r, p), value), r, p),
        spans(s.update(slot(r, p), value), r, p),
{
    let i = slot(r, p);
    let t = s.update(i, value);
    lemma_order_laws::<T>();
    lemma_child_slots(r, p);
    lemma_slot_nonnegative(r, p);
    assert(less_eq(value, s[i]));
    assert forall|row: int, pos: int|
        0 <= pos <= row && !(row + 1 == r && pos == p) implies #[trigger] left_ok(t, row, pos) by {
        lemma_slot_injective(row, pos, r, p);
        lemma_slot_injective(row + 1, pos, r, p);
        lemma_child_slots(row, pos);
        assert(left_ok(s, row, pos));
    }
    assert forall|row: int, pos: int|
        0 <= pos <= row && !(row + 1 == r && pos + 1 == p) implies #[trigger] right_ok(
        t,
        row,
        pos,
    ) by {
        lemma_slot_injective(row, pos, r, p);
        lemma_slot_injective(row + 1, pos + 1, r, p);
        lemma_child_slots(row, pos);
        assert(right_ok(s, row, pos));
    }
    lemma_spans_of_ordered(s, r, p);
    lemma_spans_elsewhere(s, value, r, p);
}

/// A greater value in the place of an element leaves only the edges out of
/// that place in doubt.
pub proof fn lemma_raised<T: Ord>(s: Seq<T>, value: T, r: int, p: int)
    requires
        total_order::<T>(),
        0 <= p <= r,
        slot(r, p) < s.len(),
        heap_ordered(s),
        less(s[slot(r, p)], value),
    ensures
        ordered_but_below(s.update(slot(r, p), value), r, p),
        spans(s.update(slot(r, p), value), r, p),
{
    let i = slot(r, p);
    let t = s.update(i, value);
    lemma_order_laws::<T>();
    lemma_child_slots(r, p);
    lemma_slot_nonnegative(r, p);
    assert(less_eq(s[i], value));
    assert forall|row: int, pos: int|
        0 <= pos <= row && !(row == r && pos == p) implies #[trigger] left_ok(t, row, pos) by {
        lemma_slot_injective(row, pos, r, p);
        lemma_slot_injective(row + 1, pos, r, p);
        lemma_child_slots(row, pos);
        assert(left_ok(s, row, pos));
    }
    assert forall|row: int, pos: int|
        0 <= pos <= row && !(row == r && pos == p) implies #[trigger] right_ok(t, row, pos) by {
        lemma_slot_injective(row, pos, r, p);
        lemma_slot_injective(row + 1, pos + 1, r, p);
        lemma_child_slots(row, pos);
        assert(right_ok(s, row, pos));
    }
    lemma_spans_of_ordered(s, r, p);
    lemma_spans_elsewhere(s, value, r, p);
}

/// A value of equal rank in the place of an element breaks no edge.
pub proof fn lemma_replaced_by_same<T: Ord>(s: Seq<T>, value: T, r: int, p: int)
    requires
        total_order::<T>(),
        0 <= p <= r,
        slot(r, p) < s.len(),
        heap_ordered(s),
        !less(s[slot(r, p)], value),
        !less(value, s[slot(r, p)]),
    ensures
        heap_ordered(s.update(slot(r, p), value)),
{
    let i = slot(r, p);
    let t = s.update(i, value);
    lemma_order_laws::<T>();
    lemma_child_slots(r, p);
    lemma_slot_nonnegative(r, p);
    assert(less_eq(s[i], value));
    assert(less_eq(value, s[i]));
    assert forall|row: int, pos: int| 0 <= pos <= row implies #[trigger] left_ok(t, row, pos) by {
        lemma_slot_injective(row, pos, r, p);
        lemma_slot_injective(row + 1, pos, r, p);
        lemma_child_slots(row, pos);
        assert(left_ok(s, row, pos));
    }
    assert forall|row: int, pos: int| 0 <= pos <= row implies #[trigger] right_ok(t, row, pos) by {
        lemma_slot_injective(row, pos, r, p);
        lemma_slot_injective(row + 1, pos + 1, r, p);
        lemma_child_slots(row, pos);
        assert(right_ok(s, row, pos));
    }
}

/// In a beap no parent of a node is above a child of that node.
pub proof fn lemma_spans_of_ordered<T: Ord>(s: Seq<T>, r: int, p: int)
    requires
        total_order::<T>(),
        0 <= p <= r,
        heap_ordered(s),
    ensures
        spans(s, r, p),
{
    lemma_order_laws::<T>();
    lemma_child_slots(r, p);
    lemma_slot_nonnegative(r, p);
    assert(left_ok(s, r, p));
    assert(right_ok(s, r, p));
    if r >= 1 {
        if p >= 1 {
            lemma_child_slots(r - 1, p - 1);
            lemma_slot_injective(r - 1, p - 1, r, p);
            assert(right_ok(s, r - 1, p - 1));
        }
        if p < r {
            lemma_child_slots(r - 1, p);
            lemma_slot_injective(r - 1, p, r, p);
            assert(left_ok(s, r - 1, p));
        }
    }
}

/// What holds between the parents and the children of a node does not
/// depend on the element at the node.
pub proof fn lemma_spans_elsewhere<T: Ord>(s: Seq<T>, value: T, r: int, p: int)
    requires
        0 <= p <= r,
        slot(r, p) < s.len(),
        spans(s, r, p),
    ensures
        spans(s.update(slot(r, p), value), r, p),
{
    lemma_child_slots(r, p);
    lemma_slot_nonnegative(r, p);
    if r >= 1 {
        if p >= 1 {
            lemma_child_slots(r - 1, p - 1);
            lemma_slot_injective(r - 1, p - 1, r, p);
        }
        if p < r {
            lemma_child_slots(r - 1, p);
            lemma_slot_injective(r - 1, p, r, p);
        }
    }
}

/// When the last element takes the place of another, that other is the one
/// element that has left.
pub proof fn lemma_swap_removed_multiset<T>(s: Seq<T>, i: int)
    requires
        0 <= i < s.len(),
    ensures
        swap_removed(s, i).to_multiset() == s.to_multiset().remove(s[i]),
        swap_removed(s, i).len() == s.len() - 1,
{
    let last = s.len() - 1;
    let moved = s.update(i, s.last());
    to_multiset_update(s, i, s.last());
    s.to_multiset_ensures();
    moved.to_multiset_ensures();
    assert(s.contains(s[i]));
    assert(s.contains(s[last]));
    assert(moved.remove(last) == moved.drop_last());
    assert(moved[last] == s[last]);
    assert(s.to_multiset().insert(s[last]).remove(s[i]).remove(s[last]) =~= s.to_multiset().remove(
        s[i],
    ));
}

/// In a beap no element is below the one at the root.
pub proof fn lemma_root_least<T: Ord>(s: Seq<T>, i: int)
    requires
        total_order::<T>(),
        heap_ordered(s),
        0 <= i < s.len(),
    ensures
        less_eq(s[0], s[i]),
    decreases i,
{
    lemma_order_laws::<T>();
    lemma_address_of_index(i);
    let r = row_of(i);
    let p = pos_of(i);
    if r == 0 {
        lemma_triangle_zero();
    } else if p < r {
        lemma_child_slots(r - 1, p);
        lemma_slot_injective(r - 1, p, r, p);
        assert(left_ok(s, r - 1, p));
        lemma_root_least(s, slot(r - 1, p));
    } else {
        lemma_child_slots(r - 1, p - 1);
        lemma_slot_injective(r - 1, p - 1, r, p);
        assert(right_ok(s, r - 1, p - 1));
        lemma_root_least(s, slot(r - 1, p - 1));
    }
}

/// In a beap no element is below a parent of its place.
pub proof fn lemma_parents_first<T: Ord>(s: Seq<T>, r: int, p: int)
    requires
        total_order::<T>(),
        0 <= p <= r,
        slot(r, p) < s.len(),
        heap_ordered(s),
    ensures
        at_least_parents(s, s[slot(r, p)], r, p),
{
    if r >= 1 {
        if p >= 1 {
            lemma_child_slots(r - 1, p - 1);
            assert(right_ok(s, r - 1, p - 1));
        }
        if p < r {
            lemma_child_slots(r - 1, p);
            assert(left_ok(s, r - 1, p));
        }
    }
}

/// Where a beap holds what another held without its root, its own root is
/// not below that root: the element that `pop_smallest` hands out is never
/// below the one it handed out the call before.
pub proof fn lemma_next_root_not_below<T: Ord>(before: Seq<T>, after: Seq<T>)
    requires
        total_order::<T>(),
        heap_ordered(before),
        before.len() > 0,
        after.len() > 0,
        after.to_multiset() == before.to_multiset().remove(before[0]),
    ensures
        less_eq(before[0], after[0]),
{
    before.to_multiset_ensures();
    after.to_multiset_ensures();
    assert(after.contains(after[0]));
    assert(after.to_multiset().count(after[0]) > 0);
    assert(before.to_multiset().remove(before[0]).count(after[0]) <= before.to_multiset().count(
        after[0],
    ));
    assert(before.contains(after[0]));
    let i = choose|i: int| 0 <= i < before.len() && before[i] == after[0];
    lemma_root_least(before, i);
}

/// Let `states` be what a beap holds before each of a run of calls of
/// `pop_smallest`: each state is in order, and holds what the state before
/// it holds without its root. Then the elements handed out, the roots of
/// the states, never fall.
pub proof fn lemma_pops_ascend<T: Ord>(states: Seq<Seq<T>>, i: int, j: int)
    requires
        total_order::<T>(),
        forall|k: int| 0 <= k < states.len() ==> heap_ordered(#[trigger] states[k]),
        forall|k: int| 0 <= k < states.len() ==> (#[trigger] states[k]).len() > 0,
        forall|k: int|
            0 <= k < states.len() - 1 ==> (#[trigger] states[k + 1]).to_multiset()
                == states[k].to_multiset().remove(states[k][0]),
        0 <= i <= j < states.len(),
    ensures
        less_eq(states[i][0], states[j][0]),
    decreases j - i,
{
    lemma_order_laws::<T>();
    if i < j {
        lemma_pops_ascend(states, i, j - 1);
        assert(states[j - 1 + 1].to_multiset() == states[j - 1].to_multiset().remove(
            states[j - 1][0],
        ));
        lemma_next_root_not_below(states[j - 1], states[j]);
    }
}

} // verus!
