//! The way of an element up or down a beap, as the exchanges that take it
//! to where it comes to rest.
use crate::beap::animation_util::AnimatedSearch;
use crate::beap::animation_util::AnimatedSwap;
use crate::beap::coordinate::lemma_address_of_index;
use crate::beap::coordinate::lemma_child_slots;
use crate::beap::coordinate::lemma_slot_injective;
use crate::beap::coordinate::lemma_slot_nonnegative;
use crate::beap::coordinate::lemma_triangle_grows;
use crate::beap::coordinate::pos_of;
use crate::beap::coordinate::row_of;
use crate::beap::coordinate::rows;
use crate::beap::coordinate::slot;
use crate::beap::coordinate::BeapCoordinate;
use crate::beap::heap_order::exchanged;
use crate::beap::heap_order::swap_removed;
use crate::beap::order::less;
use crate::beap::order::same;
use vstd::prelude::*;

verus! {

/// The exchange of the elements at two nodes.
pub open spec fn swap_step(row_a: int, pos_a: int, row_b: int, pos_b: int) -> AnimatedSwap {
    AnimatedSwap {
        first: BeapCoordinate::at(row_a, pos_a),
        second: BeapCoordinate::at(row_b, pos_b),
        overwrite: false,
    }
}

/// The move of the element at place `last` into the place of the element
/// at `(row, pos)`, which leaves.
pub open spec fn overwrite_step(last: int, row: int, pos: int) -> AnimatedSwap {
    AnimatedSwap {
        first: BeapCoordinate::at(row_of(last), pos_of(last)),
        second: BeapCoordinate::at(row, pos),
        overwrite: true,
    }
}

/// The position, in the row above, of the greater parent of the node at
/// `(row, pos)`, a node below the root: the only parent of a node at the
/// end of its row, and else the right parent unless the left one is
/// strictly greater.
pub open spec fn greater_parent_pos<T: Ord>(s: Seq<T>, row: int, pos: int) -> int {
    if pos <= 0 {
        0
    } else if pos >= row {
        pos - 1
    } else if less(s[slot(row - 1, pos)], s[slot(row - 1, pos - 1)]) {
        pos - 1
    } else {
        pos
    }
}

/// The exchanges that take the element at `(row, pos)` up: as long as it is
/// strictly below its greater parent, the two change places.
pub open spec fn rise<T: Ord>(s: Seq<T>, row: int, pos: int) -> Seq<AnimatedSwap>
    decreases row,
{
    if row <= 0 {
        Seq::empty()
    } else {
        let up = greater_parent_pos(s, row, pos);
        if less(s[slot(row, pos)], s[slot(row - 1, up)]) {
            seq![swap_step(row, pos, row - 1, up)] + rise(
                exchanged(s, slot(row, pos), slot(row - 1, up)),
                row - 1,
                up,
            )
        } else {
            Seq::empty()
        }
    }
}

/// An element that rises changes places at most once for every row above
/// it.
pub proof fn lemma_rise_length<T: Ord>(s: Seq<T>, row: int, pos: int)
    requires
        0 <= row,
    ensures
        rise(s, row, pos).len() <= row,
    decreases row,
{
    if row > 0 {
        let up = greater_parent_pos(s, row, pos);
        if less(s[slot(row, pos)], s[slot(row - 1, up)]) {
            lemma_rise_length(exchanged(s, slot(row, pos), slot(row - 1, up)), row - 1, up);
        }
    }
}

/// The position, in the row below, of the smaller child of the node at
/// `(row, pos)`, which has a left child: that child if it is the only one,
/// and else the right child unless the left one is strictly smaller.
pub open spec fn smaller_child_pos<T: Ord>(s: Seq<T>, row: int, pos: int) -> int {
    if slot(row + 1, pos + 1) >= s.len() {
        pos
    } else if less(s[slot(row + 1, pos)], s[slot(row + 1, pos + 1)]) {
        pos
    } else {
        pos + 1
    }
}

/// The exchanges that take the element at `(row, pos)` down: as long as it
/// is strictly above its smaller child, the two change places.
pub open spec fn descent<T: Ord>(s: Seq<T>, row: int, pos: int) -> Seq<AnimatedSwap>
    decreases s.len() - slot(row, pos),
{
    if 0 <= pos <= row && slot(row + 1, pos) < s.len() {
        let down = smaller_child_pos(s, row, pos);
        if less(s[slot(row + 1, down)], s[slot(row, pos)]) {
            proof {
                lemma_child_slots(row, pos);
                lemma_slot_nonnegative(row, pos);
            }
            seq![swap_step(row, pos, row + 1, down)] + descent(
                exchanged(s, slot(row, pos), slot(row + 1, down)),
                row + 1,
                down,
            )
        } else {
            Seq::empty()
        }
    } else {
        Seq::empty()
    }
}

/// The steps by which `value` enters a beap that holds `s`: put behind the
/// last element, it rises from there.
pub open spec fn steps_of_insert<T: Ord>(s: Seq<T>, value: T) -> Seq<AnimatedSwap> {
    rise(s.push(value), row_of(s.len() as int), pos_of(s.len() as int))
}

/// The steps by which the element at `(row, pos)` leaves a beap that holds
/// `s`: the last element takes its place and descends from there. None
/// where no element stands at `(row, pos)`.
pub open spec fn steps_of_remove<T: Ord>(s: Seq<T>, row: int, pos: int) -> Seq<AnimatedSwap> {
    if slot(row, pos) < s.len() {
        seq![overwrite_step(s.len() - 1, row, pos)] + descent(
            swap_removed(s, slot(row, pos)),
            row,
            pos,
        )
    } else {
        Seq::empty()
    }
}

/// The steps that follow when `value` has taken the place of the element at
/// `(row, pos)` in a beap that holds `s`: a value below that element rises,
/// a value above it descends, one of equal rank stays. None where no
/// element stands at `(row, pos)`.
pub open spec fn steps_of_set_value<T: Ord>(s: Seq<T>, row: int, pos: int, value: T) -> Seq<
    AnimatedSwap,
> {
    if slot(row, pos) >= s.len() {
        Seq::empty()
    } else if less(value, s[slot(row, pos)]) {
        rise(s.update(slot(row, pos), value), row, pos)
    } else if less(s[slot(row, pos)], value) {
        descent(s.update(slot(row, pos), value), row, pos)
    } else {
        Seq::empty()
    }
}

/// An element that descends changes places at most once for every row
/// below it.
pub proof fn lemma_descent_length<T: Ord>(s: Seq<T>, row: int, pos: int)
    requires
        0 <= pos <= row,
        slot(row, pos) < s.len(),
    ensures
        descent(s, row, pos).len() <= row_of(s.len() - 1) - row,
    decreases s.len() - slot(row, pos),
{
    lemma_slot_nonnegative(row, pos);
    lemma_address_of_index(s.len() - 1);
    lemma_slot_injective(row_of(s.len() - 1), pos_of(s.len() - 1), row, pos);
    if slot(row + 1, pos) < s.len() {
        let down = smaller_child_pos(s, row, pos);
        if less(s[slot(row + 1, down)], s[slot(row, pos)]) {
            lemma_child_slots(row, pos);
            lemma_descent_length(exchanged(s, slot(row, pos), slot(row + 1, down)), row + 1, down);
        }
    }
}

/// An element that enters a beap changes places at most once for every
/// row that the beap had.
pub proof fn lemma_insert_length<T: Ord>(s: Seq<T>, value: T)
    ensures
        steps_of_insert(s, value).len() <= rows(s.len() as int),
{
    lemma_address_of_index(s.len() as int);
    lemma_rise_length(s.push(value), row_of(s.len() as int), pos_of(s.len() as int));
}

/// The steps by which an element leaves a beap are at most as many as the
/// beap had rows.
pub proof fn lemma_remove_length<T: Ord>(s: Seq<T>, row: int, pos: int)
    requires
        0 <= pos <= row,
    ensures
        steps_of_remove(s, row, pos).len() <= rows(s.len() as int),
{
    lemma_slot_nonnegative(row, pos);
    if s.len() > 0 {
        lemma_address_of_index(s.len() - 1);
    }
    if slot(row, pos) < s.len() {
        let moved = swap_removed(s, slot(row, pos));
        lemma_slot_injective(row_of(s.len() - 1), pos_of(s.len() - 1), row, pos);
        lemma_child_slots(row, pos);
        if slot(row, pos) < moved.len() {
            lemma_descent_length(moved, row, pos);
        }
    }
}

/// The steps that follow on a new value in the place of an element are
/// fewer than the beap has rows.
pub proof fn lemma_set_value_length<T: Ord>(s: Seq<T>, row: int, pos: int, value: T)
    requires
        0 <= pos <= row,
    ensures
        steps_of_set_value(s, row, pos, value).len() < rows(s.len() as int) || s.len() == 0,
{
    lemma_slot_nonnegative(row, pos);
    if s.len() > 0 {
        lemma_address_of_index(s.len() - 1);
    }
    if slot(row, pos) < s.len() {
        let changed = s.update(slot(row, pos), value);
        lemma_slot_injective(row_of(s.len() - 1), pos_of(s.len() - 1), row, pos);
        lemma_rise_length(changed, row, pos);
        lemma_descent_length(changed, row, pos);
    }
}

/// The nodes that a search looks at from `(row, pos)` on, that node first.
/// It ends at a node whose element is `found`. From a node whose element is
/// `too_small` it goes to the right child; where there is no such child, or
/// the element is not too small, it goes to the right parent, and it ends
/// where there is none.
pub open spec fn walk<T>(
    s: Seq<T>,
    row: int,
    pos: int,
    found: spec_fn(T) -> bool,
    too_small: spec_fn(T) -> bool,
) -> Seq<AnimatedSearch>
    decreases row - pos + s.len() - pos,
{
    if 0 <= pos <= row && slot(row, pos) < s.len() {
        let here = seq![AnimatedSearch { coord: BeapCoordinate::at(row, pos) }];
        let value = s[slot(row, pos)];
        if found(value) {
            here
        } else if too_small(value) && slot(row + 1, pos + 1) < s.len() {
            proof {
                lemma_slot_nonnegative(row + 1, pos + 1);
                lemma_triangle_grows(row + 1, row + 1);
            }
            here + walk(s, row + 1, pos + 1, found, too_small)
        } else if pos < row {
            proof {
                lemma_triangle_grows(row, row);
            }
            here + walk(s, row - 1, pos, found, too_small)
        } else {
            here
        }
    } else {
        Seq::empty()
    }
}

/// Whether an element is of the rank of `target`.
pub open spec fn of_rank<T: Ord>(target: T) -> spec_fn(T) -> bool {
    |v: T| same(v, target)
}

/// Whether an element is strictly below `target`.
pub open spec fn below<T: Ord>(target: T) -> spec_fn(T) -> bool {
    |v: T| less(v, target)
}

/// Whether an element is not strictly above `floor`.
pub open spec fn not_above<T: Ord>(floor: T) -> spec_fn(T) -> bool {
    |v: T| !less(floor, v)
}

/// Of no element.
pub open spec fn nothing<T>() -> spec_fn(T) -> bool {
    |v: T| false
}

/// The nodes that a search for an element of the rank of `target` looks at
/// in a beap that holds `s`, from the first node of the last row on.
pub open spec fn steps_of_find<T: Ord>(s: Seq<T>, target: T) -> Seq<AnimatedSearch> {
    if s.len() == 0 {
        Seq::empty()
    } else {
        walk(s, row_of(s.len() - 1), 0, of_rank(target), below(target))
    }
}

/// The nodes that a search for the least element above `floor` looks at in
/// a beap that holds `s`, from the first node of the last row on.
pub open spec fn steps_of_find_above<T: Ord>(s: Seq<T>, floor: T) -> Seq<AnimatedSearch> {
    if s.len() == 0 {
        Seq::empty()
    } else {
        walk(s, row_of(s.len() - 1), 0, nothing(), not_above(floor))
    }
}

} // verus!
