//! The beap itself: a sequence of elements laid out in triangular rows, in
//! which no element is above either of its children.
pub mod animation_util;
pub mod coordinate;
pub mod heap_order;
pub mod moves;
pub mod order;
pub mod search;
pub mod staircase;

use crate::beap::animation_util::{
    lemma_replay_concat, replay, resting_place, AnimatedSwap, IgnoreSteps, ResultWithSteps,
    TrackSteps,
};
pub use crate::beap::coordinate::BeapCoordinate;
use crate::beap::coordinate::{
    lemma_address_of_index, lemma_child_slots, lemma_slot_injective, lemma_triangle_grows,
    lemma_triangle_step, lemma_triangle_zero, rows, slot,
};
use crate::beap::heap_order::{
    at_least_parents, at_most_children, exchange, exchanged, heap_ordered, lemma_bubble_step,
    lemma_empty_ordered, lemma_exchanged_multiset, lemma_last_dropped, lemma_lowered,
    lemma_parents_first, lemma_pushed, lemma_raised, lemma_replaced_by_same, lemma_root_least,
    lemma_settled_above, lemma_settled_below, lemma_sink_step, lemma_swap_removed,
    lemma_swap_removed_multiset, ordered_but_above, ordered_but_below, spans,
};
use crate::beap::moves::{
    descent, greater_parent_pos, lemma_insert_length, lemma_remove_length,
    lemma_set_value_length, overwrite_step, rise, smaller_child_pos, steps_of_insert,
    steps_of_remove, steps_of_set_value,
};
use crate::beap::order::{is_less, lemma_order_laws, less_eq, rank, total_order, Rank};
use vstd::prelude::*;
use vstd::seq_lib::to_multiset_update;
use vstd::std_specs::iter::IteratorSpec;

verus! {

/// A bi-parental heap of elements of an ordered type, the least of them at
/// the root.
#[derive(Debug, Clone)]
pub struct Beap<T: Ord> {
    data: Vec<T>,
}

impl<T: Ord> View for Beap<T> {
    type V = Seq<T>;

    /// The elements row by row, each row from left to right.
    closed spec fn view(&self) -> Seq<T> {
        self.data@
    }
}

impl<T: Ord> Beap<T> {
    /// The elements are of a totally ordered type, and none is above either
    /// of its children.
    pub open spec fn wf(&self) -> bool {
        &&& total_order::<T>()
        &&& heap_ordered(self@)
    }

    /// An empty beap.
    pub fn new() -> (beap: Self)
        requires
            total_order::<T>(),
        ensures
            beap.wf(),
            beap@ == Seq::<T>::empty(),
    {
        proof {
            lemma_empty_ordered::<T>();
        }
        Self { data: Vec::new() }
    }

    /// The greater of the parents of the node at `coord`: the right one
    /// unless the left one is strictly greater.
    fn greater_parent(&self, coord: BeapCoordinate) -> (r: Option<BeapCoordinate>)
        requires
            total_order::<T>(),
            coord.index() < self@.len(),
        ensures
            coord.pos() <= coord.row(),
            r.is_none() == (coord.row() == 0),
            r matches Some(g) ==> {
                &&& g.row() == coord.row() - 1
                &&& g.pos() == greater_parent_pos(self@, coord.row() as int, coord.pos() as int)
                &&& g.pos() == coord.pos() - 1 || g.pos() == coord.pos()
                &&& g.pos() <= g.row()
                &&& 0 <= g.index() < coord.index()
                &&& at_least_parents(
                    self@,
                    self@[g.index()],
                    coord.row() as int,
                    coord.pos() as int,
                )
            },
    {
        let left_parent = coord.left_parent();
        let right_parent = coord.right_parent();
        proof {
            let row = coord.row() as int;
            let pos = coord.pos() as int;
            assert(self.data.len() == self@.len());
            lemma_order_laws::<T>();
            if row > 0 {
                lemma_child_slots(row - 1, pos - 1);
                lemma_child_slots(row - 1, pos);
                if pos > 0 {
                    lemma_slot_injective(row - 1, pos - 1, row, pos);
                }
                if pos < row {
                    lemma_slot_injective(row - 1, pos, row, pos);
                }
            }
        }
        if let Some(left_parent) = left_parent {
            if let Some(right_parent) = right_parent {
                if is_less(
                    &self.data[right_parent.array_index()],
                    &self.data[left_parent.array_index()],
                ) {
                    Some(left_parent)
                } else {
                    Some(right_parent)
                }
            } else {
                Some(left_parent)
            }
        } else {
            right_parent
        }
    }

    /// Moves the element at `coord` up, each time into the place of its
    /// greater parent, for as long as it is below that parent.
    fn bubble_up<S: TrackSteps<AnimatedSwap>>(
        &mut self,
        steps: &mut S,
        coord: BeapCoordinate,
    ) -> (emitted: Ghost<Seq<AnimatedSwap>>)
        requires
            total_order::<T>(),
            coord.index() < old(self)@.len(),
            ordered_but_above(old(self)@, coord.row() as int, coord.pos() as int),
            spans(old(self)@, coord.row() as int, coord.pos() as int),
        ensures
            heap_ordered(final(self)@),
            emitted@ == rise(old(self)@, coord.row() as int, coord.pos() as int),
            final(self)@ == replay(old(self)@, emitted@),
            final(self)@.to_multiset() == old(self)@.to_multiset(),
            final(self)@.len() == old(self)@.len(),
            S::keeps() ==> final(steps).recorded() == old(steps).recorded() + emitted@,
            0 <= resting_place(coord.index(), emitted@) < final(self)@.len(),
            final(self)@[resting_place(coord.index(), emitted@)] == old(self)@[coord.index()],
    {
        let ghost start = coord.index();
        let ghost whole = rise(old(self)@, coord.row() as int, coord.pos() as int);
        let mut coord = coord;
        let ghost mut emitted: Seq<AnimatedSwap> = Seq::empty();
        proof {
            lemma_triangle_grows(coord.row() as int, coord.row() as int);
            assert(emitted + whole == whole);
        }
        loop
            invariant
                total_order::<T>(),
                0 <= coord.index() < self@.len(),
                emitted + rise(self@, coord.row() as int, coord.pos() as int) == whole,
                coord.index() == resting_place(start, emitted),
                self@[coord.index()] == old(self)@[start],
                ordered_but_above(self@, coord.row() as int, coord.pos() as int),
                spans(self@, coord.row() as int, coord.pos() as int),
                self@ == replay(old(self)@, emitted),
                self@.to_multiset() == old(self)@.to_multiset(),
                self@.len() == old(self)@.len(),
                S::keeps() ==> steps.recorded() == old(steps).recorded() + emitted,
            ensures
                heap_ordered(self@),
                emitted == whole,
                self@ == replay(old(self)@, emitted),
                self@.to_multiset() == old(self)@.to_multiset(),
                self@.len() == old(self)@.len(),
                S::keeps() ==> steps.recorded() == old(steps).recorded() + emitted,
                0 <= resting_place(start, emitted) < self@.len(),
                self@[resting_place(start, emitted)] == old(self)@[start],
            decreases coord.row(),
        {
            let greater = match self.greater_parent(coord) {
                Some(greater) => greater,
                None => {
                    proof {
                        lemma_settled_above(self@, coord.row() as int, coord.pos() as int);
                        assert(emitted + Seq::<AnimatedSwap>::empty() == emitted);
                    }
                    break ;
                },
            };
            proof {
                assert(self.data.len() == self@.len());
            }
            let smaller_index = greater.array_index();
            let index = coord.array_index();

            if is_less(&self.data[index], &self.data[smaller_index]) {
                let ghost before = self@;
                let step = AnimatedSwap { first: coord, second: greater, overwrite: false };
                proof {
                    lemma_bubble_step(
                        before,
                        coord.row() as int,
                        coord.pos() as int,
                        greater.pos() as int,
                    );
                    lemma_exchanged_multiset(before, index as int, smaller_index as int);
                    assert(emitted.push(step).drop_last() == emitted);
                    assert(old(steps).recorded() + emitted.push(step) == (old(steps).recorded()
                        + emitted).push(step));
                    BeapCoordinate::lemma_at(coord.row() as int, coord.pos() as int);
                    BeapCoordinate::lemma_at(greater.row() as int, greater.pos() as int);
                    let rest = rise(
                        exchanged(before, index as int, smaller_index as int),
                        greater.row() as int,
                        greater.pos() as int,
                    );
                    assert(emitted.push(step) + rest == emitted + (seq![step] + rest));
                    emitted = emitted.push(step);
                }
                steps.add_step(step);
                exchange(&mut self.data, index, smaller_index);
                coord = greater;
            } else {
                proof {
                    lemma_order_laws::<T>();
                    assert(less_eq(self@[smaller_index as int], self@[index as int]));
                    lemma_settled_above(self@, coord.row() as int, coord.pos() as int);
                    assert(emitted + Seq::<AnimatedSwap>::empty() == emitted);
                }
                break ;
            }
        }
        Ghost(emitted)
    }

    /// Adds `value` to the beap.
    pub fn insert(&mut self, value: T)
        requires
            old(self).wf(),
        ensures
            final(self).wf(),
            final(self)@.to_multiset() == old(self)@.to_multiset().insert(value),
            final(self)@.len() == old(self)@.len() + 1,
            final(self)@ == replay(old(self)@.push(value), steps_of_insert(old(self)@, value)),
            steps_of_insert(old(self)@, value).len() <= old(self).spec_depth(),
    {
        self.insert_steps::<IgnoreSteps>(value);
    }

    /// Adds `value` to the beap: puts it behind the last element and moves
    /// it up to where it is below neither of its parents. The steps are the
    /// exchanges made on the way, the first of them at the new last place.
    pub fn insert_steps<S: TrackSteps<AnimatedSwap>>(&mut self, value: T) -> (r: ResultWithSteps<
        (),
        S::Steps,
    >)
        requires
            old(self).wf(),
        ensures
            final(self).wf(),
            final(self)@.to_multiset() == old(self)@.to_multiset().insert(value),
            final(self)@.len() == old(self)@.len() + 1,
            final(self)@ == replay(old(self)@.push(value), steps_of_insert(old(self)@, value)),
            S::keeps() ==> S::steps_of(r.steps) == steps_of_insert(old(self)@, value),
            steps_of_insert(old(self)@, value).len() <= old(self).spec_depth(),
    {
        let mut steps = S::new();
        proof {
            lemma_insert_length(self@, value);
        }

        self.data.push(value);

        let coord = BeapCoordinate::from_index(self.data.len() - 1);
        proof {
            lemma_pushed(old(self)@, value, coord.row() as int, coord.pos() as int);
            old(self)@.to_multiset_ensures();
        }
        let emitted = self.bubble_up(&mut steps, coord);
        proof {
            assert(Seq::<AnimatedSwap>::empty() + emitted@ == emitted@);
        }

        steps.wrap_output(())
    }

    /// The place of `coord` in the backing sequence, if a node stands there.
    fn place_of(&self, coord: BeapCoordinate) -> (r: Option<usize>)
        ensures
            coord.pos() <= coord.row(),
            self@.len() <= usize::MAX,
            r.is_some() == (coord.index() < self@.len()),
            r matches Some(i) ==> i == coord.index(),
    {
        proof {
            assert(self.data.len() == self@.len());
        }
        match coord.checked_array_index() {
            Some(index) => if index < self.data.len() {
                Some(index)
            } else {
                None
            },
            None => None,
        }
    }

    /// The smaller of the children of the node at `coord`: the right one
    /// unless there is none or the left one is strictly smaller.
    fn smaller_child(&self, coord: BeapCoordinate) -> (r: Option<BeapCoordinate>)
        requires
            total_order::<T>(),
            coord.index() <= self@.len(),
        ensures
            coord.pos() <= coord.row(),
            r.is_none() == (slot(coord.row() + 1, coord.pos() as int) >= self@.len()),
            r matches Some(c) ==> {
                &&& c.row() == coord.row() + 1
                &&& c.pos() == smaller_child_pos(self@, coord.row() as int, coord.pos() as int)
                &&& c.pos() == coord.pos() || c.pos() == coord.pos() + 1
                &&& c.pos() <= c.row()
                &&& coord.index() < c.index() < self@.len()
                &&& at_most_children(
                    self@,
                    self@[c.index()],
                    coord.row() as int,
                    coord.pos() as int,
                )
            },
    {
        proof {
            assert(self.data.len() == self@.len());
            lemma_order_laws::<T>();
            lemma_child_slots(coord.row() as int, coord.pos() as int);
            if coord.row() >= 2 {
                lemma_triangle_step(coord.row() - 1);
                lemma_triangle_grows(coord.row() - 1, coord.row() - 1);
            }
            assert(coord.row() < usize::MAX);
        }
        let left_child = coord.left_child();
        let right_child = coord.right_child();
        match self.place_of(left_child) {
            None => None,
            Some(left_index) => match self.place_of(right_child) {
                None => Some(left_child),
                Some(right_index) => if is_less(&self.data[left_index], &self.data[right_index]) {
                    Some(left_child)
                } else {
                    Some(right_child)
                },
            },
        }
    }

    /// Moves the element at `coord` down, each time into the place of its
    /// smaller child, for as long as it is above that child.
    fn sink<S: TrackSteps<AnimatedSwap>>(
        &mut self,
        steps: &mut S,
        coord: BeapCoordinate,
    ) -> (emitted: Ghost<Seq<AnimatedSwap>>)
        requires
            total_order::<T>(),
            coord.index() <= old(self)@.len(),
        ensures
            ordered_but_below(old(self)@, coord.row() as int, coord.pos() as int) && spans(
                old(self)@,
                coord.row() as int,
                coord.pos() as int,
            ) ==> heap_ordered(final(self)@),
            emitted@ == descent(old(self)@, coord.row() as int, coord.pos() as int),
            final(self)@ == replay(old(self)@, emitted@),
            final(self)@.to_multiset() == old(self)@.to_multiset(),
            final(self)@.len() == old(self)@.len(),
            S::keeps() ==> final(steps).recorded() == old(steps).recorded() + emitted@,
            forall|j: int| 0 <= j < coord.index() ==> final(self)@[j] == old(self)@[j],
            coord.index() < old(self)@.len() ==> less_eq(
                final(self)@[coord.index()],
                old(self)@[coord.index()],
            ),
            coord.index() < old(self)@.len() ==> {
                &&& 0 <= resting_place(coord.index(), emitted@) < final(self)@.len()
                &&& final(self)@[resting_place(coord.index(), emitted@)] == old(
                    self,
                )@[coord.index()]
            },
    {
        let ghost start = coord.index();
        let ghost sound = ordered_but_below(old(self)@, coord.row() as int, coord.pos() as int)
            && spans(old(self)@, coord.row() as int, coord.pos() as int);
        let ghost whole = descent(old(self)@, coord.row() as int, coord.pos() as int);
        let mut coord = coord;
        let ghost mut emitted: Seq<AnimatedSwap> = Seq::empty();
        proof {
            lemma_order_laws::<T>();
            lemma_triangle_grows(coord.row() as int, coord.row() as int);
            assert(emitted + whole == whole);
        }
        loop
            invariant
                total_order::<T>(),
                emitted + descent(self@, coord.row() as int, coord.pos() as int) == whole,
                0 <= start <= coord.index() <= self@.len(),
                sound ==> ordered_but_below(self@, coord.row() as int, coord.pos() as int),
                sound ==> spans(self@, coord.row() as int, coord.pos() as int),
                self@ == replay(old(self)@, emitted),
                self@.to_multiset() == old(self)@.to_multiset(),
                self@.len() == old(self)@.len(),
                S::keeps() ==> steps.recorded() == old(steps).recorded() + emitted,
                forall|j: int| 0 <= j < start ==> self@[j] == old(self)@[j],
                start < self@.len() ==> less_eq(self@[start], old(self)@[start]),
                coord.index() == resting_place(start, emitted),
                start < self@.len() ==> coord.index() < self@.len() && self@[coord.index()] == old(
                    self,
                )@[start],
            ensures
                sound ==> heap_ordered(self@),
                emitted == whole,
                self@ == replay(old(self)@, emitted),
                self@.to_multiset() == old(self)@.to_multiset(),
                self@.len() == old(self)@.len(),
                S::keeps() ==> steps.recorded() == old(steps).recorded() + emitted,
                forall|j: int| 0 <= j < start ==> self@[j] == old(self)@[j],
                start < self@.len() ==> less_eq(self@[start], old(self)@[start]),
                start < self@.len() ==> {
                    &&& 0 <= resting_place(start, emitted) < self@.len()
                    &&& self@[resting_place(start, emitted)] == old(self)@[start]
                },
            decreases self@.len() - coord.index(),
        {
            let smaller = match self.smaller_child(coord) {
                Some(smaller) => smaller,
                None => {
                    proof {
                        lemma_child_slots(coord.row() as int, coord.pos() as int);
                        if sound {
                            lemma_settled_below(self@, coord.row() as int, coord.pos() as int);
                        }
                        assert(emitted + Seq::<AnimatedSwap>::empty() == emitted);
                    }
                    break ;
                },
            };
            proof {
                assert(self.data.len() == self@.len());
            }
            let smaller_index = smaller.array_index();
            let index = coord.array_index();

            if is_less(&self.data[smaller_index], &self.data[index]) {
                let ghost before = self@;
                let step = AnimatedSwap { first: coord, second: smaller, overwrite: false };
                proof {
                    lemma_order_laws::<T>();
                    if sound {
                        lemma_sink_step(
                            before,
                            coord.row() as int,
                            coord.pos() as int,
                            smaller.pos() as int,
                        );
                    }
                    lemma_exchanged_multiset(before, index as int, smaller_index as int);
                    assert(emitted.push(step).drop_last() == emitted);
                    assert(old(steps).recorded() + emitted.push(step) == (old(steps).recorded()
                        + emitted).push(step));
                    assert(less_eq(before[smaller_index as int], before[index as int]));
                    BeapCoordinate::lemma_at(coord.row() as int, coord.pos() as int);
                    BeapCoordinate::lemma_at(smaller.row() as int, smaller.pos() as int);
                    let rest = descent(
                        exchanged(before, index as int, smaller_index as int),
                        smaller.row() as int,
                        smaller.pos() as int,
                    );
                    assert(emitted.push(step) + rest == emitted + (seq![step] + rest));
                    emitted = emitted.push(step);
                }
                steps.add_step(step);
                exchange(&mut self.data, index, smaller_index);
                coord = smaller;

            } else {
                proof {
                    lemma_order_laws::<T>();
                    assert(less_eq(self@[index as int], self@[smaller_index as int]));
                    if sound {
                        lemma_settled_below(self@, coord.row() as int, coord.pos() as int);
                    }
                    assert(emitted + Seq::<AnimatedSwap>::empty() == emitted);
                }
                break ;
            }
        }
        Ghost(emitted)
    }

    /// Takes the least element out of the beap, if it has any.
    pub fn pop_smallest(&mut self) -> (r: Option<T>)
        requires
            old(self).wf(),
        ensures
            final(self).wf(),
            old(self)@.len() == 0 ==> r.is_none() && final(self)@ == old(self)@,
            old(self)@.len() > 0 ==> {
                &&& r == Some(old(self)@[0])
                &&& forall|i: int|
                    0 <= i < old(self)@.len() ==> less_eq(old(self)@[0], old(self)@[i])
                &&& final(self)@.to_multiset() == old(self)@.to_multiset().remove(old(self)@[0])
                &&& final(self)@.len() == old(self)@.len() - 1
            },
            final(self)@ == replay(old(self)@, steps_of_remove(old(self)@, 0, 0)),
            steps_of_remove(old(self)@, 0, 0).len() <= old(self).spec_depth(),
    {
        self.pop_smallest_steps::<IgnoreSteps>().result
    }

    /// Takes the least element out of the beap, if it has any: the last
    /// element takes the place of the root and moves down to where it is
    /// above neither of its children. The steps are that overwrite and the
    /// exchanges that follow it.
    pub fn pop_smallest_steps<S: TrackSteps<AnimatedSwap>>(&mut self) -> (r: ResultWithSteps<
        Option<T>,
        S::Steps,
    >)
        requires
            old(self).wf(),
        ensures
            final(self).wf(),
            old(self)@.len() == 0 ==> r.result.is_none() && final(self)@ == old(self)@,
            old(self)@.len() > 0 ==> {
                &&& r.result == Some(old(self)@[0])
                &&& forall|i: int|
                    0 <= i < old(self)@.len() ==> less_eq(old(self)@[0], old(self)@[i])
                &&& final(self)@.to_multiset() == old(self)@.to_multiset().remove(old(self)@[0])
                &&& final(self)@.len() == old(self)@.len() - 1
            },
            final(self)@ == replay(old(self)@, steps_of_remove(old(self)@, 0, 0)),
            S::keeps() ==> S::steps_of(r.steps) == steps_of_remove(old(self)@, 0, 0),
            steps_of_remove(old(self)@, 0, 0).len() <= old(self).spec_depth(),
    {
        let mut steps = S::new();

        proof {
            lemma_triangle_zero();
            lemma_remove_length(self@, 0, 0);
        }
        if self.data.is_empty() {
            proof {
                assert(replay(self@, Seq::<AnimatedSwap>::empty()) == self@);
            }
            return steps.wrap_output(None);
        }
        let first = self.data.swap_remove(0);
        let step = AnimatedSwap {
            first: BeapCoordinate::from_index(self.data.len()),
            second: BeapCoordinate::zero(),
            overwrite: true,
        };
        steps.add_step(step);
        proof {
            let before = old(self)@;
            lemma_swap_removed_multiset(before, 0);
            assert forall|i: int| 0 <= i < before.len() implies less_eq(before[0], before[i]) by {
                lemma_root_least(before, i);
            }
            lemma_triangle_zero();
            if before.len() == 1 {
                lemma_last_dropped(before);
                assert(self@ == before.drop_last());
            } else {
                lemma_order_laws::<T>();
                lemma_swap_removed(before, 0, 0);
            }
            assert(step.apply(before) == self@);
            BeapCoordinate::lemma_at(0, 0);
            assert(step == overwrite_step(before.len() - 1, 0, 0));
        }
        let emitted = self.sink(&mut steps, BeapCoordinate::zero());
        proof {
            let first_steps = Seq::<AnimatedSwap>::empty().push(step);
            assert(first_steps == seq![step]);
            assert(first_steps.drop_last() == Seq::<AnimatedSwap>::empty());
            assert(replay(old(self)@, Seq::<AnimatedSwap>::empty()) == old(self)@);
            assert(replay(old(self)@, first_steps) == step.apply(old(self)@));
            lemma_replay_concat(old(self)@, first_steps, emitted@);
        }

        steps.wrap_output(Some(first))
    }

    /// The last element can take the place at `coord` without coming to
    /// stand below a parent of that place.
    pub open spec fn last_fits_at(&self, coord: BeapCoordinate) -> bool {
        ||| coord.index() == self@.len() - 1
        ||| at_least_parents(self@, self@.last(), coord.row() as int, coord.pos() as int)
    }

    /// Puts `value` in the place of the element at `coord`, if there is one,
    /// and hands that element back.
    pub fn set_value(&mut self, coord: BeapCoordinate, value: T) -> (r: Option<T>)
        requires
            old(self).wf(),
        ensures
            final(self).wf(),
            coord.index() >= old(self)@.len() ==> r.is_none() && final(self)@ == old(self)@,
            coord.index() < old(self)@.len() ==> {
                &&& r == Some(old(self)@[coord.index()])
                &&& final(self)@.to_multiset() == old(self)@.to_multiset().insert(value).remove(
                    old(self)@[coord.index()],
                )
                &&& final(self)@.len() == old(self)@.len()
                &&& final(self)@ == replay(
                    old(self)@.update(coord.index(), value),
                    steps_of_set_value(old(self)@, coord.row() as int, coord.pos() as int, value),
                )
            },
            steps_of_set_value(old(self)@, coord.row() as int, coord.pos() as int, value).len()
                <= old(self).spec_depth(),
    {
        self.set_value_steps::<IgnoreSteps>(coord, value).result
    }

    /// Puts `value` in the place of the element at `coord`, if there is one,
    /// and hands that element back. A value below the old one then moves up,
    /// a value above it moves down, until no node is above a child. The
    /// steps are the exchanges made on the way.
    pub fn set_value_steps<S: TrackSteps<AnimatedSwap>>(
        &mut self,
        coord: BeapCoordinate,
        value: T,
    ) -> (r: ResultWithSteps<Option<T>, S::Steps>)
        requires
            old(self).wf(),
        ensures
            final(self).wf(),
            coord.index() >= old(self)@.len() ==> r.result.is_none() && final(self)@ == old(self)@,
            coord.index() < old(self)@.len() ==> {
                &&& r.result == Some(old(self)@[coord.index()])
                &&& final(self)@.to_multiset() == old(self)@.to_multiset().insert(value).remove(
                    old(self)@[coord.index()],
                )
                &&& final(self)@.len() == old(self)@.len()
                &&& {
                    let steps = steps_of_set_value(
                        old(self)@,
                        coord.row() as int,
                        coord.pos() as int,
                        value,
                    );
                    &&& final(self)@ == replay(old(self)@.update(coord.index(), value), steps)
                    &&& 0 <= resting_place(coord.index(), steps) < final(self)@.len()
                    &&& final(self)@[resting_place(coord.index(), steps)] == value
                }
            },
            S::keeps() ==> S::steps_of(r.steps) == steps_of_set_value(
                old(self)@,
                coord.row() as int,
                coord.pos() as int,
                value,
            ),
            steps_of_set_value(old(self)@, coord.row() as int, coord.pos() as int, value).len()
                <= old(self).spec_depth(),
    {
        let mut steps = S::new();

        let place = self.place_of(coord);
        proof {
            lemma_set_value_length(self@, coord.row() as int, coord.pos() as int, value);
        }
        let index = match place {
            Some(index) => index,
            None => {
                return steps.wrap_output(None);
            },
        };

        let diff = rank(&self.data[index], &value);

        let mut value = value;
        core::mem::swap(&mut self.data[index], &mut value);
        let old_value = value;

        proof {
            let before = old(self)@;
            let row = coord.row() as int;
            let pos = coord.pos() as int;
            to_multiset_update(before, index as int, self@[index as int]);
            lemma_order_laws::<T>();
            assert(replay(self@, Seq::<AnimatedSwap>::empty()) == self@);
            match diff {
                Rank::Above => {
                    lemma_lowered(before, self@[index as int], row, pos);
                },
                Rank::Below => {
                    lemma_raised(before, self@[index as int], row, pos);
                },
                Rank::Same => {
                    lemma_replaced_by_same(before, self@[index as int], row, pos);
                },
            }
        }
        match diff {
            Rank::Above => {
                let emitted = self.bubble_up(&mut steps, coord);
                proof {
                    assert(Seq::<AnimatedSwap>::empty() + emitted@ == emitted@);
                }
            },
            Rank::Below => {
                let emitted = self.sink(&mut steps, coord);
                proof {
                    assert(Seq::<AnimatedSwap>::empty() + emitted@ == emitted@);
                }
            },
            Rank::Same => {},
        }

        steps.wrap_output(Some(old_value))
    }

    /// Takes the element at `coord` out of the beap, if there is one.
    pub fn remove(&mut self, coord: BeapCoordinate) -> (r: Option<T>)
        requires
            old(self).wf(),
        ensures
            coord.index() >= old(self)@.len() ==> r.is_none() && final(self)@ == old(self)@,
            coord.index() < old(self)@.len() ==> {
                &&& r == Some(old(self)@[coord.index()])
                &&& final(self)@.to_multiset() == old(self)@.to_multiset().remove(
                    old(self)@[coord.index()],
                )
                &&& final(self)@.len() == old(self)@.len() - 1
                &&& final(self).wf() == old(self).last_fits_at(coord)
            },
            final(self)@ == replay(
                old(self)@,
                steps_of_remove(old(self)@, coord.row() as int, coord.pos() as int),
            ),
            steps_of_remove(old(self)@, coord.row() as int, coord.pos() as int).len() <= old(
                self,
            ).spec_depth(),
    {
        self.remove_steps::<IgnoreSteps>(coord).result
    }

    /// Takes the element at `coord` out of the beap, if there is one: the
    /// last element takes its place and moves down to where it is above
    /// neither of its children. It does not move up, so the beap stays in
    /// order exactly when that element is not below a parent of the place it
    /// takes. The steps are the overwrite and the exchanges that follow it.
    pub fn remove_steps<S: TrackSteps<AnimatedSwap>>(&mut self, coord: BeapCoordinate) -> (r:
        ResultWithSteps<Option<T>, S::Steps>)
        requires
            old(self).wf(),
        ensures
            coord.index() >= old(self)@.len() ==> r.result.is_none() && final(self)@ == old(self)@,
            coord.index() < old(self)@.len() ==> {
                &&& r.result == Some(old(self)@[coord.index()])
                &&& final(self)@.to_multiset() == old(self)@.to_multiset().remove(
                    old(self)@[coord.index()],
                )
                &&& final(self)@.len() == old(self)@.len() - 1
                &&& final(self).wf() == old(self).last_fits_at(coord)
            },
            final(self)@ == replay(
                old(self)@,
                steps_of_remove(old(self)@, coord.row() as int, coord.pos() as int),
            ),
            S::keeps() ==> S::steps_of(r.steps) == steps_of_remove(
                old(self)@,
                coord.row() as int,
                coord.pos() as int,
            ),
            steps_of_remove(old(self)@, coord.row() as int, coord.pos() as int).len() <= old(
                self,
            ).spec_depth(),
    {
        let mut steps = S::new();

        let place = self.place_of(coord);
        proof {
            lemma_remove_length(self@, coord.row() as int, coord.pos() as int);
        }
        let index = match place {
            Some(index) => index,
            None => {
                proof {
                    assert(replay(self@, Seq::<AnimatedSwap>::empty()) == self@);
                }
                return steps.wrap_output(None);
            },
        };

        let last = self.data.swap_remove(index);
        let step = AnimatedSwap {
            first: BeapCoordinate::from_index(self.data.len()),
            second: coord,
            overwrite: true,
        };
        steps.add_step(step);
        let ghost moved = self@;
        proof {
            let before = old(self)@;
            let row = coord.row() as int;
            let pos = coord.pos() as int;
            lemma_swap_removed_multiset(before, index as int);
            lemma_order_laws::<T>();
            if index == before.len() - 1 {
                lemma_last_dropped(before);
                assert(moved == before.drop_last());
                lemma_child_slots(row, pos);
            } else if old(self).last_fits_at(coord) {
                lemma_swap_removed(before, row, pos);
            }
            assert(step.apply(before) == moved);
            BeapCoordinate::lemma_at(row, pos);
            assert(step == overwrite_step(before.len() - 1, row, pos));
        }
        let emitted = self.sink(&mut steps, coord);
        proof {
            let before = old(self)@;
            let row = coord.row() as int;
            let pos = coord.pos() as int;
            let first_steps = Seq::<AnimatedSwap>::empty().push(step);
            assert(first_steps == seq![step]);
            assert(first_steps.drop_last() == Seq::<AnimatedSwap>::empty());
            assert(replay(before, Seq::<AnimatedSwap>::empty()) == before);
            assert(replay(before, first_steps) == step.apply(before));
            lemma_replay_concat(before, first_steps, emitted@);
            if heap_ordered(self@) && index < before.len() - 1 {
                // Nothing above the place has moved, and what stands in the
                // place now is not above the element that was put there.
                lemma_parents_first(self@, row, pos);
                if row >= 1 {
                    if pos >= 1 {
                        lemma_slot_injective(row - 1, pos - 1, row, pos);
                        assert(less_eq(self@[slot(row - 1, pos - 1)], before.last()));
                    }
                    if pos < row {
                        lemma_slot_injective(row - 1, pos, row, pos);
                        assert(less_eq(self@[slot(row - 1, pos)], before.last()));
                    }
                }
            }
        }

        steps.wrap_output(Some(last))
    }

    /// The number of rows: one more than the row of the last element.
    pub open spec fn spec_depth(&self) -> int {
        rows(self@.len() as int)
    }

    /// The number of rows.
    pub fn depth(&self) -> (d: usize)
        ensures
            d == self.spec_depth(),
    {
        if self.data.len() == 0 {
            return 0;
        } else {
            proof {
                lemma_address_of_index(self@.len() - 1);
            }
            BeapCoordinate::from_index(self.data.len() - 1).row() + 1
        }
    }

    /// The number of elements.
    pub fn len(&self) -> (n: usize)
        ensures
            n == self@.len(),
    {
        self.data.len()
    }

    /// The elements row by row, each row from left to right.
    pub fn iter(&self) -> (elements: core::slice::Iter<'_, T>)
        ensures
            elements.remaining() == self@.as_ref(),
    {
        self.data.iter()
    }

    /// The element at place `index` of the backing sequence, if there is
    /// one.
    pub fn get_index(&self, index: usize) -> (r: Option<&T>)
        ensures
            r == if index < self@.len() {
                Some(&self@[index as int])
            } else {
                None
            },
    {
        if index < self.data.len() {
            Some(&self.data[index])
        } else {
            None
        }
    }

    /// The element at `coord`, if there is one.
    pub fn get_coord(&self, coord: BeapCoordinate) -> (r: Option<&T>)
        ensures
            r == if coord.index() < self@.len() {
                Some(&self@[coord.index()])
            } else {
                None
            },
    {
        match self.place_of(coord) {
            Some(index) => Some(&self.data[index]),
            None => None,
        }
    }
}

} // verus!
