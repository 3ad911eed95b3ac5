//! Search in a beap: for an element of a given rank, and for the least
//! element above a given one.
use crate::beap::animation_util::{AnimatedSearch, IgnoreSteps, ResultWithSteps, TrackSteps};
use crate::beap::coordinate::{
    lemma_address_of_index, lemma_child_slots, lemma_slot_injective, lemma_slot_nonnegative,
    lemma_triangle_grows, lemma_triangle_step, lemma_triangle_zero, pos_of, row_of, slot,
    BeapCoordinate,
};
use crate::beap::moves::{
    below, not_above, nothing, of_rank, steps_of_find, steps_of_find_above, walk,
};
use crate::beap::order::{is_less, lemma_order_laws, less, rank, same, Rank};
use crate::beap::staircase::{
    candidate, cleared, covered, hit, lemma_cell_grows, lemma_clear_column, lemma_clear_row,
    lemma_cover_row, lemma_skip_column, lemma_skip_row, passed,
};
use crate::beap::Beap;
use vstd::prelude::*;

verus! {

impl<T: Ord> Beap<T> {
    /// `found` is where a search for an element of the rank of `target`
    /// ends: nowhere if there is none, and else at the one that stands
    /// furthest to the left in its row and, among those, in the lowest row.
    pub open spec fn is_first_match(&self, found: Option<BeapCoordinate>, target: T) -> bool {
        match found {
            Some(c) => {
                &&& 0 <= c.index() < self@.len()
                &&& c.pos() <= c.row()
                &&& same(self@[c.index()], target)
                &&& forall|i: int|
                    0 <= i < self@.len() && same(#[trigger] self@[i], target) ==> {
                        ||| c.pos() < pos_of(i)
                        ||| c.pos() == pos_of(i) && row_of(i) <= c.row()
                    }
            },
            None => forall|i: int| 0 <= i < self@.len() ==> !same(#[trigger] self@[i], target),
        }
    }

    /// The walk of a search for `target` has come to `coord`, and what it
    /// has passed holds no element of that rank.
    spec fn searching(&self, target: T, coord: BeapCoordinate) -> bool {
        &&& coord.pos() <= coord.row() < self.spec_depth()
        &&& coord.index() < self@.len()
        &&& cleared(self@, target, coord.pos() as int, coord.row() - coord.pos())
    }

    /// Where a search goes from `coord`: down to the right child if the
    /// element at `coord` is too small and that child exists, and else up to
    /// the right parent, which the last node of a row does not have.
    fn step_through(&self, coord: BeapCoordinate, too_small: bool) -> (next: Option<
        BeapCoordinate,
    >)
        requires
            coord.index() < self@.len(),
        ensures
            coord.pos() <= coord.row(),
            too_small && slot(coord.row() + 1, coord.pos() + 1) < self@.len() ==> {
                &&& next == Some(coord.right_child())
                &&& next.unwrap().row() == coord.row() + 1
                &&& next.unwrap().pos() == coord.pos() + 1
            },
            !(too_small && slot(coord.row() + 1, coord.pos() + 1) < self@.len()) ==> {
                &&& next == coord.right_parent()
                &&& next is Some == (coord.pos() < coord.row())
                &&& next matches Some(parent) ==> parent.row() == coord.row() - 1 && parent.pos()
                    == coord.pos()
            },
    {
        proof {
            assert(self.data.len() == self@.len());
            if coord.row() >= 2 {
                lemma_triangle_step(coord.row() - 1);
                lemma_triangle_grows(coord.row() - 1, coord.row() - 1);
            }
        }
        if too_small {
            let child = coord.right_child();
            if self.place_of(child).is_some() {
                return Some(child);
            }
        }
        coord.right_parent()
    }

    /// Where the first element of the rank of `value` stands, if there is
    /// one. The search looks at fewer nodes than twice the number of rows.
    pub fn find_item(&self, value: &T) -> (r: Option<BeapCoordinate>)
        requires
            self.wf(),
        ensures
            self.is_first_match(r, *value),
            steps_of_find(self@, *value).len() < 2 * self.spec_depth() || self@.len() == 0,
    {
        self.find_item_steps::<IgnoreSteps>(value).result
    }

    /// Where the first element of the rank of `item` stands, if there is
    /// one. The search starts at the first node of the last row. From a node
    /// that is too small it goes to the right child, or to the right parent
    /// where there is no such child; from a node that is too large it goes to
    /// the right parent. It ends at the first node of the rank of `item`, or
    /// where it would have to leave the beap. The steps are the nodes it
    /// looks at, and there are fewer of them than twice the number of rows.
    pub fn find_item_steps<S: TrackSteps<AnimatedSearch>>(&self, item: &T) -> (r: ResultWithSteps<
        Option<BeapCoordinate>,
        S::Steps,
    >)
        requires
            self.wf(),
        ensures
            self.is_first_match(r.result, *item),
            S::keeps() ==> S::steps_of(r.steps) == steps_of_find(self@, *item),
            steps_of_find(self@, *item).len() < 2 * self.spec_depth() || self@.len() == 0,
            r.result matches Some(c) ==> steps_of_find(self@, *item).len() > 0 && steps_of_find(
                self@,
                *item,
            ).last().coord == c,
    {
        let mut steps = S::new();
        let depth = self.depth();
        if depth == 0 {
            proof {
                if self@.len() > 0 {
                    lemma_address_of_index(self@.len() - 1);
                }
            }
            return steps.wrap_output(None);
        }
        let mut coord = BeapCoordinate::new(depth - 1, 0);
        let ghost whole = steps_of_find(self@, *item);
        let ghost mut seen: Seq<AnimatedSearch> = Seq::empty();
        proof {
            assert(seen + whole == whole);
        }
        proof {
            lemma_address_of_index(self@.len() - 1);
            lemma_triangle_zero();
            assert forall|a: int, b: int|
                0 <= a && 0 <= b && (a < 0 || b > depth - 1) implies !#[trigger] hit(
                self@,
                *item,
                a,
                b,
            ) by {
                lemma_slot_injective(depth - 1, pos_of(self@.len() - 1), a + b, a);
            }
        }
        loop
            invariant
                self.wf(),
                depth == self.spec_depth(),
                self.searching(*item, coord),
                whole == steps_of_find(self@, *item),
                S::keeps() ==> steps.recorded() == seen,
                seen.len() + coord.row() - coord.pos() + depth - coord.pos() == 2 * depth - 1,
                seen + walk(
                    self@,
                    coord.row() as int,
                    coord.pos() as int,
                    of_rank(*item),
                    below(*item),
                ) == whole,
            decreases coord.row() - coord.pos() + depth - coord.pos(),
        {
            proof {
                assert(self.data.len() == self@.len());
            }
            let value = &self.data[coord.array_index()];

            let ghost before = seen;
            let ghost visit = AnimatedSearch { coord };
            let ghost rest = walk(
                self@,
                coord.row() as int,
                coord.pos() as int,
                of_rank(*item),
                below(*item),
            );
            steps.add_step(AnimatedSearch { coord });
            proof {
                BeapCoordinate::lemma_at(coord.row() as int, coord.pos() as int);
                lemma_order_laws::<T>();
                seen = before.push(visit);
                if rest.len() == 1 {
                    assert(before + rest == seen);
                } else {
                    assert(before + rest == seen + rest.subrange(1, rest.len() as int));
                    assert((seq![visit] + rest.subrange(1, rest.len() as int)).subrange(
                        1,
                        rest.len() as int,
                    ) == rest.subrange(1, rest.len() as int));
                }
            }

            let ghost right = coord.pos() as int;
            let ghost left = coord.row() - coord.pos();
            let too_small = match rank(value, item) {
                Rank::Same => {
                    proof {
                        self.lemma_cleared_means_first(*item, coord);
                    }
                    return steps.wrap_output(Some(coord));
                },
                Rank::Below => true,
                Rank::Above => false,
            };
            let next = self.step_through(coord, too_small);
            proof {
                lemma_child_slots(coord.row() as int, coord.pos() as int);
                if too_small && slot(coord.row() + 1, coord.pos() + 1) < self@.len() {
                    lemma_clear_column(self@, *item, right, left);
                    self.lemma_rows_within_depth(coord.row() + 1, coord.pos() + 1);
                } else {
                    lemma_clear_row(self@, *item, right, left);
                    if coord.pos() < coord.row() {
                        lemma_cell_grows(right, left - 1, right, left);
                    }
                }
            }
            match next {
                Some(next) => {
                    coord = next;
                },
                None => {
                    proof {
                        self.lemma_cleared_means_none(*item, right);
                    }
                    return steps.wrap_output(None);
                },
            }
        }
    }

    /// `found` is where a search for the least element above `floor` ends:
    /// nowhere if no element is above `floor`, and else at the one of the
    /// least of them that stands furthest to the left in its row and, among
    /// those, in the lowest row.
    pub open spec fn is_least_above(&self, found: Option<BeapCoordinate>, floor: T) -> bool {
        match found {
            Some(c) => {
                &&& 0 <= c.index() < self@.len()
                &&& c.pos() <= c.row()
                &&& less(floor, self@[c.index()])
                &&& forall|i: int|
                    0 <= i < self@.len() && less(floor, #[trigger] self@[i]) ==> {
                        ||| less(self@[c.index()], self@[i])
                        ||| same(self@[c.index()], self@[i]) && c.pos() < pos_of(i)
                        ||| same(self@[c.index()], self@[i]) && c.pos() == pos_of(i) && row_of(i)
                            <= c.row()
                    }
            },
            None => forall|i: int| 0 <= i < self@.len() ==> !less(floor, #[trigger] self@[i]),
        }
    }

    /// The steps to the right and to the left that lead from the root to
    /// `found`.
    spec fn steps_to(found: Option<BeapCoordinate>) -> Option<(int, int)> {
        match found {
            Some(c) => Some((c.pos() as int, c.row() - c.pos())),
            None => None,
        }
    }

    /// The walk of a search for the least element above `floor` has come
    /// to `coord`, and whatever it has passed yields to `found`.
    spec fn weighing(
        &self,
        floor: T,
        found: Option<BeapCoordinate>,
        coord: BeapCoordinate,
    ) -> bool {
        let best = Self::steps_to(found);
        let right = coord.pos() as int;
        let left = coord.row() - coord.pos();
        &&& coord.pos() <= coord.row() < self.spec_depth()
        &&& coord.index() < self@.len()
        &&& found matches Some(c) ==> c.pos() <= c.row()
        &&& covered(self@, floor, best, right, left)
        &&& passed(self@, floor, best, right, left)
    }

    /// Where the least element above `value` stands, if there is one. The
    /// search looks at fewer nodes than twice the number of rows.
    pub fn find_smallest_item_greater_than(&self, value: &T) -> (r: Option<BeapCoordinate>)
        requires
            self.wf(),
        ensures
            self.is_least_above(r, *value),
            steps_of_find_above(self@, *value).len() < 2 * self.spec_depth() || self@.len() == 0,
    {
        self.find_smallest_item_greater_than_steps::<IgnoreSteps>(value).result
    }

    /// Where the least element above `greater_than` stands, if there is
    /// one. The search starts at the first node of the last row. From a node
    /// above `greater_than` it goes to the right parent, having kept the
    /// node if its element is below the one kept so far; from any other node
    /// it goes to the right child, or to the right parent where there is no
    /// such child. It ends where it would have to leave the beap. The steps
    /// are the nodes it looks at, and there are fewer of them than twice the
    /// number of rows.
    pub fn find_smallest_item_greater_than_steps<S: TrackSteps<AnimatedSearch>>(
        &self,
        greater_than: &T,
    ) -> (r: ResultWithSteps<Option<BeapCoordinate>, S::Steps>)
        requires
            self.wf(),
        ensures
            self.is_least_above(r.result, *greater_than),
            S::keeps() ==> S::steps_of(r.steps) == steps_of_find_above(self@, *greater_than),
            steps_of_find_above(self@, *greater_than).len() < 2 * self.spec_depth() || self@.len()
                == 0,
    {
        let mut steps = S::new();
        let mut found_coord: Option<BeapCoordinate> = None;
        let depth = self.depth();
        if depth == 0 {
            proof {
                if self@.len() > 0 {
                    lemma_address_of_index(self@.len() - 1);
                }
            }
            return steps.wrap_output(None);
        }
        let mut coord = BeapCoordinate::new(depth - 1, 0);
        proof {
            lemma_address_of_index(self@.len() - 1);
            lemma_triangle_zero();
            assert forall|a: int, b: int|
                0 <= a && 0 <= b && (a < 0 || b > depth - 1) implies !#[trigger] candidate(
                self@,
                *greater_than,
                a,
                b,
            ) by {
                lemma_slot_injective(depth - 1, pos_of(self@.len() - 1), a + b, a);
            }
        }
        let ghost whole = steps_of_find_above(self@, *greater_than);
        let ghost mut seen: Seq<AnimatedSearch> = Seq::empty();
        proof {
            assert(seen + whole == whole);
        }
        loop
            invariant
                self.wf(),
                depth == self.spec_depth(),
                self.weighing(*greater_than, found_coord, coord),
                whole == steps_of_find_above(self@, *greater_than),
                seen + walk(
                    self@,
                    coord.row() as int,
                    coord.pos() as int,
                    nothing(),
                    not_above(*greater_than),
                ) == whole,
                S::keeps() ==> steps.recorded() == seen,
                seen.len() + coord.row() - coord.pos() + depth - coord.pos() == 2 * depth - 1,
            decreases coord.row() - coord.pos() + depth - coord.pos(),
        {
            proof {
                assert(self.data.len() == self@.len());
            }
            let value = &self.data[coord.array_index()];

            let ghost before = seen;
            let ghost visit = AnimatedSearch { coord };
            let ghost rest = walk(
                self@,
                coord.row() as int,
                coord.pos() as int,
                nothing(),
                not_above(*greater_than),
            );
            steps.add_step(AnimatedSearch { coord });
            proof {
                BeapCoordinate::lemma_at(coord.row() as int, coord.pos() as int);
                seen = before.push(visit);
                if rest.len() == 1 {
                    assert(before + rest == seen);
                } else {
                    assert(before + rest == seen + rest.subrange(1, rest.len() as int));
                    assert((seq![visit] + rest.subrange(1, rest.len() as int)).subrange(
                        1,
                        rest.len() as int,
                    ) == rest.subrange(1, rest.len() as int));
                }
            }

            let ghost right = coord.pos() as int;
            let ghost left = coord.row() - coord.pos();
            let ghost best = Self::steps_to(found_coord);
            let too_small = if is_less(greater_than, value) {
                let smaller = match found_coord {
                    Some(found) => is_less(value, &self.data[found.array_index()]),
                    None => true,
                };
                if smaller {
                    found_coord = Some(coord);
                }
                proof {
                    lemma_cover_row(self@, *greater_than, best, right, left);
                }
                false
            } else {
                true
            };
            let next = self.step_through(coord, too_small);
            proof {
                lemma_child_slots(coord.row() as int, coord.pos() as int);
                if too_small && slot(coord.row() + 1, coord.pos() + 1) < self@.len() {
                    lemma_skip_column(self@, *greater_than, best, right, left);
                    self.lemma_rows_within_depth(coord.row() + 1, coord.pos() + 1);
                } else {
                    if too_small {
                        lemma_skip_row(self@, *greater_than, best, right, left);
                    }
                    if coord.pos() < coord.row() {
                        lemma_cell_grows(right, left - 1, right, left);
                    }
                }
            }
            match next {
                Some(next) => {
                    coord = next;
                },
                None => {
                    proof {
                        self.lemma_covered_means_least(*greater_than, found_coord, right);
                    }
                    return steps.wrap_output(found_coord);
                },
            }
        }
    }

    /// Where every node is settled, what the search has kept is the least
    /// element above the floor.
    proof fn lemma_covered_means_least(&self, floor: T, found: Option<BeapCoordinate>, right: int)
        requires
            found matches Some(c) ==> c.pos() <= c.row(),
            covered(self@, floor, Self::steps_to(found), right, -1),
            passed(self@, floor, Self::steps_to(found), right, -1),
        ensures
            self.is_least_above(found, floor),
    {
        match found {
            Some(c) => {
                lemma_slot_nonnegative(c.row() as int, c.pos() as int);
                assert forall|i: int|
                    0 <= i < self@.len() && less(floor, #[trigger] self@[i]) implies {
                    ||| less(self@[c.index()], self@[i])
                    ||| same(self@[c.index()], self@[i]) && c.pos() < pos_of(i)
                    ||| same(self@[c.index()], self@[i]) && c.pos() == pos_of(i) && row_of(i)
                        <= c.row()
                } by {
                    lemma_address_of_index(i);
                    assert(candidate(self@, floor, pos_of(i), row_of(i) - pos_of(i)));
                }
            },
            None => {
                assert forall|i: int| 0 <= i < self@.len() implies !less(
                    floor,
                    #[trigger] self@[i],
                ) by {
                    lemma_address_of_index(i);
                    if less(floor, self@[i]) {
                        assert(candidate(self@, floor, pos_of(i), row_of(i) - pos_of(i)));
                    }
                }
            },
        }
    }

    /// A node that stands in the beap stands in one of its rows.
    proof fn lemma_rows_within_depth(&self, row: int, pos: int)
        requires
            0 <= pos <= row,
            slot(row, pos) < self@.len(),
        ensures
            row < self.spec_depth(),
    {
        lemma_slot_nonnegative(row, pos);
        lemma_address_of_index(self@.len() - 1);
        lemma_slot_injective(
            row_of(self@.len() - 1),
            pos_of(self@.len() - 1),
            row,
            pos,
        );
    }

    /// Where everything but the nodes to the right of and above `coord` is
    /// ruled out, an element of the rank sought that stands at `coord` is the
    /// first of them.
    proof fn lemma_cleared_means_first(&self, target: T, coord: BeapCoordinate)
        requires
            self.searching(target, coord),
            same(self@[coord.index()], target),
        ensures
            self.is_first_match(Some(coord), target),
    {
        lemma_slot_nonnegative(coord.row() as int, coord.pos() as int);
        assert forall|i: int| 0 <= i < self@.len() && same(#[trigger] self@[i], target) implies {
            ||| coord.pos() < pos_of(i)
            ||| coord.pos() == pos_of(i) && row_of(i) <= coord.row()
        } by {
            lemma_address_of_index(i);
            assert(hit(self@, target, pos_of(i), row_of(i) - pos_of(i)));
        }
    }

    /// Where every node is ruled out, no element has the rank sought.
    proof fn lemma_cleared_means_none(&self, target: T, right: int)
        requires
            cleared(self@, target, right, -1),
        ensures
            self.is_first_match(None, target),
    {
        assert forall|i: int| 0 <= i < self@.len() implies !same(#[trigger] self@[i], target) by {
            lemma_address_of_index(i);
            assert(!hit(self@, target, pos_of(i), row_of(i) - pos_of(i)));
        }
    }
}

} // verus!
