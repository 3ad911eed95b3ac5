//! Records of the steps that an operation on a beap takes, for callers that
//! replay them, and a way to ask for no record at all.
use crate::beap::coordinate::lemma_triangle_grows;
use crate::beap::coordinate::BeapCoordinate;
use crate::beap::heap_order::exchange;
use vstd::prelude::*;

verus! {

/// A keeper of the steps of one operation. The caller of an operation picks
/// the keeper, and with it whether the steps are kept or dropped.
pub trait TrackSteps<T>: Sized {
    /// What is handed back in place of the steps once the operation is over.
    type Steps;

    /// Whether this kind of keeper keeps the steps it is given.
    spec fn keeps() -> bool;

    /// The steps kept so far, oldest first.
    spec fn recorded(&self) -> Seq<T>;

    /// The steps that a finished record holds, oldest first.
    spec fn steps_of(steps: Self::Steps) -> Seq<T>;

    /// A keeper that holds no step yet.
    fn new() -> (tracker: Self)
        ensures
            tracker.recorded() == Seq::<T>::empty(),
    ;

    /// Takes note of `step`, or drops it.
    fn add_step(&mut self, step: T)
        ensures
            final(self).recorded() == if Self::keeps() {
                old(self).recorded().push(step)
            } else {
                Seq::<T>::empty()
            },
    ;

    /// Hands out `output` together with the steps kept.
    fn wrap_output<O>(self, output: O) -> (wrapped: ResultWithSteps<O, Self::Steps>)
        ensures
            wrapped.result == output,
            Self::steps_of(wrapped.steps) == self.recorded(),
    ;
}

/// Keeps every step, in the order in which they are added.
pub struct StepTracker<T> {
    steps: Vec<T>,
}

impl<T> StepTracker<T> {
    /// A tracker that holds no step yet.
    pub fn new() -> (tracker: Self)
        ensures
            tracker.recorded() == Seq::<T>::empty(),
    {
        Self { steps: Vec::new() }
    }
}

impl<T> TrackSteps<T> for StepTracker<T> {
    type Steps = Vec<T>;

    open spec fn keeps() -> bool {
        true
    }

    closed spec fn recorded(&self) -> Seq<T> {
        self.steps@
    }

    open spec fn steps_of(steps: Vec<T>) -> Seq<T> {
        steps@
    }

    fn add_step(&mut self, step: T) {
        self.steps.push(step);
    }

    fn wrap_output<O>(self, output: O) -> (wrapped: ResultWithSteps<O, Vec<T>>) {
        ResultWithSteps { result: output, steps: self.steps }
    }

    fn new() -> (tracker: Self) {
        Self::new()
    }
}

/// Drops every step.
pub struct IgnoreSteps;

impl<T> TrackSteps<T> for IgnoreSteps {
    type Steps = ();

    open spec fn keeps() -> bool {
        false
    }

    open spec fn recorded(&self) -> Seq<T> {
        Seq::empty()
    }

    open spec fn steps_of(steps: ()) -> Seq<T> {
        Seq::empty()
    }

    fn add_step(&mut self, _step: T) {
    }

    fn wrap_output<O>(self, output: O) -> (wrapped: ResultWithSteps<O, ()>) {
        ResultWithSteps { result: output, steps: () }
    }

    fn new() -> (tracker: Self) {
        IgnoreSteps
    }
}

/// The result of an operation together with the record of its steps.
pub struct ResultWithSteps<R, S> {
    pub result: R,
    pub steps: S,
}

/// One change to the backing sequence. Every change that a beap makes to
/// itself is an exchange of two elements or, where `overwrite` is set, the
/// move of the last element into the place of one that leaves.
pub struct AnimatedSwap {
    pub first: BeapCoordinate,
    pub second: BeapCoordinate,
    pub overwrite: bool,
}

impl AnimatedSwap {
    /// The sequence that this step makes of `s`. An overwrite puts the
    /// element at `first` in the place of the element at `second` and takes
    /// the place at `first` away; any other step exchanges the two elements.
    pub open spec fn apply<T>(self, s: Seq<T>) -> Seq<T> {
        let first = self.first.index();
        let second = self.second.index();
        if self.overwrite {
            s.update(second, s[first]).remove(first)
        } else {
            s.update(first, s[second]).update(second, s[first])
        }
    }

    /// Makes this step on `shown`, a copy of the elements that a caller
    /// keeps in step with a beap.
    pub fn apply_to<T>(&self, shown: &mut Vec<T>)
        requires
            self.first.index() < old(shown)@.len(),
            self.second.index() < old(shown)@.len(),
        ensures
            final(shown)@ == self.apply(old(shown)@),
    {
        proof {
            assert(shown.len() == shown@.len());
            lemma_triangle_grows(self.first.row() as int, self.first.row() as int);
            lemma_triangle_grows(self.second.row() as int, self.second.row() as int);
        }
        let first = self.first.array_index();
        let second = self.second.array_index();
        if self.overwrite {
            let moved = shown.remove(first);
            if second < first {
                shown[second] = moved;
            } else if second > first {
                shown[second - 1] = moved;
            }
            assert(shown@ == self.apply(old(shown)@));
        } else {
            exchange(shown, first, second);
        }
    }
}

/// The sequence that `steps`, taken in order, make of `s`.
pub open spec fn replay<T>(s: Seq<T>, steps: Seq<AnimatedSwap>) -> Seq<T>
    decreases steps.len(),
{
    if steps.len() == 0 {
        s
    } else {
        steps.last().apply(replay(s, steps.drop_last()))
    }
}

/// The place where an element that set out from `start` stands after
/// `steps`, each of which has moved it from its first place to its second.
pub open spec fn resting_place(start: int, steps: Seq<AnimatedSwap>) -> int {
    if steps.len() == 0 {
        start
    } else {
        steps.last().second.index()
    }
}

/// Steps taken one after the other do what each lot does in turn.
pub proof fn lemma_replay_concat<T>(s: Seq<T>, first: Seq<AnimatedSwap>, second: Seq<AnimatedSwap>)
    ensures
        replay(s, first + second) == replay(replay(s, first), second),
    decreases second.len(),
{
    if second.len() == 0 {
        assert(first + second == first);
    } else {
        assert((first + second).drop_last() == first + second.drop_last());
        lemma_replay_concat(s, first, second.drop_last());
    }
}

/// One node that a search looked at.
#[derive(Debug)]
pub struct AnimatedSearch {
    pub coord: BeapCoordinate,
}

} // verus!
