use beap::beap::animation_util::AnimatedSwap;
use beap::beap::animation_util::IgnoreSteps;
use beap::beap::animation_util::StepTracker;
use beap::beap::animation_util::TrackSteps;
use beap::beap::Beap;
use beap::beap::BeapCoordinate;

fn coords(row: usize, pos: usize) -> BeapCoordinate {
    BeapCoordinate::from_coords(row, pos).unwrap()
}

fn beap_of(values: &[i32]) -> Beap<i32> {
    let mut beap = Beap::new();
    for value in values {
        beap.insert(*value);
    }
    beap
}

fn contents(beap: &Beap<i32>) -> Vec<i32> {
    beap.iter().copied().collect()
}

fn next(seed: &mut u64) -> u64 {
    *seed = seed.wrapping_mul(6364136223846793005).wrapping_add(1442695040888963407);
    *seed >> 33
}

fn taken(steps: &[AnimatedSwap]) -> Vec<((usize, usize), (usize, usize), bool)> {
    steps
        .iter()
        .map(|step| {
            (
                (step.first.row(), step.first.pos()),
                (step.second.row(), step.second.pos()),
                step.overwrite,
            )
        })
        .collect()
}

fn replayed(mut shown: Vec<i32>, steps: &[AnimatedSwap]) -> Vec<i32> {
    for step in steps {
        step.apply_to(&mut shown);
    }
    shown
}

#[test]
fn a_swap_step_exchanges_two_elements() {
    let step = AnimatedSwap { first: coords(2, 1), second: coords(1, 0), overwrite: false };
    let mut shown = vec![10, 11, 12, 13, 14, 15];
    step.apply_to(&mut shown);
    assert_eq!(shown, vec![10, 14, 12, 13, 11, 15]);
    let step = AnimatedSwap { first: coords(1, 1), second: coords(1, 1), overwrite: false };
    step.apply_to(&mut shown);
    assert_eq!(shown, vec![10, 14, 12, 13, 11, 15]);
}

#[test]
fn an_overwrite_step_moves_the_first_element_over_the_second() {
    let step = AnimatedSwap { first: coords(2, 2), second: coords(1, 0), overwrite: true };
    let mut shown = vec![10, 11, 12, 13, 14, 15];
    step.apply_to(&mut shown);
    assert_eq!(shown, vec![10, 15, 12, 13, 14]);
    let step = AnimatedSwap { first: coords(2, 1), second: coords(2, 1), overwrite: true };
    step.apply_to(&mut shown);
    assert_eq!(shown, vec![10, 15, 12, 13]);
    let step = AnimatedSwap { first: coords(0, 0), second: coords(1, 1), overwrite: true };
    step.apply_to(&mut shown);
    assert_eq!(shown, vec![15, 10, 13]);
}

#[test]
fn a_step_tracker_keeps_the_steps_in_order() {
    let mut tracker: StepTracker<i32> = StepTracker::new();
    tracker.add_step(3);
    tracker.add_step(1);
    tracker.add_step(2);
    let wrapped = tracker.wrap_output("done");
    assert_eq!(wrapped.result, "done");
    assert_eq!(wrapped.steps, vec![3, 1, 2]);
    let fresh = <StepTracker<i32> as TrackSteps<i32>>::new().wrap_output(());
    assert!(fresh.steps.is_empty());
}

#[test]
fn ignore_steps_keeps_nothing() {
    let mut ignore = <IgnoreSteps as TrackSteps<i32>>::new();
    TrackSteps::<i32>::add_step(&mut ignore, 3);
    let wrapped = TrackSteps::<i32>::wrap_output(ignore, 7);
    assert_eq!(wrapped.result, 7);
    assert_eq!(wrapped.steps, ());
}

#[test]
fn insert_steps_are_the_exchanges_on_the_way_up() {
    let mut beap = beap_of(&[1, 10, 5]);
    let record = beap.insert_steps::<StepTracker<AnimatedSwap>>(3);
    assert_eq!(taken(&record.steps), vec![((2, 0), (1, 0), false)]);
    assert_eq!(contents(&beap), vec![1, 3, 5, 10]);

    let record = beap.insert_steps::<StepTracker<AnimatedSwap>>(0);
    assert_eq!(
        taken(&record.steps),
        vec![((2, 1), (1, 1), false), ((1, 1), (0, 0), false)]
    );
    assert_eq!(contents(&beap), vec![0, 3, 1, 10, 5]);

    let record = beap.insert_steps::<StepTracker<AnimatedSwap>>(8);
    assert!(record.steps.is_empty());
    assert_eq!(contents(&beap), vec![0, 3, 1, 10, 5, 8]);
}

#[test]
fn pop_smallest_steps_start_with_the_overwrite_of_the_root() {
    let mut beap = beap_of(&[0, 3, 1, 10, 5]);
    let record = beap.pop_smallest_steps::<StepTracker<AnimatedSwap>>();
    assert_eq!(record.result, Some(0));
    assert_eq!(
        taken(&record.steps),
        vec![((2, 1), (0, 0), true), ((0, 0), (1, 1), false)]
    );
    assert_eq!(contents(&beap), vec![1, 3, 5, 10]);

    let mut single = beap_of(&[4]);
    let record = single.pop_smallest_steps::<StepTracker<AnimatedSwap>>();
    assert_eq!(record.result, Some(4));
    assert_eq!(taken(&record.steps), vec![((0, 0), (0, 0), true)]);

    let record = single.pop_smallest_steps::<StepTracker<AnimatedSwap>>();
    assert_eq!(record.result, None);
    assert!(record.steps.is_empty());
}

#[test]
fn pop_smallest_goes_to_the_right_child_when_the_children_are_equal() {
    let mut beap = beap_of(&[1, 4, 4, 9, 8, 7]);
    let record = beap.pop_smallest_steps::<StepTracker<AnimatedSwap>>();
    assert_eq!(record.result, Some(1));
    assert_eq!(
        taken(&record.steps),
        vec![((2, 2), (0, 0), true), ((0, 0), (1, 1), false)]
    );
    assert_eq!(contents(&beap), vec![4, 4, 7, 9, 8]);
}

#[test]
fn remove_steps_start_with_the_overwrite_of_the_coordinate() {
    let mut beap = beap_of(&[1, 3, 4, 6, 5, 7, 10]);
    assert_eq!(contents(&beap), vec![1, 3, 4, 6, 5, 7, 10]);
    let record = beap.remove_steps::<StepTracker<AnimatedSwap>>(coords(1, 0));
    assert_eq!(record.result, Some(3));
    assert_eq!(
        taken(&record.steps),
        vec![((3, 0), (1, 0), true), ((1, 0), (2, 1), false)]
    );
    assert_eq!(contents(&beap), vec![1, 5, 4, 6, 10, 7]);

    let record = beap.remove_steps::<StepTracker<AnimatedSwap>>(coords(2, 2));
    assert_eq!(record.result, Some(7));
    assert_eq!(taken(&record.steps), vec![((2, 2), (2, 2), true)]);

    let record = beap.remove_steps::<StepTracker<AnimatedSwap>>(coords(4, 0));
    assert_eq!(record.result, None);
    assert!(record.steps.is_empty());
    assert_eq!(contents(&beap), vec![1, 5, 4, 6, 10]);
}

#[test]
fn set_value_steps_lead_to_where_the_new_value_rests() {
    let mut beap = beap_of(&[1, 3, 4, 10, 5, 7]);
    assert_eq!(contents(&beap), vec![1, 3, 4, 10, 5, 7]);
    let record = beap.set_value_steps::<StepTracker<AnimatedSwap>>(coords(2, 1), 0);
    assert_eq!(record.result, Some(5));
    assert_eq!(
        taken(&record.steps),
        vec![((2, 1), (1, 1), false), ((1, 1), (0, 0), false)]
    );
    assert_eq!(beap.get_coord(record.steps.last().unwrap().second), Some(&0));

    let record = beap.set_value_steps::<StepTracker<AnimatedSwap>>(coords(0, 0), 6);
    assert_eq!(record.result, Some(0));
    assert_eq!(
        taken(&record.steps),
        vec![((0, 0), (1, 1), false), ((1, 1), (2, 1), false)]
    );
    assert_eq!(beap.get_coord(coords(2, 1)), Some(&6));

    let record = beap.set_value_steps::<StepTracker<AnimatedSwap>>(coords(1, 0), 3);
    assert_eq!(record.result, Some(3));
    assert!(record.steps.is_empty());

    let record = beap.set_value_steps::<StepTracker<AnimatedSwap>>(coords(3, 0), 3);
    assert_eq!(record.result, None);
    assert!(record.steps.is_empty());
}

#[test]
fn the_steps_of_every_change_replay_to_the_beap() {
    let mut seed = 21;
    let mut beap: Beap<i32> = Beap::new();
    for _ in 0..2000 {
        let value = (next(&mut seed) % 100) as i32;
        let mut shown = contents(&beap);
        match next(&mut seed) % 5 {
            0 | 1 => {
                let record = beap.insert_steps::<StepTracker<AnimatedSwap>>(value);
                shown.push(value);
                assert_eq!(replayed(shown, &record.steps), contents(&beap));
            }
            2 => {
                let record = beap.pop_smallest_steps::<StepTracker<AnimatedSwap>>();
                assert_eq!(record.result, shown.iter().copied().min());
                assert_eq!(replayed(shown, &record.steps), contents(&beap));
            }
            3 => {
                if beap.len() > 0 {
                    let index = next(&mut seed) as usize % beap.len();
                    let coord = BeapCoordinate::from_index(index);
                    let record = beap.set_value_steps::<StepTracker<AnimatedSwap>>(coord, value);
                    assert_eq!(record.result, Some(shown[index]));
                    shown[index] = value;
                    let rests = match record.steps.last() {
                        Some(step) => step.second,
                        None => coord,
                    };
                    assert_eq!(beap.get_coord(rests), Some(&value));
                    assert_eq!(replayed(shown, &record.steps), contents(&beap));
                }
            }
            _ => {
                if beap.len() > 0 {
                    let index = next(&mut seed) as usize % beap.len();
                    let coord = BeapCoordinate::from_index(index);
                    let mut copy = beap.clone();
                    let record = copy.remove_steps::<StepTracker<AnimatedSwap>>(coord);
                    assert_eq!(record.result, Some(shown[index]));
                    assert_eq!(replayed(shown, &record.steps), contents(&copy));
                }
            }
        }
    }
}

#[test]
fn an_operation_does_the_same_with_and_without_a_record() {
    let mut seed = 77;
    let mut plain: Beap<i32> = Beap::new();
    let mut record: Beap<i32> = Beap::new();
    for _ in 0..500 {
        let value = (next(&mut seed) % 100) as i32;
        let coord = BeapCoordinate::from_index(next(&mut seed) as usize % (plain.len() + 1));
        match next(&mut seed) % 4 {
            0 | 1 => {
                plain.insert(value);
                record.insert_steps::<StepTracker<AnimatedSwap>>(value);
            }
            2 => {
                let popped = plain.pop_smallest();
                let other = record.pop_smallest_steps::<StepTracker<AnimatedSwap>>();
                assert_eq!(popped, other.result);
            }
            _ => {
                let old = plain.set_value(coord, value);
                let other = record.set_value_steps::<StepTracker<AnimatedSwap>>(coord, value);
                assert_eq!(old, other.result);
            }
        }
        assert_eq!(contents(&plain), contents(&record));
    }
}
