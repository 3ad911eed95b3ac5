use beap::beap::animation_util::AnimatedSearch;
use beap::beap::animation_util::StepTracker;
use beap::beap::Beap;
use beap::beap::BeapCoordinate;

fn coords(row: usize, pos: usize) -> BeapCoordinate {
    BeapCoordinate::from_coords(row, pos).unwrap()
}

fn beap_of(values: &[i32]) -> Beap<i32> {
    let mut beap = Beap::new();
    for value in values {
        beap.insert(*value);
    }
    beap
}

fn next(seed: &mut u64) -> u64 {
    *seed = seed.wrapping_mul(6364136223846793005).wrapping_add(1442695040888963407);
    *seed >> 33
}

fn visited(steps: &[AnimatedSearch]) -> Vec<(usize, usize)> {
    steps.iter().map(|step| (step.coord.row(), step.coord.pos())).collect()
}

// The element that is furthest left in its row and, among those, lowest.
fn first_where(beap: &Beap<i32>, wanted: impl Fn(i32) -> bool) -> Option<BeapCoordinate> {
    let mut first: Option<BeapCoordinate> = None;
    for index in 0..beap.len() {
        let coord = BeapCoordinate::from_index(index);
        if wanted(*beap.get_index(index).unwrap()) {
            let better = match first {
                None => true,
                Some(old) => {
                    coord.pos() < old.pos() || (coord.pos() == old.pos() && coord.row() > old.row())
                }
            };
            if better {
                first = Some(coord);
            }
        }
    }
    first
}

#[test]
fn find_item_finds_every_value_that_is_there_and_no_other() {
    let mut seed = 5;
    for round in 0..40 {
        let mut values = Vec::new();
        for _ in 0..(round * 3) {
            values.push((next(&mut seed) % 60) as i32);
        }
        let beap = beap_of(&values);
        for wanted in -2..62 {
            let found = beap.find_item(&wanted);
            assert_eq!(found.is_some(), values.contains(&wanted));
            if let Some(coord) = found {
                assert_eq!(beap.get_coord(coord), Some(&wanted));
            }
            assert_eq!(found, first_where(&beap, |value| value == wanted));
        }
    }
}

#[test]
fn find_item_in_an_empty_beap_is_none() {
    let beap: Beap<i32> = Beap::new();
    assert_eq!(beap.find_item(&0), None);
    assert_eq!(beap.find_smallest_item_greater_than(&0), None);
    let record = beap.find_item_steps::<StepTracker<AnimatedSearch>>(&0);
    assert_eq!(record.result, None);
    assert!(record.steps.is_empty());
    let record = beap.find_smallest_item_greater_than_steps::<StepTracker<AnimatedSearch>>(&0);
    assert_eq!(record.result, None);
    assert!(record.steps.is_empty());
}

#[test]
fn find_item_takes_the_leftmost_and_then_the_lowest_of_equal_elements() {
    let beap = beap_of(&[1, 5, 5, 5, 5, 7]);
    assert_eq!(beap.find_item(&5), Some(coords(2, 0)));
    let beap = beap_of(&[1, 2, 5, 3, 5, 5]);
    assert_eq!(beap.find_item(&5), Some(coords(2, 1)));
}

#[test]
fn find_item_walks_up_and_to_the_right() {
    let beap = beap_of(&[1, 3, 5, 10]);
    let record = beap.find_item_steps::<StepTracker<AnimatedSearch>>(&5);
    assert_eq!(record.result, Some(coords(1, 1)));
    assert_eq!(visited(&record.steps), vec![(2, 0), (1, 0), (0, 0), (1, 1)]);

    let record = beap.find_item_steps::<StepTracker<AnimatedSearch>>(&10);
    assert_eq!(record.result, Some(coords(2, 0)));
    assert_eq!(visited(&record.steps), vec![(2, 0)]);

    let record = beap.find_item_steps::<StepTracker<AnimatedSearch>>(&4);
    assert_eq!(record.result, None);
    assert_eq!(visited(&record.steps), vec![(2, 0), (1, 0), (0, 0), (1, 1)]);

    let record = beap.find_item_steps::<StepTracker<AnimatedSearch>>(&0);
    assert_eq!(record.result, None);
    assert_eq!(visited(&record.steps), vec![(2, 0), (1, 0), (0, 0)]);
}

#[test]
fn find_smallest_item_greater_than_finds_the_least_element_above() {
    let mut seed = 11;
    for round in 0..40 {
        let mut values = Vec::new();
        for _ in 0..(round * 3) {
            values.push((next(&mut seed) % 60) as i32);
        }
        let beap = beap_of(&values);
        for floor in -2..62 {
            let least = values.iter().copied().filter(|value| *value > floor).min();
            let found = beap.find_smallest_item_greater_than(&floor);
            assert_eq!(found.map(|coord| *beap.get_coord(coord).unwrap()), least);
            assert_eq!(found, first_where(&beap, |value| Some(value) == least));
        }
    }
}

#[test]
fn find_smallest_item_greater_than_named_values() {
    let beap = beap_of(&[1, 10, 5, 3, 15, 20, 2, 4, 6, 1, 10]);
    let value_above = |floor: i32| {
        beap.find_smallest_item_greater_than(&floor).map(|coord| *beap.get_coord(coord).unwrap())
    };
    assert_eq!(value_above(-5), Some(1));
    assert_eq!(value_above(1), Some(2));
    assert_eq!(value_above(6), Some(10));
    assert_eq!(value_above(10), Some(15));
    assert_eq!(value_above(19), Some(20));
    assert_eq!(value_above(20), None);
    assert_eq!(value_above(i32::MAX), None);
}

#[test]
fn find_smallest_item_greater_than_walks_to_the_end() {
    let beap = beap_of(&[1, 3, 5, 10]);
    let record = beap.find_smallest_item_greater_than_steps::<StepTracker<AnimatedSearch>>(&3);
    assert_eq!(record.result, Some(coords(1, 1)));
    assert_eq!(visited(&record.steps), vec![(2, 0), (1, 0), (0, 0), (1, 1)]);

    let record = beap.find_smallest_item_greater_than_steps::<StepTracker<AnimatedSearch>>(&0);
    assert_eq!(record.result, Some(coords(0, 0)));
    assert_eq!(visited(&record.steps), vec![(2, 0), (1, 0), (0, 0)]);
}

#[test]
fn a_search_looks_at_fewer_nodes_than_twice_the_number_of_rows() {
    let mut seed = 3;
    let mut beap: Beap<i32> = Beap::new();
    for _ in 0..400 {
        beap.insert((next(&mut seed) % 1000) as i32);
        for _ in 0..5 {
            let wanted = (next(&mut seed) % 1000) as i32;
            let record = beap.find_item_steps::<StepTracker<AnimatedSearch>>(&wanted);
            assert!(record.steps.len() < 2 * beap.depth());
            assert_eq!(record.result, beap.find_item(&wanted));
            if let Some(coord) = record.result {
                assert_eq!(record.steps.last().unwrap().coord, coord);
            }
            let record =
                beap.find_smallest_item_greater_than_steps::<StepTracker<AnimatedSearch>>(&wanted);
            assert!(record.steps.len() < 2 * beap.depth());
            assert_eq!(record.result, beap.find_smallest_item_greater_than(&wanted));
        }
    }
}
