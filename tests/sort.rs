use ddshow::collection::{default_hierarchical_buckets, Collection};
use ddshow::sort::{
    build_sort_bucket, expand, hashed_records, sort_bucket, Bucketed, ByValue, Descending, Update,
};
use rand::Rng;

fn sorted_vectors(collection: &Collection) -> Vec<Vec<i64>> {
    collection
        .hierarchical_sort_by::<ByValue>()
        .into_iter()
        .map(|(_key, sorted)| sorted)
        .collect()
}

#[test]
fn ensure_sorting() {
    let mut input = Collection::new();
    let mut rng = rand::thread_rng();
    for epoch in 0..rng.gen_range(10..=50) {
        input.advance_to(epoch);

        for _ in 0..rng.gen_range(100..=1000) {
            let int = rng.gen::<i64>();
            input.insert(0, int);

            if rng.gen_bool(0.5) {
                input.insert(0, int);
            }

            if rng.gen_bool(0.25) {
                input.remove(0, int);
            }
        }
    }
    let last = input.time();
    input.advance_to(last + 1);

    let mut result = sorted_vectors(&input);
    assert_eq!(result.len(), 1);
    for window in result.remove(0).windows(2) {
        assert!(window[0] <= window[1]);
    }
}

#[test]
fn ensure_retractions_propagate() {
    let mut input = Collection::new();
    input.insert(0, 1);
    input.insert(0, 1);
    input.remove(0, 1);
    input.insert(0, 2);
    input.insert(0, 3);
    input.insert(0, 4);
    input.insert(0, 5);

    input.advance_to(1);

    let result = sorted_vectors(&input);
    assert_eq!(result, vec![vec![1, 2, 3, 4, 5]]);
}

#[test]
fn ensure_retractions_propagate_across_timestamps() {
    let mut input = Collection::new();
    input.insert(0, 1);
    input.insert(0, 1);
    input.insert(0, 2);
    input.insert(0, 3);
    input.insert(0, 4);
    input.insert(0, 5);
    input.advance_to(1);

    input.remove(0, 1);
    input.advance_to(2);

    input.insert(0, 2);
    input.advance_to(3);

    let result = sorted_vectors(&input);
    assert_eq!(result, vec![vec![1, 2, 2, 3, 4, 5]]);
}

#[test]
fn fully_retract_values() {
    let mut input = Collection::new();
    input.insert(0, 1);
    input.insert(0, 2);
    input.insert(0, 3);
    input.insert(0, 4);
    input.insert(0, 5);
    input.advance_to(1);

    input.remove(0, 1);
    input.remove(0, 2);
    input.remove(0, 3);
    input.remove(0, 4);
    input.remove(0, 5);
    input.advance_to(2);

    let result = sorted_vectors(&input);
    assert_eq!(result, Vec::<Vec<i64>>::new());
}

#[test]
fn simple_sort_of_three() {
    let mut input = Collection::new();
    input.insert(0, 3);
    input.insert(0, 1);
    input.insert(0, 2);
    input.advance_to(1);
    let rows = input.hierarchical_sort_by::<ByValue>();
    assert_eq!(rows, vec![(0, vec![1, 2, 3])]);
}

#[test]
fn nothing_settles_before_time_passes() {
    let mut input = Collection::new();
    input.insert(0, 3);
    assert_eq!(input.hierarchical_sort_by::<ByValue>(), Vec::<(u64, Vec<i64>)>::new());
    assert_eq!(Collection::new().sort_by::<ByValue>(), Vec::<(u64, Vec<i64>)>::new());
}

#[test]
fn updates_at_the_current_time_are_not_settled() {
    let mut input = Collection::new();
    input.insert(0, 1);
    input.advance_to(1);
    input.insert(0, 0);
    assert_eq!(input.hierarchical_sort_by::<ByValue>(), vec![(0, vec![1])]);
    input.advance_to(2);
    assert_eq!(input.hierarchical_sort_by::<ByValue>(), vec![(0, vec![0, 1])]);
}

#[test]
fn keys_sort_separately_and_ascend() {
    let mut input = Collection::new();
    input.insert(7, 10);
    input.insert(2, -5);
    input.insert(7, -3);
    input.insert(2, 8);
    input.insert(2, -5);
    input.advance_to(1);
    let expected = vec![(2, vec![-5, -5, 8]), (7, vec![-3, 10])];
    assert_eq!(input.hierarchical_sort_by::<ByValue>(), expected);
    assert_eq!(input.sort_by::<ByValue>(), expected);
    assert_eq!(input.sort_by_named::<ByValue>("flat"), expected);
    assert_eq!(input.hierarchical_sort_by_named::<ByValue>("deep"), expected);
}

#[test]
fn arrival_order_does_not_matter() {
    let data = [5i64, -1, 5, 3, 0, 9, 3, 3];
    let mut forward = Collection::new();
    let mut backward = Collection::new();
    for d in data.iter() {
        forward.insert(1, *d);
    }
    for d in data.iter().rev() {
        backward.insert(1, *d);
    }
    forward.remove(1, 3);
    backward.remove(1, 3);
    forward.advance_to(1);
    backward.advance_to(1);
    assert_eq!(forward.hierarchical_sort_by::<ByValue>(), backward.hierarchical_sort_by::<ByValue>());
    assert_eq!(forward.hierarchical_sort_by::<ByValue>(), vec![(1, vec![-1, 0, 3, 3, 5, 5, 9])]);
}

#[test]
fn insert_then_retract_cancels() {
    let mut plain = Collection::new();
    let mut paired = Collection::new();
    for d in [4i64, 2, 8].iter() {
        plain.insert(0, *d);
        paired.insert(0, *d);
    }
    paired.insert(0, 6);
    paired.remove(0, 6);
    plain.advance_to(1);
    paired.advance_to(1);
    assert_eq!(plain.hierarchical_sort_by::<ByValue>(), paired.hierarchical_sort_by::<ByValue>());
    assert_eq!(paired.hierarchical_sort_by::<ByValue>(), vec![(0, vec![2, 4, 8])]);
}

#[test]
fn retraction_of_an_absent_datum_leaves_an_empty_row() {
    let mut input = Collection::new();
    input.remove(4, 1);
    input.advance_to(1);
    assert_eq!(input.hierarchical_sort_by::<ByValue>(), vec![(4, Vec::<i64>::new())]);
}

#[test]
fn weighted_updates_repeat_data() {
    let mut input = Collection::new();
    input.update(0, 9, 3);
    input.update(0, 4, 2);
    input.update(0, 9, -1);
    input.advance_to(1);
    assert_eq!(input.total_volume(), 6);
    assert_eq!(input.hierarchical_sort_by::<ByValue>(), vec![(0, vec![4, 4, 9, 9])]);
}

#[test]
fn counts_grow_under_inserts() {
    let mut input = Collection::new();
    let mut last = 0;
    for epoch in 0..5u64 {
        input.advance_to(epoch);
        input.insert(3, epoch as i64);
        input.insert(3, 100);
        input.insert(1, 0);
        let now = input.count_total(3);
        assert!(now >= last);
        last = now;
    }
    input.advance_to(5);
    assert_eq!(input.count_total(3), 10);
    assert_eq!(input.count_total(1), 5);
    assert_eq!(input.count_total(2), 0);
}

#[test]
fn default_buckets_descend_to_zero() {
    let buckets = default_hierarchical_buckets();
    assert_eq!(
        buckets,
        vec![60, 56, 52, 48, 44, 40, 36, 32, 28, 24, 20, 16, 12, 8, 4, 0]
    );
}

#[test]
fn bucket_flattens_sorts_and_compacts() {
    let groups = vec![(vec![(3, 1), (1, 2)], 1), (vec![(1, -2), (2, 1)], 2)];
    assert_eq!(sort_bucket::<ByValue>(&groups), vec![(1, -2), (2, 2), (3, 1)]);
}

#[test]
fn bucket_drops_every_zero() {
    let groups = vec![(vec![(5, 1), (7, 1)], 1), (vec![(7, 1)], -1)];
    assert_eq!(sort_bucket::<ByValue>(&groups), vec![(5, 1)]);
    let empty: Vec<(Vec<(i64, i64)>, i64)> = Vec::new();
    assert_eq!(sort_bucket::<ByValue>(&empty), Vec::<(i64, i64)>::new());
}

#[test]
fn expansion_repeats_positive_multiplicities() {
    assert_eq!(expand::<ByValue>(&vec![(1, 2), (2, -1), (3, 1)]), vec![1, 1, 3]);
}

#[test]
fn first_level_hashes_the_datum() {
    let updates = vec![
        Update { key: 0, datum: 1, time: 0, diff: 1 },
        Update { key: 0, datum: 2, time: 5, diff: 1 },
    ];
    let records = hashed_records(&updates, 0);
    assert_eq!(records.len(), 1);
    assert_ne!(records[0].hash, 1);
    assert_eq!(records[0].entries, vec![(1, 1)]);
}

#[test]
fn one_level_groups_by_bucket_and_key() {
    let records = vec![
        Bucketed { hash: 5, key: 1, entries: vec![(4, 1)], diff: 1 },
        Bucketed { hash: 3, key: 1, entries: vec![(2, 1)], diff: 2 },
        Bucketed { hash: 9, key: 0, entries: vec![(7, 1)], diff: 1 },
    ];
    let out = build_sort_bucket::<ByValue>(records, 2);
    assert_eq!(out.len(), 2);
    assert_eq!((out[0].hash, out[0].key), (1, 0));
    assert_eq!(out[0].entries, vec![(7, 1)]);
    assert_eq!((out[1].hash, out[1].key), (1, 1));
    assert_eq!(out[1].entries, vec![(2, 2), (4, 1)]);
    assert_eq!(out[1].diff, 1);
}

#[test]
fn the_key_decides_the_order() {
    let mut input = Collection::new();
    for d in [3i64, -7, 12, 3, 0].iter() {
        input.insert(0, *d);
    }
    input.advance_to(1);
    assert_eq!(input.hierarchical_sort_by::<Descending>(), vec![(0, vec![12, 3, 3, 0, -7])]);
    assert_eq!(input.sort_by::<Descending>(), vec![(0, vec![12, 3, 3, 0, -7])]);
    let groups = vec![(vec![(1, 1), (i64::MIN, 1), (i64::MAX, 1)], 1)];
    assert_eq!(
        sort_bucket::<Descending>(&groups),
        vec![(i64::MAX, 1), (1, 1), (i64::MIN, 1)]
    );
}
