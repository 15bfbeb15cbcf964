use sort_steps::Keyed;
use sort_steps::SortError;
use sort_steps::insertion_sort;
use sort_steps::merge_sort;
use sort_steps::quick_sort;

#[test]
fn should_do_a_merge_sort() {
    let mut steps: Vec<Vec<u64>> = vec![];
    let mut under_test: Vec<u64> = vec![1, 3, 2, 5, 6, 7, 4, 8, 10, 9];
    merge_sort(&mut under_test, &mut steps);
    println!("steps: {:?}", steps);
    assert_eq!(vec![1, 2, 3, 4, 5, 6, 7, 8, 9, 10], under_test);
    assert_eq!(
        vec![1, 2, 3, 4, 5, 6, 7, 8, 9, 10],
        steps.last().unwrap().clone()
    );
}

#[test]
fn merge_sort_records_entry_and_exit_steps() {
    // two steps per recursive call on a range of two or more elements:
    // 9 such calls for ten elements
    let mut steps: Vec<Vec<u64>> = vec![];
    let mut data: Vec<u64> = vec![1, 3, 2, 5, 6, 7, 4, 8, 10, 9];
    merge_sort(&mut data, &mut steps);
    assert_eq!(18, steps.len());
    assert_eq!(vec![1, 3, 2, 5, 6, 7, 4, 8, 10, 9], steps[0]);
    assert_eq!(vec![1, 2, 3, 4, 5, 6, 7, 8, 9, 10], steps[17]);
    for step in &steps {
        assert_eq!(10, step.len());
    }
}

#[test]
fn insertion_sort_records_one_step_per_swap() {
    // the input has 9 inversions, so insertion sort swaps 9 times and the
    // log holds one snapshot per swap
    let mut steps: Vec<Vec<u64>> = vec![];
    let mut data: Vec<u64> = vec![5, 2, 4, 6, 1, 3];
    insertion_sort(&mut data, &mut steps);
    assert_eq!(vec![1, 2, 3, 4, 5, 6], data);
    let expected: Vec<Vec<u64>> = vec![
        vec![2, 5, 4, 6, 1, 3],
        vec![2, 4, 5, 6, 1, 3],
        vec![2, 4, 5, 1, 6, 3],
        vec![2, 4, 1, 5, 6, 3],
        vec![2, 1, 4, 5, 6, 3],
        vec![1, 2, 4, 5, 6, 3],
        vec![1, 2, 4, 5, 3, 6],
        vec![1, 2, 4, 3, 5, 6],
        vec![1, 2, 3, 4, 5, 6],
    ];
    assert_eq!(expected, steps);
}

#[test]
fn empty_input_is_returned_unchanged_with_empty_log() {
    let mut steps: Vec<Vec<u64>> = vec![];
    let mut data: Vec<u64> = vec![];
    insertion_sort(&mut data, &mut steps);
    assert_eq!(Vec::<u64>::new(), data);
    assert_eq!(0, steps.len());
    merge_sort(&mut data, &mut steps);
    assert_eq!(Vec::<u64>::new(), data);
    assert_eq!(0, steps.len());
}

#[test]
fn singleton_input_is_returned_unchanged_with_empty_log() {
    let mut steps: Vec<Vec<u64>> = vec![];
    let mut data: Vec<u64> = vec![7];
    insertion_sort(&mut data, &mut steps);
    assert_eq!(vec![7], data);
    assert_eq!(0, steps.len());
    merge_sort(&mut data, &mut steps);
    assert_eq!(vec![7], data);
    assert_eq!(0, steps.len());
}

#[test]
fn insertion_sort_on_sorted_input_appends_nothing() {
    let mut steps: Vec<Vec<u64>> = vec![];
    let mut data: Vec<u64> = vec![1, 2, 2, 3, 9];
    insertion_sort(&mut data, &mut steps);
    assert_eq!(vec![1, 2, 2, 3, 9], data);
    assert_eq!(0, steps.len());
}

#[test]
fn merge_sort_on_sorted_input_records_only_noop_steps() {
    let mut steps: Vec<Vec<u64>> = vec![];
    let mut data: Vec<u64> = vec![1, 2, 3];
    merge_sort(&mut data, &mut steps);
    assert_eq!(vec![1, 2, 3], data);
    // entry/exit pairs for the whole range and its right half, all equal to
    // the unchanged input
    assert_eq!(4, steps.len());
    for step in &steps {
        assert_eq!(vec![1, 2, 3], step.clone());
    }
}

#[test]
fn sorts_preserve_duplicate_elements() {
    let mut steps: Vec<Vec<u64>> = vec![];
    let mut data: Vec<u64> = vec![3, 1, 2, 3, 1];
    insertion_sort(&mut data, &mut steps);
    assert_eq!(vec![1, 1, 2, 3, 3], data);

    let mut steps2: Vec<Vec<u64>> = vec![];
    let mut data2: Vec<u64> = vec![3, 1, 2, 3, 1];
    merge_sort(&mut data2, &mut steps2);
    assert_eq!(vec![1, 1, 2, 3, 3], data2);
}

#[test]
fn insertion_sort_is_stable_on_equal_keys() {
    let mut steps: Vec<Vec<Keyed>> = vec![];
    let mut data: Vec<Keyed> = vec![
        Keyed { key: 2, tag: 0 },
        Keyed { key: 1, tag: 1 },
        Keyed { key: 2, tag: 2 },
        Keyed { key: 1, tag: 3 },
    ];
    insertion_sort(&mut data, &mut steps);
    let expected: Vec<Keyed> = vec![
        Keyed { key: 1, tag: 1 },
        Keyed { key: 1, tag: 3 },
        Keyed { key: 2, tag: 0 },
        Keyed { key: 2, tag: 2 },
    ];
    assert_eq!(expected, data);
}

#[test]
fn merge_sort_is_stable_on_equal_keys() {
    let mut steps: Vec<Vec<Keyed>> = vec![];
    let mut data: Vec<Keyed> = vec![
        Keyed { key: 2, tag: 0 },
        Keyed { key: 1, tag: 1 },
        Keyed { key: 2, tag: 2 },
        Keyed { key: 1, tag: 3 },
        Keyed { key: 2, tag: 4 },
    ];
    merge_sort(&mut data, &mut steps);
    let expected: Vec<Keyed> = vec![
        Keyed { key: 1, tag: 1 },
        Keyed { key: 1, tag: 3 },
        Keyed { key: 2, tag: 0 },
        Keyed { key: 2, tag: 2 },
        Keyed { key: 2, tag: 4 },
    ];
    assert_eq!(expected, data);
}

#[test]
fn quick_sort_raises_the_unimplemented_fault() {
    let mut steps: Vec<Vec<u64>> = vec![];
    let mut data: Vec<u64> = vec![3, 1, 2];
    let result = quick_sort(&mut data, &mut steps);
    assert_eq!(Err(SortError::Unimplemented), result);
    assert_eq!(vec![3, 1, 2], data);
    assert_eq!(0, steps.len());
}
