use sort_steps::Algorithm;
use sort_steps::App;
use sort_steps::SortError;
use sort_steps::run_algorithm;

#[test]
fn labels_match_the_display_names() {
    assert_eq!("Insertion Sort", Algorithm::InsertionSort.label());
    assert_eq!("Merge Sort", Algorithm::MergeSort.label());
    assert_eq!("Quick Sort", Algorithm::QuickSort.label());
}

#[test]
fn new_app_draws_values_below_the_range() {
    let app = App::new(20, 20);
    assert_eq!(20, app.data.len());
    for value in &app.data {
        assert!(*value < 20);
    }
    assert_eq!(Algorithm::MergeSort, app.current);
    assert_eq!(
        vec![
            Algorithm::InsertionSort,
            Algorithm::MergeSort,
            Algorithm::QuickSort
        ],
        app.available_algorithms
    );
}

#[test]
fn new_app_respects_a_tight_range() {
    let app = App::new(50, 5);
    assert_eq!(50, app.data.len());
    for value in &app.data {
        assert!(*value < 5);
    }
}

#[test]
fn run_algorithm_dispatches_to_insertion_sort() {
    let mut data: Vec<u64> = vec![4, 2, 9, 1];
    let log = run_algorithm(&Algorithm::InsertionSort, &mut data).unwrap();
    assert_eq!(vec![1, 2, 4, 9], data);
    // one step per inversion of [4, 2, 9, 1]
    assert_eq!(4, log.len());
    assert_eq!(vec![1, 2, 4, 9], log.last().unwrap().clone());
}

#[test]
fn run_algorithm_dispatches_to_merge_sort() {
    let mut data: Vec<u64> = vec![4, 2, 9, 1];
    let log = run_algorithm(&Algorithm::MergeSort, &mut data).unwrap();
    assert_eq!(vec![1, 2, 4, 9], data);
    // two steps for the whole range and two for each half of two elements
    assert_eq!(6, log.len());
    assert_eq!(vec![4, 2, 9, 1], log[0]);
    assert_eq!(vec![1, 2, 4, 9], log.last().unwrap().clone());
}

#[test]
fn run_algorithm_surfaces_the_quick_sort_fault() {
    let mut data: Vec<u64> = vec![4, 2];
    let result = run_algorithm(&Algorithm::QuickSort, &mut data);
    assert_eq!(Err(SortError::Unimplemented), result);
    assert_eq!(vec![4, 2], data);
}

#[test]
fn a_tick_sorts_the_session_data() {
    let mut app = App::new(10, 25);
    app._set_algorithm(Algorithm::InsertionSort);
    let result = app.on_tick();
    assert!(result.is_ok());
    for window in app.data.windows(2) {
        assert!(window[0] <= window[1]);
    }
}

#[test]
fn a_quick_sort_tick_fails_and_keeps_the_data() {
    let mut app = App {
        data: vec![3, 1, 2],
        current: Algorithm::QuickSort,
        available_algorithms: vec![Algorithm::MergeSort, Algorithm::QuickSort],
    };
    let result = app.run_algorithm_tick();
    assert_eq!(Err(SortError::Unimplemented), result);
    assert_eq!(vec![3, 1, 2], app.data);
    assert_eq!(Algorithm::QuickSort, app.current);
}

#[test]
fn set_algorithm_changes_only_the_selection() {
    let mut app = App {
        data: vec![5, 4],
        current: Algorithm::MergeSort,
        available_algorithms: vec![Algorithm::MergeSort],
    };
    app._set_algorithm(Algorithm::InsertionSort);
    assert_eq!(Algorithm::InsertionSort, app.current);
    assert_eq!(vec![5, 4], app.data);
}

#[test]
fn a_merge_sort_tick_replays_to_the_sorted_data() {
    let mut app = App {
        data: vec![1, 3, 2, 5, 6, 7, 4, 8, 10, 9],
        current: Algorithm::MergeSort,
        available_algorithms: vec![Algorithm::MergeSort],
    };
    let log = app.run_algorithm_tick().unwrap();
    assert_eq!(vec![1, 2, 3, 4, 5, 6, 7, 8, 9, 10], app.data);
    assert_eq!(vec![1, 2, 3, 4, 5, 6, 7, 8, 9, 10], log.last().unwrap().clone());
}
