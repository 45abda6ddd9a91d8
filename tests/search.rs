use rayon::iter::{IntoParallelRefIterator, ParallelIterator};
use variance_finder::filter::nonzero_positions;
use variance_finder::search::Search;

fn half_width(fuzz: f32) -> f32 {
    if fuzz.abs() < 0.0001 {
        0.0001
    } else {
        fuzz.abs()
    }
}

fn find_matches(
    items: Vec<f32>,
    total: f32,
    fuzz: f32,
    max_iterations: u32,
    max_matches: usize,
) -> Vec<Vec<usize>> {
    let half = half_width(fuzz);
    let nonzero: Vec<bool> = items.iter().map(|f| *f != 0.0).collect();
    let mut search = Search::new(&nonzero, max_iterations, max_matches);
    while let Some(combo) = search.next_candidate() {
        let sum: f32 = combo.iter().map(|&ix| items[ix]).sum();
        search.record(total - half <= sum && sum <= total + half);
    }
    search.into_matches()
}

fn find_multiple_matches(
    items: Vec<f32>,
    totals: Vec<f32>,
    fuzz: f32,
    max_iterations: u32,
    max_matches: usize,
) -> Vec<Vec<Vec<usize>>> {
    totals
        .par_iter()
        .map(|&total| find_matches(items.clone(), total, fuzz, max_iterations, max_matches))
        .collect()
}

/// Every candidate a search hands out, with every verdict `false`.
fn drawn(nonzero: Vec<bool>, max_iterations: u32) -> Vec<Vec<usize>> {
    let mut search = Search::new(&nonzero, max_iterations, 1);
    let mut out = Vec::new();
    while let Some(combo) = search.next_candidate() {
        out.push(combo);
        search.record(false);
    }
    out
}

#[test]
fn test_find_matches() {
    let items: Vec<f32> = (0..100).map(|i| i as f32).collect();
    let actual = find_matches(items, 42.0, 0.1, 1_000_000, 5);
    let expected: Vec<Vec<usize>> = vec![vec![42], vec![1, 41], vec![2, 40], vec![3, 39], vec![4, 38]];
    assert_eq!(actual, expected);
}

#[test]
fn test_find_multiple_matches() {
    let items: Vec<f32> = (0..100).map(|i| i as f32).collect();
    let totals: Vec<f32> = vec![42.1, -5.2, 1.3];
    let actual = find_multiple_matches(items, totals, 1.4, 1_000_000, 5);
    let expected: Vec<Vec<Vec<usize>>> = vec![
        vec![vec![41], vec![42], vec![43], vec![1, 40], vec![1, 41]],
        vec![],
        vec![vec![1], vec![2]],
    ];
    assert_eq!(expected, actual);
}

#[test]
fn same_inputs_same_outputs() {
    let items: Vec<f32> = (0..40).map(|i| (i % 7) as f32 - 2.0).collect();
    let totals: Vec<f32> = vec![3.0, -1.0, 0.5, 7.0, 3.0];
    let first = find_multiple_matches(items.clone(), totals.clone(), 0.2, 5_000, 10);
    let second = find_multiple_matches(items.clone(), totals.clone(), 0.2, 5_000, 10);
    assert_eq!(first, second);
    for (k, total) in totals.iter().enumerate() {
        assert_eq!(first[k], find_matches(items.clone(), *total, 0.2, 5_000, 10));
    }
    assert_eq!(first[0], first[4]);
}

#[test]
fn zero_items_are_never_used() {
    let items: Vec<f32> = vec![0.0, 3.0, 0.0, 3.0, 0.0, 6.0];
    let actual = find_matches(items, 3.0, 0.0, 1_000, 10);
    assert_eq!(actual, vec![vec![1], vec![3]]);
    let zeros: Vec<f32> = vec![0.0, 0.0, 0.0];
    assert_eq!(find_matches(zeros, 0.0, 1.0, 1_000, 10), Vec::<Vec<usize>>::new());
}

#[test]
fn fuzz_zero_keeps_a_small_window() {
    let items: Vec<f32> = vec![1.0, 2.00005, 5.0];
    assert_eq!(find_matches(items.clone(), 2.0, 0.0, 1_000, 10), vec![vec![1]]);
    let far: Vec<f32> = vec![1.0, 2.001, 5.0];
    assert_eq!(find_matches(far, 2.0, 0.0, 1_000, 10), Vec::<Vec<usize>>::new());
    assert_eq!(find_matches(items, 2.0, -0.00001, 1_000, 10), vec![vec![1]]);
}

#[test]
fn negative_fuzz_counts_as_its_magnitude() {
    let items: Vec<f32> = vec![1.0, 2.0, 4.0];
    assert_eq!(find_matches(items, 2.5, -0.5, 1_000, 10), vec![vec![1], vec![0, 1]]);
}

#[test]
fn match_budget_caps_the_result() {
    let items: Vec<f32> = vec![1.0; 8];
    let actual = find_matches(items.clone(), 1.0, 0.1, 1_000_000, 3);
    assert_eq!(actual, vec![vec![0], vec![1], vec![2]]);
    let all = find_matches(items, 1.0, 0.1, 1_000_000, 100);
    assert_eq!(all.len(), 8);
}

#[test]
fn match_budget_zero_finds_nothing() {
    let items: Vec<f32> = vec![1.0, 2.0, 3.0];
    assert_eq!(find_matches(items.clone(), 2.0, 0.1, 1_000, 0), Vec::<Vec<usize>>::new());
    assert_eq!(find_matches(items, 1.0, 0.1, 1_000, 0), Vec::<Vec<usize>>::new());
    let mut search = Search::new(&vec![true, true, true], 1_000, 0);
    assert_eq!(search.next_candidate(), None);
    assert_eq!(search.into_matches(), Vec::<Vec<usize>>::new());
}

#[test]
fn iteration_budget_stops_before_evaluating() {
    let items: Vec<f32> = vec![1.0, 2.0, 3.0, 4.0];
    // The third combination drawn reaches the budget and is not judged.
    assert_eq!(find_matches(items.clone(), 3.0, 0.1, 3, 10), Vec::<Vec<usize>>::new());
    assert_eq!(find_matches(items.clone(), 3.0, 0.1, 4, 10), vec![vec![2]]);
    assert_eq!(find_matches(items.clone(), 3.0, 0.1, 0, 10), Vec::<Vec<usize>>::new());
    assert_eq!(find_matches(items, 3.0, 0.1, 1_000, 10), vec![vec![2], vec![0, 1]]);
}

#[test]
fn iteration_budget_bounds_the_draws() {
    let flags = vec![true; 6];
    assert_eq!(drawn(flags.clone(), 5).len(), 4);
    assert_eq!(drawn(flags.clone(), 1).len(), 0);
    assert_eq!(drawn(flags.clone(), 0).len(), 0);
    // 2^6 - 2 combinations of sizes one to five.
    assert_eq!(drawn(flags, 1_000).len(), 62);
}

#[test]
fn whole_set_is_never_tried() {
    let items: Vec<f32> = vec![1.0, 2.0];
    assert_eq!(find_matches(items, 3.0, 0.1, 1_000, 10), Vec::<Vec<usize>>::new());
    let single: Vec<f32> = vec![5.0];
    assert_eq!(find_matches(single, 5.0, 0.1, 1_000, 10), Vec::<Vec<usize>>::new());
    let with_zero: Vec<f32> = vec![1.0, 0.0, 2.0];
    assert_eq!(find_matches(with_zero, 3.0, 0.1, 1_000, 10), Vec::<Vec<usize>>::new());
}

#[test]
fn empty_items_give_no_matches() {
    assert_eq!(find_matches(vec![], 0.0, 1.0, 1_000, 10), Vec::<Vec<usize>>::new());
    assert_eq!(drawn(vec![], 1_000), Vec::<Vec<usize>>::new());
}

#[test]
fn candidates_by_size_then_lexicographic() {
    let order = drawn(vec![true, false, true, true, true], 1_000);
    let expected: Vec<Vec<usize>> = vec![
        vec![0], vec![2], vec![3], vec![4],
        vec![0, 2], vec![0, 3], vec![0, 4], vec![2, 3], vec![2, 4], vec![3, 4],
        vec![0, 2, 3], vec![0, 2, 4], vec![0, 3, 4], vec![2, 3, 4],
    ];
    assert_eq!(order, expected);
}

#[test]
fn nonzero_positions_keep_original_indices() {
    assert_eq!(nonzero_positions(&vec![false, true, true, false, true]), vec![1, 2, 4]);
    assert_eq!(nonzero_positions(&vec![]), Vec::<usize>::new());
    assert_eq!(nonzero_positions(&vec![false, false]), Vec::<usize>::new());
}

#[test]
fn nan_sums_never_match() {
    let items: Vec<f32> = vec![f32::NAN, 2.0, 3.0];
    assert_eq!(find_matches(items, 2.0, 0.5, 1_000, 10), vec![vec![1]]);
}
