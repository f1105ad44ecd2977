use oblitree::data::{Bin, Dataset, TreeError};
use oblitree::score::{mean, score_bins, Score};
use oblitree::split::{split_bin, split_targets};
use oblitree::thresholds::create_thresholds;

#[test]
fn thresholds_drop_minimum() {
    // Distinct ascending values with granularity far above the count: the
    // stride is 1, so all distinct values but the minimum are selected.
    let col: Vec<i64> = vec![10, 20, 30, 40];
    let t = create_thresholds(&col, 100);
    assert_eq!(t, vec![20, 30, 40]);
}

#[test]
fn thresholds_dedupe_and_sort() {
    let col: Vec<i64> = vec![3, 1, 2, 1];
    let t = create_thresholds(&col, 100);
    assert_eq!(t, vec![2, 3]);
}

#[test]
fn thresholds_single_distinct_value() {
    let col: Vec<i64> = vec![5, 5, 5];
    let t = create_thresholds(&col, 100);
    assert!(t.is_empty());
}

#[test]
fn thresholds_empty_column() {
    let col: Vec<i64> = vec![];
    let t = create_thresholds(&col, 100);
    assert!(t.is_empty());
}

#[test]
fn thresholds_stride_subsamples() {
    // Ten distinct values, granularity 1: stride is 10 / 2 = 5, positions
    // 0 and 5 are selected, position 0 (the minimum) is dropped.
    let col: Vec<i64> = vec![0, 1, 2, 3, 4, 5, 6, 7, 8, 9];
    let t = create_thresholds(&col, 1);
    assert_eq!(t, vec![5]);
}

#[test]
fn thresholds_strictly_increasing_without_minimum() {
    let col: Vec<i64> = vec![7, 3, 3, 9];
    let t = create_thresholds(&col, 100);
    assert_eq!(t, vec![7, 9]);
    for w in t.windows(2) {
        assert!(w[0] < w[1]);
    }
    assert!(!t.contains(&3));
    for v in &t {
        assert!(col.contains(v));
    }
}

#[test]
fn dataset_extracts_targets() {
    let ds = Dataset::new(vec![vec![5, 1, 10], vec![7, 2, 20]]).unwrap();
    assert_eq!(ds.targets, vec![5, 7]);
    assert_eq!(ds.width, 3);
}

#[test]
fn dataset_empty_is_allowed() {
    let ds = Dataset::new(vec![]).unwrap();
    assert_eq!(ds.rows.len(), 0);
}

#[test]
fn dataset_uneven_rows_rejected() {
    let r = Dataset::new(vec![vec![1, 2], vec![1]]);
    assert_eq!(r.err(), Some(TreeError::ShapeMismatch));
}

#[test]
fn dataset_zero_width_rows_rejected() {
    let r = Dataset::new(vec![vec![]]);
    assert_eq!(r.err(), Some(TreeError::ShapeMismatch));
}

#[test]
fn score_exact_fraction() {
    // (1+2)^2 / 2 + 3^2 / 1 = 27/2, unreduced denominator 2 * 1.
    let bins: Vec<Vec<i64>> = vec![vec![1, 2], vec![3]];
    let sc = score_bins(&bins).unwrap();
    assert_eq!(sc, Score { num: 27, den: 2 });
}

#[test]
fn score_zero_on_empty_bin() {
    let bins: Vec<Vec<i64>> = vec![vec![], vec![1, 2]];
    assert_eq!(score_bins(&bins).unwrap(), Score { num: 0, den: 1 });
}

#[test]
fn score_zero_on_all_bins_empty() {
    let bins: Vec<Vec<i64>> = vec![vec![], vec![]];
    assert_eq!(score_bins(&bins).unwrap(), Score { num: 0, den: 1 });
}

#[test]
fn score_zero_on_no_bins() {
    let bins: Vec<Vec<i64>> = vec![];
    assert_eq!(score_bins(&bins).unwrap(), Score { num: 0, den: 1 });
}

#[test]
fn score_overflow_reported() {
    // The squared bin sum exceeds the 64-bit range.
    let bins: Vec<Vec<i64>> = vec![vec![3037000500]];
    assert_eq!(score_bins(&bins), Err(TreeError::ScoreOverflow));
}

#[test]
fn score_largest_fitting_sum() {
    // 3037000499^2 is the largest square of a sum that still fits.
    let bins: Vec<Vec<i64>> = vec![vec![3037000499]];
    let sc = score_bins(&bins).unwrap();
    assert_eq!(sc, Score { num: 3037000499i64 * 3037000499, den: 1 });
}

#[test]
fn mean_of_bin() {
    let list: Vec<i64> = vec![2, 4];
    assert_eq!(mean(&list), Some((6, 2)));
    let empty: Vec<i64> = vec![];
    assert_eq!(mean(&empty), None);
}

#[test]
fn partition_splits_on_threshold() {
    let bin = Bin {
        rows: vec![vec![5, 1, 10], vec![5, 2, 20], vec![1, 1, 30], vec![1, 2, 40]],
        targets: vec![5, 5, 1, 1],
    };
    let (big, small) = split_bin(&bin, 2, 20);
    assert_eq!(big.rows, vec![vec![1, 1, 30], vec![1, 2, 40]]);
    assert_eq!(big.targets, vec![1, 1]);
    assert_eq!(small.rows, vec![vec![5, 1, 10], vec![5, 2, 20]]);
    assert_eq!(small.targets, vec![5, 5]);
    // The partition law on concrete values: sizes sum, sides are disjoint,
    // every "bigger" row exceeds the threshold, no "smaller" row does.
    assert_eq!(big.rows.len() + small.rows.len(), bin.rows.len());
    for r in &big.rows {
        assert!(r[2] > 20);
        assert!(!small.rows.contains(r));
    }
    for r in &small.rows {
        assert!(r[2] <= 20);
    }
}

#[test]
fn partition_equality_goes_smaller() {
    let bin = Bin { rows: vec![vec![9, 0, 7]], targets: vec![9] };
    let (big, small) = split_bin(&bin, 2, 7);
    assert!(big.rows.is_empty());
    assert_eq!(small.targets, vec![9]);
}

#[test]
fn partition_targets_only() {
    let bin = Bin { rows: vec![vec![4, 0, 1], vec![6, 0, 9]], targets: vec![4, 6] };
    let (big, small) = split_targets(&bin, 2, 5);
    assert_eq!(big, vec![6]);
    assert_eq!(small, vec![4]);
}
