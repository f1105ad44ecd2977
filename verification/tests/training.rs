use oblitree::data::{Bin, Dataset, TreeError};
use oblitree::score::Score;
use oblitree::search::{find_oblivious_split, Split};
use oblitree::train::{
    get_all_thresholds, rebin_level, train, DEFAULT_DEPTH, DEFAULT_GRANULARITY,
};

fn four_row_dataset() -> Dataset {
    Dataset::new(vec![vec![5, 1, 10], vec![5, 2, 20], vec![1, 1, 30], vec![1, 2, 40]]).unwrap()
}

#[test]
fn threshold_table_per_feature() {
    let ds = four_row_dataset();
    let table = get_all_thresholds(&ds, 100);
    assert_eq!(table.len(), 3);
    assert_eq!(table[0], vec![5]);
    assert_eq!(table[1], vec![2]);
    assert_eq!(table[2], vec![20, 30, 40]);
}

#[test]
fn finder_picks_best_scoring_candidate() {
    // Only feature 2 is a candidate. Threshold 20 scores
    // (1+1)^2/2 + (5+5)^2/2 = 52 (exactly 208/4 unreduced), threshold 30
    // scores 1 + 121/3, threshold 40 leaves a bin empty and scores 0; so
    // (2, 20) wins.
    let ds = four_row_dataset();
    let table = get_all_thresholds(&ds, 100);
    let level = vec![Bin { rows: ds.rows.clone(), targets: ds.targets.clone() }];
    let s = find_oblivious_split(&level, &table, 3).unwrap();
    assert_eq!(s.feature, 2);
    assert_eq!(s.threshold, 20);
    assert_eq!(s.score, Score { num: 208, den: 4 });
    assert_eq!(s.score.num / s.score.den, 52);
}

#[test]
fn finder_is_deterministic() {
    let ds = four_row_dataset();
    let table = get_all_thresholds(&ds, 100);
    let level = vec![Bin { rows: ds.rows.clone(), targets: ds.targets.clone() }];
    let a = find_oblivious_split(&level, &table, 3).unwrap();
    let b = find_oblivious_split(&level, &table, 3).unwrap();
    assert_eq!(a, b);
}

#[test]
fn finder_ties_favour_latest_candidate() {
    // Every candidate leaves some sub-bin empty, so every candidate scores
    // 0 and the last-scanned one (highest feature, highest threshold) wins.
    let ds = Dataset::new(vec![vec![1, 0, 1, 1], vec![2, 0, 2, 2]]).unwrap();
    let table = get_all_thresholds(&ds, 100);
    assert_eq!(table[2], vec![2]);
    assert_eq!(table[3], vec![2]);
    let level = vec![Bin { rows: ds.rows.clone(), targets: ds.targets.clone() }];
    let s = find_oblivious_split(&level, &table, 4).unwrap();
    assert_eq!(s.feature, 3);
    assert_eq!(s.threshold, 2);
    assert_eq!(s.score, Score { num: 0, den: 1 });
}

#[test]
fn finder_sentinel_when_no_candidates() {
    // With only two features there is nothing to scan: the sentinel stands.
    let ds = Dataset::new(vec![vec![1, 2], vec![3, 4]]).unwrap();
    let table = get_all_thresholds(&ds, 100);
    let level = vec![Bin { rows: ds.rows.clone(), targets: ds.targets.clone() }];
    let s = find_oblivious_split(&level, &table, 2).unwrap();
    assert_eq!(s, Split { feature: 0, threshold: 0, score: Score { num: -1, den: 1 } });
}

#[test]
fn rebinning_doubles_and_preserves_rows() {
    let ds = four_row_dataset();
    let level = vec![Bin { rows: ds.rows.clone(), targets: ds.targets.clone() }];
    let next = rebin_level(&level, 2, 20, 3);
    assert_eq!(next.len(), 2);
    let total: usize = next.iter().map(|b| b.rows.len()).sum();
    assert_eq!(total, 4);
    let again = rebin_level(&next, 2, 30, 3);
    assert_eq!(again.len(), 4);
    let total2: usize = again.iter().map(|b| b.rows.len()).sum();
    assert_eq!(total2, 4);
}

#[test]
fn training_end_to_end() {
    let ds = four_row_dataset();
    let out = train(&ds, DEFAULT_GRANULARITY, DEFAULT_DEPTH).unwrap();
    assert_eq!(out.splits.len(), 3);
    // Level 0: (2, 20) wins with 208/4 = 52.
    assert_eq!(out.splits[0], Split { feature: 2, threshold: 20, score: Score { num: 208, den: 4 } });
    // Level 1: every candidate leaves an empty sub-bin, so all score 0 and
    // the latest (2, 40) wins; likewise at level 2.
    assert_eq!(out.splits[1], Split { feature: 2, threshold: 40, score: Score { num: 0, den: 1 } });
    assert_eq!(out.splits[2], Split { feature: 2, threshold: 40, score: Score { num: 0, den: 1 } });
    assert_eq!(out.leaves.len(), 8);
    let total: usize = out.leaves.iter().map(|b| b.rows.len()).sum();
    assert_eq!(total, 4);
    for b in &out.leaves {
        assert_eq!(b.rows.len(), b.targets.len());
    }
}

#[test]
fn training_rejects_empty_dataset() {
    let ds = Dataset::new(vec![]).unwrap();
    let r = train(&ds, DEFAULT_GRANULARITY, DEFAULT_DEPTH);
    assert_eq!(r.err(), Some(TreeError::NoData));
}

#[test]
fn training_reports_score_overflow() {
    // Targets of 2^32 make a squared bin sum exceed the 64-bit range as
    // soon as the first real candidate is scored.
    let big: i64 = 4294967296;
    let ds = Dataset::new(vec![vec![big, 0, 1], vec![big, 0, 2], vec![big, 0, 3]]).unwrap();
    let r = train(&ds, DEFAULT_GRANULARITY, DEFAULT_DEPTH);
    assert_eq!(r.err(), Some(TreeError::ScoreOverflow));
}
