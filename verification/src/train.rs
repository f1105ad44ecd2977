//! Level rebinner and tree driver. The rebinner applies the winning split
//! to every bin of a level, emitting "bigger" then "smaller" for each source
//! bin, so the bin count exactly doubles. The driver computes the threshold
//! table once from the whole dataset, then advances a fixed number of
//! levels, recording each level's winning split.

use vstd::prelude::*;
use crate::data::{level_view, level_wf, total_rows, Bin, BinV, Dataset, TreeError};
use crate::search::{all_fit, find_oblivious_split, find_spec, Split};
use crate::split::{
    copy_row, lemma_partition, lemma_rows_split_wf, lemma_split_parallel, rows_split, split_bin,
    tars_split,
};
use crate::thresholds::{create_thresholds, thresholds_spec};

verus! {

/// The fixed number of levels the driver advances.
pub const DEFAULT_DEPTH: usize = 3;

/// The target number of candidate thresholds per feature.
pub const DEFAULT_GRANULARITY: u32 = 100;

/// The level obtained by applying one (feature, threshold) split to every
/// bin: each source bin contributes its "bigger" then its "smaller" part.
pub open spec fn rebin(l: Seq<BinV>, f: int, t: i64) -> Seq<BinV>
    decreases l.len(),
{
    if l.len() == 0 {
        Seq::empty()
    } else {
        rebin(l.drop_last(), f, t) + seq![
            BinV {
                rows: rows_split(l.last().rows, f, t, true),
                tars: tars_split(l.last().rows, l.last().tars, f, t, true),
            },
            BinV {
                rows: rows_split(l.last().rows, f, t, false),
                tars: tars_split(l.last().rows, l.last().tars, f, t, false),
            },
        ]
    }
}

/// Rebinning exactly doubles the bin count and preserves the total row
/// count of the level.
pub proof fn lemma_rebin_counts(l: Seq<BinV>, f: int, t: i64)
    ensures
        rebin(l, f, t).len() == 2 * l.len(),
        total_rows(rebin(l, f, t)) == total_rows(l),
    decreases l.len(),
{
    if l.len() == 0 {
    } else {
        let prefix = l.drop_last();
        lemma_rebin_counts(prefix, f, t);
        lemma_partition(l.last().rows, f, t);
        let big = BinV {
            rows: rows_split(l.last().rows, f, t, true),
            tars: tars_split(l.last().rows, l.last().tars, f, t, true),
        };
        let small = BinV {
            rows: rows_split(l.last().rows, f, t, false),
            tars: tars_split(l.last().rows, l.last().tars, f, t, false),
        };
        assert(rebin(l, f, t) =~= rebin(prefix, f, t).push(big).push(small));
        assert(rebin(prefix, f, t).push(big).push(small).drop_last() =~= rebin(
            prefix,
            f,
            t,
        ).push(big));
        assert(rebin(prefix, f, t).push(big).drop_last() =~= rebin(prefix, f, t));
        assert(total_rows(rebin(prefix, f, t).push(big)) == total_rows(rebin(prefix, f, t))
            + big.rows.len());
        assert(total_rows(rebin(prefix, f, t).push(big).push(small)) == total_rows(
            rebin(prefix, f, t).push(big),
        ) + small.rows.len());
        assert(big.rows.len() + small.rows.len() == l.last().rows.len());
    }
}

/// Bin `i` of the source level yields exactly the bins `2i` (its "bigger"
/// part) and `2i + 1` (its "smaller" part) of the rebinned level.
pub proof fn lemma_rebin_pairs(l: Seq<BinV>, f: int, t: i64, i: int)
    requires
        0 <= i < l.len(),
    ensures
        rebin(l, f, t)[2 * i] == (BinV {
            rows: rows_split(l[i].rows, f, t, true),
            tars: tars_split(l[i].rows, l[i].tars, f, t, true),
        }),
        rebin(l, f, t)[2 * i + 1] == (BinV {
            rows: rows_split(l[i].rows, f, t, false),
            tars: tars_split(l[i].rows, l[i].tars, f, t, false),
        }),
    decreases l.len(),
{
    lemma_rebin_counts(l, f, t);
    if i == l.len() - 1 {
        lemma_rebin_counts(l.drop_last(), f, t);
        assert(rebin(l, f, t)[2 * i] == seq![
            BinV {
                rows: rows_split(l.last().rows, f, t, true),
                tars: tars_split(l.last().rows, l.last().tars, f, t, true),
            },
            BinV {
                rows: rows_split(l.last().rows, f, t, false),
                tars: tars_split(l.last().rows, l.last().tars, f, t, false),
            },
        ][0]);
    } else {
        lemma_rebin_pairs(l.drop_last(), f, t, i);
        lemma_rebin_counts(l.drop_last(), f, t);
        assert(l.drop_last()[i] == l[i]);
        assert(rebin(l, f, t)[2 * i] == rebin(l.drop_last(), f, t)[2 * i]);
        assert(rebin(l, f, t)[2 * i + 1] == rebin(l.drop_last(), f, t)[2 * i + 1]);
    }
}

/// The feature column `f` of the dataset.
pub open spec fn column(ds: Dataset, f: int) -> Seq<i64> {
    Seq::new(ds.rows@.len(), |i: int| ds.rows@[i]@[f])
}

/// The threshold table: for every feature index, the candidate thresholds
/// of its column, computed once from the whole dataset.
pub open spec fn table_spec(ds: Dataset, g: u32) -> Seq<Seq<i64>> {
    Seq::new(ds.width as nat, |f: int| thresholds_spec(column(ds, f), g))
}

/// The sequence of levels the driver walks through: level 0 is the whole
/// dataset in one bin, and each next level applies that level's winning
/// split to every bin.
pub open spec fn levels_at(start: BinV, table: Seq<Seq<i64>>, width: int, k: nat) -> Seq<BinV>
    decreases k,
{
    if k == 0 {
        seq![start]
    } else {
        let prev = levels_at(start, table, width, (k - 1) as nat);
        let s = find_spec(prev, table, width);
        rebin(prev, s.0, s.1)
    }
}

/// Every level the driver visits has machine-representable candidate
/// scores.
pub open spec fn levels_fit(start: BinV, table: Seq<Seq<i64>>, width: int, depth: nat) -> bool {
    forall|k: nat|
        k < depth ==> all_fit(#[trigger] levels_at(start, table, width, k), table, width)
}

/// Applies one winning split to every bin of a level.
pub fn rebin_level(level: &Vec<Bin>, feature: usize, threshold: i64, width: usize) -> (r: Vec<Bin>)
    requires
        level_wf(level_view(level@), width as nat),
        feature < width,
    ensures
        level_view(r@) == rebin(level_view(level@), feature as int, threshold),
        r@.len() == 2 * level@.len(),
        level_wf(level_view(r@), width as nat),
{
    let ghost lv = level_view(level@);
    let mut out: Vec<Bin> = Vec::new();
    assert(level_view(out@) =~= rebin(lv.take(0), feature as int, threshold));
    let mut b: usize = 0;
    while b < level.len()
        invariant
            0 <= b <= level@.len(),
            lv == level_view(level@),
            level_wf(lv, width as nat),
            feature < width,
            level_view(out@) == rebin(lv.take(b as int), feature as int, threshold),
            level_wf(level_view(out@), width as nat),
        decreases level@.len() - b,
    {
        proof {
            assert(lv[b as int] == level@[b as int]@);
            assert(lv.take(b + 1).drop_last() =~= lv.take(b as int));
            assert(lv.take(b + 1).last() == lv[b as int]);
        }
        let (big, small) = split_bin(&level[b], feature, threshold);
        proof {
            lemma_rows_split_wf(lv[b as int].rows, feature as int, threshold, true, width as nat);
            lemma_rows_split_wf(lv[b as int].rows, feature as int, threshold, false, width as nat);
            lemma_split_parallel(
                lv[b as int].rows,
                lv[b as int].tars,
                feature as int,
                threshold,
                true,
            );
            lemma_split_parallel(
                lv[b as int].rows,
                lv[b as int].tars,
                feature as int,
                threshold,
                false,
            );
        }
        out.push(big);
        out.push(small);
        assert(level_view(out@) =~= rebin(lv.take(b + 1), feature as int, threshold));
        b += 1;
    }
    proof {
        assert(lv.take(b as int) =~= lv);
        lemma_rebin_counts(lv, feature as int, threshold);
    }
    out
}

/// Builds the threshold table from the whole dataset, one feature column at
/// a time.
pub fn get_all_thresholds(ds: &Dataset, granularity: u32) -> (r: Vec<Vec<i64>>)
    requires
        ds.wf(),
        ds.rows@.len() > 0,
    ensures
        r.deep_view() == table_spec(*ds, granularity),
        r@.len() == ds.width,
{
    let mut table: Vec<Vec<i64>> = Vec::new();
    let mut f: usize = 0;
    while f < ds.width
        invariant
            0 <= f <= ds.width,
            ds.wf(),
            ds.rows@.len() > 0,
            table@.len() == f,
            forall|g: int|
                0 <= g < f ==> (#[trigger] table@[g])@ == thresholds_spec(
                    column(*ds, g),
                    granularity,
                ),
        decreases ds.width - f,
    {
        let mut col: Vec<i64> = Vec::new();
        let mut i: usize = 0;
        while i < ds.rows.len()
            invariant
                0 <= i <= ds.rows@.len(),
                ds.wf(),
                f < ds.width,
                col@ == column(*ds, f as int).take(i as int),
            decreases ds.rows@.len() - i,
        {
            col.push(ds.rows[i][f]);
            assert(col@ =~= column(*ds, f as int).take(i + 1));
            i += 1;
        }
        proof {
            assert(col@ =~= column(*ds, f as int));
        }
        let tholds = create_thresholds(&col, granularity);
        table.push(tholds);
        f += 1;
    }
    proof {
        assert(table.deep_view() =~~= table_spec(*ds, granularity));
    }
    table
}

/// The result of training: the winning split of every level, in order, and
/// the bins of the final level (the leaves).
pub struct TrainResult {
    pub splits: Vec<Split>,
    pub leaves: Vec<Bin>,
}

/// The winning feature of a scan is the sentinel feature 0 or lies in
/// `[2, width)`.
proof fn lemma_fold_feature_range(
    level: Seq<BinV>,
    f: int,
    ts: Seq<i64>,
    init: (int, i64, (int, int)),
)
    ensures
        crate::search::fold_feature(level, f, ts, init) == init || crate::search::fold_feature(
            level,
            f,
            ts,
            init,
        ).0 == f,
    decreases ts.len(),
{
    if ts.len() == 0 {
    } else {
        lemma_fold_feature_range(level, f, ts.drop_last(), init);
    }
}

proof fn lemma_fold_features_range(
    level: Seq<BinV>,
    table: Seq<Seq<i64>>,
    f_end: int,
    init: (int, i64, (int, int)),
)
    ensures
        crate::search::fold_features(level, table, f_end, init) == init || (2
            <= crate::search::fold_features(level, table, f_end, init).0 < f_end),
    decreases (if f_end >= 2 { f_end } else { 2 }),
{
    if f_end <= 2 {
    } else {
        lemma_fold_features_range(level, table, f_end - 1, init);
        lemma_fold_feature_range(
            level,
            f_end - 1,
            table[f_end - 1],
            crate::search::fold_features(level, table, f_end - 1, init),
        );
    }
}

/// A copy of the whole dataset as the single bin of level 0.
fn whole_dataset_bin(ds: &Dataset) -> (b: Bin)
    requires
        ds.wf(),
    ensures
        b@ == ds.whole_bin(),
{
    let mut rows: Vec<Vec<i64>> = Vec::new();
    let mut i: usize = 0;
    while i < ds.rows.len()
        invariant
            0 <= i <= ds.rows@.len(),
            rows@.len() == i,
            forall|k: int| 0 <= k < i ==> (#[trigger] rows@[k])@ == ds.rows@[k]@,
        decreases ds.rows@.len() - i,
    {
        let row = copy_row(&ds.rows[i]);
        rows.push(row);
        i += 1;
    }
    let targets = copy_row(&ds.targets);
    proof {
        assert forall|k: int|
            0 <= k < rows.deep_view().len() implies #[trigger] rows.deep_view()[k]
            == ds.rows.deep_view()[k] by {
            assert(rows.deep_view()[k] == rows@[k].deep_view());
            assert(ds.rows.deep_view()[k] == ds.rows@[k].deep_view());
            assert(rows@[k].deep_view() =~= ds.rows@[k].deep_view());
        }
        assert(rows.deep_view() =~= ds.rows.deep_view());
    }
    Bin { rows, targets }
}

/// Trains the oblivious tree: rejects an empty dataset, computes the
/// threshold table once, then for each level finds the winning split and
/// rebins. Returns every level's split and the final leaves; reports
/// overflow exactly when some visited level has a candidate whose exact
/// score does not fit the machine range.
pub fn train(ds: &Dataset, granularity: u32, depth: usize) -> (r: Result<TrainResult, TreeError>)
    requires
        ds.wf(),
    ensures
        ds.rows@.len() == 0 <==> r == Err::<TrainResult, TreeError>(TreeError::NoData),
        r is Ok <==> (ds.rows@.len() > 0 && levels_fit(
            ds.whole_bin(),
            table_spec(*ds, granularity),
            ds.width as int,
            depth as nat,
        )),
        r matches Ok(res) ==> {
            &&& res.splits@.len() == depth
            &&& forall|k: int|
                0 <= k < depth ==> (#[trigger] res.splits@[k])@ == find_spec(
                    levels_at(
                        ds.whole_bin(),
                        table_spec(*ds, granularity),
                        ds.width as int,
                        k as nat,
                    ),
                    table_spec(*ds, granularity),
                    ds.width as int,
                )
            &&& level_view(res.leaves@) == levels_at(
                ds.whole_bin(),
                table_spec(*ds, granularity),
                ds.width as int,
                depth as nat,
            )
        },
        r is Err ==> (r == Err::<TrainResult, TreeError>(TreeError::NoData) || r == Err::<
            TrainResult,
            TreeError,
        >(TreeError::ScoreOverflow)),
{
    if ds.rows.len() == 0 {
        return Err(TreeError::NoData);
    }
    let ghost start = ds.whole_bin();
    let ghost tv = table_spec(*ds, granularity);
    let ghost w = ds.width as int;
    let table = get_all_thresholds(ds, granularity);
    let first = whole_dataset_bin(ds);
    let mut level: Vec<Bin> = Vec::new();
    level.push(first);
    proof {
        assert(level_view(level@) =~= levels_at(start, tv, w, 0));
        assert(level_wf(level_view(level@), ds.width as nat));
    }
    let mut splits: Vec<Split> = Vec::new();
    let mut d: usize = 0;
    while d < depth
        invariant
            0 <= d <= depth,
            ds.wf(),
            ds.rows@.len() > 0,
            start == ds.whole_bin(),
            tv == table_spec(*ds, granularity),
            w == ds.width as int,
            table.deep_view() == tv,
            table@.len() == ds.width,
            level_view(level@) == levels_at(start, tv, w, d as nat),
            level_wf(level_view(level@), ds.width as nat),
            splits@.len() == d,
            forall|k: int|
                0 <= k < d ==> (#[trigger] splits@[k])@ == find_spec(
                    levels_at(start, tv, w, k as nat),
                    tv,
                    w,
                ),
            forall|k: nat| k < d ==> all_fit(#[trigger] levels_at(start, tv, w, k), tv, w),
        decreases depth - d,
    {
        match find_oblivious_split(&level, &table, ds.width) {
            Err(_) => {
                assert(!all_fit(levels_at(start, tv, w, d as nat), tv, w));
                assert(!levels_fit(start, tv, w, depth as nat));
                return Err(TreeError::ScoreOverflow);
            },
            Ok(s) => {
                proof {
                    lemma_fold_features_range(level_view(level@), tv, w, crate::search::sentinel());
                    assert(s.feature < ds.width);
                }
                splits.push(s);
                let next = rebin_level(&level, s.feature, s.threshold, ds.width);
                level = next;
                proof {
                    assert(level_view(level@) == levels_at(start, tv, w, (d + 1) as nat));
                }
            },
        }
        d += 1;
    }
    proof {
        assert(levels_fit(start, tv, w, depth as nat));
    }
    Ok(TrainResult { splits, leaves: level })
}

} // verus!
