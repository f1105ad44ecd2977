//! Oblivious split finder: an exhaustive scan over every feature index from
//! 2 upward and every candidate threshold of that feature, in ascending
//! order. Each candidate is applied to every bin of the level, the resulting
//! sub-bins are scored as one collection, and a candidate replaces the
//! running best when its score is greater than or equal to the best's — so
//! among equal scores the latest-scanned candidate wins. Feature indices 0
//! (the embedded target) and 1 (reserved) are never candidates.

use vstd::prelude::*;
use crate::data::{Bin, BinV, TreeError, level_view, level_wf};
use crate::score::{score_bins, score_fits, score_of, Score};
use crate::split::{split_targets, tars_split};

verus! {

/// The winning split of one level: feature index, threshold, and the score
/// it achieved. The sentinel no-candidate value is feature 0, threshold 0,
/// score -1/1, which any real candidate (scores are non-negative) replaces.
#[derive(Clone, Copy, Debug, PartialEq, Eq, Structural)]
pub struct Split {
    pub feature: usize,
    pub threshold: i64,
    pub score: Score,
}

impl View for Split {
    type V = (int, i64, (int, int));

    open spec fn view(&self) -> (int, i64, (int, int)) {
        (self.feature as int, self.threshold, self.score@)
    }
}

/// The target sub-bins produced by applying one candidate split to every
/// bin of a level: for each bin in order, its "bigger" then its "smaller"
/// targets.
pub open spec fn cand_bins(level: Seq<BinV>, f: int, t: i64) -> Seq<Seq<i64>>
    decreases level.len(),
{
    if level.len() == 0 {
        Seq::empty()
    } else {
        cand_bins(level.drop_last(), f, t) + seq![
            tars_split(level.last().rows, level.last().tars, f, t, true),
            tars_split(level.last().rows, level.last().tars, f, t, false),
        ]
    }
}

/// One candidate folded into the running best: it replaces the best when
/// its score is greater than or equal (compared exactly by cross
/// multiplication; denominators are positive).
pub open spec fn step_best(level: Seq<BinV>, best: (int, i64, (int, int)), f: int, t: i64) -> (
    int,
    i64,
    (int, int),
) {
    let sc = score_of(cand_bins(level, f, t));
    if sc.0 * best.2.1 >= best.2.0 * sc.1 {
        (f, t, sc)
    } else {
        best
    }
}

/// The thresholds of one feature folded in ascending order.
pub open spec fn fold_feature(
    level: Seq<BinV>,
    f: int,
    ts: Seq<i64>,
    init: (int, i64, (int, int)),
) -> (int, i64, (int, int))
    decreases ts.len(),
{
    if ts.len() == 0 {
        init
    } else {
        step_best(level, fold_feature(level, f, ts.drop_last(), init), f, ts.last())
    }
}

/// Features 2 up to (excluding) `f_end` folded in ascending order.
pub open spec fn fold_features(
    level: Seq<BinV>,
    table: Seq<Seq<i64>>,
    f_end: int,
    init: (int, i64, (int, int)),
) -> (int, i64, (int, int))
    decreases (if f_end >= 2 { f_end } else { 2 }),
{
    if f_end <= 2 {
        init
    } else {
        fold_feature(
            level,
            f_end - 1,
            table[f_end - 1],
            fold_features(level, table, f_end - 1, init),
        )
    }
}

pub open spec fn sentinel() -> (int, i64, (int, int)) {
    (0, 0, (-1, 1))
}

/// The winning split of a level under a threshold table: the full ascending
/// scan folded from the sentinel.
pub open spec fn find_spec(level: Seq<BinV>, table: Seq<Seq<i64>>, width: int) -> (
    int,
    i64,
    (int, int),
) {
    fold_features(level, table, width, sentinel())
}

/// Every candidate of the scan has a machine-representable exact score.
pub open spec fn all_fit(level: Seq<BinV>, table: Seq<Seq<i64>>, width: int) -> bool {
    forall|f: int, k: int|
        2 <= f < width && 0 <= k < table[f].len() ==> #[trigger] score_fits(
            cand_bins(level, f, table[f][k]),
        )
}

/// The finder is deterministic: the winning split is a function of the
/// level, the threshold table and the width alone, so repeated invocation
/// on identical inputs yields the identical split, including the tie-break
/// that favours the latest-scanned of equally scored candidates.
pub proof fn lemma_find_deterministic(
    l1: Seq<BinV>,
    t1: Seq<Seq<i64>>,
    w1: int,
    l2: Seq<BinV>,
    t2: Seq<Seq<i64>>,
    w2: int,
)
    requires
        l1 == l2,
        t1 == t2,
        w1 == w2,
    ensures
        find_spec(l1, t1, w1) == find_spec(l2, t2, w2),
{
}

/// Among equally scored candidates the later-scanned one prevails: a
/// candidate whose score equals the running best's replaces it.
pub proof fn lemma_later_candidate_wins_ties(
    level: Seq<BinV>,
    best: (int, i64, (int, int)),
    f: int,
    t: i64,
)
    requires
        score_of(cand_bins(level, f, t)).0 * best.2.1 == best.2.0 * score_of(
            cand_bins(level, f, t),
        ).1,
    ensures
        step_best(level, best, f, t) == (f, t, score_of(cand_bins(level, f, t))),
{
}

/// Searches all (feature, threshold) candidates over the level's bins and
/// returns the winning split; reports overflow exactly when some
/// candidate's exact score does not fit the machine range.
pub fn find_oblivious_split(level: &Vec<Bin>, table: &Vec<Vec<i64>>, width: usize) -> (r: Result<
    Split,
    TreeError,
>)
    requires
        level_wf(level_view(level@), width as nat),
        table@.len() == width,
    ensures
        r is Ok <==> all_fit(level_view(level@), table.deep_view(), width as int),
        r matches Ok(s) ==> s@ == find_spec(level_view(level@), table.deep_view(), width as int),
        r is Err ==> r == Err::<Split, TreeError>(TreeError::ScoreOverflow),
{
    let ghost lv = level_view(level@);
    let ghost tv = table.deep_view();
    let mut best = Split { feature: 0, threshold: 0, score: Score { num: -1, den: 1 } };
    let mut f: usize = 2;
    if width <= 2 {
        assert(all_fit(lv, tv, width as int));
        return Ok(best);
    }
    while f < width
        invariant
            2 <= f <= width,
            width >= 2,
            lv == level_view(level@),
            tv == table.deep_view(),
            level_wf(lv, width as nat),
            table@.len() == width,
            best.score.den >= 1,
            best@ == fold_features(lv, tv, f as int, sentinel()),
            forall|g: int, k: int|
                2 <= g < f && 0 <= k < tv[g].len() ==> #[trigger] score_fits(
                    cand_bins(lv, g, tv[g][k]),
                ),
        decreases width - f,
    {
        let ghost entry = fold_features(lv, tv, f as int, sentinel());
        let mut k: usize = 0;
        while k < table[f].len()
            invariant
                2 <= f < width,
                0 <= k <= tv[f as int].len(),
                lv == level_view(level@),
                tv == table.deep_view(),
                level_wf(lv, width as nat),
                table@.len() == width,
                tv[f as int].len() == table@[f as int]@.len(),
                best.score.den >= 1,
                entry == fold_features(lv, tv, f as int, sentinel()),
                best@ == fold_feature(lv, f as int, tv[f as int].take(k as int), entry),
                forall|g: int, j: int|
                    2 <= g < f && 0 <= j < tv[g].len() ==> #[trigger] score_fits(
                        cand_bins(lv, g, tv[g][j]),
                    ),
                forall|j: int|
                    0 <= j < k ==> #[trigger] score_fits(cand_bins(lv, f as int, tv[f as int][j])),
            decreases tv[f as int].len() - k,
        {
            let t = table[f][k];
            proof {
                assert(tv[f as int][k as int] == t);
            }
            let mut bins: Vec<Vec<i64>> = Vec::new();
            assert(bins.deep_view() =~~= cand_bins(lv.take(0), f as int, t));
            let mut b: usize = 0;
            while b < level.len()
                invariant
                    0 <= b <= level@.len(),
                    lv == level_view(level@),
                    level_wf(lv, width as nat),
                    2 <= f < width,
                    bins.deep_view() == cand_bins(lv.take(b as int), f as int, t),
                decreases level@.len() - b,
            {
                proof {
                    assert(lv[b as int] == level@[b as int]@);
                    assert(lv.take(b + 1).drop_last() =~= lv.take(b as int));
                    assert(lv.take(b + 1).last() == lv[b as int]);
                }
                let (mi, ma) = split_targets(&level[b], f, t);
                bins.push(mi);
                bins.push(ma);
                assert(bins.deep_view() =~~= cand_bins(lv.take(b + 1), f as int, t));
                b += 1;
            }
            proof {
                assert(lv.take(b as int) =~= lv);
            }
            match score_bins(&bins) {
                Err(_) => {
                    assert(!score_fits(cand_bins(lv, f as int, tv[f as int][k as int])));
                    assert(!all_fit(lv, tv, width as int));
                    return Err(TreeError::ScoreOverflow);
                },
                Ok(sc) => {
                    proof {
                        assert(-(0x8000_0000_0000_0000int * 0x8000_0000_0000_0000int) <= (
                        sc.num as int) * (best.score.den as int) <= 0x8000_0000_0000_0000int
                            * 0x8000_0000_0000_0000int) by (nonlinear_arith)
                            requires
                                -0x8000_0000_0000_0000 <= sc.num as int <= 0x7FFF_FFFF_FFFF_FFFF,
                                0 <= best.score.den as int <= 0x7FFF_FFFF_FFFF_FFFF,
                        ;
                        assert(-(0x8000_0000_0000_0000int * 0x8000_0000_0000_0000int) <= (
                        best.score.num as int) * (sc.den as int) <= 0x8000_0000_0000_0000int
                            * 0x8000_0000_0000_0000int) by (nonlinear_arith)
                            requires
                                -0x8000_0000_0000_0000 <= best.score.num as int
                                    <= 0x7FFF_FFFF_FFFF_FFFF,
                                0 <= sc.den as int <= 0x7FFF_FFFF_FFFF_FFFF,
                        ;
                    }
                    let replace = (sc.num as i128) * (best.score.den as i128) >= (
                    best.score.num as i128) * (sc.den as i128);
                    let ghost old_best = best@;
                    if replace {
                        best = Split { feature: f, threshold: t, score: sc };
                    }
                    proof {
                        assert(best@ == step_best(lv, old_best, f as int, t));
                        assert(tv[f as int].take(k + 1).drop_last() =~= tv[f as int].take(
                            k as int,
                        ));
                        assert(tv[f as int].take(k + 1).last() == tv[f as int][k as int]);
                    }
                },
            }
            k += 1;
        }
        proof {
            assert(tv[f as int].take(k as int) =~= tv[f as int]);
            assert(fold_features(lv, tv, f + 1, sentinel()) == fold_feature(
                lv,
                f as int,
                tv[f as int],
                entry,
            ));
        }
        f += 1;
    }
    assert(all_fit(lv, tv, width as int));
    Ok(best)
}

} // verus!
