//! Bin partitioner: one bin is split on a (feature, threshold) pair into a
//! "bigger" bin (rows whose value at the feature is strictly greater than
//! the threshold) and the complementary "smaller" bin; equality goes to
//! "smaller". Row order within each output follows the input.

use vstd::prelude::*;
use vstd::assert_multisets_equal;
use crate::data::Bin;

verus! {

/// Whether a row belongs to the side selected by `big`.
pub open spec fn keep(row: Seq<i64>, f: int, t: i64, big: bool) -> bool {
    (row[f] > t) == big
}

/// The rows of one side of the partition, in input order.
pub open spec fn rows_split(rows: Seq<Seq<i64>>, f: int, t: i64, big: bool) -> Seq<Seq<i64>>
    decreases rows.len(),
{
    if rows.len() == 0 {
        Seq::empty()
    } else {
        let rest = rows_split(rows.drop_last(), f, t, big);
        if keep(rows.last(), f, t, big) {
            rest.push(rows.last())
        } else {
            rest
        }
    }
}

/// The targets of one side of the partition, parallel to `rows_split`.
pub open spec fn tars_split(rows: Seq<Seq<i64>>, tars: Seq<i64>, f: int, t: i64, big: bool) -> Seq<
    i64,
>
    recommends
        tars.len() == rows.len(),
    decreases rows.len(),
{
    if rows.len() == 0 {
        Seq::empty()
    } else {
        let rest = tars_split(rows.drop_last(), tars.drop_last(), f, t, big);
        if keep(rows.last(), f, t, big) {
            rest.push(tars.last())
        } else {
            rest
        }
    }
}

/// Both sides keep parallel rows and targets of equal count.
pub proof fn lemma_split_parallel(rows: Seq<Seq<i64>>, tars: Seq<i64>, f: int, t: i64, big: bool)
    requires
        tars.len() == rows.len(),
    ensures
        tars_split(rows, tars, f, t, big).len() == rows_split(rows, f, t, big).len(),
    decreases rows.len(),
{
    if rows.len() == 0 {
    } else {
        lemma_split_parallel(rows.drop_last(), tars.drop_last(), f, t, big);
    }
}

/// The partition law: the two sides' sizes sum to the input size, together
/// they hold exactly the input rows (so they are disjoint as a partition of
/// the input), every row of the "bigger" side exceeds the threshold at the
/// split feature, and every row of the "smaller" side does not.
pub proof fn lemma_partition(rows: Seq<Seq<i64>>, f: int, t: i64)
    ensures
        rows_split(rows, f, t, true).len() + rows_split(rows, f, t, false).len() == rows.len(),
        rows_split(rows, f, t, true).to_multiset().add(rows_split(rows, f, t, false).to_multiset())
            == rows.to_multiset(),
        forall|k: int|
            0 <= k < rows_split(rows, f, t, true).len() ==> (#[trigger] rows_split(
                rows,
                f,
                t,
                true,
            )[k])[f] > t,
        forall|k: int|
            0 <= k < rows_split(rows, f, t, false).len() ==> (#[trigger] rows_split(
                rows,
                f,
                t,
                false,
            )[k])[f] <= t,
    decreases rows.len(),
{
    broadcast use vstd::seq_lib::group_to_multiset_ensures;

    if rows.len() == 0 {
        assert(rows_split(rows, f, t, true).to_multiset().add(
            rows_split(rows, f, t, false).to_multiset(),
        ) =~= rows.to_multiset());
    } else {
        let prefix = rows.drop_last();
        lemma_partition(prefix, f, t);
        assert(rows =~= prefix.push(rows.last()));
        assert(rows.to_multiset() == prefix.to_multiset().insert(rows.last()));
        let bp = rows_split(prefix, f, t, true);
        let sp = rows_split(prefix, f, t, false);
        if keep(rows.last(), f, t, true) {
            assert(rows_split(rows, f, t, true) == bp.push(rows.last()));
            assert(bp.push(rows.last()).to_multiset() == bp.to_multiset().insert(rows.last()));
            assert_multisets_equal!(
                bp.to_multiset().insert(rows.last()).add(sp.to_multiset()),
                prefix.to_multiset().insert(rows.last())
            );
        } else {
            assert(rows_split(rows, f, t, false) == sp.push(rows.last()));
            assert(sp.push(rows.last()).to_multiset() == sp.to_multiset().insert(rows.last()));
            assert_multisets_equal!(
                bp.to_multiset().add(sp.to_multiset().insert(rows.last())),
                prefix.to_multiset().insert(rows.last())
            );
        }
    }
}

/// Splitting preserves the width of every row.
pub proof fn lemma_rows_split_wf(rows: Seq<Seq<i64>>, f: int, t: i64, big: bool, w: nat)
    requires
        forall|i: int| 0 <= i < rows.len() ==> (#[trigger] rows[i]).len() == w,
    ensures
        forall|k: int|
            0 <= k < rows_split(rows, f, t, big).len() ==> (#[trigger] rows_split(
                rows,
                f,
                t,
                big,
            )[k]).len() == w,
    decreases rows.len(),
{
    if rows.len() == 0 {
    } else {
        assert forall|i: int|
            0 <= i < rows.drop_last().len() implies (#[trigger] rows.drop_last()[i]).len()
            == w by {
            assert(rows.drop_last()[i] == rows[i]);
        }
        lemma_rows_split_wf(rows.drop_last(), f, t, big, w);
        assert(rows[rows.len() - 1].len() == w);
        let res = rows_split(rows, f, t, big);
        let rest = rows_split(rows.drop_last(), f, t, big);
        assert forall|k: int| 0 <= k < res.len() implies (#[trigger] res[k]).len() == w by {
            if keep(rows.last(), f, t, big) {
                if k < rest.len() {
                    assert(res[k] == rest[k]);
                } else {
                    assert(res[k] == rows.last());
                }
            } else {
                assert(res[k] == rest[k]);
            }
        }
    }
}

/// An exact copy of one feature row.
pub(crate) fn copy_row(r: &Vec<i64>) -> (c: Vec<i64>)
    ensures
        c@ == r@,
{
    let mut c: Vec<i64> = Vec::new();
    let mut i: usize = 0;
    while i < r.len()
        invariant
            0 <= i <= r@.len(),
            c@ == r@.take(i as int),
        decreases r@.len() - i,
    {
        c.push(r[i]);
        assert(c@ =~= r@.take(i + 1));
        i += 1;
    }
    assert(c@ =~= r@);
    c
}

/// Splits the target values of one bin on a (feature, threshold) pair:
/// first the targets of rows strictly above the threshold, then the rest.
pub fn split_targets(b: &Bin, feature: usize, threshold: i64) -> (r: (Vec<i64>, Vec<i64>))
    requires
        b@.tars.len() == b@.rows.len(),
        forall|i: int| 0 <= i < b@.rows.len() ==> feature < (#[trigger] b@.rows[i]).len(),
    ensures
        r.0@ == tars_split(b@.rows, b@.tars, feature as int, threshold, true),
        r.1@ == tars_split(b@.rows, b@.tars, feature as int, threshold, false),
{
    let mut bigger: Vec<i64> = Vec::new();
    let mut smaller: Vec<i64> = Vec::new();
    let mut i: usize = 0;
    while i < b.rows.len()
        invariant
            0 <= i <= b@.rows.len(),
            b@.tars.len() == b@.rows.len(),
            forall|j: int| 0 <= j < b@.rows.len() ==> feature < (#[trigger] b@.rows[j]).len(),
            bigger@ == tars_split(
                b@.rows.take(i as int),
                b@.tars.take(i as int),
                feature as int,
                threshold,
                true,
            ),
            smaller@ == tars_split(
                b@.rows.take(i as int),
                b@.tars.take(i as int),
                feature as int,
                threshold,
                false,
            ),
        decreases b@.rows.len() - i,
    {
        proof {
            assert(b@.rows.take(i + 1).drop_last() =~= b@.rows.take(i as int));
            assert(b@.tars.take(i + 1).drop_last() =~= b@.tars.take(i as int));
            assert(b@.rows.take(i + 1).last() == b@.rows[i as int]);
            assert(b@.tars.take(i + 1).last() == b@.tars[i as int]);
            assert(b@.rows[i as int] == b.rows@[i as int]@);
        }
        if b.rows[i][feature] > threshold {
            bigger.push(b.targets[i]);
        } else {
            smaller.push(b.targets[i]);
        }
        i += 1;
    }
    proof {
        assert(b@.rows.take(i as int) =~= b@.rows);
        assert(b@.tars.take(i as int) =~= b@.tars);
    }
    (bigger, smaller)
}

/// Splits the feature rows of one bin on a (feature, threshold) pair.
pub fn split_features(b: &Bin, feature: usize, threshold: i64) -> (r: (Vec<Vec<i64>>, Vec<Vec<
    i64,
>>))
    requires
        forall|i: int| 0 <= i < b@.rows.len() ==> feature < (#[trigger] b@.rows[i]).len(),
    ensures
        r.0.deep_view() == rows_split(b@.rows, feature as int, threshold, true),
        r.1.deep_view() == rows_split(b@.rows, feature as int, threshold, false),
{
    let mut bigger: Vec<Vec<i64>> = Vec::new();
    let mut smaller: Vec<Vec<i64>> = Vec::new();
    let mut i: usize = 0;
    while i < b.rows.len()
        invariant
            0 <= i <= b@.rows.len(),
            forall|j: int| 0 <= j < b@.rows.len() ==> feature < (#[trigger] b@.rows[j]).len(),
            bigger.deep_view() == rows_split(
                b@.rows.take(i as int),
                feature as int,
                threshold,
                true,
            ),
            smaller.deep_view() == rows_split(
                b@.rows.take(i as int),
                feature as int,
                threshold,
                false,
            ),
        decreases b@.rows.len() - i,
    {
        proof {
            assert(b@.rows.take(i + 1).drop_last() =~= b@.rows.take(i as int));
            assert(b@.rows.take(i + 1).last() == b@.rows[i as int]);
            assert(b@.rows[i as int] == b.rows@[i as int]@);
        }
        let row = copy_row(&b.rows[i]);
        if b.rows[i][feature] > threshold {
            bigger.push(row);
            assert(bigger.deep_view() =~= rows_split(
                b@.rows.take(i + 1),
                feature as int,
                threshold,
                true,
            ));
        } else {
            smaller.push(row);
            assert(smaller.deep_view() =~= rows_split(
                b@.rows.take(i + 1),
                feature as int,
                threshold,
                false,
            ));
        }
        i += 1;
    }
    proof {
        assert(b@.rows.take(i as int) =~= b@.rows);
    }
    (bigger, smaller)
}

/// Partitions one bin into its "bigger" and "smaller" sub-bins.
pub fn split_bin(b: &Bin, feature: usize, threshold: i64) -> (r: (Bin, Bin))
    requires
        b@.tars.len() == b@.rows.len(),
        forall|i: int| 0 <= i < b@.rows.len() ==> feature < (#[trigger] b@.rows[i]).len(),
    ensures
        r.0@.rows == rows_split(b@.rows, feature as int, threshold, true),
        r.0@.tars == tars_split(b@.rows, b@.tars, feature as int, threshold, true),
        r.1@.rows == rows_split(b@.rows, feature as int, threshold, false),
        r.1@.tars == tars_split(b@.rows, b@.tars, feature as int, threshold, false),
{
    let (rows_b, rows_s) = split_features(b, feature, threshold);
    let (tars_b, tars_s) = split_targets(b, feature, threshold);
    (Bin { rows: rows_b, targets: tars_b }, Bin { rows: rows_s, targets: tars_s })
}

} // verus!
