//! Split scorer: the quality of a partition into target bins is the exact
//! rational `sum over bins of (bin sum)^2 / bin size`. A partition with an
//! empty bin (a division by zero) scores zero. The fraction is kept
//! unreduced: its denominator is the product of the bin sizes.

use vstd::prelude::*;
use crate::data::TreeError;

verus! {

/// An exact rational split score. Every computed score is non-negative with
/// a positive denominator; the search sentinel is `-1/1`.
#[derive(Clone, Copy, Debug, PartialEq, Eq, Structural)]
pub struct Score {
    pub num: i64,
    pub den: i64,
}

impl View for Score {
    type V = (int, int);

    open spec fn view(&self) -> (int, int) {
        (self.num as int, self.den as int)
    }
}

/// Sum of a sequence of target values.
pub open spec fn sum_seq(s: Seq<i64>) -> int
    decreases s.len(),
{
    if s.len() == 0 {
        0
    } else {
        sum_seq(s.drop_last()) + s.last()
    }
}

pub open spec fn has_empty(bins: Seq<Seq<i64>>) -> bool {
    exists|i: int| 0 <= i < bins.len() && (#[trigger] bins[i]).len() == 0
}

/// Denominator of the unreduced score fraction: the product of bin sizes.
pub open spec fn score_den(bins: Seq<Seq<i64>>) -> int
    decreases bins.len(),
{
    if bins.len() == 0 {
        1
    } else {
        score_den(bins.drop_last()) * bins.last().len()
    }
}

/// Numerator of the unreduced score fraction.
pub open spec fn score_num(bins: Seq<Seq<i64>>) -> int
    decreases bins.len(),
{
    if bins.len() == 0 {
        0
    } else {
        score_num(bins.drop_last()) * bins.last().len() + sum_seq(bins.last()) * sum_seq(
            bins.last(),
        ) * score_den(bins.drop_last())
    }
}

/// The score of a collection of target bins, as an exact fraction.
pub open spec fn score_of(bins: Seq<Seq<i64>>) -> (int, int) {
    if has_empty(bins) {
        (0, 1)
    } else {
        (score_num(bins), score_den(bins))
    }
}

/// Whether the exact score fits the machine representation.
pub open spec fn score_fits(bins: Seq<Seq<i64>>) -> bool {
    has_empty(bins) || (score_num(bins) <= i64::MAX && score_den(bins) <= i64::MAX)
}

pub proof fn lemma_mul_le(a: int, b: int, x: int, y: int)
    by (nonlinear_arith)
    requires
        0 <= a <= x,
        0 <= b <= y,
    ensures
        a * b <= x * y,
{
}

/// The sum of `n` machine integers is bounded by `n * 2^63` in magnitude.
pub proof fn lemma_sum_bound(s: Seq<i64>)
    ensures
        -(s.len() * 0x8000_0000_0000_0000) <= sum_seq(s) <= s.len() * 0x8000_0000_0000_0000,
    decreases s.len(),
{
    if s.len() == 0 {
    } else {
        lemma_sum_bound(s.drop_last());
        assert((s.len() - 1) * 0x8000_0000_0000_0000 + 0x8000_0000_0000_0000 == s.len()
            * 0x8000_0000_0000_0000) by (nonlinear_arith);
    }
}

/// Without empty bins the denominator is positive and the numerator
/// non-negative.
pub proof fn lemma_score_pos(bins: Seq<Seq<i64>>)
    requires
        !has_empty(bins),
    ensures
        score_den(bins) >= 1,
        score_num(bins) >= 0,
    decreases bins.len(),
{
    if bins.len() == 0 {
    } else {
        let prefix = bins.drop_last();
        assert(!has_empty(prefix)) by {
            if has_empty(prefix) {
                let i = choose|i: int| 0 <= i < prefix.len() && (#[trigger] prefix[i]).len() == 0;
                assert(bins[i].len() == 0);
            }
        }
        lemma_score_pos(prefix);
        let n = bins.last().len() as int;
        assert(bins[bins.len() - 1].len() != 0);
        let s = sum_seq(bins.last());
        assert(score_den(prefix) * n >= 1) by (nonlinear_arith)
            requires
                score_den(prefix) >= 1,
                n >= 1,
        ;
        assert(score_num(prefix) * n >= 0 && s * s * score_den(prefix) >= 0) by (nonlinear_arith)
            requires
                score_num(prefix) >= 0,
                score_den(prefix) >= 1,
                n >= 1,
        ;
    }
}

/// Extending a prefix of bins by one bin does not decrease numerator or
/// denominator.
proof fn lemma_score_step_le(bins: Seq<Seq<i64>>, j: int)
    requires
        !has_empty(bins),
        0 <= j < bins.len(),
    ensures
        score_num(bins.take(j)) <= score_num(bins.take(j + 1)),
        score_den(bins.take(j)) <= score_den(bins.take(j + 1)),
{
    let p = bins.take(j);
    let q = bins.take(j + 1);
    assert(q.drop_last() =~= p);
    assert(q.last() == bins[j]);
    assert(!has_empty(p)) by {
        if has_empty(p) {
            let i = choose|i: int| 0 <= i < p.len() && (#[trigger] p[i]).len() == 0;
            assert(bins[i].len() == 0);
        }
    }
    lemma_score_pos(p);
    let n = bins[j].len() as int;
    assert(bins[j].len() != 0);
    let s = sum_seq(bins[j]);
    assert(score_num(p) * n + s * s * score_den(p) >= score_num(p)) by (nonlinear_arith)
        requires
            score_num(p) >= 0,
            score_den(p) >= 1,
            n >= 1,
    ;
    assert(score_den(p) * n >= score_den(p)) by (nonlinear_arith)
        requires
            score_den(p) >= 1,
            n >= 1,
    ;
}

/// Any prefix of the bins yields a numerator and denominator no larger than
/// the whole collection's.
pub proof fn lemma_score_prefix_le(bins: Seq<Seq<i64>>, k: int)
    requires
        !has_empty(bins),
        0 <= k <= bins.len(),
    ensures
        score_num(bins.take(k)) <= score_num(bins),
        score_den(bins.take(k)) <= score_den(bins),
    decreases bins.len() - k,
{
    if k == bins.len() {
        assert(bins.take(k) =~= bins);
    } else {
        lemma_score_step_le(bins, k);
        lemma_score_prefix_le(bins, k + 1);
    }
}

/// The whole numerator is at least the squared sum of any single bin.
pub proof fn lemma_score_term_lower(bins: Seq<Seq<i64>>, j: int)
    requires
        !has_empty(bins),
        0 <= j < bins.len(),
    ensures
        score_num(bins) >= sum_seq(bins[j]) * sum_seq(bins[j]),
{
    let q = bins.take(j + 1);
    let p = bins.take(j);
    assert(q.drop_last() =~= p);
    assert(q.last() == bins[j]);
    assert(!has_empty(p)) by {
        if has_empty(p) {
            let i = choose|i: int| 0 <= i < p.len() && (#[trigger] p[i]).len() == 0;
            assert(bins[i].len() == 0);
        }
    }
    lemma_score_pos(p);
    let n = bins[j].len() as int;
    assert(bins[j].len() != 0);
    let s = sum_seq(bins[j]);
    assert(score_num(p) * n + s * s * score_den(p) >= s * s) by (nonlinear_arith)
        requires
            score_num(p) >= 0,
            score_den(p) >= 1,
            n >= 1,
    ;
    lemma_score_prefix_le(bins, j + 1);
}

/// The split score is always a well-defined rational with a positive
/// denominator (there is no undefined, not-a-number outcome), and when every
/// bin is empty the score is exactly zero.
pub proof fn lemma_score_defined(bins: Seq<Seq<i64>>)
    ensures
        score_of(bins).1 >= 1,
        score_of(bins).0 >= 0,
        (forall|i: int| 0 <= i < bins.len() ==> (#[trigger] bins[i]).len() == 0) ==> score_of(bins)
            == (0int, 1int),
{
    if has_empty(bins) {
    } else {
        lemma_score_pos(bins);
        if forall|i: int| 0 <= i < bins.len() ==> (#[trigger] bins[i]).len() == 0 {
            assert(bins.len() == 0);
        }
    }
}

/// Sum of the target values of one bin, exact in 128-bit arithmetic.
pub fn sum_targets(list: &Vec<i64>) -> (s: i128)
    ensures
        s == sum_seq(list@),
{
    let mut s: i128 = 0;
    let mut i: usize = 0;
    while i < list.len()
        invariant
            0 <= i <= list@.len(),
            s == sum_seq(list@.take(i as int)),
            -((i as int) * 0x8000_0000_0000_0000) <= s <= (i as int) * 0x8000_0000_0000_0000,
        decreases list@.len() - i,
    {
        proof {
            assert(list@.take(i + 1).drop_last() =~= list@.take(i as int));
            lemma_sum_bound(list@.take(i as int));
            assert((i as int) * 0x8000_0000_0000_0000 + 0x8000_0000_0000_0000 == (i + 1)
                * 0x8000_0000_0000_0000) by (nonlinear_arith);
            assert((i + 1) * 0x8000_0000_0000_0000 <= 0xFFFF_FFFF_FFFF_FFFF
                * 0x8000_0000_0000_0000) by (nonlinear_arith)
                requires
                    i + 1 <= 0xFFFF_FFFF_FFFF_FFFF,
            ;
        }
        s = s + (list[i] as i128);
        i += 1;
    }
    proof {
        assert(list@.take(i as int) =~= list@);
    }
    s
}

/// Scores a collection of target bins. Returns the exact unreduced fraction,
/// zero when some bin is empty, and reports overflow exactly when the exact
/// numerator or denominator of a fully non-empty collection exceeds the
/// machine range.
pub fn score_bins(bins: &Vec<Vec<i64>>) -> (r: Result<Score, TreeError>)
    ensures
        r is Ok <==> score_fits(bins.deep_view()),
        r matches Ok(sc) ==> sc@ == score_of(bins.deep_view()) && sc.den >= 1,
        r is Err ==> r == Err::<Score, TreeError>(TreeError::ScoreOverflow),
{
    let ghost dv = bins.deep_view();
    let mut i: usize = 0;
    while i < bins.len()
        invariant
            0 <= i <= bins@.len(),
            dv == bins.deep_view(),
            forall|j: int| 0 <= j < i ==> (#[trigger] dv[j]).len() != 0,
        decreases bins@.len() - i,
    {
        if bins[i].len() == 0 {
            assert(dv[i as int].len() == 0);
            return Ok(Score { num: 0, den: 1 });
        }
        i += 1;
    }
    assert(!has_empty(dv));
    let mut num: u128 = 0;
    let mut den: u128 = 1;
    i = 0;
    while i < bins.len()
        invariant
            0 <= i <= bins@.len(),
            dv == bins.deep_view(),
            !has_empty(dv),
            num == score_num(dv.take(i as int)),
            den == score_den(dv.take(i as int)),
            num <= i64::MAX,
            1 <= den <= i64::MAX,
        decreases bins@.len() - i,
    {
        let s: i128 = sum_targets(&bins[i]);
        let n: usize = bins[i].len();
        proof {
            assert(dv[i as int] == bins@[i as int]@);
            assert(dv[i as int].len() != 0);
            lemma_sum_bound(bins@[i as int]@);
            assert((bins@[i as int]@.len() as int) * 0x8000_0000_0000_0000 <= 0xFFFF_FFFF_FFFF_FFFF
                * 0x8000_0000_0000_0000) by (nonlinear_arith)
                requires
                    bins@[i as int]@.len() <= 0xFFFF_FFFF_FFFF_FFFF,
            ;
        }
        let s_abs: u128 = if s >= 0 {
            s as u128
        } else {
            (-s) as u128
        };
        proof {
            assert((s as int) * (s as int) == (s_abs as int) * (s_abs as int)) by (nonlinear_arith)
                requires
                    s_abs == (if s >= 0 { s as int } else { -(s as int) }),
            ;
        }
        if s_abs > 3037000499 {
            proof {
                assert((s_abs as int) * (s_abs as int) > i64::MAX as int) by (nonlinear_arith)
                    requires
                        s_abs >= 3037000500,
                ;
                lemma_score_term_lower(dv, i as int);
            }
            return Err(TreeError::ScoreOverflow);
        }
        proof {
            assert((s_abs as int) * (s_abs as int) <= 3037000499 * 3037000499) by (nonlinear_arith)
                requires
                    s_abs <= 3037000499,
            ;
        }
        let sq: u128 = s_abs * s_abs;
        proof {
            assert(sq <= i64::MAX as u128) by (nonlinear_arith)
                requires
                    sq == s_abs * s_abs,
                    s_abs <= 3037000499,
            ;
            lemma_mul_le(num as int, n as int, i64::MAX as int, 0xFFFF_FFFF_FFFF_FFFF);
            lemma_mul_le(sq as int, den as int, i64::MAX as int, i64::MAX as int);
            assert(i64::MAX * 0xFFFF_FFFF_FFFF_FFFF + i64::MAX * (i64::MAX as int)
                < 0xFFFF_FFFF_FFFF_FFFF_FFFF_FFFF_FFFF_FFFF);
            lemma_mul_le(den as int, n as int, i64::MAX as int, 0xFFFF_FFFF_FFFF_FFFF);
        }
        let nn: u128 = num * (n as u128) + sq * den;
        let nd: u128 = den * (n as u128);
        proof {
            assert(dv.take(i + 1).drop_last() =~= dv.take(i as int));
            assert(dv.take(i + 1).last() == dv[i as int]);
            assert(sum_seq(dv[i as int]) == s);
            assert(nn == score_num(dv.take(i + 1)) && nd == score_den(dv.take(i + 1)));
            assert(!has_empty(dv.take(i + 1))) by {
                if has_empty(dv.take(i + 1)) {
                    let k = choose|k: int|
                        0 <= k < dv.take(i + 1).len() && (#[trigger] dv.take(i + 1)[k]).len() == 0;
                    assert(dv[k].len() == 0);
                }
            }
            lemma_score_pos(dv.take(i + 1));
        }
        if nn > (i64::MAX as u128) || nd > (i64::MAX as u128) {
            proof {
                lemma_score_prefix_le(dv, i + 1);
            }
            return Err(TreeError::ScoreOverflow);
        }
        num = nn;
        den = nd;
        i += 1;
    }
    proof {
        assert(dv.take(i as int) =~= dv);
    }
    Ok(Score { num: num as i64, den: den as i64 })
}

/// The exact mean of a non-empty list of targets, as the pair (sum, count);
/// an empty list has no mean.
pub fn mean(list: &Vec<i64>) -> (r: Option<(i128, usize)>)
    ensures
        list@.len() == 0 ==> r is None,
        list@.len() > 0 ==> (r matches Some((s, n)) && s == sum_seq(list@) && n == list@.len()),
{
    if list.len() == 0 {
        None
    } else {
        Some((sum_targets(list), list.len()))
    }
}

} // verus!
