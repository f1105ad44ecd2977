//! Threshold generator: from one feature column, the ordered distinct values
//! are computed and an evenly strided subset of them (skipping the column
//! minimum) becomes the candidate split thresholds for that feature.

use vstd::prelude::*;
use vstd::arithmetic::div_mod::lemma_fundamental_div_mod_converse;

verus! {

pub open spec fn strictly_increasing(s: Seq<i64>) -> bool {
    forall|i: int, j: int| 0 <= i < j < s.len() ==> s[i] < s[j]
}

/// `x` inserted into the ascending sequence `s`; a value already present is
/// not duplicated.
pub open spec fn insert_asc(s: Seq<i64>, x: i64) -> Seq<i64>
    decreases s.len(),
{
    if s.len() == 0 {
        seq![x]
    } else if x < s[0] {
        seq![x] + s
    } else if x == s[0] {
        s
    } else {
        seq![s[0]] + insert_asc(s.drop_first(), x)
    }
}

/// The distinct values of `col`, in ascending order.
pub open spec fn asc_distinct(col: Seq<i64>) -> Seq<i64>
    decreases col.len(),
{
    if col.len() == 0 {
        Seq::empty()
    } else {
        insert_asc(asc_distinct(col.drop_last()), col.last())
    }
}

pub proof fn lemma_insert_asc(s: Seq<i64>, x: i64)
    requires
        strictly_increasing(s),
    ensures
        strictly_increasing(insert_asc(s, x)),
        forall|v: i64| insert_asc(s, x).contains(v) <==> (s.contains(v) || v == x),
        insert_asc(s, x).contains(x),
        insert_asc(s, x).len() >= 1,
    decreases s.len(),
{
    let r = insert_asc(s, x);
    if s.len() == 0 {
        assert forall|v: i64| r.contains(v) implies (s.contains(v) || v == x) by {
            let i = choose|i: int| 0 <= i < r.len() && r[i] == v;
            assert(r[0] == x);
        }
        assert(r[0] == x);
        assert(r.contains(x));
    } else if x < s[0] {
        assert(r == seq![x] + s);
        assert forall|i: int, j: int| 0 <= i < j < r.len() implies r[i] < r[j] by {
            if i == 0 {
                assert(r[j] == s[j - 1]);
                if j > 1 {
                    assert(s[0] < s[j - 1]);
                }
            } else {
                assert(r[i] == s[i - 1] && r[j] == s[j - 1]);
            }
        }
        assert forall|v: i64| r.contains(v) implies (s.contains(v) || v == x) by {
            let i = choose|i: int| 0 <= i < r.len() && r[i] == v;
            if i > 0 {
                assert(s[i - 1] == v);
            }
        }
        assert forall|v: i64| (s.contains(v) || v == x) implies r.contains(v) by {
            if s.contains(v) {
                let i = choose|i: int| 0 <= i < s.len() && s[i] == v;
                assert(r[i + 1] == v);
            } else {
                assert(r[0] == v);
            }
        }
    } else if x == s[0] {
        assert(r == s);
        assert(s[0] == x);
    } else {
        let tail = s.drop_first();
        assert forall|i: int, j: int| 0 <= i < j < tail.len() implies tail[i] < tail[j] by {
            assert(tail[i] == s[i + 1] && tail[j] == s[j + 1]);
        }
        lemma_insert_asc(tail, x);
        let rt = insert_asc(tail, x);
        assert(r == seq![s[0]] + rt);
        assert forall|k: int| 0 <= k < rt.len() implies s[0] < rt[k] by {
            assert(rt.contains(rt[k]));
            if tail.contains(rt[k]) {
                let i = choose|i: int| 0 <= i < tail.len() && tail[i] == rt[k];
                assert(tail[i] == s[i + 1]);
                assert(s[0] < s[i + 1]);
            }
        }
        assert forall|i: int, j: int| 0 <= i < j < r.len() implies r[i] < r[j] by {
            if i == 0 {
                assert(r[j] == rt[j - 1]);
            } else {
                assert(r[i] == rt[i - 1] && r[j] == rt[j - 1]);
            }
        }
        assert forall|v: i64| r.contains(v) implies (s.contains(v) || v == x) by {
            lemma_insert_asc(tail, x);
            let i = choose|i: int| 0 <= i < r.len() && r[i] == v;
            if i == 0 {
                assert(s[0] == v);
            } else {
                assert(rt[i - 1] == v);
                assert(rt.contains(v));
                if tail.contains(v) {
                    let k = choose|k: int| 0 <= k < tail.len() && tail[k] == v;
                    assert(s[k + 1] == v);
                }
            }
        }
        assert forall|v: i64| (s.contains(v) || v == x) implies r.contains(v) by {
            lemma_insert_asc(s.drop_first(), x);
            if s.contains(v) && v != s[0] {
                let i = choose|i: int| 0 <= i < s.len() && s[i] == v;
                assert(s.drop_first()[i - 1] == v);
                assert(s.drop_first().contains(v));
                assert(insert_asc(s.drop_first(), x).contains(v));
                let k = choose|k: int| 0 <= k < rt.len() && rt[k] == v;
                assert(r[k + 1] == v);
            } else if v == x {
                assert(insert_asc(s.drop_first(), x).contains(x));
                let k = choose|k: int| 0 <= k < rt.len() && rt[k] == v;
                assert(r[k + 1] == v);
            } else {
                assert(r[0] == v);
            }
        }
        assert(r.contains(x)) by {
            lemma_insert_asc(s.drop_first(), x);
            let k = choose|k: int| 0 <= k < rt.len() && rt[k] == x;
            assert(r[k + 1] == x);
        }
    }
}

pub proof fn lemma_asc_distinct(col: Seq<i64>)
    ensures
        strictly_increasing(asc_distinct(col)),
        forall|v: i64| asc_distinct(col).contains(v) <==> col.contains(v),
        col.len() > 0 ==> asc_distinct(col).len() >= 1,
    decreases col.len(),
{
    if col.len() == 0 {
    } else {
        let prefix = col.drop_last();
        lemma_asc_distinct(prefix);
        lemma_insert_asc(asc_distinct(prefix), col.last());
        assert forall|v: i64| asc_distinct(col).contains(v) implies col.contains(v) by {
            if prefix.contains(v) {
                let i = choose|i: int| 0 <= i < prefix.len() && prefix[i] == v;
                assert(col[i] == v);
            } else {
                assert(col[col.len() - 1] == v);
            }
        }
        assert forall|v: i64| col.contains(v) implies asc_distinct(col).contains(v) by {
            lemma_asc_distinct(prefix);
            lemma_insert_asc(asc_distinct(prefix), col.last());
            let i = choose|i: int| 0 <= i < col.len() && col[i] == v;
            if i < col.len() - 1 {
                assert(prefix[i] == v);
                assert(prefix.contains(v));
            } else {
                assert(col.last() == v);
            }
        }
    }
}

/// Two ascending sequences holding the same values are the same sequence.
pub proof fn lemma_asc_unique(a: Seq<i64>, b: Seq<i64>)
    requires
        strictly_increasing(a),
        strictly_increasing(b),
        forall|v: i64| a.contains(v) <==> b.contains(v),
    ensures
        a == b,
    decreases a.len(),
{
    if a.len() == 0 {
        if b.len() > 0 {
            assert(b.contains(b[0]));
        }
        assert(a =~= b);
    } else {
        assert(a.contains(a[0]));
        assert(b.contains(a[0]));
        let j = choose|j: int| 0 <= j < b.len() && b[j] == a[0];
        assert(b[0] <= a[0]) by {
            if j > 0 {
                assert(b[0] < b[j]);
            }
        }
        assert(a.contains(b[0])) by {
            assert(b.contains(b[0]));
        }
        let i = choose|i: int| 0 <= i < a.len() && a[i] == b[0];
        assert(a[0] <= b[0]) by {
            if i > 0 {
                assert(a[0] < a[i]);
            }
        }
        assert(a[0] == b[0]);
        let ta = a.drop_first();
        let tb = b.drop_first();
        assert forall|p: int, q: int| 0 <= p < q < ta.len() implies ta[p] < ta[q] by {
            assert(ta[p] == a[p + 1] && ta[q] == a[q + 1]);
        }
        assert forall|p: int, q: int| 0 <= p < q < tb.len() implies tb[p] < tb[q] by {
            assert(tb[p] == b[p + 1] && tb[q] == b[q + 1]);
        }
        assert forall|v: i64| ta.contains(v) implies tb.contains(v) by {
            let p = choose|p: int| 0 <= p < ta.len() && ta[p] == v;
            assert(a[p + 1] == v);
            assert(a.contains(v));
            assert(b.contains(v));
            let q = choose|q: int| 0 <= q < b.len() && b[q] == v;
            assert(a[0] < v);
            if q == 0 {
                assert(b[0] == v);
            }
            assert(tb[q - 1] == v);
        }
        assert forall|v: i64| tb.contains(v) implies ta.contains(v) by {
            let p = choose|p: int| 0 <= p < tb.len() && tb[p] == v;
            assert(b[p + 1] == v);
            assert(b.contains(v));
            assert(a.contains(v));
            let q = choose|q: int| 0 <= q < a.len() && a[q] == v;
            assert(b[0] < v);
            if q == 0 {
                assert(a[0] == v);
            }
            assert(ta[q - 1] == v);
        }
        lemma_asc_unique(ta, tb);
        assert(a =~= b) by {
            assert(a.len() == b.len());
            assert forall|k: int| 0 <= k < a.len() implies a[k] == b[k] by {
                if k > 0 {
                    assert(a[k] == ta[k - 1] && b[k] == tb[k - 1]);
                }
            }
        }
    }
}

/// The ordered distinct values of a column, by insertion into a kept-sorted
/// vector.
pub fn distinct_sorted(col: &Vec<i64>) -> (r: Vec<i64>)
    ensures
        r@ == asc_distinct(col@),
{
    let mut u: Vec<i64> = Vec::new();
    let mut i: usize = 0;
    while i < col.len()
        invariant
            0 <= i <= col@.len(),
            strictly_increasing(u@),
            forall|v: i64| u@.contains(v) <==> col@.take(i as int).contains(v),
        decreases col@.len() - i,
    {
        let x = col[i];
        let ghost prev = u@;
        let mut j: usize = 0;
        while j < u.len() && u[j] < x
            invariant
                0 <= j <= u@.len(),
                forall|k: int| 0 <= k < j ==> u@[k] < x,
                u@ == prev,
            decreases u@.len() - j,
        {
            j += 1;
        }
        if j == u.len() || u[j] > x {
            u.insert(j, x);
            assert forall|p: int, q: int| 0 <= p < q < u@.len() implies u@[p] < u@[q] by {
                assert(u@ == prev.insert(j as int, x));
                prev.insert_ensures(j as int, x);
                if q < j {
                    assert(u@[p] == prev[p] && u@[q] == prev[q]);
                } else if p > j {
                    assert(u@[p] == prev[p - 1] && u@[q] == prev[q - 1]);
                } else if p < j && q == j {
                    assert(u@[p] == prev[p]);
                } else if p == j && q > j {
                    assert(u@[q] == prev[q - 1]);
                    assert(j < prev.len() ==> x < prev[j as int]);
                    assert(j <= q - 1 < prev.len());
                    assert(j < q - 1 ==> prev[j as int] < prev[q - 1]);
                } else {
                    assert(p < j && q > j);
                    assert(u@[p] == prev[p] && u@[q] == prev[q - 1]);
                    assert(j <= q - 1 < prev.len());
                    assert(prev[p] < x);
                    assert(j < prev.len() ==> x < prev[j as int]);
                    assert(j < q - 1 ==> prev[j as int] < prev[q - 1]);
                }
            }
            assert forall|v: i64| u@.contains(v) <==> col@.take(i + 1).contains(v) by {
                assert(col@.take(i + 1) =~= col@.take(i as int).push(col@[i as int]));
                assert(u@ == prev.insert(j as int, x));
                prev.insert_ensures(j as int, x);
                if u@.contains(v) {
                    let k = choose|k: int| 0 <= k < u@.len() && u@[k] == v;
                    if k < j {
                        assert(prev[k] == v);
                        assert(prev.contains(v));
                    } else if k > j {
                        assert(prev[k - 1] == v);
                        assert(prev.contains(v));
                    }
                    if prev.contains(v) {
                        assert(col@.take(i as int).contains(v));
                        let s0 = col@.take(i as int);
                        let t = choose|t: int| 0 <= t < s0.len() && #[trigger] s0[t] == v;
                        assert(col@.take(i + 1)[t] == v);
                    } else {
                        assert(v == x);
                        assert(col@.take(i + 1)[i as int] == v);
                    }
                    assert(col@.take(i + 1).contains(v));
                }
                if col@.take(i + 1).contains(v) {
                    let s1 = col@.take(i + 1);
                    let t = choose|t: int| 0 <= t < s1.len() && #[trigger] s1[t] == v;
                    if t < i {
                        assert(col@.take(i as int)[t] == v);
                        assert(col@.take(i as int).contains(v));
                        assert(prev.contains(v));
                        let k = choose|k: int| 0 <= k < prev.len() && prev[k] == v;
                        if k < j {
                            assert(u@[k] == v);
                        } else {
                            assert(u@[k + 1] == v);
                        }
                    } else {
                        assert(v == x);
                        assert(u@[j as int] == v);
                    }
                    assert(u@.contains(v));
                }
            }
        } else {
            assert(u@[j as int] == x);
            assert(u@.contains(x));
            assert forall|v: i64| u@.contains(v) <==> col@.take(i + 1).contains(v) by {
                assert(col@.take(i + 1) =~= col@.take(i as int).push(col@[i as int]));
                if u@.contains(v) {
                    assert(col@.take(i as int).contains(v));
                    let s0 = col@.take(i as int);
                    let t = choose|t: int| 0 <= t < s0.len() && #[trigger] s0[t] == v;
                    assert(col@.take(i + 1)[t] == v);
                    assert(col@.take(i + 1).contains(v));
                }
                if col@.take(i + 1).contains(v) {
                    let s1 = col@.take(i + 1);
                    let t = choose|t: int| 0 <= t < s1.len() && #[trigger] s1[t] == v;
                    if t < i {
                        assert(col@.take(i as int)[t] == v);
                        assert(col@.take(i as int).contains(v));
                    } else {
                        assert(v == x);
                    }
                    assert(u@.contains(v));
                }
            }
        }
        i += 1;
    }
    proof {
        assert(col@.take(i as int) =~= col@);
        lemma_asc_distinct(col@);
        lemma_asc_unique(u@, asc_distinct(col@));
    }
    u
}

/// The stride used to subsample the distinct values: one when there are
/// fewer than `g + 1` of them, else the integer quotient.
pub open spec fn mod_used(ulen: nat, g: u32) -> int {
    if ulen < g + 1 {
        1
    } else {
        ulen as int / (g + 1)
    }
}

/// Every `m`-th distinct value by position, the first selected one (the
/// column minimum, position 0) dropped.
pub open spec fn stride_of(u: Seq<i64>, g: u32) -> Seq<i64> {
    if u.len() == 0 {
        Seq::empty()
    } else {
        let m = mod_used(u.len(), g);
        Seq::new((((u.len() - 1) as int / m) as nat), |k: int| u[m * (k + 1)])
    }
}

/// The candidate thresholds of one feature column under granularity `g`.
pub open spec fn thresholds_spec(col: Seq<i64>, g: u32) -> Seq<i64> {
    stride_of(asc_distinct(col), g)
}

/// Computes the candidate thresholds of one column: sort, deduplicate, then
/// take every `mod_used`-th distinct value, skipping the minimum.
pub fn create_thresholds(col: &Vec<i64>, granularity: u32) -> (r: Vec<i64>)
    ensures
        r@ == thresholds_spec(col@, granularity),
{
    let u = distinct_sorted(col);
    if u.len() == 0 {
        let r: Vec<i64> = Vec::new();
        assert(r@ =~= thresholds_spec(col@, granularity));
        return r;
    }
    let m: usize = if (u.len() as u64) < (granularity as u64) + 1 {
        1
    } else {
        u.len() / ((granularity as usize) + 1)
    };
    proof {
        assert(m == mod_used(u@.len(), granularity));
        if u@.len() >= granularity + 1 {
            let g1 = (granularity + 1) as int;
            vstd::arithmetic::div_mod::lemma_div_is_ordered(g1, u@.len() as int, g1);
            vstd::arithmetic::div_mod::lemma_div_by_self(g1);
            vstd::arithmetic::div_mod::lemma_div_basics_5(u@.len() as int, g1);
            assert(1 <= m <= u@.len());
        }
    }
    let mut r: Vec<i64> = Vec::new();
    let mut i: usize = m;
    proof {
        assert(m * 1int == m) by (nonlinear_arith);
        assert(m * 0int == 0) by (nonlinear_arith);
    }
    while i < u.len()
        invariant
            1 <= m <= u@.len(),
            forall|k: int| 0 <= k < r@.len() ==> r@[k] == u@[m * (k + 1)],
            i == m * (r@.len() + 1) || (i == u@.len() && m * (r@.len() + 1) >= u@.len()),
            m * r@.len() <= u@.len() - 1,
        decreases u@.len() - i,
    {
        assert(i == m * (r@.len() + 1));
        let ghost n = r@.len() as int;
        r.push(u[i]);
        proof {
            assert(m * (n + 2) == m * (n + 1) + m) by (nonlinear_arith);
            assert(r@.len() == n + 1);
        }
        if m < u.len() - i {
            i += m;
        } else {
            i = u.len();
        }
    }
    proof {
        let k = r@.len() as int;
        let len = u@.len() as int;
        assert(m * (k + 1) >= len);
        assert(m * k <= len - 1);
        assert(m * (k + 1) == m * k + m) by (nonlinear_arith);
        lemma_fundamental_div_mod_converse(len - 1, m as int, k, len - 1 - m * k);
        assert(k == (len - 1) / (m as int));
        assert(r@ =~= stride_of(u@, granularity));
    }
    r
}

/// The properties the threshold generator guarantees for any non-empty
/// column: its output is strictly increasing, every element is a value of
/// the column, and every element exceeds the column minimum (so the minimum
/// never appears).
pub proof fn lemma_thresholds_sound(col: Seq<i64>, g: u32)
    requires
        col.len() > 0,
        g >= 1,
    ensures
        strictly_increasing(thresholds_spec(col, g)),
        forall|k: int|
            0 <= k < thresholds_spec(col, g).len() ==> col.contains(
                #[trigger] thresholds_spec(col, g)[k],
            ),
        col.contains(asc_distinct(col)[0]),
        forall|j: int| 0 <= j < col.len() ==> asc_distinct(col)[0] <= #[trigger] col[j],
        forall|k: int|
            0 <= k < thresholds_spec(col, g).len() ==> #[trigger] thresholds_spec(col, g)[k]
                > asc_distinct(col)[0],
{
    lemma_asc_distinct(col);
    let u = asc_distinct(col);
    let thr = thresholds_spec(col, g);
    let m = mod_used(u.len(), g);
    assert(m >= 1) by {
        if u.len() >= g + 1 {
            assert(u.len() as int / (g + 1) as int >= 1) by (nonlinear_arith)
                requires
                    u.len() >= g + 1,
                    g + 1 >= 1,
            ;
        }
    }
    let len = u.len() as int;
    let cnt = (len - 1) / m;
    assert(m * cnt <= len - 1 && 0 <= cnt) by {
        vstd::arithmetic::div_mod::lemma_fundamental_div_mod(len - 1, m);
        assert(m * ((len - 1) / m) == (len - 1) - (len - 1) % m);
        vstd::arithmetic::div_mod::lemma_mod_bound(len - 1, m);
        vstd::arithmetic::div_mod::lemma_div_pos_is_pos(len - 1, m);
    }
    assert(thr.len() == cnt);
    assert forall|k: int| 0 <= k < cnt implies 1 <= #[trigger] (m * (k + 1)) <= len - 1 by {
        assert(m * (k + 1) <= m * cnt) by (nonlinear_arith)
            requires
                k + 1 <= cnt,
                m >= 1,
        ;
        assert(m * (k + 1) >= 1) by (nonlinear_arith)
            requires
                k >= 0,
                m >= 1,
        ;
    }
    assert forall|k: int| 0 <= k < cnt implies col.contains(#[trigger] thr[k]) by {
        assert(thr[k] == u[m * (k + 1)]);
        assert(u.contains(u[m * (k + 1)]));
    }
    assert forall|k: int| 0 <= k < cnt implies #[trigger] thr[k] > u[0] by {
        assert(thr[k] == u[m * (k + 1)]);
        assert(u[0] < u[m * (k + 1)]);
    }
    assert forall|p: int, q: int| 0 <= p < q < cnt implies thr[p] < thr[q] by {
        assert(m * (p + 1) < m * (q + 1)) by (nonlinear_arith)
            requires
                p < q,
                m >= 1,
        ;
        assert(u[m * (p + 1)] < u[m * (q + 1)]);
    }
    assert(u.contains(u[0]));
    assert forall|j: int| 0 <= j < col.len() implies u[0] <= #[trigger] col[j] by {
        assert(col.contains(col[j]));
        assert(u.contains(col[j]));
        let q = choose|q: int| 0 <= q < u.len() && u[q] == col[j];
        if q > 0 {
            assert(u[0] < u[q]);
        }
    }
}

} // verus!
