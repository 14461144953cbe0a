//! Usage rollup: the in-memory accumulation buffer, the latency bucket
//! ladder, percentile interpolation, reporting windows and the aggregations
//! the `/usage/*` endpoints render.

use vstd::prelude::*;

use crate::civil::{day_text, format_day, lemma_parsed_day_prints_back, parse_day, parse_day_text};
use crate::error::AppError;
use crate::store::first_index;
use crate::text::{
    chars_eq, chars_lt, chars_of, distinct_sorted, lemma_seq_lt_asymmetric,
    lemma_seq_lt_irreflexive, lemma_seq_lt_transitive, push_all, seq_lt, strictly_sorted, views,
};

verus! {

// ---- Latency ladder and percentiles ------------------------------------

/// Sentinel `bucket_le_ms` for anything above the last finite boundary.
pub const BUCKET_OVERFLOW: i64 = -1;

/// The last finite boundary of the ladder, in milliseconds.
pub const LAST_FINITE_BUCKET_MS: i64 = 1000;

/// Ladder bucket of a latency in microseconds: the smallest bound (in ms)
/// at or above it, so a latency rounds up to its inclusive bound; `-1`
/// above the last finite bound. Dense at the low end so p50 and p95
/// separate.
pub open spec fn bucket_of_us(us: int) -> int {
    if us <= 1_000 {
        1
    } else if us <= 2_000 {
        2
    } else if us <= 5_000 {
        5
    } else if us <= 10_000 {
        10
    } else if us <= 25_000 {
        25
    } else if us <= 50_000 {
        50
    } else if us <= 100_000 {
        100
    } else if us <= 250_000 {
        250
    } else if us <= 500_000 {
        500
    } else if us <= 1_000_000 {
        1000
    } else {
        -1
    }
}

/// Law: the bucket of a latency is the least bound of the fixed ladder
/// 1, 2, 5, 10, 25, 50, 100, 250, 500, 1000 ms at or above it, so every
/// latency in `(previous bound, bound]` lands on that bound, and anything
/// above 1000 ms is `-1`.
pub proof fn lemma_bucket_ladder(us: int)
    requires
        us >= 0,
    ensures
        ({
            let ladder = seq![1int, 2, 5, 10, 25, 50, 100, 250, 500, 1000];
            forall|k: int|
                0 <= k < 10 && (k == 0 || ladder[k - 1] * 1000 < us) && us <= #[trigger] ladder[k]
                    * 1000 ==> bucket_of_us(us) == ladder[k]
        }),
        us > 1_000_000 ==> bucket_of_us(us) == -1,
{
    let ladder = seq![1int, 2, 5, 10, 25, 50, 100, 250, 500, 1000];
    assert(ladder[0] == 1 && ladder[1] == 2 && ladder[2] == 5 && ladder[3] == 10 && ladder[4] == 25
        && ladder[5] == 50 && ladder[6] == 100 && ladder[7] == 250 && ladder[8] == 500 && ladder[9]
        == 1000);
}

/// Ladder bucket a latency (in microseconds) falls into, rounding up to the
/// inclusive bound.
pub fn bucket_for(latency_us: u64) -> (b: i64)
    ensures
        b == bucket_of_us(latency_us as int),
{
    if latency_us <= 1_000 {
        1
    } else if latency_us <= 2_000 {
        2
    } else if latency_us <= 5_000 {
        5
    } else if latency_us <= 10_000 {
        10
    } else if latency_us <= 25_000 {
        25
    } else if latency_us <= 50_000 {
        50
    } else if latency_us <= 100_000 {
        100
    } else if latency_us <= 250_000 {
        250
    } else if latency_us <= 500_000 {
        500
    } else if latency_us <= 1_000_000 {
        1000
    } else {
        BUCKET_OVERFLOW
    }
}

/// Sum of the counts of a histogram.
pub open spec fn sum_counts(s: Seq<(i64, i64)>) -> int
    decreases s.len(),
{
    if s.len() == 0 {
        0
    } else {
        sum_counts(s.drop_last()) + s.last().1
    }
}

/// Sum of the counts in the overflow bucket.
pub open spec fn overflow_count(s: Seq<(i64, i64)>) -> int
    decreases s.len(),
{
    if s.len() == 0 {
        0
    } else {
        overflow_count(s.drop_last()) + (if s.last().0 == BUCKET_OVERFLOW {
            s.last().1 as int
        } else {
            0
        })
    }
}

/// The finite buckets, in input order.
pub open spec fn finite_buckets(s: Seq<(i64, i64)>) -> Seq<(i64, i64)>
    decreases s.len(),
{
    if s.len() == 0 {
        s
    } else if s.last().0 != BUCKET_OVERFLOW {
        finite_buckets(s.drop_last()).push(s.last())
    } else {
        finite_buckets(s.drop_last())
    }
}

/// Inserts `x` after every element whose bound is at most its own.
pub open spec fn insert_by_bound(s: Seq<(i64, i64)>, x: (i64, i64)) -> Seq<(i64, i64)>
    decreases s.len(),
{
    if s.len() == 0 {
        seq![x]
    } else if s.last().0 <= x.0 {
        s.push(x)
    } else {
        insert_by_bound(s.drop_last(), x).push(s.last())
    }
}

/// Stable sort by bound (what `sort_by_key` produces).
pub open spec fn sort_by_bound(s: Seq<(i64, i64)>) -> Seq<(i64, i64)>
    decreases s.len(),
{
    if s.len() == 0 {
        s
    } else {
        insert_by_bound(sort_by_bound(s.drop_last()), s.last())
    }
}

pub open spec fn sorted_by_bound(s: Seq<(i64, i64)>) -> bool {
    forall|i: int, j: int| 0 <= i < j < s.len() ==> s[i].0 <= s[j].0
}

/// `a / b` rounded half away from zero, `b > 0` (what `f64::round` does).
pub open spec fn round_div(a: int, b: int) -> int {
    if a >= 0 {
        (2 * a + b) / (2 * b)
    } else {
        -((-2 * a + b) / (2 * b))
    }
}

/// Linear interpolation from `lower` to `upper` by the fraction `num/den`,
/// clamped to `[0, 1]`, rounded to the nearest integer.
pub open spec fn interpolate(lower: int, upper: int, num: int, den: int) -> int {
    if num <= 0 {
        lower
    } else if num >= den {
        upper
    } else {
        round_div(lower * den + (upper - lower) * num, den)
    }
}

/// The cumulative-count walk over an ordered histogram for the target rank
/// `target / 100`: `(true, value)` when some bucket reaches the rank,
/// otherwise `(false, lower bound left at the end)`.
pub open spec fn rank_walk(s: Seq<(i64, i64)>, target: int, cum: int, lower: int) -> (bool, int)
    decreases s.len(),
{
    if s.len() == 0 {
        (false, lower)
    } else {
        let upper = s[0].0 as int;
        let count = s[0].1 as int;
        if count <= 0 {
            rank_walk(s.drop_first(), target, cum, upper)
        } else if 100 * (cum + count) >= target {
            (true, interpolate(lower, upper, target - 100 * cum, 100 * count))
        } else {
            rank_walk(s.drop_first(), target, cum + count, upper)
        }
    }
}

/// The `q_percent`-th percentile of a latency histogram of `(bound, count)`
/// pairs: linear interpolation inside the bucket that crosses the rank, the
/// last finite boundary when the rank lands in the overflow bucket, `None`
/// for an empty histogram.
pub open spec fn percentile_of(buckets: Seq<(i64, i64)>, q_percent: int) -> Option<int> {
    let total = sum_counts(buckets);
    if total <= 0 {
        None
    } else {
        let walk = rank_walk(sort_by_bound(finite_buckets(buckets)), q_percent * total, 0, 0);
        if walk.0 {
            Some(if walk.1 >= 0 {
                walk.1
            } else {
                0
            })
        } else if overflow_count(buckets) > 0 {
            Some(LAST_FINITE_BUCKET_MS as int)
        } else {
            Some(if walk.1 >= 0 {
                walk.1
            } else {
                0
            })
        }
    }
}

proof fn lemma_insert_by_bound(s: Seq<(i64, i64)>, x: (i64, i64), j: int)
    requires
        sorted_by_bound(s),
        0 <= j <= s.len(),
        forall|k: int| 0 <= k < j ==> s[k].0 <= x.0,
        forall|k: int| j <= k < s.len() ==> s[k].0 > x.0,
    ensures
        insert_by_bound(s, x) == s.take(j).push(x) + s.skip(j),
        sorted_by_bound(insert_by_bound(s, x)),
    decreases s.len(),
{
    if s.len() == 0 {
        assert(s.take(j).push(x) + s.skip(j) =~= seq![x]);
    } else if s.last().0 <= x.0 {
        assert(j == s.len());
        assert(s.take(j).push(x) + s.skip(j) =~= s.push(x));
    } else {
        let t = s.drop_last();
        assert(j < s.len());
        lemma_insert_by_bound(t, x, j);
        assert(insert_by_bound(s, x) =~= s.take(j).push(x) + s.skip(j));
    }
    let r = insert_by_bound(s, x);
    assert forall|a: int, b: int| 0 <= a < b < r.len() implies r[a].0 <= r[b].0 by {
        assert(r == s.take(j).push(x) + s.skip(j));
        if a < j && b < j {
        } else if a < j && b == j {
        } else if a < j {
            assert(r[b] == s[b - 1]);
        } else if a == j {
            assert(r[b] == s[b - 1]);
        } else {
            assert(r[a] == s[a - 1]);
            assert(r[b] == s[b - 1]);
        }
    }
}

/// Every bound lies in `[0, cap]`.
pub open spec fn bounds_within(s: Seq<(i64, i64)>, cap: int) -> bool {
    forall|i: int| 0 <= i < s.len() ==> 0 <= #[trigger] s[i].0 <= cap
}

/// Each bound is a ladder boundary: the overflow sentinel or a finite bound
/// in `[0, LAST_FINITE_BUCKET_MS]`.
pub open spec fn ladder_bounds(s: Seq<(i64, i64)>) -> bool {
    forall|i: int|
        0 <= i < s.len() ==> (#[trigger] s[i]).0 == BUCKET_OVERFLOW || 0 <= s[i].0
            <= LAST_FINITE_BUCKET_MS
}

proof fn lemma_insert_by_bound_sorted(s: Seq<(i64, i64)>, x: (i64, i64), cap: int)
    requires
        sorted_by_bound(s),
        bounds_within(s, cap),
        0 <= x.0 <= cap,
    ensures
        sorted_by_bound(insert_by_bound(s, x)),
        bounds_within(insert_by_bound(s, x), cap),
        insert_by_bound(s, x).len() == s.len() + 1,
    decreases s.len(),
{
    let r = insert_by_bound(s, x);
    if s.len() == 0 {
    } else if s.last().0 <= x.0 {
        assert forall|a: int, b: int| 0 <= a < b < r.len() implies r[a].0 <= r[b].0 by {
            if b == s.len() {
                assert(s[a].0 <= s.last().0);
            }
        }
    } else {
        let t = s.drop_last();
        let m = s.last();
        lemma_insert_by_bound_sorted(t, x, m.0 as int);
        lemma_insert_by_bound_sorted(t, x, cap);
        let it = insert_by_bound(t, x);
        assert(r == it.push(m));
        assert forall|a: int, b: int| 0 <= a < b < r.len() implies r[a].0 <= r[b].0 by {
            if b == it.len() {
                assert(r[a] == it[a]);
            } else {
                assert(r[a] == it[a] && r[b] == it[b]);
            }
        }
    }
}

proof fn lemma_sort_by_bound_sorted(s: Seq<(i64, i64)>, cap: int)
    requires
        bounds_within(s, cap),
    ensures
        sorted_by_bound(sort_by_bound(s)),
        bounds_within(sort_by_bound(s), cap),
    decreases s.len(),
{
    if s.len() > 0 {
        let t = s.drop_last();
        assert(bounds_within(t, cap)) by {
            assert forall|i: int| 0 <= i < t.len() implies 0 <= #[trigger] t[i].0 <= cap by {
                assert(t[i] == s[i]);
            }
        }
        lemma_sort_by_bound_sorted(t, cap);
        lemma_insert_by_bound_sorted(sort_by_bound(t), s.last(), cap);
    }
}

proof fn lemma_finite_buckets_within(s: Seq<(i64, i64)>)
    requires
        ladder_bounds(s),
    ensures
        bounds_within(finite_buckets(s), LAST_FINITE_BUCKET_MS as int),
    decreases s.len(),
{
    if s.len() > 0 {
        let t = s.drop_last();
        assert(ladder_bounds(t)) by {
            assert forall|i: int| 0 <= i < t.len() implies (#[trigger] t[i]).0 == BUCKET_OVERFLOW
                || 0 <= t[i].0 <= LAST_FINITE_BUCKET_MS by {
                assert(t[i] == s[i]);
            }
        }
        lemma_finite_buckets_within(t);
        assert(ladder_bounds(s) ==> (s[s.len() - 1].0 == BUCKET_OVERFLOW || 0 <= s[s.len() - 1].0
            <= LAST_FINITE_BUCKET_MS));
    }
}

proof fn lemma_interpolate_range(lower: int, upper: int, num: int, den: int)
    requires
        0 <= lower <= upper,
        0 < den,
    ensures
        lower <= interpolate(lower, upper, num, den) <= upper,
{
    if 0 < num < den {
        let a = lower * den + (upper - lower) * num;
        assert(lower * den <= a <= upper * den) by (nonlinear_arith)
            requires
                0 <= lower <= upper,
                0 < num < den,
                a == lower * den + (upper - lower) * num,
        ;
        assert(lower <= (2 * a + den) / (2 * den) <= upper) by (nonlinear_arith)
            requires
                lower * den <= a <= upper * den,
                0 < den,
                0 <= lower,
        {
            assert(lower * (2 * den) <= 2 * a + den);
            assert(2 * a + den < (upper + 1) * (2 * den));
        }
    }
}

proof fn lemma_interpolate_monotone(lower: int, upper: int, n1: int, n2: int, den: int)
    requires
        0 <= lower <= upper,
        0 < den,
        n1 <= n2,
    ensures
        interpolate(lower, upper, n1, den) <= interpolate(lower, upper, n2, den),
{
    lemma_interpolate_range(lower, upper, n1, den);
    lemma_interpolate_range(lower, upper, n2, den);
    if 0 < n1 < den && 0 < n2 < den {
        let a1 = lower * den + (upper - lower) * n1;
        let a2 = lower * den + (upper - lower) * n2;
        assert(0 <= a1 <= a2) by (nonlinear_arith)
            requires
                0 <= lower <= upper,
                0 < n1 <= n2,
                0 < den,
                a1 == lower * den + (upper - lower) * n1,
                a2 == lower * den + (upper - lower) * n2,
        ;
        assert((2 * a1 + den) / (2 * den) <= (2 * a2 + den) / (2 * den)) by (nonlinear_arith)
            requires
                0 <= a1 <= a2,
                0 < den,
        ;
    }
}

proof fn lemma_rank_walk_range(s: Seq<(i64, i64)>, target: int, cum: int, lower: int, cap: int)
    requires
        sorted_by_bound(s),
        0 <= lower <= cap,
        forall|i: int| 0 <= i < s.len() ==> lower <= #[trigger] s[i].0 <= cap,
    ensures
        lower <= rank_walk(s, target, cum, lower).1 <= cap,
    decreases s.len(),
{
    if s.len() > 0 {
        let upper = s[0].0 as int;
        let count = s[0].1 as int;
        let t = s.drop_first();
        assert forall|i: int| 0 <= i < t.len() implies upper <= #[trigger] t[i].0 <= cap by {
            assert(t[i] == s[i + 1]);
        }
        if count <= 0 {
            lemma_rank_walk_range(t, target, cum, upper, cap);
        } else if 100 * (cum + count) >= target {
            lemma_interpolate_range(lower, upper, target - 100 * cum, 100 * count);
        } else {
            lemma_rank_walk_range(t, target, cum + count, upper, cap);
        }
    }
}

proof fn lemma_rank_walk_monotone(
    s: Seq<(i64, i64)>,
    t1: int,
    t2: int,
    cum: int,
    lower: int,
    cap: int,
)
    requires
        sorted_by_bound(s),
        0 <= lower <= cap,
        forall|i: int| 0 <= i < s.len() ==> lower <= #[trigger] s[i].0 <= cap,
        t1 <= t2,
    ensures
        rank_walk(s, t2, cum, lower).0 ==> rank_walk(s, t1, cum, lower).0,
        rank_walk(s, t1, cum, lower).1 <= rank_walk(s, t2, cum, lower).1,
    decreases s.len(),
{
    if s.len() > 0 {
        let upper = s[0].0 as int;
        let count = s[0].1 as int;
        let t = s.drop_first();
        assert forall|i: int| 0 <= i < t.len() implies upper <= #[trigger] t[i].0 <= cap by {
            assert(t[i] == s[i + 1]);
        }
        assert(sorted_by_bound(t)) by {
            assert forall|a: int, b: int| 0 <= a < b < t.len() implies t[a].0 <= t[b].0 by {
                assert(t[a] == s[a + 1] && t[b] == s[b + 1]);
            }
        }
        if count <= 0 {
            lemma_rank_walk_monotone(t, t1, t2, cum, upper, cap);
        } else if 100 * (cum + count) >= t2 {
            lemma_interpolate_monotone(lower, upper, t1 - 100 * cum, t2 - 100 * cum, 100 * count);
        } else if 100 * (cum + count) >= t1 {
            lemma_interpolate_range(lower, upper, t1 - 100 * cum, 100 * count);
            lemma_rank_walk_range(t, t2, cum + count, upper, cap);
        } else {
            lemma_rank_walk_monotone(t, t1, t2, cum + count, upper, cap);
        }
    }
}

/// Law: over a histogram of ladder buckets, a higher rank never gives a
/// lower percentile (so p50 <= p95 <= p99), both ranks have a value or
/// neither does, and no percentile exceeds the last finite boundary.
pub proof fn lemma_percentile_monotone(buckets: Seq<(i64, i64)>, q1: int, q2: int)
    requires
        0 <= q1 <= q2 <= 100,
        ladder_bounds(buckets),
    ensures
        percentile_of(buckets, q1) is Some <==> percentile_of(buckets, q2) is Some,
        percentile_of(buckets, q1) matches Some(v1) ==> v1 <= percentile_of(buckets, q2)->0
            <= LAST_FINITE_BUCKET_MS,
{
    let total = sum_counts(buckets);
    if total > 0 {
        let cap = LAST_FINITE_BUCKET_MS as int;
        let f = finite_buckets(buckets);
        lemma_finite_buckets_within(buckets);
        lemma_sort_by_bound_sorted(f, cap);
        let o = sort_by_bound(f);
        assert(q1 * total <= q2 * total) by (nonlinear_arith)
            requires
                q1 <= q2,
                0 < total,
        ;
        lemma_rank_walk_monotone(o, q1 * total, q2 * total, 0, 0, cap);
        lemma_rank_walk_range(o, q1 * total, 0, 0, cap);
        lemma_rank_walk_range(o, q2 * total, 0, 0, cap);
    }
}

/// Bounds small enough that exact interpolation cannot overflow.
pub open spec fn bounds_in_range(s: Seq<(i64, i64)>) -> bool {
    forall|i: int| 0 <= i < s.len() ==> -0x8000_0000 < #[trigger] s[i].0 < 0x8000_0000
}

fn interpolate_exact(lower: i128, upper: i128, num: i128, den: i128) -> (v: i128)
    requires
        -0x8000_0000 < lower < 0x8000_0000,
        -0x8000_0000 < upper < 0x8000_0000,
        0 < den <= 100 * 0x8000_0000_0000_0000,
        num <= 100 * 0x8000_0000_0000_0000,
    ensures
        v == interpolate(lower as int, upper as int, num as int, den as int),
{
    if num <= 0 {
        lower
    } else if num >= den {
        upper
    } else {
        assert(-0x8000_0000 * den <= lower * den <= 0x8000_0000 * den) by (nonlinear_arith)
            requires
                -0x8000_0000 < lower < 0x8000_0000,
                0 < den,
        ;
        assert(-0x1_0000_0000 * num <= (upper - lower) * num <= 0x1_0000_0000 * num) by (nonlinear_arith)
            requires
                -0x1_0000_0000 < upper - lower < 0x1_0000_0000,
                0 < num,
        ;
        let v = lower * den + (upper - lower) * num;
        assert(-0x4000_0000_0000_0000_0000_0000_0000 < v < 0x4000_0000_0000_0000_0000_0000_0000);
        if v >= 0 {
            (2 * v + den) / (2 * den)
        } else {
            let nv: i128 = 0 - v;
            let q: i128 = (2 * nv + den) / (2 * den);
            0 - q
        }
    }
}

/// The `q_percent`-th percentile (`q_percent` in whole percent) of a latency
/// histogram, interpolated linearly inside the bucket that crosses the rank,
/// computed exactly in integers.
pub fn percentile(buckets: &Vec<(i64, i64)>, q_percent: u64) -> (r: Option<u64>)
    requires
        q_percent <= 100,
        bounds_in_range(buckets@),
        i64::MIN <= sum_counts(buckets@) <= i64::MAX,
    ensures
        match percentile_of(buckets@, q_percent as int) {
            Some(v) => r == Some(v as u64),
            None => r is None,
        },
{
    let n = buckets.len();
    let mut total: i128 = 0;
    let mut overflow: i128 = 0;
    let mut ordered: Vec<(i64, i64)> = Vec::new();
    let mut i: usize = 0;
    while i < n
        invariant
            n == buckets.len(),
            i <= n,
            total == sum_counts(buckets@.take(i as int)),
            overflow == overflow_count(buckets@.take(i as int)),
            -(i as int) * 0x8000_0000_0000_0000 <= total <= (i as int) * 0x8000_0000_0000_0000,
            -(i as int) * 0x8000_0000_0000_0000 <= overflow <= (i as int) * 0x8000_0000_0000_0000,
            ordered@ == sort_by_bound(finite_buckets(buckets@.take(i as int))),
            sorted_by_bound(ordered@),
            bounds_in_range(ordered@),
            bounds_in_range(buckets@),
        decreases n - i,
    {
        let b = buckets[i];
        let ghost prev = buckets@.take(i as int);
        assert(buckets@.take(i + 1).drop_last() =~= prev);
        total = total + b.1 as i128;
        if b.0 == BUCKET_OVERFLOW {
            overflow = overflow + b.1 as i128;
        } else {
            let mut j: usize = 0;
            while j < ordered.len() && ordered[j].0 <= b.0
                invariant
                    j <= ordered.len(),
                    forall|k: int| 0 <= k < j ==> ordered@[k].0 <= b.0,
                decreases ordered.len() - j,
            {
                j = j + 1;
            }
            proof {
                assert forall|k: int| j <= k < ordered@.len() implies ordered@[k].0 > b.0 by {
                    assert(ordered@[j as int].0 > b.0);
                    assert(ordered@[j as int].0 <= ordered@[k].0);
                }
                lemma_insert_by_bound(ordered@, b, j as int);
            }
            ordered.insert(j, b);
            assert(ordered@ =~= insert_by_bound(sort_by_bound(finite_buckets(prev)), b));
            assert(finite_buckets(buckets@.take(i + 1)) =~= finite_buckets(prev).push(b));
            assert(finite_buckets(prev).push(b).drop_last() =~= finite_buckets(prev));
        }
        i = i + 1;
    }
    assert(buckets@.take(n as int) =~= buckets@);
    assert(ordered@ == sort_by_bound(finite_buckets(buckets@)));
    assert(overflow == overflow_count(buckets@));
    if total <= 0 {
        return None;
    }
    assert(total == sum_counts(buckets@));
    assert(0 <= q_percent as int * total <= 100 * 0x8000_0000_0000_0000) by (nonlinear_arith)
        requires
            0 <= q_percent <= 100,
            0 < total <= 0x8000_0000_0000_0000,
    ;
    let target: i128 = q_percent as i128 * total;
    let mut cumulative: i128 = 0;
    let mut lower: i128 = 0;
    let mut j: usize = 0;
    let ghost spec_walk = rank_walk(ordered@, target as int, 0, 0);
    assert(ordered@.skip(0) =~= ordered@);
    while j < ordered.len()
        invariant
            j <= ordered.len(),
            0 <= target <= 100 * 0x8000_0000_0000_0000,
            0 <= cumulative,
            100 * cumulative < target || cumulative == 0,
            cumulative <= 0x8000_0000_0000_0000,
            -0x8000_0000 < lower < 0x8000_0000,
            bounds_in_range(ordered@),
            spec_walk == rank_walk(ordered@.skip(j as int), target as int, cumulative as int, lower as int),
            spec_walk == rank_walk(sort_by_bound(finite_buckets(buckets@)), q_percent as int * sum_counts(buckets@), 0, 0),
            total == sum_counts(buckets@),
            total > 0,
            overflow == overflow_count(buckets@),
        decreases ordered.len() - j,
    {
        let (upper, count) = ordered[j];
        assert(ordered@.skip(j as int).drop_first() =~= ordered@.skip(j + 1));
        assert(ordered@.skip(j as int)[0] == ordered@[j as int]);
        if count <= 0 {
            lower = upper as i128;
            j = j + 1;
            continue;
        }
        let next = cumulative + count as i128;
        if 100 * next >= target {
            let num = target - 100 * cumulative;
            let den = 100 * count as i128;
            let value = interpolate_exact(lower, upper as i128, num, den);
            assert(spec_walk == (true, value as int));
            if value >= 0 {
                return Some(value as u64);
            } else {
                return Some(0);
            }
        }
        cumulative = next;
        lower = upper as i128;
        j = j + 1;
    }
    assert(ordered@.skip(j as int) =~= Seq::<(i64, i64)>::empty());
    if overflow > 0 {
        return Some(LAST_FINITE_BUCKET_MS as u64);
    }
    if lower >= 0 {
        Some(lower as u64)
    } else {
        Some(0)
    }
}

} // verus!

verus! {

// ---- Rows read back from the store and the shapes the endpoints render ----

/// One `usage_daily` group, already summed across tenants by the query.
#[derive(Debug)]
pub struct UsageDailyRow {
    pub day: String,
    pub language: String,
    pub status: i64,
    pub error_slug: String,
    pub request_count: i64,
    pub latency_sum_us: i64,
}

/// One `usage_latency` group, already summed across tenants by the query.
#[derive(Debug)]
pub struct UsageLatencyRow {
    pub day: String,
    pub bucket_le_ms: i64,
    pub request_count: i64,
}

/// A `/usage/daily` row.
#[derive(Debug)]
pub struct DailyUsageRow {
    pub date: String,
    pub requests: u64,
    pub average_latency_ms: u64,
    pub errors: u64,
}

/// Sum of `f` over the rows.
pub open spec fn sum_rows(rows: Seq<UsageDailyRow>, f: spec_fn(UsageDailyRow) -> int) -> int
    decreases rows.len(),
{
    if rows.len() == 0 {
        0
    } else {
        sum_rows(rows.drop_last(), f) + f(rows.last())
    }
}

/// Requests on day `d`.
pub open spec fn requests_on(rows: Seq<UsageDailyRow>, d: Seq<char>) -> int {
    sum_rows(rows, |r: UsageDailyRow| if r.day@ == d { r.request_count as int } else { 0 })
}

/// Summed latency (microseconds) on day `d`.
pub open spec fn latency_sum_on(rows: Seq<UsageDailyRow>, d: Seq<char>) -> int {
    sum_rows(rows, |r: UsageDailyRow| if r.day@ == d { r.latency_sum_us as int } else { 0 })
}

/// Requests on day `d` that ended in a 4xx or 5xx status.
pub open spec fn errors_on(rows: Seq<UsageDailyRow>, d: Seq<char>) -> int {
    sum_rows(
        rows,
        |r: UsageDailyRow|
            if r.day@ == d && r.status >= 400 {
                r.request_count as int
            } else {
                0
            },
    )
}

/// Integer division rounding toward zero (Rust's `/`), `b > 0`.
pub open spec fn trunc_div(a: int, b: int) -> int {
    if a >= 0 {
        a / b
    } else {
        -((-a) / b)
    }
}

/// The `/usage/daily` row for day `d`.
pub open spec fn daily_row_matches(row: DailyUsageRow, rows: Seq<UsageDailyRow>, d: Seq<char>) -> bool {
    let requests = requests_on(rows, d);
    &&& row.date@ == d
    &&& row.requests == requests as u64
    &&& row.errors == errors_on(rows, d) as u64
    &&& row.average_latency_ms == (if requests > 0 {
        trunc_div(trunc_div(latency_sum_on(rows, d), requests), 1000) as u64
    } else {
        0
    })
}


/// A day that no row carries sums to zero.
proof fn lemma_daily_sums_absent(rows: Seq<UsageDailyRow>, d: Seq<char>)
    requires
        forall|k: int| 0 <= k < rows.len() ==> (#[trigger] rows[k]).day@ != d,
    ensures
        requests_on(rows, d) == 0,
        latency_sum_on(rows, d) == 0,
        errors_on(rows, d) == 0,
    decreases rows.len(),
{
    if rows.len() > 0 {
        lemma_daily_sums_absent(rows.drop_last(), d);
    }
}

/// Per-day sums stay within `len * 2^63` in magnitude.
proof fn lemma_daily_sums_bound(rows: Seq<UsageDailyRow>, d: Seq<char>)
    ensures
        -(rows.len() as int) * 0x8000_0000_0000_0000 <= requests_on(rows, d) <= (rows.len() as int)
            * 0x8000_0000_0000_0000,
        -(rows.len() as int) * 0x8000_0000_0000_0000 <= latency_sum_on(rows, d) <= (rows.len() as int)
            * 0x8000_0000_0000_0000,
        -(rows.len() as int) * 0x8000_0000_0000_0000 <= errors_on(rows, d) <= (rows.len() as int)
            * 0x8000_0000_0000_0000,
    decreases rows.len(),
{
    if rows.len() > 0 {
        lemma_daily_sums_bound(rows.drop_last(), d);
    }
}

/// The chars of each row's day, in row order.
fn day_chars(rows: &Vec<UsageDailyRow>) -> (rk: Vec<Vec<char>>)
    ensures
        rk.len() == rows.len(),
        forall|k: int| 0 <= k < rows.len() ==> (#[trigger] rk@[k])@ == rows@[k].day@,
{
    let mut rk: Vec<Vec<char>> = Vec::new();
    for i in 0..rows.len()
        invariant
            rk.len() == i,
            forall|k: int| 0 <= k < i ==> (#[trigger] rk@[k])@ == rows@[k].day@,
    {
        rk.push(chars_of(rows[i].day.as_str()));
    }
    rk
}

/// Requests, summed latency and errors on the day `d`, exactly.
fn daily_sums(rows: &Vec<UsageDailyRow>, rk: &Vec<Vec<char>>, d: &Vec<char>) -> (r: (i128, i128, i128))
    requires
        rk.len() == rows.len(),
        forall|k: int| 0 <= k < rows.len() ==> (#[trigger] rk@[k])@ == rows@[k].day@,
    ensures
        r.0 == requests_on(rows@, d@),
        r.1 == latency_sum_on(rows@, d@),
        r.2 == errors_on(rows@, d@),
{
    let mut req: i128 = 0;
    let mut lat: i128 = 0;
    let mut err: i128 = 0;
    let mut i: usize = 0;
    while i < rows.len()
        invariant
            i <= rows.len(),
            rk.len() == rows.len(),
            forall|k: int| 0 <= k < rows.len() ==> (#[trigger] rk@[k])@ == rows@[k].day@,
            req == requests_on(rows@.take(i as int), d@),
            lat == latency_sum_on(rows@.take(i as int), d@),
            err == errors_on(rows@.take(i as int), d@),
        decreases rows.len() - i,
    {
        let ghost prev = rows@.take(i as int);
        let ghost next = rows@.take(i + 1);
        proof {
            assert(next.drop_last() =~= prev);
            assert(next.last() == rows@[i as int]);
            lemma_daily_sums_bound(prev, d@);
            lemma_daily_sums_bound(next, d@);
        }
        if chars_eq(&rk[i], d) {
            req = req + rows[i].request_count as i128;
            lat = lat + rows[i].latency_sum_us as i128;
            if rows[i].status >= 400 {
                err = err + rows[i].request_count as i128;
            }
        }
        i = i + 1;
    }
    assert(rows@.take(rows.len() as int) =~= rows@);
    (req, lat, err)
}

/// Rust's `/` (rounding toward zero) on a positive divisor.
fn div_toward_zero(a: i128, b: i128) -> (q: i128)
    requires
        b > 0,
        a > i128::MIN,
    ensures
        q == trunc_div(a as int, b as int),
{
    if a >= 0 {
        a / b
    } else {
        let na: i128 = 0 - a;
        0 - na / b
    }
}

/// The dates of the `/usage/daily` rows.
pub open spec fn daily_dates(out: Seq<DailyUsageRow>) -> Seq<Seq<char>> {
    out.map_values(|r: DailyUsageRow| r.date@)
}

/// Some row carries the day `d`.
pub open spec fn has_day(rows: Seq<UsageDailyRow>, d: Seq<char>) -> bool {
    exists|k: int| 0 <= k < rows.len() && #[trigger] rows[k].day@ == d
}

/// Requests on each of the given days, added up.
pub open spec fn requests_over(rows: Seq<UsageDailyRow>, days: Seq<Seq<char>>) -> int
    decreases days.len(),
{
    if days.len() == 0 {
        0
    } else {
        requests_over(rows, days.drop_last()) + requests_on(rows, days.last())
    }
}

/// Every request the rows count.
pub open spec fn total_requests(rows: Seq<UsageDailyRow>) -> int {
    sum_rows(rows, |r: UsageDailyRow| r.request_count as int)
}

/// How often `x` occurs in `days`.
pub open spec fn occurrences(days: Seq<Seq<char>>, x: Seq<char>) -> int
    decreases days.len(),
{
    if days.len() == 0 {
        0
    } else {
        occurrences(days.drop_last(), x) + (if days.last() == x {
            1int
        } else {
            0
        })
    }
}

proof fn lemma_occurrences_absent(days: Seq<Seq<char>>, x: Seq<char>)
    requires
        !days.contains(x),
    ensures
        occurrences(days, x) == 0,
    decreases days.len(),
{
    if days.len() > 0 {
        let t = days.drop_last();
        assert(!t.contains(x)) by {
            if t.contains(x) {
                let i = choose|i: int| 0 <= i < t.len() && t[i] == x;
                assert(days[i] == x);
            }
        }
        lemma_occurrences_absent(t, x);
    }
}

proof fn lemma_occurrences_once(days: Seq<Seq<char>>, x: Seq<char>)
    requires
        strictly_sorted(days),
        days.contains(x),
    ensures
        occurrences(days, x) == 1,
    decreases days.len(),
{
    let t = days.drop_last();
    let n = days.len() - 1;
    assert(strictly_sorted(t)) by {
        assert forall|a: int, b: int| 0 <= a < b < t.len() implies seq_lt(t[a], t[b]) by {
            assert(t[a] == days[a] && t[b] == days[b]);
        }
    }
    if days[n] == x {
        assert(!t.contains(x)) by {
            if t.contains(x) {
                let i = choose|i: int| 0 <= i < t.len() && t[i] == x;
                assert(seq_lt(days[i], days[n]));
                lemma_seq_lt_irreflexive(x);
            }
        }
        lemma_occurrences_absent(t, x);
    } else {
        let i = choose|i: int| 0 <= i < days.len() && days[i] == x;
        assert(t[i] == x);
        lemma_occurrences_once(t, x);
    }
}

proof fn lemma_requests_over_step(rows: Seq<UsageDailyRow>, days: Seq<Seq<char>>)
    requires
        rows.len() > 0,
    ensures
        requests_over(rows, days) == requests_over(rows.drop_last(), days) + occurrences(
            days,
            rows.last().day@,
        ) * rows.last().request_count,
    decreases days.len(),
{
    if days.len() > 0 {
        let t = days.drop_last();
        let x = rows.last().day@;
        let c = rows.last().request_count as int;
        lemma_requests_over_step(rows, t);
        let h = occurrences(t, x);
        assert((h + 1) * c == h * c + c) by (nonlinear_arith);
    }
}

proof fn lemma_requests_over_empty(rows: Seq<UsageDailyRow>, days: Seq<Seq<char>>)
    requires
        rows.len() == 0,
    ensures
        requests_over(rows, days) == 0,
    decreases days.len(),
{
    if days.len() > 0 {
        lemma_requests_over_empty(rows, days.drop_last());
    }
}

/// Law: the days of `/usage/daily` (distinct, in order, covering every
/// row's day, as `aggregate_daily` returns them) count every request
/// exactly once.
pub proof fn lemma_daily_totals_add_up(rows: Seq<UsageDailyRow>, days: Seq<Seq<char>>)
    requires
        strictly_sorted(days),
        forall|k: int| 0 <= k < rows.len() ==> days.contains(#[trigger] rows[k].day@),
    ensures
        requests_over(rows, days) == total_requests(rows),
    decreases rows.len(),
{
    if rows.len() == 0 {
        lemma_requests_over_empty(rows, days);
    } else {
        let t = rows.drop_last();
        assert forall|k: int| 0 <= k < t.len() implies days.contains(#[trigger] t[k].day@) by {
            assert(t[k] == rows[k]);
        }
        lemma_daily_totals_add_up(t, days);
        lemma_requests_over_step(rows, days);
        assert(days.contains(rows[rows.len() - 1].day@));
        lemma_occurrences_once(days, rows.last().day@);
    }
}

/// Per-day request count, average latency and error count, one row per day
/// in ascending date order (`/usage/daily` is always dated). Only 4xx and
/// 5xx rows count as errors.
pub fn aggregate_daily(rows: &Vec<UsageDailyRow>) -> (out: Vec<DailyUsageRow>)
    ensures
        forall|i: int|
            0 <= i < out.len() ==> daily_row_matches(#[trigger] out@[i], rows@, out@[i].date@)
                && has_day(rows@, out@[i].date@),
        forall|k: int| 0 <= k < rows.len() ==> daily_dates(out@).contains(#[trigger] rows@[k].day@),
        strictly_sorted(daily_dates(out@)),
{
    let rk = day_chars(rows);
    let (keys, rep) = distinct_sorted(&rk);
    let mut out: Vec<DailyUsageRow> = Vec::new();
    for t in 0..keys.len()
        invariant
            out.len() == t,
            rk.len() == rows.len(),
            forall|k: int| 0 <= k < rows.len() ==> (#[trigger] rk@[k])@ == rows@[k].day@,
            rep.len() == keys.len(),
            forall|j: int|
                0 <= j < keys.len() ==> (#[trigger] rep@[j]) < rk.len() && rk@[rep@[j] as int]@
                    == keys@[j]@,
            forall|j: int| 0 <= j < t ==> (#[trigger] out@[j]).date@ == keys@[j]@,
            forall|j: int|
                0 <= j < t ==> daily_row_matches(#[trigger] out@[j], rows@, out@[j].date@)
                    && has_day(rows@, out@[j].date@),
    {
        let (req, lat, err) = daily_sums(rows, &rk, &keys[t]);
        proof {
            lemma_daily_sums_bound(rows@, keys@[t as int]@);
        }
        let avg: u64 = if req > 0 {
            div_toward_zero(div_toward_zero(lat, req), 1000) as u64
        } else {
            0
        };
        let r = rep[t];
        let date = rows[r].day.clone();
        proof {
            assert(rows@[r as int].day@ == keys@[t as int]@);
        }
        out.push(DailyUsageRow { date, requests: req as u64, average_latency_ms: avg, errors: err as u64 });
    }
    proof {
        assert(daily_dates(out@) =~= views(keys@));
        assert forall|k: int| 0 <= k < rows.len() implies daily_dates(out@).contains(
            #[trigger] rows@[k].day@,
        ) by {
            assert(views(keys@).contains(rk@[k]@));
        }
    }
    out
}

} // verus!

verus! {

// ---- /usage/latency ------------------------------------------------------

/// A `/usage/latency` row: one percentile of one date (or of the whole
/// window when undated).
#[derive(Debug)]
pub struct LatencyTrend {
    pub date: Option<String>,
    pub percentile: String,
    pub value_ms: u64,
}

/// The view of an optional string.
pub open spec fn opt_view(d: Option<String>) -> Option<Seq<char>> {
    match d {
        Some(s) => Some(s@),
        None => None,
    }
}

/// A latency trend as plain values.
pub open spec fn trend_view(t: LatencyTrend) -> (Option<Seq<char>>, Seq<char>, u64) {
    (opt_view(t.date), t.percentile@, t.value_ms)
}

pub open spec fn trend_views(s: Seq<LatencyTrend>) -> Seq<(Option<Seq<char>>, Seq<char>, u64)> {
    s.map_values(|t: LatencyTrend| trend_view(t))
}

/// Whether a histogram entry has bound `b`.
pub open spec fn has_bound(b: i64) -> spec_fn((i64, int)) -> bool {
    |e: (i64, int)| e.0 == b
}

/// The histogram of the rows on day `d` (of every row when `d` is `None`):
/// one entry per bound, in order of first appearance, its count the sum of
/// the counts of those rows with that bound (buckets are additive).
pub open spec fn merged_buckets(rows: Seq<UsageLatencyRow>, d: Option<Seq<char>>) -> Seq<(i64, int)>
    decreases rows.len(),
{
    if rows.len() == 0 {
        Seq::empty()
    } else {
        let prev = merged_buckets(rows.drop_last(), d);
        let r = rows.last();
        if d is None || r.day@ == d->0 {
            let i = first_index(prev, has_bound(r.bucket_le_ms));
            if i >= 0 {
                prev.update(i, (r.bucket_le_ms, prev[i].1 + r.request_count))
            } else {
                prev.push((r.bucket_le_ms, r.request_count as int))
            }
        } else {
            prev
        }
    }
}

/// The merged histogram of day `d` as `(bound, count)` pairs.
pub open spec fn latency_buckets(rows: Seq<UsageLatencyRow>, d: Option<Seq<char>>) -> Seq<(i64, i64)> {
    merged_buckets(rows, d).map_values(|e: (i64, int)| (e.0, e.1 as i64))
}

/// Every merged count of day `d` fits an `i64`.
pub open spec fn buckets_fit(rows: Seq<UsageLatencyRow>, d: Option<Seq<char>>) -> bool {
    forall|i: int|
        0 <= i < merged_buckets(rows, d).len() ==> i64::MIN <= #[trigger] merged_buckets(rows, d)[i].1
            <= i64::MAX
}

/// `"p50"`, `"p95"`, `"p99"`.
pub open spec fn percentile_label(q: int) -> Seq<char> {
    seq!['p', crate::text::digit_char(q / 10), crate::text::digit_char(q % 10)]
}

/// The `q`-th percentile entry of a group, when the group has one.
pub open spec fn trend_entry(d: Option<Seq<char>>, q: int, b: Seq<(i64, i64)>) -> Seq<
    (Option<Seq<char>>, Seq<char>, u64),
> {
    match percentile_of(b, q) {
        Some(v) => seq![(d, percentile_label(q), v as u64)],
        None => Seq::empty(),
    }
}

/// p50, p95 and p99 of one group, in that order.
pub open spec fn group_trends(d: Option<Seq<char>>, b: Seq<(i64, i64)>) -> Seq<
    (Option<Seq<char>>, Seq<char>, u64),
> {
    trend_entry(d, 50, b) + trend_entry(d, 95, b) + trend_entry(d, 99, b)
}

/// The groups of the dates `ds`, in that order.
pub open spec fn dated_trends(ds: Seq<Seq<char>>, rows: Seq<UsageLatencyRow>) -> Seq<
    (Option<Seq<char>>, Seq<char>, u64),
>
    decreases ds.len(),
{
    if ds.len() == 0 {
        Seq::empty()
    } else {
        dated_trends(ds.drop_last(), rows) + group_trends(
            Some(ds.last()),
            latency_buckets(rows, Some(ds.last())),
        )
    }
}

/// The days of the latency rows.
pub open spec fn latency_days(rows: Seq<UsageLatencyRow>) -> Seq<Seq<char>> {
    rows.map_values(|r: UsageLatencyRow| r.day@)
}

/// What `/usage/latency` renders: per date in ascending order when dated,
/// else one group merging every day's buckets (none when there are no rows).
pub open spec fn latency_trends(rows: Seq<UsageLatencyRow>, dated: bool) -> Seq<
    (Option<Seq<char>>, Seq<char>, u64),
> {
    if dated {
        dated_trends(crate::text::sorted_keys(latency_days(rows)), rows)
    } else if rows.len() == 0 {
        Seq::empty()
    } else {
        group_trends(None, latency_buckets(rows, None))
    }
}

/// Every bound fits the exact interpolation.
pub open spec fn latency_rows_in_range(rows: Seq<UsageLatencyRow>) -> bool {
    forall|k: int|
        0 <= k < rows.len() ==> -0x8000_0000 < #[trigger] rows[k].bucket_le_ms < 0x8000_0000
}

/// Every group's merged counts and total fit an `i64`.
pub open spec fn latency_totals_fit(rows: Seq<UsageLatencyRow>, dated: bool) -> bool {
    if dated {
        forall|d: Seq<char>|
            #![trigger merged_buckets(rows, Some(d))]
            buckets_fit(rows, Some(d)) && i64::MIN <= sum_counts(latency_buckets(rows, Some(d)))
                <= i64::MAX
    } else {
        buckets_fit(rows, None) && i64::MIN <= sum_counts(latency_buckets(rows, None)) <= i64::MAX
    }
}

pub open spec fn merged_view(m: Seq<(i64, i128)>) -> Seq<(i64, int)> {
    m.map_values(|e: (i64, i128)| (e.0, e.1 as int))
}

pub open spec fn day_of(day: Option<&String>) -> Option<Seq<char>> {
    match day {
        Some(s) => Some(s@),
        None => None,
    }
}

/// The merged histogram of the rows on `day` (of all rows when `None`), its
/// counts summed exactly.
fn collect_merged(rows: &Vec<UsageLatencyRow>, day: Option<&String>) -> (m: Vec<(i64, i128)>)
    requires
        latency_rows_in_range(rows@),
    ensures
        merged_view(m@) == merged_buckets(rows@, day_of(day)),
        forall|k: int| 0 <= k < m.len() ==> -0x8000_0000 < (#[trigger] m@[k]).0 < 0x8000_0000,
{
    let ghost d = day_of(day);
    let mut m: Vec<(i64, i128)> = Vec::new();
    for i in 0..rows.len()
        invariant
            merged_view(m@) == merged_buckets(rows@.take(i as int), d),
            latency_rows_in_range(rows@),
            d == day_of(day),
            m.len() <= i,
            forall|k: int| 0 <= k < m.len() ==> -0x8000_0000 < (#[trigger] m@[k]).0 < 0x8000_0000,
            forall|k: int|
                0 <= k < m.len() ==> -(i as int) * 0x8000_0000_0000_0000 <= (#[trigger] m@[k]).1 <= (
                i as int) * 0x8000_0000_0000_0000,
    {
        proof {
            assert(rows@.take(i + 1).drop_last() =~= rows@.take(i as int));
            assert(rows@.take(i + 1).last() == rows@[i as int]);
        }
        let keep = match day {
            Some(s) => rows[i].day == *s,
            None => true,
        };
        let ghost before = m@;
        if keep {
            let b = rows[i].bucket_le_ms;
            let c = rows[i].request_count;
            let ghost mv = merged_view(m@);
            let mut j: usize = 0;
            while j < m.len()
                invariant
                    j <= m.len(),
                    mv == merged_view(m@),
                    forall|a: int| 0 <= a < j ==> !has_bound(b)(#[trigger] mv[a]),
                ensures
                    j <= m.len(),
                    forall|a: int| 0 <= a < j ==> !has_bound(b)(#[trigger] mv[a]),
                    j < m.len() ==> has_bound(b)(mv[j as int]),
                decreases m.len() - j,
            {
                if m[j].0 == b {
                    break;
                }
                j = j + 1;
            }
            proof {
                crate::store::lemma_first_index(mv, has_bound(b), j as int);
            }
            if j < m.len() {
                let old_c = m[j].1;
                assert(-(i as int) * 0x8000_0000_0000_0000 - 0x8000_0000_0000_0000 <= old_c + c
                    <= (i as int) * 0x8000_0000_0000_0000 + 0x8000_0000_0000_0000);
                assert((i as int + 1) * 0x8000_0000_0000_0000 == (i as int) * 0x8000_0000_0000_0000
                    + 0x8000_0000_0000_0000);
                assert((i as int + 1) * 0x8000_0000_0000_0000 < 0x8000_0000_0000_0000_0000_0000_0000_0000)
                    by (nonlinear_arith)
                    requires
                        i < usize::MAX,
                ;
                m.set(j, (b, old_c + c as i128));
                assert(merged_view(m@) =~= mv.update(j as int, (b, mv[j as int].1 + c)));
            } else {
                m.push((b, c as i128));
                assert(merged_view(m@) =~= mv.push((b, c as int)));
            }
        }
        assert forall|k: int|
            0 <= k < m.len() implies -((i + 1) as int) * 0x8000_0000_0000_0000 <= (#[trigger] m@[k]).1
                <= ((i + 1) as int) * 0x8000_0000_0000_0000 by {
            if k < before.len() && m@[k] == before[k] {
            }
        }
    }
    assert(rows@.take(rows.len() as int) =~= rows@);
    m
}

/// The merged histogram of the rows on `day` (of all rows when `None`).
fn collect_buckets(rows: &Vec<UsageLatencyRow>, day: Option<&String>) -> (b: Vec<(i64, i64)>)
    requires
        latency_rows_in_range(rows@),
        buckets_fit(rows@, day_of(day)),
    ensures
        b@ == latency_buckets(rows@, day_of(day)),
        bounds_in_range(b@),
{
    let m = collect_merged(rows, day);
    let ghost mv = merged_view(m@);
    let mut b: Vec<(i64, i64)> = Vec::new();
    for k in 0..m.len()
        invariant
            mv == merged_view(m@),
            mv == merged_buckets(rows@, day_of(day)),
            buckets_fit(rows@, day_of(day)),
            forall|a: int| 0 <= a < m.len() ==> -0x8000_0000 < (#[trigger] m@[a]).0 < 0x8000_0000,
            b@ == mv.take(k as int).map_values(|e: (i64, int)| (e.0, e.1 as i64)),
            bounds_in_range(b@),
    {
        let e = m[k];
        assert(mv[k as int].1 == e.1);
        let ghost prev = b@;
        b.push((e.0, e.1 as i64));
        assert(b@ =~= mv.take(k + 1).map_values(|e: (i64, int)| (e.0, e.1 as i64)));
    }
    assert(mv.take(m.len() as int) =~= mv);
    b
}

/// Appends the `q`-th percentile entry of one group, when it has one.
fn push_trend(
    out: &mut Vec<LatencyTrend>,
    date: &Option<String>,
    b: &Vec<(i64, i64)>,
    q: u64,
    label: &str,
)
    requires
        q <= 99,
        label@ == percentile_label(q as int),
        bounds_in_range(b@),
        i64::MIN <= sum_counts(b@) <= i64::MAX,
    ensures
        trend_views(final(out)@) == trend_views(old(out)@) + trend_entry(
            opt_view(*date),
            q as int,
            b@,
        ),
{
    let ghost before = out@;
    match percentile(b, q) {
        Some(v) => {
            out.push(LatencyTrend { date: date.clone(), percentile: label.to_string(), value_ms: v });
            assert(trend_views(out@) =~= trend_views(before) + trend_entry(
                opt_view(*date),
                q as int,
                b@,
            ));
        },
        None => {
            assert(trend_views(out@) =~= trend_views(before) + trend_entry(
                opt_view(*date),
                q as int,
                b@,
            ));
        },
    }
}

/// Appends p50, p95 and p99 of one group.
fn push_group(out: &mut Vec<LatencyTrend>, date: &Option<String>, b: &Vec<(i64, i64)>)
    requires
        bounds_in_range(b@),
        i64::MIN <= sum_counts(b@) <= i64::MAX,
    ensures
        trend_views(final(out)@) == trend_views(old(out)@) + group_trends(opt_view(*date), b@),
{
    let ghost before = trend_views(out@);
    proof {
        reveal_strlit("p50");
        reveal_strlit("p95");
        reveal_strlit("p99");
        assert("p50"@ =~= percentile_label(50));
        assert("p95"@ =~= percentile_label(95));
        assert("p99"@ =~= percentile_label(99));
    }
    push_trend(out, date, b, 50, "p50");
    push_trend(out, date, b, 95, "p95");
    push_trend(out, date, b, 99, "p99");
    assert(trend_views(out@) =~= before + group_trends(opt_view(*date), b@));
}

fn sum_bucket_counts(b: &Vec<(i64, i64)>) -> (t: i128)
    ensures
        t == sum_counts(b@),
{
    let mut t: i128 = 0;
    let mut i: usize = 0;
    while i < b.len()
        invariant
            i <= b.len(),
            t == sum_counts(b@.take(i as int)),
            -(i as int) * 0x8000_0000_0000_0000 <= t <= (i as int) * 0x8000_0000_0000_0000,
        decreases b.len() - i,
    {
        assert(b@.take(i + 1).drop_last() =~= b@.take(i as int));
        t = t + b[i].1 as i128;
        i = i + 1;
    }
    assert(b@.take(b.len() as int) =~= b@);
    t
}

proof fn lemma_latency_buckets_absent(rows: Seq<UsageLatencyRow>, d: Seq<char>)
    requires
        forall|k: int| 0 <= k < rows.len() ==> (#[trigger] rows[k]).day@ != d,
    ensures
        merged_buckets(rows, Some(d)).len() == 0,
        latency_buckets(rows, Some(d)).len() == 0,
    decreases rows.len(),
{
    if rows.len() > 0 {
        let t = rows.drop_last();
        assert forall|k: int| 0 <= k < t.len() implies (#[trigger] t[k]).day@ != d by {
            assert(t[k] == rows[k]);
        }
        lemma_latency_buckets_absent(t, d);
    }
}

/// Whether the group of `day` (every row when `None`) has merged counts and
/// a total that fit an `i64`.
fn group_fits(rows: &Vec<UsageLatencyRow>, day: Option<&String>) -> (r: bool)
    requires
        latency_rows_in_range(rows@),
    ensures
        r == (buckets_fit(rows@, day_of(day)) && i64::MIN <= sum_counts(
            latency_buckets(rows@, day_of(day)),
        ) <= i64::MAX),
{
    let m = collect_merged(rows, day);
    let ghost mv = merged_view(m@);
    for k in 0..m.len()
        invariant
            mv == merged_view(m@),
            mv == merged_buckets(rows@, day_of(day)),
            forall|a: int| 0 <= a < k ==> i64::MIN <= #[trigger] mv[a].1 <= i64::MAX,
    {
        if m[k].1 < i64::MIN as i128 || m[k].1 > i64::MAX as i128 {
            assert(mv[k as int].1 == m@[k as int].1);
            return false;
        }
    }
    let b = collect_buckets(rows, day);
    let t = sum_bucket_counts(&b);
    i64::MIN as i128 <= t && t <= i64::MAX as i128
}

/// Whether `aggregate_latency` may run on the rows: every bound is small
/// enough for exact interpolation, and every group's merged counts and
/// total fit an `i64`.
pub fn latency_inputs_fit(rows: &Vec<UsageLatencyRow>, dated: bool) -> (r: bool)
    ensures
        r == (latency_rows_in_range(rows@) && latency_totals_fit(rows@, dated)),
{
    for i in 0..rows.len()
        invariant
            forall|k: int|
                0 <= k < i ==> -0x8000_0000 < #[trigger] rows@[k].bucket_le_ms < 0x8000_0000,
    {
        let b = rows[i].bucket_le_ms;
        if b <= -0x8000_0000 || b >= 0x8000_0000 {
            return false;
        }
    }
    if !dated {
        return group_fits(rows, None);
    }
    for i in 0..rows.len()
        invariant
            latency_rows_in_range(rows@),
            dated,
            forall|k: int|
                0 <= k < i ==> buckets_fit(rows@, Some(#[trigger] rows@[k].day@)) && i64::MIN
                    <= sum_counts(latency_buckets(rows@, Some(rows@[k].day@))) <= i64::MAX,
    {
        if !group_fits(rows, Some(&rows[i].day)) {
            return false;
        }
    }
    assert forall|d: Seq<char>|
        #![trigger merged_buckets(rows@, Some(d))]
        buckets_fit(rows@, Some(d)) && i64::MIN <= sum_counts(latency_buckets(rows@, Some(d)))
            <= i64::MAX by {
        if exists|k: int| 0 <= k < rows.len() && (#[trigger] rows@[k]).day@ == d {
            let k = choose|k: int| 0 <= k < rows.len() && (#[trigger] rows@[k]).day@ == d;
            assert(buckets_fit(rows@, Some(rows@[k].day@)));
            assert(rows@[k].day@ == d);
        } else {
            lemma_latency_buckets_absent(rows@, d);
            assert(latency_buckets(rows@, Some(d)) =~= Seq::<(i64, i64)>::empty());
            assert(buckets_fit(rows@, Some(d)));
        }
    }
    true
}

/// `/usage/latency`: p50, p95 and p99 per date in ascending date order when
/// `dated`, else one set over every day's merged buckets (buckets are
/// additive, so the merge is a valid histogram). Groups whose histogram is
/// empty yield no entries.
pub fn aggregate_latency(rows: &Vec<UsageLatencyRow>, dated: bool) -> (out: Vec<LatencyTrend>)
    requires
        latency_rows_in_range(rows@),
        latency_totals_fit(rows@, dated),
    ensures
        trend_views(out@) == latency_trends(rows@, dated),
{
    let mut out: Vec<LatencyTrend> = Vec::new();
    if !dated {
        if rows.len() == 0 {
            assert(trend_views(out@) =~= Seq::empty());
            return out;
        }
        let b = collect_buckets(rows, None);
        push_group(&mut out, &None, &b);
        assert(trend_views(out@) =~= latency_trends(rows@, dated));
        return out;
    }
    let mut rk: Vec<Vec<char>> = Vec::new();
    for i in 0..rows.len()
        invariant
            rk.len() == i,
            forall|k: int| 0 <= k < i ==> (#[trigger] rk@[k])@ == rows@[k].day@,
    {
        rk.push(chars_of(rows[i].day.as_str()));
    }
    assert(views(rk@) =~= latency_days(rows@));
    let (keys, rep) = distinct_sorted(&rk);
    let ghost ds = views(keys@);
    for t in 0..keys.len()
        invariant
            ds == views(keys@),
            ds == crate::text::sorted_keys(latency_days(rows@)),
            rep.len() == keys.len(),
            rk.len() == rows.len(),
            forall|k: int| 0 <= k < rows.len() ==> (#[trigger] rk@[k])@ == rows@[k].day@,
            forall|j: int|
                0 <= j < keys.len() ==> (#[trigger] rep@[j]) < rk.len() && rk@[rep@[j] as int]@
                    == keys@[j]@,
            trend_views(out@) == dated_trends(ds.take(t as int), rows@),
            latency_rows_in_range(rows@),
            latency_totals_fit(rows@, dated),
            dated,
    {
        let r = rep[t];
        let day = rows[r].day.clone();
        proof {
            assert(ds[t as int] == keys@[t as int]@);
            assert(day@ == ds[t as int]);
            assert(ds.take(t + 1).drop_last() =~= ds.take(t as int));
            assert(ds.take(t + 1).last() == ds[t as int]);
            let _ = merged_buckets(rows@, Some(day@));
            assert(buckets_fit(rows@, Some(ds[t as int])) && i64::MIN <= sum_counts(
                latency_buckets(rows@, Some(ds[t as int])),
            ) <= i64::MAX);
        }
        let b = collect_buckets(rows, Some(&day));
        let date = Some(day);
        push_group(&mut out, &date, &b);
    }
    assert(ds.take(keys.len() as int) =~= ds);
    out
}

} // verus!

verus! {

// ---- Grouping for /usage/errors and /usage/languages ---------------------

/// The date a row is grouped under: its day when dated, else none.
pub open spec fn row_date(r: UsageDailyRow, dated: bool) -> Option<Seq<char>> {
    if dated {
        Some(r.day@)
    } else {
        None
    }
}

/// The group key of a row: `(date, status, error slug)` for errors,
/// `(date, 0, language)` for languages.
pub open spec fn row_key(r: UsageDailyRow, dated: bool, by_language: bool) -> (
    Option<Seq<char>>,
    i64,
    Seq<char>,
) {
    if by_language {
        (row_date(r, dated), 0, r.language@)
    } else {
        (row_date(r, dated), r.status, r.error_slug@)
    }
}

/// Errors count only 4xx and 5xx rows; languages count every row.
pub open spec fn row_counted(r: UsageDailyRow, by_language: bool) -> bool {
    by_language || r.status >= 400
}

pub open spec fn group_key(g: (Option<Seq<char>>, i64, Seq<char>, int)) -> (
    Option<Seq<char>>,
    i64,
    Seq<char>,
) {
    (g.0, g.1, g.2)
}

/// Index of the group with key `k`, or -1.
pub open spec fn key_index(
    g: Seq<(Option<Seq<char>>, i64, Seq<char>, int)>,
    k: (Option<Seq<char>>, i64, Seq<char>),
) -> int
    decreases g.len(),
{
    if g.len() == 0 {
        -1
    } else {
        let i = key_index(g.drop_last(), k);
        if i >= 0 {
            i
        } else if group_key(g.last()) == k {
            g.len() - 1
        } else {
            -1
        }
    }
}

/// The groups of the counted rows, in order of first appearance, each with
/// the exact sum of its rows' request counts.
pub open spec fn groups_of(rows: Seq<UsageDailyRow>, dated: bool, by_language: bool) -> Seq<
    (Option<Seq<char>>, i64, Seq<char>, int),
>
    decreases rows.len(),
{
    if rows.len() == 0 {
        Seq::empty()
    } else {
        let g = groups_of(rows.drop_last(), dated, by_language);
        let r = rows.last();
        if !row_counted(r, by_language) {
            g
        } else {
            let k = row_key(r, dated, by_language);
            let i = key_index(g, k);
            if i >= 0 {
                g.update(i, (k.0, k.1, k.2, g[i].3 + r.request_count))
            } else {
                g.push((k.0, k.1, k.2, r.request_count as int))
            }
        }
    }
}

proof fn lemma_key_index(
    g: Seq<(Option<Seq<char>>, i64, Seq<char>, int)>,
    k: (Option<Seq<char>>, i64, Seq<char>),
    j: int,
)
    requires
        0 <= j <= g.len(),
        forall|a: int| 0 <= a < j ==> group_key(#[trigger] g[a]) != k,
        j < g.len() ==> group_key(g[j]) == k,
    ensures
        key_index(g, k) == (if j < g.len() {
            j
        } else {
            -1
        }),
    decreases g.len(),
{
    if g.len() > 0 {
        let t = g.drop_last();
        if j < g.len() - 1 {
            lemma_key_index(t, k, j);
        } else {
            assert forall|a: int| 0 <= a < t.len() implies group_key(#[trigger] t[a]) != k by {
                assert(t[a] == g[a]);
            }
            lemma_key_index(t, k, t.len() as int);
        }
    }
}

/// An aggregation group: date, status, name and the exact sum.
struct Group {
    date: Option<Vec<char>>,
    status: i64,
    name: Vec<char>,
    sum: i128,
}

spec fn opt_chars(d: Option<Vec<char>>) -> Option<Seq<char>> {
    match d {
        Some(v) => Some(v@),
        None => None,
    }
}

spec fn group_view(g: Group) -> (Option<Seq<char>>, i64, Seq<char>, int) {
    (opt_chars(g.date), g.status, g.name@, g.sum as int)
}

spec fn group_views(s: Seq<Group>) -> Seq<(Option<Seq<char>>, i64, Seq<char>, int)> {
    s.map_values(|g: Group| group_view(g))
}

fn opt_chars_eq(a: &Option<Vec<char>>, b: &Option<Vec<char>>) -> (r: bool)
    ensures
        r == (opt_chars(*a) == opt_chars(*b)),
{
    match (a, b) {
        (Some(x), Some(y)) => chars_eq(x, y),
        (None, None) => true,
        _ => false,
    }
}

fn clone_opt_chars(a: &Option<Vec<char>>) -> (r: Option<Vec<char>>)
    ensures
        opt_chars(r) == opt_chars(*a),
{
    match a {
        Some(x) => Some(x.clone()),
        None => None,
    }
}

/// Groups the counted rows, each sum exact.
fn group_rows(rows: &Vec<UsageDailyRow>, dated: bool, by_language: bool) -> (gs: Vec<Group>)
    ensures
        group_views(gs@) == groups_of(rows@, dated, by_language),
{
    let mut gs: Vec<Group> = Vec::new();
    for i in 0..rows.len()
        invariant
            group_views(gs@) == groups_of(rows@.take(i as int), dated, by_language),
            forall|a: int|
                0 <= a < gs.len() ==> -(i as int) * 0x8000_0000_0000_0000 <= (#[trigger] gs@[a]).sum
                    <= (i as int) * 0x8000_0000_0000_0000,
    {
        let ghost prev = rows@.take(i as int);
        proof {
            assert(rows@.take(i + 1).drop_last() =~= prev);
            assert(rows@.take(i + 1).last() == rows@[i as int]);
        }
        let row = &rows[i];
        if by_language || row.status >= 400 {
            let date = if dated {
                Some(chars_of(row.day.as_str()))
            } else {
                None
            };
            let status: i64 = if by_language {
                0
            } else {
                row.status
            };
            let name = if by_language {
                chars_of(row.language.as_str())
            } else {
                chars_of(row.error_slug.as_str())
            };
            let ghost k = row_key(rows@[i as int], dated, by_language);
            assert(opt_chars(date) == k.0 && status == k.1 && name@ == k.2);
            let mut j: usize = 0;
            while j < gs.len()
                invariant
                    j <= gs.len(),
                    forall|a: int|
                        0 <= a < j ==> group_key(#[trigger] group_views(gs@)[a]) != k,
                    opt_chars(date) == k.0 && status == k.1 && name@ == k.2,
                ensures
                    j <= gs.len(),
                    forall|a: int|
                        0 <= a < j ==> group_key(#[trigger] group_views(gs@)[a]) != k,
                    j < gs.len() ==> group_key(group_views(gs@)[j as int]) == k,
                decreases gs.len() - j,
            {
                if opt_chars_eq(&gs[j].date, &date) && gs[j].status == status && chars_eq(
                    &gs[j].name,
                    &name,
                ) {
                    break;
                }
                assert(group_key(group_views(gs@)[j as int]) != k);
                j = j + 1;
            }
            let ghost gv = group_views(gs@);
            proof {
                if j < gs.len() {
                    assert(group_key(gv[j as int]) == k);
                }
                lemma_key_index(gv, k, j as int);
            }
            if j < gs.len() {
                let s = gs[j].sum + row.request_count as i128;
                let d = clone_opt_chars(&gs[j].date);
                let nm = gs[j].name.clone();
                let st = gs[j].status;
                gs.set(j, Group { date: d, status: st, name: nm, sum: s });
                assert(group_views(gs@) =~= gv.update(
                    j as int,
                    (k.0, k.1, k.2, gv[j as int].3 + rows@[i as int].request_count),
                ));
            } else {
                gs.push(Group { date, status, name, sum: row.request_count as i128 });
                assert(group_views(gs@) =~= gv.push(
                    (k.0, k.1, k.2, rows@[i as int].request_count as int),
                ));
            }
        }
    }
    assert(rows@.take(rows.len() as int) =~= rows@);
    gs
}

/// A `String` from optional chars.
fn opt_string(d: &Option<Vec<char>>) -> (r: Option<String>)
    ensures
        opt_view(r) == opt_chars(*d),
{
    match d {
        Some(v) => Some(crate::text::string_from_chars(v)),
        None => None,
    }
}

/// `None` sorts before any date; dates sort as strings.
pub open spec fn opt_lt(a: Option<Seq<char>>, b: Option<Seq<char>>) -> bool {
    match (a, b) {
        (None, Some(_)) => true,
        (Some(x), Some(y)) => seq_lt(x, y),
        _ => false,
    }
}

proof fn lemma_opt_lt(a: Option<Seq<char>>, b: Option<Seq<char>>, c: Option<Seq<char>>)
    ensures
        !opt_lt(a, a),
        opt_lt(a, b) && opt_lt(b, c) ==> opt_lt(a, c),
        opt_lt(a, b) ==> !opt_lt(b, a),
{
    if a is Some {
        lemma_seq_lt_irreflexive(a->0);
    }
    if a is Some && b is Some && c is Some && opt_lt(a, b) && opt_lt(b, c) {
        lemma_seq_lt_transitive(a->0, b->0, c->0);
    }
    if a is Some && b is Some && opt_lt(a, b) {
        lemma_seq_lt_asymmetric(a->0, b->0);
    }
}

fn str_lt(a: &String, b: &String) -> (r: bool)
    ensures
        r == seq_lt(a@, b@),
{
    chars_lt(&chars_of(a.as_str()), &chars_of(b.as_str()))
}

fn opt_str_lt(a: &Option<String>, b: &Option<String>) -> (r: bool)
    ensures
        r == opt_lt(opt_view(*a), opt_view(*b)),
{
    match (a, b) {
        (None, Some(_)) => true,
        (Some(x), Some(y)) => str_lt(x, y),
        _ => false,
    }
}

fn opt_str_eq(a: &Option<String>, b: &Option<String>) -> (r: bool)
    ensures
        r == (opt_view(*a) == opt_view(*b)),
{
    match (a, b) {
        (Some(x), Some(y)) => *x == *y,
        (None, None) => true,
        _ => false,
    }
}

} // verus!

verus! {

// ---- /usage/errors --------------------------------------------------------

/// A `/usage/errors` row, carrying both the status and the error slug.
#[derive(Debug)]
pub struct ErrorTrend {
    pub date: Option<String>,
    pub status: u16,
    pub error_code: String,
    pub count: u64,
}

pub open spec fn error_view(e: ErrorTrend) -> (Option<Seq<char>>, u16, Seq<char>, u64) {
    (opt_view(e.date), e.status, e.error_code@, e.count)
}

pub open spec fn error_views(s: Seq<ErrorTrend>) -> Seq<(Option<Seq<char>>, u16, Seq<char>, u64)> {
    s.map_values(|e: ErrorTrend| error_view(e))
}

/// The rendered entry of an error group.
pub open spec fn error_entry(g: (Option<Seq<char>>, i64, Seq<char>, int)) -> (
    Option<Seq<char>>,
    u16,
    Seq<char>,
    u64,
) {
    (g.0, g.1 as u16, g.2, g.3 as u64)
}

/// The error entries of the rows, one per `(date, status, slug)` group of
/// 4xx/5xx rows, in order of first appearance.
pub open spec fn error_entries(rows: Seq<UsageDailyRow>, dated: bool) -> Seq<
    (Option<Seq<char>>, u16, Seq<char>, u64),
> {
    groups_of(rows, dated, false).map_values(
        |g: (Option<Seq<char>>, i64, Seq<char>, int)| error_entry(g),
    )
}

/// `a` sorts strictly before `b`: by date, then by count descending, then by
/// error code.
pub open spec fn error_before(
    a: (Option<Seq<char>>, u16, Seq<char>, u64),
    b: (Option<Seq<char>>, u16, Seq<char>, u64),
) -> bool {
    opt_lt(a.0, b.0) || (a.0 == b.0 && (a.3 > b.3 || (a.3 == b.3 && seq_lt(a.2, b.2))))
}

pub open spec fn errors_sorted(s: Seq<(Option<Seq<char>>, u16, Seq<char>, u64)>) -> bool {
    forall|i: int, j: int| 0 <= i < j < s.len() ==> !error_before(s[j], s[i])
}

proof fn lemma_error_before(
    a: (Option<Seq<char>>, u16, Seq<char>, u64),
    b: (Option<Seq<char>>, u16, Seq<char>, u64),
    c: (Option<Seq<char>>, u16, Seq<char>, u64),
)
    ensures
        !error_before(a, a),
        error_before(a, b) && error_before(b, c) ==> error_before(a, c),
{
    lemma_opt_lt(a.0, b.0, c.0);
    lemma_opt_lt(b.0, c.0, a.0);
    lemma_opt_lt(c.0, a.0, b.0);
    lemma_seq_lt_irreflexive(a.2);
    if error_before(a, b) && error_before(b, c) && a.0 == b.0 && b.0 == c.0 && a.3 == b.3 && b.3
        == c.3 {
        lemma_seq_lt_transitive(a.2, b.2, c.2);
    }
}

fn error_lt(a: &ErrorTrend, b: &ErrorTrend) -> (r: bool)
    ensures
        r == error_before(error_view(*a), error_view(*b)),
{
    if opt_str_lt(&a.date, &b.date) {
        return true;
    }
    if !opt_str_eq(&a.date, &b.date) {
        return false;
    }
    if a.count != b.count {
        return a.count > b.count;
    }
    str_lt(&a.error_code, &b.error_code)
}

/// Insertion sort under `error_before`.
fn sort_errors(v: Vec<ErrorTrend>) -> (out: Vec<ErrorTrend>)
    ensures
        error_views(out@).to_multiset() == error_views(v@).to_multiset(),
        errors_sorted(error_views(out@)),
{
    broadcast use vstd::seq_lib::group_to_multiset_ensures;

    let mut out: Vec<ErrorTrend> = Vec::new();
    let mut rest = v;
    let ghost all = error_views(rest@);
    let ghost mut done: Seq<(Option<Seq<char>>, u16, Seq<char>, u64)> = Seq::empty();
    while rest.len() > 0
        invariant
            done + error_views(rest@).reverse() =~= all.reverse(),
            error_views(out@).to_multiset() == done.to_multiset(),
            errors_sorted(error_views(out@)),
        decreases rest.len(),
    {
        let ghost rv = error_views(rest@);
        let x = rest.pop().unwrap();
        let ghost xv = error_view(x);
        proof {
            assert(rv == error_views(rest@).push(xv));
            assert(rv.reverse() =~= seq![xv] + error_views(rest@).reverse());
        }
        let mut j: usize = 0;
        while j < out.len() && !error_lt(&x, &out[j])
            invariant
                j <= out.len(),
                forall|a: int|
                    0 <= a < j ==> !error_before(error_view(x), #[trigger] error_view(out@[a])),
            decreases out.len() - j,
        {
            j = j + 1;
        }
        let ghost ov = error_views(out@);
        proof {
            assert forall|a: int, b: int| 0 <= a < b < ov.len() + 1 implies !error_before(
                #[trigger] ov.insert(j as int, xv)[b],
                #[trigger] ov.insert(j as int, xv)[a],
            ) by {
                let r = ov.insert(j as int, xv);
                if b < j {
                    assert(r[a] == ov[a] && r[b] == ov[b]);
                } else if b == j {
                    assert(r[a] == ov[a]);
                    assert(ov[a] == error_view(out@[a]));
                } else if a > j {
                    assert(r[a] == ov[a - 1] && r[b] == ov[b - 1]);
                } else if a == j {
                    assert(r[b] == ov[b - 1]);
                    lemma_error_before(ov[b - 1], xv, ov[j as int]);
                    lemma_error_before(ov[j as int], xv, xv);
                    if b - 1 > j {
                        assert(!error_before(ov[b - 1], ov[j as int]));
                    }
                } else {
                    assert(r[a] == ov[a] && r[b] == ov[b - 1]);
                }
            }
        }
        out.insert(j, x);
        proof {
            assert(error_views(out@) =~= ov.insert(j as int, xv));
            vstd::seq_lib::to_multiset_insert(ov, j as int, xv);
            vstd::seq_lib::to_multiset_build(done, xv);
            done = done.push(xv);
        }
    }
    proof {
        assert(all.reverse().reverse() =~= all);
        assert(done.reverse().reverse() =~= done);
        done.lemma_reverse_to_multiset();
        all.lemma_reverse_to_multiset();
    }
    out
}

} // verus!

verus! {

/// `/usage/errors`: one entry per `(date, status, error slug)` among the
/// 4xx/5xx rows (success never appears), dated only when `dated`, ordered by
/// date, then count descending, then error code. Entries that tie on all
/// three (same code, different status) may come in either order.
pub fn aggregate_errors(rows: &Vec<UsageDailyRow>, dated: bool) -> (out: Vec<ErrorTrend>)
    ensures
        error_views(out@).to_multiset() == error_entries(rows@, dated).to_multiset(),
        errors_sorted(error_views(out@)),
{
    let gs = group_rows(rows, dated, false);
    let ghost gv = group_views(gs@);
    let mut v: Vec<ErrorTrend> = Vec::new();
    for t in 0..gs.len()
        invariant
            gv == group_views(gs@),
            error_views(v@) == gv.take(t as int).map_values(
                |g: (Option<Seq<char>>, i64, Seq<char>, int)| error_entry(g),
            ),
    {
        let g = &gs[t];
        let e = ErrorTrend {
            date: opt_string(&g.date),
            status: g.status as u16,
            error_code: crate::text::string_from_chars(&g.name),
            count: g.sum as u64,
        };
        let ghost before = error_views(v@);
        v.push(e);
        proof {
            assert(gv[t as int] == group_view(gs@[t as int]));
            assert(gv.take(t + 1) =~= gv.take(t as int).push(gv[t as int]));
            assert(error_views(v@) =~= before.push(error_entry(gv[t as int])));
            assert(gv.take(t + 1).map_values(
                |g: (Option<Seq<char>>, i64, Seq<char>, int)| error_entry(g),
            ) =~= gv.take(t as int).map_values(
                |g: (Option<Seq<char>>, i64, Seq<char>, int)| error_entry(g),
            ).push(error_entry(gv[t as int])));
        }
    }
    assert(gv.take(gs.len() as int) =~= gv);
    sort_errors(v)
}

} // verus!

verus! {

// ---- /usage/languages -----------------------------------------------------

/// A `/usage/languages` row. The share of the date's requests is carried in
/// tenths of a percent (`800` is 80.0%).
#[derive(Debug)]
pub struct LanguageDistribution {
    pub date: Option<String>,
    pub language: String,
    pub count: u64,
    pub percentage_tenths: i128,
}

pub open spec fn language_view(l: LanguageDistribution) -> (Option<Seq<char>>, Seq<char>, u64, int) {
    (opt_view(l.date), l.language@, l.count, l.percentage_tenths as int)
}

pub open spec fn language_views(s: Seq<LanguageDistribution>) -> Seq<
    (Option<Seq<char>>, Seq<char>, u64, int),
> {
    s.map_values(|l: LanguageDistribution| language_view(l))
}

/// Requests of every row grouped under the date `d`: the denominator of the
/// shares, taken over the same (scope-filtered) rows as the counts.
pub open spec fn total_on(rows: Seq<UsageDailyRow>, dated: bool, d: Option<Seq<char>>) -> int
    decreases rows.len(),
{
    if rows.len() == 0 {
        0
    } else {
        total_on(rows.drop_last(), dated, d) + (if row_date(rows.last(), dated) == d {
            rows.last().request_count as int
        } else {
            0
        })
    }
}

/// `count / total` in tenths of a percent, rounded half away from zero;
/// zero when the total is not positive.
pub open spec fn tenths_of(count: int, total: int) -> int {
    if total > 0 {
        round_div(1000 * count, total)
    } else {
        0
    }
}

/// The rendered entry of a language group.
pub open spec fn language_entry(
    g: (Option<Seq<char>>, i64, Seq<char>, int),
    rows: Seq<UsageDailyRow>,
    dated: bool,
) -> (Option<Seq<char>>, Seq<char>, u64, int) {
    (g.0, g.2, g.3 as u64, tenths_of(g.3, total_on(rows, dated, g.0)))
}

/// The language entries of the rows, one per `(date, language)` group, in
/// order of first appearance.
pub open spec fn language_entries(rows: Seq<UsageDailyRow>, dated: bool) -> Seq<
    (Option<Seq<char>>, Seq<char>, u64, int),
> {
    groups_of(rows, dated, true).map_values(
        |g: (Option<Seq<char>>, i64, Seq<char>, int)| language_entry(g, rows, dated),
    )
}

/// Every group sum and every date total fits an `i64`.
pub open spec fn language_sums_fit(rows: Seq<UsageDailyRow>, dated: bool) -> bool {
    &&& forall|i: int|
        0 <= i < groups_of(rows, dated, true).len() ==> i64::MIN <= #[trigger] groups_of(
            rows,
            dated,
            true,
        )[i].3 <= i64::MAX
    &&& forall|d: Option<Seq<char>>| i64::MIN <= #[trigger] total_on(rows, dated, d) <= i64::MAX
}

/// `a` sorts strictly before `b`: by date, then by count descending, then by
/// language.
pub open spec fn language_before(
    a: (Option<Seq<char>>, Seq<char>, u64, int),
    b: (Option<Seq<char>>, Seq<char>, u64, int),
) -> bool {
    opt_lt(a.0, b.0) || (a.0 == b.0 && (a.2 > b.2 || (a.2 == b.2 && seq_lt(a.1, b.1))))
}

pub open spec fn languages_sorted(s: Seq<(Option<Seq<char>>, Seq<char>, u64, int)>) -> bool {
    forall|i: int, j: int| 0 <= i < j < s.len() ==> !language_before(s[j], s[i])
}

proof fn lemma_language_before(
    a: (Option<Seq<char>>, Seq<char>, u64, int),
    b: (Option<Seq<char>>, Seq<char>, u64, int),
    c: (Option<Seq<char>>, Seq<char>, u64, int),
)
    ensures
        !language_before(a, a),
        language_before(a, b) && language_before(b, c) ==> language_before(a, c),
{
    lemma_opt_lt(a.0, b.0, c.0);
    lemma_opt_lt(b.0, c.0, a.0);
    lemma_opt_lt(c.0, a.0, b.0);
    lemma_seq_lt_irreflexive(a.1);
    if language_before(a, b) && language_before(b, c) && a.0 == b.0 && b.0 == c.0 && a.2 == b.2
        && b.2 == c.2 {
        lemma_seq_lt_transitive(a.1, b.1, c.1);
    }
}

fn language_lt(a: &LanguageDistribution, b: &LanguageDistribution) -> (r: bool)
    ensures
        r == language_before(language_view(*a), language_view(*b)),
{
    if opt_str_lt(&a.date, &b.date) {
        return true;
    }
    if !opt_str_eq(&a.date, &b.date) {
        return false;
    }
    if a.count != b.count {
        return a.count > b.count;
    }
    str_lt(&a.language, &b.language)
}

/// Insertion sort under `language_before`.
fn sort_languages(v: Vec<LanguageDistribution>) -> (out: Vec<LanguageDistribution>)
    ensures
        language_views(out@).to_multiset() == language_views(v@).to_multiset(),
        languages_sorted(language_views(out@)),
{
    broadcast use vstd::seq_lib::group_to_multiset_ensures;

    let mut out: Vec<LanguageDistribution> = Vec::new();
    let mut rest = v;
    let ghost all = language_views(rest@);
    let ghost mut done: Seq<(Option<Seq<char>>, Seq<char>, u64, int)> = Seq::empty();
    while rest.len() > 0
        invariant
            done + language_views(rest@).reverse() =~= all.reverse(),
            language_views(out@).to_multiset() == done.to_multiset(),
            languages_sorted(language_views(out@)),
        decreases rest.len(),
    {
        let ghost rv = language_views(rest@);
        let x = rest.pop().unwrap();
        let ghost xv = language_view(x);
        proof {
            assert(rv == language_views(rest@).push(xv));
            assert(rv.reverse() =~= seq![xv] + language_views(rest@).reverse());
        }
        let mut j: usize = 0;
        while j < out.len() && !language_lt(&x, &out[j])
            invariant
                j <= out.len(),
                forall|a: int|
                    0 <= a < j ==> !language_before(language_view(x), #[trigger] language_view(out@[a])),
            decreases out.len() - j,
        {
            j = j + 1;
        }
        let ghost ov = language_views(out@);
        proof {
            assert forall|a: int, b: int| 0 <= a < b < ov.len() + 1 implies !language_before(
                #[trigger] ov.insert(j as int, xv)[b],
                #[trigger] ov.insert(j as int, xv)[a],
            ) by {
                let r = ov.insert(j as int, xv);
                if b < j {
                    assert(r[a] == ov[a] && r[b] == ov[b]);
                } else if b == j {
                    assert(r[a] == ov[a]);
                    assert(ov[a] == language_view(out@[a]));
                } else if a > j {
                    assert(r[a] == ov[a - 1] && r[b] == ov[b - 1]);
                } else if a == j {
                    assert(r[b] == ov[b - 1]);
                    lemma_language_before(ov[b - 1], xv, ov[j as int]);
                    lemma_language_before(ov[j as int], xv, xv);
                    if b - 1 > j {
                        assert(!language_before(ov[b - 1], ov[j as int]));
                    }
                } else {
                    assert(r[a] == ov[a] && r[b] == ov[b - 1]);
                }
            }
        }
        out.insert(j, x);
        proof {
            assert(language_views(out@) =~= ov.insert(j as int, xv));
            vstd::seq_lib::to_multiset_insert(ov, j as int, xv);
            vstd::seq_lib::to_multiset_build(done, xv);
            done = done.push(xv);
        }
    }
    proof {
        assert(all.reverse().reverse() =~= all);
        assert(done.reverse().reverse() =~= done);
        done.lemma_reverse_to_multiset();
        all.lemma_reverse_to_multiset();
    }
    out
}


/// The requests of every row grouped under `date`, exactly.
fn total_for(rows: &Vec<UsageDailyRow>, dated: bool, date: &Option<Vec<char>>) -> (t: i128)
    ensures
        t == total_on(rows@, dated, opt_chars(*date)),
{
    let mut t: i128 = 0;
    for i in 0..rows.len()
        invariant
            t == total_on(rows@.take(i as int), dated, opt_chars(*date)),
            -(i as int) * 0x8000_0000_0000_0000 <= t <= (i as int) * 0x8000_0000_0000_0000,
    {
        proof {
            assert(rows@.take(i + 1).drop_last() =~= rows@.take(i as int));
            assert(rows@.take(i + 1).last() == rows@[i as int]);
        }
        let same = if dated {
            match date {
                Some(d) => chars_eq(&chars_of(rows[i].day.as_str()), d),
                None => false,
            }
        } else {
            date.is_none()
        };
        if same {
            t = t + rows[i].request_count as i128;
        }
    }
    assert(rows@.take(rows.len() as int) =~= rows@);
    t
}

fn tenths(count: i128, total: i128) -> (r: i128)
    requires
        i64::MIN <= count <= i64::MAX,
        i64::MIN <= total <= i64::MAX,
    ensures
        r == tenths_of(count as int, total as int),
{
    if total <= 0 {
        return 0;
    }
    let v = 1000 * count;
    if v >= 0 {
        (2 * v + total) / (2 * total)
    } else {
        let nv: i128 = 0 - v;
        0 - (2 * nv + total) / (2 * total)
    }
}

fn total_on_exec(rows: &Vec<UsageDailyRow>, dated: bool, d: &Option<Vec<char>>) -> (t: i128)
    ensures
        t == total_on(rows@, dated, opt_chars(*d)),
{
    let mut t: i128 = 0;
    let mut i: usize = 0;
    while i < rows.len()
        invariant
            i <= rows.len(),
            t == total_on(rows@.take(i as int), dated, opt_chars(*d)),
            -(i as int) * 0x8000_0000_0000_0000 <= t <= (i as int) * 0x8000_0000_0000_0000,
        decreases rows.len() - i,
    {
        assert(rows@.take(i + 1).drop_last() =~= rows@.take(i as int));
        let date = if dated {
            Some(chars_of(rows[i].day.as_str()))
        } else {
            None
        };
        if opt_chars_eq(&date, d) {
            t = t + rows[i].request_count as i128;
        }
        i = i + 1;
    }
    assert(rows@.take(rows.len() as int) =~= rows@);
    t
}

proof fn lemma_total_on_absent(rows: Seq<UsageDailyRow>, dated: bool, d: Option<Seq<char>>)
    requires
        forall|k: int| 0 <= k < rows.len() ==> row_date(#[trigger] rows[k], dated) != d,
    ensures
        total_on(rows, dated, d) == 0,
    decreases rows.len(),
{
    if rows.len() > 0 {
        let t = rows.drop_last();
        assert forall|k: int| 0 <= k < t.len() implies row_date(#[trigger] t[k], dated) != d by {
            assert(t[k] == rows[k]);
        }
        lemma_total_on_absent(t, dated, d);
    }
}

/// Whether `aggregate_languages` may run on the rows: every language
/// group's sum and every date's total fit an `i64`.
pub fn language_inputs_fit(rows: &Vec<UsageDailyRow>, dated: bool) -> (r: bool)
    ensures
        r == language_sums_fit(rows@, dated),
{
    let gs = group_rows(rows, dated, true);
    let ghost gv = groups_of(rows@, dated, true);
    for a in 0..gs.len()
        invariant
            group_views(gs@) == gv,
            gv == groups_of(rows@, dated, true),
            forall|j: int| 0 <= j < a ==> i64::MIN <= #[trigger] gv[j].3 <= i64::MAX,
    {
        assert(gv[a as int].3 == gs@[a as int].sum);
        if gs[a].sum < i64::MIN as i128 || gs[a].sum > i64::MAX as i128 {
            return false;
        }
    }
    for i in 0..rows.len()
        invariant
            forall|j: int| 0 <= j < gv.len() ==> i64::MIN <= #[trigger] gv[j].3 <= i64::MAX,
            gv == groups_of(rows@, dated, true),
            forall|k: int|
                0 <= k < i ==> i64::MIN <= total_on(rows@, dated, row_date(#[trigger] rows@[k], dated))
                    <= i64::MAX,
    {
        let date = if dated {
            Some(chars_of(rows[i].day.as_str()))
        } else {
            None
        };
        let t = total_on_exec(rows, dated, &date);
        if t < i64::MIN as i128 || t > i64::MAX as i128 {
            assert(opt_chars(date) == row_date(rows@[i as int], dated));
            return false;
        }
        assert(opt_chars(date) == row_date(rows@[i as int], dated));
    }
    assert forall|d: Option<Seq<char>>|
        i64::MIN <= #[trigger] total_on(rows@, dated, d) <= i64::MAX by {
        if exists|k: int| 0 <= k < rows.len() && row_date(#[trigger] rows@[k], dated) == d {
            let k = choose|k: int| 0 <= k < rows.len() && row_date(#[trigger] rows@[k], dated) == d;
            assert(row_date(rows@[k], dated) == d);
        } else {
            lemma_total_on_absent(rows@, dated, d);
        }
    }
    true
}

/// `/usage/languages`: one entry per `(date, language)` (dated only when
/// `dated`), with its share of the same date's total over the same rows,
/// ordered by date, then count descending, then language.
pub fn aggregate_languages(rows: &Vec<UsageDailyRow>, dated: bool) -> (out: Vec<LanguageDistribution>)
    requires
        language_sums_fit(rows@, dated),
    ensures
        language_views(out@).to_multiset() == language_entries(rows@, dated).to_multiset(),
        languages_sorted(language_views(out@)),
{
    let gs = group_rows(rows, dated, true);
    let ghost gv = group_views(gs@);
    let mut v: Vec<LanguageDistribution> = Vec::new();
    for t in 0..gs.len()
        invariant
            gv == group_views(gs@),
            gv == groups_of(rows@, dated, true),
            language_sums_fit(rows@, dated),
            language_views(v@) == gv.take(t as int).map_values(
                |g: (Option<Seq<char>>, i64, Seq<char>, int)| language_entry(g, rows@, dated),
            ),
    {
        let g = &gs[t];
        proof {
            assert(gv[t as int] == group_view(gs@[t as int]));
            assert(i64::MIN <= gv[t as int].3 <= i64::MAX);
        }
        let total = total_for(rows, dated, &g.date);
        proof {
            assert(i64::MIN <= total_on(rows@, dated, opt_chars(g.date)) <= i64::MAX);
        }
        let e = LanguageDistribution {
            date: opt_string(&g.date),
            language: crate::text::string_from_chars(&g.name),
            count: g.sum as u64,
            percentage_tenths: tenths(g.sum, total),
        };
        let ghost before = language_views(v@);
        v.push(e);
        proof {
            assert(gv.take(t + 1) =~= gv.take(t as int).push(gv[t as int]));
            assert(language_views(v@) =~= before.push(language_entry(gv[t as int], rows@, dated)));
            assert(gv.take(t + 1).map_values(
                |g: (Option<Seq<char>>, i64, Seq<char>, int)| language_entry(g, rows@, dated),
            ) =~= gv.take(t as int).map_values(
                |g: (Option<Seq<char>>, i64, Seq<char>, int)| language_entry(g, rows@, dated),
            ).push(language_entry(gv[t as int], rows@, dated)));
        }
    }
    assert(gv.take(gs.len() as int) =~= gv);
    sort_languages(v)
}

} // verus!

verus! {

// ---- Reporting windows ---------------------------------------------------

/// Days a rollup row is kept before the purge.
pub const RETENTION_DAYS: i64 = 90;

/// The language and error slug a response is recorded under: the language
/// it was checked in, or `unknown` when none was resolved; the slug of its
/// error, `internal-error` for an error response without one, or empty for
/// a success.
pub fn usage_labels(language: Option<String>, slug: Option<String>, status: u16) -> (r: (String, String))
    ensures
        r.0@ == match language {
            Some(l) => l@,
            None => "unknown"@,
        },
        r.1@ == match slug {
            Some(s) => s@,
            None => if status >= 400 {
                "internal-error"@
            } else {
                Seq::<char>::empty()
            },
        },
{
    let l = match language {
        Some(l) => l,
        None => "unknown".to_string(),
    };
    let e = match slug {
        Some(s) => s,
        None => if status >= 400 {
            "internal-error".to_string()
        } else {
            String::new()
        },
    };
    (l, e)
}

/// Seconds between two drains of the usage buffer into the store.
pub const FLUSH_INTERVAL_SECS: u64 = 10;

/// Length of the default window when no billing period applies.
pub const DEFAULT_WINDOW_DAYS: i64 = 30;

pub const SECONDS_PER_DAY: i64 = 86_400;

/// The optional `start`/`end` query parameters of the `/usage/*` endpoints.
#[derive(Debug)]
pub struct UsageQuery {
    pub start: Option<String>,
    pub end: Option<String>,
}

/// An inclusive `YYYY-MM-DD` range. `dated` records whether the caller gave
/// an explicit window, which selects the per-date shape of the reports.
#[derive(Debug)]
pub struct Window {
    pub start: String,
    pub end: String,
    pub dated: bool,
}

/// The epoch day of a billing-period timestamp.
pub open spec fn period_day(ts: u64) -> int {
    trunc_div((ts as i64) as int, SECONDS_PER_DAY as int)
}

/// The window a query resolves to, as `(start, end, dated)`, or the message
/// of the `InvalidDateRange` error it is refused with.
pub open spec fn window_outcome(
    start: Option<Seq<char>>,
    end: Option<Seq<char>>,
    period: Option<(u64, u64)>,
    today: int,
) -> Result<(Seq<char>, Seq<char>, bool), Seq<char>> {
    match (start, end) {
        (Some(s), Some(e)) => match (parse_day_text(s), parse_day_text(e)) {
            (None, _) => Err("invalid start date: "@ + s),
            (Some(_), None) => Err("invalid end date: "@ + e),
            (Some(sd), Some(ed)) => if sd > ed {
                Err("start must not be after end"@)
            } else if ed - sd >= RETENTION_DAYS {
                Err("range must span fewer than 90 days of retained data"@)
            } else {
                Ok((day_text(sd), day_text(ed), true))
            },
        },
        (None, None) => match period {
            Some((a, b)) => Ok((day_text(period_day(a)), day_text(period_day(b)), false)),
            None => Ok((day_text(today - DEFAULT_WINDOW_DAYS + 1), day_text(today), false)),
        },
        _ => Err("start and end must be supplied together"@),
    }
}

/// Law: a dated window that resolves is in order, spans fewer than the 90
/// retained days, and its bounds read back as the days that were asked for.
pub proof fn lemma_dated_window_in_retention(
    s: Seq<char>,
    e: Seq<char>,
    period: Option<(u64, u64)>,
    today: int,
)
    ensures
        window_outcome(Some(s), Some(e), period, today) is Ok ==> ({
            let w = window_outcome(Some(s), Some(e), period, today)->Ok_0;
            &&& w.2
            &&& parse_day_text(s) is Some && parse_day_text(e) is Some
            &&& 0 <= parse_day_text(e)->0 - parse_day_text(s)->0 < RETENTION_DAYS
            &&& parse_day_text(w.0) == parse_day_text(s)
            &&& parse_day_text(w.1) == parse_day_text(e)
        }),
{
    if window_outcome(Some(s), Some(e), period, today) is Ok {
        lemma_parsed_day_prints_back(s);
        lemma_parsed_day_prints_back(e);
    }
}

/// `r` is what a query resolves to on day `today`.
pub open spec fn resolved_as(
    r: Result<Window, AppError>,
    start: Option<Seq<char>>,
    end: Option<Seq<char>>,
    period: Option<(u64, u64)>,
    today: int,
) -> bool {
    match r {
        Ok(w) => window_outcome(start, end, period, today) == Ok::<
            (Seq<char>, Seq<char>, bool),
            Seq<char>,
        >((w.start@, w.end@, w.dated)),
        Err(e) => e matches AppError::InvalidDateRange(m) && window_outcome(start, end, period, today)
            == Err::<(Seq<char>, Seq<char>, bool), Seq<char>>(m@),
    }
}

fn invalid_range(prefix: &str, s: &String) -> (e: AppError)
    ensures
        e matches AppError::InvalidDateRange(m) && m@ == prefix@ + s@,
{
    let mut m = prefix.to_string();
    push_all(&mut m, &chars_of(s.as_str()));
    AppError::InvalidDateRange(m)
}

fn period_epoch_day(ts: u64) -> (d: i64)
    ensures
        d == period_day(ts),
        -106_751_991_167_301 <= d <= 106_751_991_167_300,
{
    let v = ts as i64;
    if v >= 0 {
        v / SECONDS_PER_DAY
    } else {
        let nv: i128 = 0 - (v as i128);
        (0 - nv / 86_400) as i64
    }
}

/// The reporting window of a query on day `today`: an explicit `start` and
/// `end` (both `YYYY-MM-DD`, ordered, spanning fewer than the retention
/// window) make a dated window; neither gives the billing period `period`
/// (Unix seconds) when there is one, else the last 30 days; anything else is
/// `InvalidDateRange`.
pub fn resolve_window_at(query: &UsageQuery, period: Option<(u64, u64)>, today: i64) -> (r: Result<
    Window,
    AppError,
>)
    requires
        i64::MIN + DEFAULT_WINDOW_DAYS <= today <= i64::MAX - 719_468,
    ensures
        resolved_as(r, opt_view(query.start), opt_view(query.end), period, today as int),
{
    match (&query.start, &query.end) {
        (Some(start), Some(end)) => explicit_window(start, end),
        (None, None) => Ok(default_window(period, today)),
        _ => Err(AppError::InvalidDateRange("start and end must be supplied together".to_string())),
    }
}

#[verifier::spinoff_prover]
#[verifier::rlimit(100)]
fn explicit_window(start: &String, end: &String) -> (r: Result<Window, AppError>)
    ensures
        resolved_as(r, Some(start@), Some(end@), None, 0),
{
    let ghost ps = parse_day_text(start@);
    let ghost pe = parse_day_text(end@);
    let start_day = match parse_day(start.as_str()) {
        Some(d) => d,
        None => {
            let e = invalid_range("invalid start date: ", start);
            return Err(e);
        },
    };
    let end_day = match parse_day(end.as_str()) {
        Some(d) => d,
        None => {
            let e = invalid_range("invalid end date: ", end);
            return Err(e);
        },
    };
    assert(ps == Some(start_day as int) && pe == Some(end_day as int));
    if start_day > end_day {
        return Err(AppError::InvalidDateRange("start must not be after end".to_string()));
    }
    if end_day - start_day >= RETENTION_DAYS {
        return Err(
            AppError::InvalidDateRange(
                "range must span fewer than 90 days of retained data".to_string(),
            ),
        );
    }
    let w = Window { start: format_day(start_day), end: format_day(end_day), dated: true };
    Ok(w)
}

#[verifier::spinoff_prover]
fn default_window(period: Option<(u64, u64)>, today: i64) -> (w: Window)
    requires
        i64::MIN + DEFAULT_WINDOW_DAYS <= today <= i64::MAX - 719_468,
    ensures
        window_outcome(None, None, period, today as int) == Ok::<
            (Seq<char>, Seq<char>, bool),
            Seq<char>,
        >((w.start@, w.end@, w.dated)),
{
    let (start_day, end_day) = match period {
        Some((a, b)) => (period_epoch_day(a), period_epoch_day(b)),
        None => (today - DEFAULT_WINDOW_DAYS + 1, today),
    };
    Window { start: format_day(start_day), end: format_day(end_day), dated: false }
}

/// Today's epoch day by the system clock (day 0 if the clock reads before
/// the epoch).
pub fn epoch_day_now() -> (d: i64)
    ensures
        0 <= d <= u64::MAX / 86_400,
{
    match unix_seconds_now() {
        Some(secs) => (secs / 86_400) as i64,
        None => 0,
    }
}

/// Seconds since the Unix epoch by `std::time::SystemTime::now`, or `None`
/// when the clock reads before the epoch. Nothing is promised of the value:
/// it is the machine's clock.
#[verifier::external_body]
fn unix_seconds_now() -> (r: Option<u64>) {
    std::time::SystemTime::now().duration_since(std::time::UNIX_EPOCH).ok().map(|d| d.as_secs())
}

/// The reporting window of a query today (see `resolve_window_at`).
pub fn resolve_window(query: &UsageQuery, period: Option<(u64, u64)>) -> (r: Result<Window, AppError>)
    ensures
        exists|today: int|
            0 <= today <= u64::MAX / 86_400 && #[trigger] resolved_as(
                r,
                opt_view(query.start),
                opt_view(query.end),
                period,
                today,
            ),
{
    let today = epoch_day_now();
    resolve_window_at(query, period, today)
}

/// Oldest day kept by the retention purge on day `today`.
pub fn retention_cutoff_day_at(today: i64) -> (s: String)
    requires
        today <= i64::MAX - 719_468,
        today >= i64::MIN + RETENTION_DAYS,
    ensures
        s@ == day_text(today - RETENTION_DAYS),
{
    format_day(today - RETENTION_DAYS)
}

/// Oldest day kept by the retention purge today.
pub fn retention_cutoff_day() -> (s: String)
    ensures
        exists|today: int|
            0 <= today <= u64::MAX / 86_400 && s@ == #[trigger] day_text(today - RETENTION_DAYS),
{
    retention_cutoff_day_at(epoch_day_now())
}

} // verus!

verus! {

// ---- The accumulation buffer ----------------------------------------------

/// Key of a daily usage counter.
#[derive(Debug)]
pub struct DailyKey {
    pub day: String,
    pub tenant_id: String,
    pub language: String,
    pub status: i64,
    /// The error slug; empty for a 2xx answer.
    pub error_slug: String,
}

/// Requests and summed latency (microseconds) under one daily key.
#[derive(Debug, Clone, Copy)]
pub struct DailyCounters {
    pub request_count: i64,
    pub latency_sum_us: i64,
}

/// Key of a latency-bucket counter.
#[derive(Debug)]
pub struct LatencyKey {
    pub day: String,
    pub tenant_id: String,
    pub bucket_le_ms: i64,
}

pub open spec fn daily_key_view(k: DailyKey) -> (Seq<char>, Seq<char>, Seq<char>, i64, Seq<char>) {
    (k.day@, k.tenant_id@, k.language@, k.status, k.error_slug@)
}

pub open spec fn latency_key_view(k: LatencyKey) -> (Seq<char>, Seq<char>, i64) {
    (k.day@, k.tenant_id@, k.bucket_le_ms)
}

/// Daily counters as plain values: key, request count, latency sum.
pub open spec fn daily_entries(s: Seq<(DailyKey, DailyCounters)>) -> Seq<
    ((Seq<char>, Seq<char>, Seq<char>, i64, Seq<char>), i64, i64),
> {
    s.map_values(
        |e: (DailyKey, DailyCounters)|
            (daily_key_view(e.0), e.1.request_count, e.1.latency_sum_us),
    )
}

/// Latency counters as plain values: key, count.
pub open spec fn latency_entries(s: Seq<(LatencyKey, i64)>) -> Seq<((Seq<char>, Seq<char>, i64), i64)> {
    s.map_values(|e: (LatencyKey, i64)| (latency_key_view(e.0), e.1))
}

/// Index of the first entry under key `k`, or -1.
pub open spec fn daily_index(
    s: Seq<((Seq<char>, Seq<char>, Seq<char>, i64, Seq<char>), i64, i64)>,
    k: (Seq<char>, Seq<char>, Seq<char>, i64, Seq<char>),
) -> int
    decreases s.len(),
{
    if s.len() == 0 {
        -1
    } else {
        let i = daily_index(s.drop_last(), k);
        if i >= 0 {
            i
        } else if s.last().0 == k {
            s.len() - 1
        } else {
            -1
        }
    }
}

pub open spec fn latency_index(
    s: Seq<((Seq<char>, Seq<char>, i64), i64)>,
    k: (Seq<char>, Seq<char>, i64),
) -> int
    decreases s.len(),
{
    if s.len() == 0 {
        -1
    } else {
        let i = latency_index(s.drop_last(), k);
        if i >= 0 {
            i
        } else if s.last().0 == k {
            s.len() - 1
        } else {
            -1
        }
    }
}

/// One more request of latency `lat` under key `k` (counters wrap as `i64`).
pub open spec fn bump_daily(
    s: Seq<((Seq<char>, Seq<char>, Seq<char>, i64, Seq<char>), i64, i64)>,
    k: (Seq<char>, Seq<char>, Seq<char>, i64, Seq<char>),
    lat: i64,
) -> Seq<((Seq<char>, Seq<char>, Seq<char>, i64, Seq<char>), i64, i64)> {
    let i = daily_index(s, k);
    if i >= 0 {
        s.update(i, (k, (s[i].1 + 1) as i64, (s[i].2 + lat) as i64))
    } else {
        s.push((k, 1, lat))
    }
}

/// One more request in the bucket of key `k`.
pub open spec fn bump_latency(
    s: Seq<((Seq<char>, Seq<char>, i64), i64)>,
    k: (Seq<char>, Seq<char>, i64),
) -> Seq<((Seq<char>, Seq<char>, i64), i64)> {
    let i = latency_index(s, k);
    if i >= 0 {
        s.update(i, (k, (s[i].1 + 1) as i64))
    } else {
        s.push((k, 1))
    }
}

proof fn lemma_daily_index(
    s: Seq<((Seq<char>, Seq<char>, Seq<char>, i64, Seq<char>), i64, i64)>,
    k: (Seq<char>, Seq<char>, Seq<char>, i64, Seq<char>),
    j: int,
)
    requires
        0 <= j <= s.len(),
        forall|a: int| 0 <= a < j ==> (#[trigger] s[a]).0 != k,
        j < s.len() ==> s[j].0 == k,
    ensures
        daily_index(s, k) == (if j < s.len() {
            j
        } else {
            -1
        }),
    decreases s.len(),
{
    if s.len() > 0 {
        let t = s.drop_last();
        if j < s.len() - 1 {
            lemma_daily_index(t, k, j);
        } else {
            assert forall|a: int| 0 <= a < t.len() implies (#[trigger] t[a]).0 != k by {
                assert(t[a] == s[a]);
            }
            lemma_daily_index(t, k, t.len() as int);
        }
    }
}

proof fn lemma_latency_index(
    s: Seq<((Seq<char>, Seq<char>, i64), i64)>,
    k: (Seq<char>, Seq<char>, i64),
    j: int,
)
    requires
        0 <= j <= s.len(),
        forall|a: int| 0 <= a < j ==> (#[trigger] s[a]).0 != k,
        j < s.len() ==> s[j].0 == k,
    ensures
        latency_index(s, k) == (if j < s.len() {
            j
        } else {
            -1
        }),
    decreases s.len(),
{
    if s.len() > 0 {
        let t = s.drop_last();
        if j < s.len() - 1 {
            lemma_latency_index(t, k, j);
        } else {
            assert forall|a: int| 0 <= a < t.len() implies (#[trigger] t[a]).0 != k by {
                assert(t[a] == s[a]);
            }
            lemma_latency_index(t, k, t.len() as int);
        }
    }
}

/// Accumulates usage in memory so the request path never touches the
/// database; drained by the periodic flush.
pub struct UsageRecorder {
    daily: Vec<(DailyKey, DailyCounters)>,
    latency: Vec<(LatencyKey, i64)>,
}

impl UsageRecorder {
    /// The buffered daily counters.
    pub closed spec fn daily_view(&self) -> Seq<
        ((Seq<char>, Seq<char>, Seq<char>, i64, Seq<char>), i64, i64),
    > {
        daily_entries(self.daily@)
    }

    /// The buffered latency-bucket counters.
    pub closed spec fn latency_view(&self) -> Seq<((Seq<char>, Seq<char>, i64), i64)> {
        latency_entries(self.latency@)
    }

    /// An empty buffer.
    pub fn new() -> (r: Self)
        ensures
            r.daily_view().len() == 0,
            r.latency_view().len() == 0,
    {
        UsageRecorder { daily: Vec::new(), latency: Vec::new() }
    }

    /// Counts one request answered on `day` with `status` (and `error_slug`,
    /// empty for success) after `latency_us` microseconds.
    pub fn record_on_day(
        &mut self,
        day: &String,
        tenant_id: &str,
        language: &str,
        status: u16,
        error_slug: &str,
        latency_us: u64,
    )
        ensures
            final(self).daily_view() == bump_daily(
                old(self).daily_view(),
                (day@, tenant_id@, language@, status as i64, error_slug@),
                latency_us as i64,
            ),
            final(self).latency_view() == bump_latency(
                old(self).latency_view(),
                (day@, tenant_id@, bucket_of_us(latency_us as int) as i64),
            ),
    {
        let lat = latency_us as i64;
        let key = DailyKey {
            day: day.clone(),
            tenant_id: tenant_id.to_string(),
            language: language.to_string(),
            status: status as i64,
            error_slug: error_slug.to_string(),
        };
        let ghost kv = daily_key_view(key);
        let ghost dv = daily_entries(self.daily@);
        let mut j: usize = 0;
        while j < self.daily.len()
            invariant
                j <= self.daily.len(),
                dv == daily_entries(self.daily@),
                kv == daily_key_view(key),
                forall|a: int| 0 <= a < j ==> (#[trigger] dv[a]).0 != kv,
            ensures
                j <= self.daily.len(),
                forall|a: int| 0 <= a < j ==> (#[trigger] dv[a]).0 != kv,
                j < self.daily.len() ==> dv[j as int].0 == kv,
            decreases self.daily.len() - j,
        {
            let k = &self.daily[j].0;
            if k.day == key.day && k.tenant_id == key.tenant_id && k.language == key.language
                && k.status == key.status && k.error_slug == key.error_slug {
                break;
            }
            assert(dv[j as int].0 != kv);
            j = j + 1;
        }
        proof {
            lemma_daily_index(dv, kv, j as int);
        }
        if j < self.daily.len() {
            let c = self.daily[j].1;
            let updated = DailyCounters {
                request_count: (c.request_count as i128 + 1) as i64,
                latency_sum_us: (c.latency_sum_us as i128 + lat as i128) as i64,
            };
            let k = DailyKey {
                day: day.clone(),
                tenant_id: tenant_id.to_string(),
                language: language.to_string(),
                status: status as i64,
                error_slug: error_slug.to_string(),
            };
            self.daily.set(j, (k, updated));
            assert(daily_entries(self.daily@) =~= bump_daily(dv, kv, lat));
        } else {
            self.daily.push((key, DailyCounters { request_count: 1, latency_sum_us: lat }));
            assert(daily_entries(self.daily@) =~= bump_daily(dv, kv, lat));
        }
        let bucket = bucket_for(latency_us);
        let lkey = LatencyKey { day: day.clone(), tenant_id: tenant_id.to_string(), bucket_le_ms: bucket };
        let ghost lkv = latency_key_view(lkey);
        let ghost lv = latency_entries(self.latency@);
        let mut i: usize = 0;
        while i < self.latency.len()
            invariant
                i <= self.latency.len(),
                lv == latency_entries(self.latency@),
                lkv == latency_key_view(lkey),
                forall|a: int| 0 <= a < i ==> (#[trigger] lv[a]).0 != lkv,
            ensures
                i <= self.latency.len(),
                forall|a: int| 0 <= a < i ==> (#[trigger] lv[a]).0 != lkv,
                i < self.latency.len() ==> lv[i as int].0 == lkv,
            decreases self.latency.len() - i,
        {
            let k = &self.latency[i].0;
            if k.day == lkey.day && k.tenant_id == lkey.tenant_id && k.bucket_le_ms == lkey.bucket_le_ms {
                break;
            }
            assert(lv[i as int].0 != lkv);
            i = i + 1;
        }
        proof {
            lemma_latency_index(lv, lkv, i as int);
        }
        if i < self.latency.len() {
            let n = self.latency[i].1;
            self.latency.set(i, (lkey, (n as i128 + 1) as i64));
        } else {
            self.latency.push((lkey, 1));
        }
        assert(latency_entries(self.latency@) =~= bump_latency(lv, lkv));
    }

    /// Counts one request answered today (see `record_on_day`).
    pub fn record(
        &mut self,
        tenant_id: &str,
        language: &str,
        status: u16,
        error_slug: &str,
        latency_us: u64,
    )
        ensures
            exists|n: int|
                0 <= n <= u64::MAX / 86_400 && final(self).daily_view() == #[trigger] bump_daily(
                    old(self).daily_view(),
                    (day_text(n), tenant_id@, language@, status as i64, error_slug@),
                    latency_us as i64,
                ) && final(self).latency_view() == bump_latency(
                    old(self).latency_view(),
                    (day_text(n), tenant_id@, bucket_of_us(latency_us as int) as i64),
                ),
    {
        let n = epoch_day_now();
        let day = format_day(n);
        self.record_on_day(&day, tenant_id, language, status, error_slug, latency_us);
    }

    /// Empties both buffers, handing their contents to the caller.
    pub fn drain(&mut self) -> (r: (Vec<(DailyKey, DailyCounters)>, Vec<(LatencyKey, i64)>))
        ensures
            daily_entries(r.0@) == old(self).daily_view(),
            latency_entries(r.1@) == old(self).latency_view(),
            final(self).daily_view().len() == 0,
            final(self).latency_view().len() == 0,
    {
        let mut daily: Vec<(DailyKey, DailyCounters)> = Vec::new();
        let mut latency: Vec<(LatencyKey, i64)> = Vec::new();
        std::mem::swap(&mut daily, &mut self.daily);
        std::mem::swap(&mut latency, &mut self.latency);
        (daily, latency)
    }
}

} // verus!
