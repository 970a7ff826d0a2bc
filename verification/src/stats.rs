//! Sums and percentiles.
use crate::perf::{measure, metric_of, Metric, RequestPerf};
use vstd::prelude::*;

verus! {

pub open spec fn ascending(s: Seq<u64>) -> bool {
    forall|i: int, j: int| 0 <= i <= j < s.len() ==> #[trigger] s[i] <= #[trigger] s[j]
}

/// `sorted` has the values of `values`, in ascending order.
pub open spec fn is_sorted_from(sorted: Seq<u64>, values: Seq<u64>) -> bool {
    ascending(sorted) && sorted.to_multiset() == values.to_multiset()
}

/// `slice::sort_unstable` on numbers: it rearranges them, in ascending order.
#[verifier::external_body]
fn sort_ascending(values: &mut Vec<u64>)
    ensures
        is_sorted_from(final(values)@, old(values)@),
{
    values.sort_unstable();
}

/// The values in ascending order.
pub fn sorted(values: &Vec<u64>) -> (out: Vec<u64>)
    ensures
        is_sorted_from(out@, values@),
        out@.len() == values@.len(),
{
    let mut out: Vec<u64> = Vec::new();
    let mut i: usize = 0;
    while i < values.len()
        invariant
            i <= values@.len(),
            out@ == values@.take(i as int),
        decreases values.len() - i,
    {
        out.push(values[i]);
        assert(values@.take(i + 1) =~= values@.take(i as int).push(values@[i as int]));
        i = i + 1;
    }
    assert(values@.take(i as int) =~= values@);
    sort_ascending(&mut out);
    proof {
        out@.to_multiset_ensures();
        values@.to_multiset_ensures();
    }
    out
}

/// There is only one ascending order.
pub proof fn law_sorting_is_unique(a: Seq<u64>, b: Seq<u64>, values: Seq<u64>)
    requires
        is_sorted_from(a, values),
        is_sorted_from(b, values),
    ensures
        a == b,
    decreases a.len(),
{
    a.to_multiset_ensures();
    b.to_multiset_ensures();
    if a.len() > 0 {
        let x = a.last();
        let y = b.last();
        assert(a.contains(x) && b.contains(y));
        assert(a.to_multiset().count(x) > 0 && b.to_multiset().count(y) > 0);
        let i = choose|i: int| 0 <= i < b.len() && b[i] == x;
        let j = choose|j: int| 0 <= j < a.len() && a[j] == y;
        assert(b.contains(x) && a.contains(y));
        assert(b[i] <= b[b.len() - 1]);
        assert(a[j] <= a[a.len() - 1]);
        assert(x == y);
        let last = a.len() - 1;
        assert(a.remove(last) =~= a.drop_last());
        assert(b.remove(last) =~= b.drop_last());
        assert(a.drop_last().to_multiset() =~= b.drop_last().to_multiset());
        assert(ascending(a.drop_last())) by {
            assert forall|i: int, j: int|
                0 <= i <= j < a.drop_last().len() implies #[trigger] a.drop_last()[i]
                <= #[trigger] a.drop_last()[j] by {
                assert(a[i] <= a[j]);
            }
        }
        assert(ascending(b.drop_last())) by {
            assert forall|i: int, j: int|
                0 <= i <= j < b.drop_last().len() implies #[trigger] b.drop_last()[i]
                <= #[trigger] b.drop_last()[j] by {
                assert(b[i] <= b[j]);
            }
        }
        law_sorting_is_unique(a.drop_last(), b.drop_last(), a.drop_last());
        assert(a =~= a.drop_last().push(x));
        assert(b =~= b.drop_last().push(x));
    } else {
        assert(a =~= b);
    }
}

/// The place of a percentile among `n` values: its share of the way to the
/// last one, rounded up.
pub open spec fn percentile_place(n: int, percentile: int) -> int {
    ((n - 1) * percentile + 99) / 100
}

/// The value at a percentile of values in ascending order.
pub open spec fn percentile_of(s: Seq<u64>, percentile: int) -> u64 {
    if s.len() == 0 {
        0
    } else {
        s[percentile_place(s.len() as int, percentile)]
    }
}

proof fn lemma_percentile_place(n: int, percentile: int)
    requires
        n >= 1,
        0 <= percentile <= 100,
    ensures
        0 <= (n - 1) * percentile <= 100 * (n - 1),
        0 <= percentile_place(n, percentile) <= n - 1,
{
    assert(0 <= (n - 1) * percentile <= 100 * (n - 1)) by (nonlinear_arith)
        requires
            n >= 1,
            0 <= percentile <= 100,
    ;
}

pub fn percentile(values: &[u64], share: usize) -> (value: u64)
    requires
        share <= 100,
        values@.len() > 0 ==> (values@.len() - 1) * share <= usize::MAX,
    ensures
        value == percentile_of(values@, share as int),
{
    let len: usize = values.len();
    if len == 0 {
        return 0;
    }
    proof {
        lemma_percentile_place(len as int, share as int);
    }
    let way: usize = (len - 1) * share;
    let idx: usize = if way % 100 == 0 {
        way / 100
    } else {
        way / 100 + 1
    };
    assert(idx == percentile_place(len as int, share as int));
    values[idx]
}

/// Higher percentiles are not smaller, and the last value is the largest.
pub proof fn law_percentiles_are_ordered(s: Seq<u64>, p: int, q: int)
    requires
        ascending(s),
        s.len() > 0,
        0 <= p <= q <= 100,
    ensures
        percentile_of(s, p) <= percentile_of(s, q) <= s.last(),
        s.first() <= percentile_of(s, p),
        percentile_of(s, 0) == s.first(),
        percentile_of(s, 100) == s.last(),
{
    let n = s.len() as int;
    lemma_percentile_place(n, p);
    lemma_percentile_place(n, q);
    assert((n - 1) * p <= (n - 1) * q) by (nonlinear_arith)
        requires
            n >= 1,
            p <= q,
    ;
    assert(s[percentile_place(n, p)] <= s[percentile_place(n, q)]);
    assert(s[percentile_place(n, q)] <= s[n - 1]);
    assert(s[0] <= s[percentile_place(n, p)]);
}

pub open spec fn sum_of(s: Seq<u64>) -> int
    decreases s.len(),
{
    if s.len() == 0 {
        0
    } else {
        sum_of(s.drop_last()) + s.last()
    }
}

/// The sum of the values.
pub fn sum(values: &Vec<u64>) -> (total: u128)
    ensures
        total == sum_of(values@),
{
    let mut total: u128 = 0;
    let mut i: usize = 0;
    assert(values@.take(0) =~= Seq::<u64>::empty());
    while i < values.len()
        invariant
            i <= values@.len(),
            total == sum_of(values@.take(i as int)),
            total <= i * 0x1_0000_0000_0000_0000,
        decreases values.len() - i,
    {
        assert(values@.take(i + 1).drop_last() =~= values@.take(i as int));
        total = total + values[i] as u128;
        i = i + 1;
    }
    assert(values@.take(i as int) =~= values@);
    total
}

/// A summary of values: how many they are, their sum, some percentiles and the
/// largest.
#[derive(Clone, Copy, Debug, PartialEq, Eq, Structural)]
pub struct Stats {
    pub count: usize,
    pub sum: u128,
    pub p50: u64,
    pub p90: u64,
    pub p99: u64,
    pub max: u64,
}

pub open spec fn is_stats_of(stats: Stats, values: Seq<u64>) -> bool {
    &&& stats.count == values.len()
    &&& stats.sum == sum_of(values)
    &&& exists|s: Seq<u64>|
        {
            &&& #[trigger] is_sorted_from(s, values)
            &&& stats.p50 == percentile_of(s, 50)
            &&& stats.p90 == percentile_of(s, 90)
            &&& stats.p99 == percentile_of(s, 99)
            &&& stats.max == percentile_of(s, 100)
        }
}

/// A summary of the values; all zero where there are none.
pub fn stats(values: Vec<u64>) -> (summary: Stats)
    requires
        99 * (values@.len() - 1) <= usize::MAX,
    ensures
        is_stats_of(summary, values@),
{
    let total: u128 = sum(&values);
    let order = sorted(&values);
    let len: usize = order.len();
    proof {
        if len > 0 {
            law_percentiles_are_ordered(order@, 99, 100);
            lemma_percentile_place(len as int, 50);
            lemma_percentile_place(len as int, 90);
            lemma_percentile_place(len as int, 99);
        }
    }
    let max: u64 = if len == 0 {
        0
    } else {
        order[len - 1]
    };
    Stats {
        count: len,
        sum: total,
        p50: percentile(order.as_slice(), 50),
        p90: percentile(order.as_slice(), 90),
        p99: percentile(order.as_slice(), 99),
        max,
    }
}

/// A summary of one metric over a window of requests.
pub fn window_stats(records: &[RequestPerf], metric: Metric) -> (summary: Stats)
    requires
        99 * (records@.len() - 1) <= usize::MAX,
    ensures
        is_stats_of(summary, records@.map_values(|r: RequestPerf| metric_of(r, metric))),
{
    let ghost all = records@.map_values(|r: RequestPerf| metric_of(r, metric));
    let mut values: Vec<u64> = Vec::new();
    let mut i: usize = 0;
    while i < records.len()
        invariant
            i <= records@.len(),
            values@.len() == i,
            all == records@.map_values(|r: RequestPerf| metric_of(r, metric)),
            forall|k: int| 0 <= k < i ==> #[trigger] values@[k] == all[k],
        decreases records.len() - i,
    {
        values.push(measure(&records[i], metric));
        i = i + 1;
    }
    assert(values@ =~= all);
    stats(values)
}

proof fn lemma_filter_permuted(a: Seq<u64>, b: Seq<u64>, p: spec_fn(u64) -> bool)
    requires
        a.to_multiset() == b.to_multiset(),
    ensures
        a.filter(p).len() == b.filter(p).len(),
{
    lemma_filter_multiset(a, p);
    lemma_filter_multiset(b, p);
    a.filter(p).to_multiset_ensures();
    b.filter(p).to_multiset_ensures();
}

proof fn lemma_filter_multiset(a: Seq<u64>, p: spec_fn(u64) -> bool)
    ensures
        a.filter(p).to_multiset() =~= a.to_multiset().filter(p),
    decreases a.len(),
{
    reveal(Seq::filter);
    a.to_multiset_ensures();
    a.filter(p).to_multiset_ensures();
    if a.len() > 0 {
        let init = a.drop_last();
        lemma_filter_multiset(init, p);
        init.to_multiset_ensures();
        init.filter(p).to_multiset_ensures();
        assert(init.push(a.last()) =~= a);
        assert(a.filter(p).to_multiset() =~= a.to_multiset().filter(p));
    } else {
        assert(a.filter(p).to_multiset() =~= a.to_multiset().filter(p));
    }
}

/// At most the first `k` of ascending values are smaller than the one at `k`,
/// and at least the first `k + 1` are not larger.
proof fn lemma_place_counts(s: Seq<u64>, k: int, n: int)
    requires
        ascending(s),
        0 <= k < s.len(),
        0 <= n <= s.len(),
    ensures
        ({
            let x = s[k];
            let smaller = s.take(n).filter(|v: u64| v < x).len();
            let up_to = s.take(n).filter(|v: u64| v <= x).len();
            &&& smaller <= k
            &&& up_to >= (if n <= k {
                n
            } else {
                k + 1
            })
        }),
    decreases n,
{
    let x = s[k];
    let lt = |v: u64| v < x;
    let le = |v: u64| v <= x;
    reveal(Seq::filter);
    if n > 0 {
        lemma_place_counts(s, k, n - 1);
        assert(s.take(n).drop_last() =~= s.take(n - 1));
        assert(s.take(n).last() == s[n - 1]);
        if n - 1 >= k {
            assert(s[k] <= s[n - 1]);
        } else {
            assert(s[n - 1] <= s[k]);
            s.take(n - 1).lemma_filter_len(lt);
        }
    }
}

/// What a percentile is: one of the values, at the first place that is at
/// least the share of the way from the first place to the last. No fewer than
/// that share of the values are not larger.
pub proof fn law_percentile_place(s: Seq<u64>, share: int)
    requires
        ascending(s),
        s.len() > 0,
        0 <= share <= 100,
    ensures
        exists|k: int|
            {
                &&& 0 <= k < s.len()
                &&& #[trigger] s[k] == percentile_of(s, share)
                &&& 100 * k >= share * (s.len() - 1)
                &&& 100 * (k - 1) < share * (s.len() - 1)
            },
        100 * s.filter(|v: u64| v <= percentile_of(s, share)).len() >= share * s.len(),
        100 * s.filter(|v: u64| v < percentile_of(s, share)).len() < share * (s.len() - 1) + 100,
{
    let n = s.len() as int;
    lemma_percentile_place(n, share);
    let k = percentile_place(n, share);
    assert((n - 1) * share == share * (n - 1) && share * n == share * (n - 1) + share)
        by (nonlinear_arith);
    assert(s[k] == percentile_of(s, share));
    lemma_place_counts(s, k, n);
    assert(s.take(n) =~= s);
}

/// The summary of values says what it should: their number and their sum; of
/// the percentiles, that at least the share of the values they are named after
/// is not larger and less than that share, but for one value, is smaller, and
/// that each is one of the values; and the largest value. All are zero where
/// there are no values.
pub proof fn law_summary(stats: Stats, values: Seq<u64>)
    requires
        is_stats_of(stats, values),
    ensures
        stats.count == values.len(),
        stats.sum == values.fold_left(0int, |a: int, x: u64| a + x),
        values.len() == 0 ==> stats.p50 == 0 && stats.p90 == 0 && stats.p99 == 0 && stats.max == 0,
        values.len() > 0 ==> {
            let n = values.len() as int;
            &&& values.contains(stats.p50) && values.contains(stats.p90) && values.contains(
                stats.p99,
            ) && values.contains(stats.max)
            &&& 100 * values.filter(|v: u64| v <= stats.p50).len() >= 50 * n
            &&& 100 * values.filter(|v: u64| v <= stats.p90).len() >= 90 * n
            &&& 100 * values.filter(|v: u64| v <= stats.p99).len() >= 99 * n
            &&& 100 * values.filter(|v: u64| v < stats.p50).len() < 50 * (n - 1) + 100
            &&& 100 * values.filter(|v: u64| v < stats.p90).len() < 90 * (n - 1) + 100
            &&& 100 * values.filter(|v: u64| v < stats.p99).len() < 99 * (n - 1) + 100
            &&& forall|i: int| 0 <= i < n ==> #[trigger] values[i] <= stats.max
        },
        exists|s: Seq<u64>|
            {
                &&& #[trigger] s.to_multiset() == values.to_multiset()
                &&& forall|i: int, j: int| 0 <= i <= j < s.len() ==> s[i] <= s[j]
                &&& s.len() == values.len()
                &&& s.len() > 0 ==> {
                    let last = s.len() - 1;
                    &&& stats.p50 == s[(50 * last + 99) / 100]
                    &&& stats.p90 == s[(90 * last + 99) / 100]
                    &&& stats.p99 == s[(99 * last + 99) / 100]
                    &&& stats.max == s[last]
                }
            },
{
    let s = choose|s: Seq<u64>|
        {
            &&& #[trigger] is_sorted_from(s, values)
            &&& stats.p50 == percentile_of(s, 50)
            &&& stats.p90 == percentile_of(s, 90)
            &&& stats.p99 == percentile_of(s, 99)
            &&& stats.max == percentile_of(s, 100)
        };
    s.to_multiset_ensures();
    values.to_multiset_ensures();
    law_sums_fold(values);
    if values.len() > 0 {
        law_percentile_place(s, 50);
        law_percentile_place(s, 90);
        law_percentile_place(s, 99);
        law_percentiles_are_ordered(s, 50, 100);
        lemma_percentile_place(s.len() as int, 50);
        lemma_percentile_place(s.len() as int, 90);
        lemma_percentile_place(s.len() as int, 99);
        lemma_filter_permuted(s, values, |v: u64| v <= stats.p50);
        lemma_filter_permuted(s, values, |v: u64| v <= stats.p90);
        lemma_filter_permuted(s, values, |v: u64| v <= stats.p99);
        lemma_filter_permuted(s, values, |v: u64| v < stats.p50);
        lemma_filter_permuted(s, values, |v: u64| v < stats.p90);
        lemma_filter_permuted(s, values, |v: u64| v < stats.p99);
        assert(s.contains(stats.p50) && s.contains(stats.p90) && s.contains(stats.p99)
            && s.contains(stats.max));
        assert forall|x: u64| s.contains(x) <==> values.contains(x) by {
            assert(s.to_multiset().count(x) == values.to_multiset().count(x));
        }
        assert forall|i: int| 0 <= i < values.len() implies #[trigger] values[i]
            <= stats.max by {
            assert(s.contains(values[i]));
            let k = choose|k: int| 0 <= k < s.len() && s[k] == values[i];
            assert(s[k] <= s[s.len() - 1]);
        }
    }
    assert(s.to_multiset() == values.to_multiset());
}

/// The sum adds each value once.
pub proof fn law_sums_fold(s: Seq<u64>)
    ensures
        sum_of(s) == s.fold_left(0int, |a: int, x: u64| a + x),
    decreases s.len(),
{
    if s.len() > 0 {
        law_sums_fold(s.drop_last());
    }
}

/// Sums add up: that of no values is zero, and of values joined the sum of
/// both sums.
pub proof fn law_sums_add_up(a: Seq<u64>, b: Seq<u64>)
    ensures
        sum_of(Seq::<u64>::empty()) == 0,
        sum_of(a + b) == sum_of(a) + sum_of(b),
        b.len() == 1 ==> sum_of(b) == b[0],
    decreases b.len(),
{
    if b.len() == 0 {
        assert(a + b =~= a);
    } else {
        law_sums_add_up(a, b.drop_last());
        assert((a + b).drop_last() =~= a + b.drop_last());
        if b.len() == 1 {
            assert(b.drop_last() =~= Seq::<u64>::empty());
        }
    }
}

/// The sorted values are the values themselves, each not larger than the next.
pub proof fn law_sorted(sorted: Seq<u64>, values: Seq<u64>, x: u64)
    requires
        is_sorted_from(sorted, values),
    ensures
        sorted.len() == values.len(),
        sorted.to_multiset().count(x) == values.to_multiset().count(x),
        forall|i: int| 0 <= i < sorted.len() - 1 ==> #[trigger] sorted[i] <= sorted[i + 1],
{
    sorted.to_multiset_ensures();
    values.to_multiset_ensures();
}

/// The value at a place of the ascending order is one of the values; no more
/// of them than the place says are smaller, and more than that are not larger.
pub proof fn law_place_of_a_value(sorted: Seq<u64>, values: Seq<u64>, k: int)
    requires
        is_sorted_from(sorted, values),
        0 <= k < sorted.len(),
    ensures
        values.contains(sorted[k]),
        values.filter(|v: u64| v < sorted[k]).len() <= k,
        k < values.filter(|v: u64| v <= sorted[k]).len(),
{
    let x = sorted[k];
    sorted.to_multiset_ensures();
    values.to_multiset_ensures();
    lemma_place_counts(sorted, k, sorted.len() as int);
    assert(sorted.take(sorted.len() as int) =~= sorted);
    lemma_filter_permuted(sorted, values, |v: u64| v < x);
    lemma_filter_permuted(sorted, values, |v: u64| v <= x);
    assert(sorted.contains(x));
    assert(sorted.to_multiset().count(x) == values.to_multiset().count(x));
}

/// What the functions return is what is stated of sums, orders, percentiles
/// and summaries.
pub proof fn law_statistics(
    values: Vec<u64>,
    slice: &[u64],
    share: usize,
    order: Vec<u64>,
    total: u128,
    value: u64,
    summary: Stats,
)
    ensures
        call_ensures(sorted, (&values,), order) ==> is_sorted_from(order@, values@),
        call_ensures(sum, (&values,), total) ==> total == values@.fold_left(
            0int,
            |a: int, x: u64| a + x,
        ),
        call_ensures(percentile, (slice, share), value) ==> value == percentile_of(
            slice@,
            share as int,
        ),
        call_ensures(stats, (values,), summary) ==> is_stats_of(summary, values@),
{
    law_sums_fold(values@);
}

/// The summary of a window is that of one metric over all its requests.
pub proof fn law_window(records: &[RequestPerf], metric: Metric, summary: Stats)
    requires
        call_ensures(window_stats, (records, metric), summary),
    ensures
        is_stats_of(
            summary,
            Seq::new(records@.len(), |i: int| metric_of(records@[i], metric)),
        ),
        summary.count == records@.len(),
{
    assert(records@.map_values(|r: RequestPerf| metric_of(r, metric)) =~= Seq::new(
        records@.len(),
        |i: int| metric_of(records@[i], metric),
    ));
}

} // verus!
