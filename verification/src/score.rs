//! Counting right and wrong answers.
use crate::stats::{
    is_sorted_from, law_place_of_a_value, law_sorted, law_sums_fold, sorted, sum, sum_of,
};
use vstd::prelude::*;

verus! {

/// The outcome of a series of queries. Fraud is the positive class, so a fraud
/// that is not approved is a true positive.
pub struct Score {
    /// How many queries there are.
    pub n: usize,
    pub tp: usize,
    pub tn: usize,
    pub fp: usize,
    pub fn_: usize,
    /// Queries without an answer.
    pub err: usize,
    /// How long each answer took.
    pub latencies_us: Vec<u64>,
}

impl Score {
    /// Every answer is counted once.
    pub open spec fn wf(&self) -> bool {
        self.tp + self.tn + self.fp + self.fn_ == self.latencies_us@.len()
    }

    pub fn new(n: usize) -> (score: Self)
        ensures
            score.wf(),
            score.n == n,
            score.tp == 0,
            score.tn == 0,
            score.fp == 0,
            score.fn_ == 0,
            score.err == 0,
            score.latencies_us@ == Seq::<u64>::empty(),
    {
        Score { n, tp: 0, tn: 0, fp: 0, fn_: 0, err: 0, latencies_us: Vec::new() }
    }

    /// Counts an answer.
    pub fn record_response(&mut self, expected_approved: bool, got_approved: bool, elapsed_us: u64)
        requires
            old(self).wf(),
        ensures
            final(self).wf(),
            final(self).n == old(self).n,
            final(self).err == old(self).err,
            final(self).latencies_us@ == old(self).latencies_us@.push(elapsed_us),
            final(self).tp == old(self).tp + (if !expected_approved && !got_approved {
                1int
            } else {
                0
            }),
            final(self).tn == old(self).tn + (if expected_approved && got_approved {
                1int
            } else {
                0
            }),
            final(self).fp == old(self).fp + (if expected_approved && !got_approved {
                1int
            } else {
                0
            }),
            final(self).fn_ == old(self).fn_ + (if !expected_approved && got_approved {
                1int
            } else {
                0
            }),
    {
        self.latencies_us.push(elapsed_us);
        let answers: usize = self.latencies_us.len();
        assert(self.tp + self.tn + self.fp + self.fn_ < answers);
        let is_fraud: bool = !expected_approved;
        match (is_fraud, got_approved) {
            (true, false) => {
                self.tp = self.tp + 1;
            },
            (false, true) => {
                self.tn = self.tn + 1;
            },
            (false, false) => {
                self.fp = self.fp + 1;
            },
            (true, true) => {
                self.fn_ = self.fn_ + 1;
            },
        }
    }

    /// Counts a query without an answer.
    pub fn record_error(&mut self)
        requires
            old(self).wf(),
            old(self).err < usize::MAX,
        ensures
            final(self).wf(),
            *final(self) == (Score { err: (old(self).err + 1) as usize, ..*old(self) }),
    {
        self.err = self.err + 1;
    }

    /// The number of right answers.
    pub fn matches(&self) -> (n: usize)
        requires
            self.wf(),
        ensures
            n == self.tp + self.tn,
    {
        assert(self.latencies_us@.len() == self.latencies_us.len());
        self.tp + self.tn
    }

    /// The number of answers to frauds.
    pub fn fraud_total(&self) -> (n: usize)
        requires
            self.wf(),
        ensures
            n == self.tp + self.fn_,
    {
        assert(self.latencies_us@.len() == self.latencies_us.len());
        self.tp + self.fn_
    }

    /// The number of answers to legitimate transactions.
    pub fn legit_total(&self) -> (n: usize)
        requires
            self.wf(),
        ensures
            n == self.tn + self.fp,
    {
        assert(self.latencies_us@.len() == self.latencies_us.len());
        self.tn + self.fp
    }

    /// The number of wrong answers and of queries without one.
    pub fn failures(&self) -> (n: u128)
        ensures
            n == self.fp + self.fn_ + self.err,
    {
        self.fp as u128 + self.fn_ as u128 + self.err as u128
    }

    /// The failures by their weight: an approved fraud weighs three times, and
    /// a missing answer five times as much as a legitimate transaction that was
    /// not approved.
    pub fn weighted_errors(&self) -> (e: u128)
        ensures
            e == self.fp + 3 * self.fn_ + 5 * self.err,
    {
        self.fp as u128 + 3 * (self.fn_ as u128) + 5 * (self.err as u128)
    }

    /// The latency at a place of the ascending order, or the largest one where
    /// the place is beyond; none where there are no latencies.
    pub fn latency_at(&self, place: usize) -> (latency: Option<u64>)
        ensures
            latency is None <==> self.latencies_us@.len() == 0,
            latency matches Some(us) ==> exists|s: Seq<u64>| #[trigger]
                is_sorted_from(s, self.latencies_us@) && us == s[if place < s.len() {
                    place as int
                } else {
                    s.len() - 1
                }],
    {
        let order = sorted(&self.latencies_us);
        let len: usize = order.len();
        if len == 0 {
            return None;
        }
        let at: usize = if place < len {
            place
        } else {
            len - 1
        };
        Some(order[at])
    }

    /// The median of the latencies; of two in the middle, the larger one.
    pub fn median_us(&self) -> (latency: Option<u64>)
        ensures
            latency is None <==> self.latencies_us@.len() == 0,
            latency matches Some(us) ==> exists|s: Seq<u64>| #[trigger]
                is_sorted_from(s, self.latencies_us@) && us == s[s.len() as int / 2],
    {
        let order = sorted(&self.latencies_us);
        let len: usize = order.len();
        if len == 0 {
            return None;
        }
        Some(order[len / 2])
    }

    /// The sum of the latencies.
    pub fn total_us(&self) -> (total: u128)
        ensures
            total == sum_of(self.latencies_us@),
    {
        sum(&self.latencies_us)
    }
}

/// An answer is counted as one: as right where it is the expected one, and as
/// wrong otherwise; among the frauds where no approval was expected, and among
/// the legitimate transactions otherwise. How long it took comes behind what
/// the earlier answers took.
pub proof fn law_answers_are_counted(
    s: &mut Score,
    expected_approved: bool,
    got_approved: bool,
    elapsed_us: u64,
)
    requires
        call_ensures(Score::record_response, (s, expected_approved, got_approved, elapsed_us), ()),
    ensures
        final(s).tp + final(s).tn + final(s).fp + final(s).fn_ == old(s).tp + old(s).tn
            + old(s).fp + old(s).fn_ + 1,
        expected_approved == got_approved ==> final(s).fp == old(s).fp && final(s).fn_ == old(
            s,
        ).fn_,
        expected_approved != got_approved ==> final(s).tp == old(s).tp && final(s).tn == old(s).tn,
        expected_approved ==> final(s).tp == old(s).tp && final(s).fn_ == old(s).fn_,
        !expected_approved ==> final(s).tn == old(s).tn && final(s).fp == old(s).fp,
        final(s).n == old(s).n,
        final(s).err == old(s).err,
        final(s).latencies_us@.len() == old(s).latencies_us@.len() + 1,
        final(s).latencies_us@.last() == elapsed_us,
        final(s).latencies_us@.drop_last() == old(s).latencies_us@,
{
}

/// A query without an answer is counted as one, and changes nothing else.
pub proof fn law_missing_answers_are_counted(s: &mut Score)
    requires
        old(s).err < usize::MAX,
        call_ensures(Score::record_error, (s,), ()),
    ensures
        final(s).err == old(s).err + 1,
        final(s).n == old(s).n,
        final(s).tp == old(s).tp,
        final(s).tn == old(s).tn,
        final(s).fp == old(s).fp,
        final(s).fn_ == old(s).fn_,
        final(s).latencies_us@ == old(s).latencies_us@,
{
}

/// How the counts add up: answers to frauds and to legitimate transactions are
/// all answers; right answers and failures are all answers and the queries
/// without one. Of the failures an approved fraud weighs three, a missing
/// answer five.
pub proof fn law_counts_add_up(
    s: Score,
    right: usize,
    frauds: usize,
    legit: usize,
    failures: u128,
    weighted: u128,
)
    requires
        s.wf(),
        call_ensures(Score::matches, (&s,), right),
        call_ensures(Score::fraud_total, (&s,), frauds),
        call_ensures(Score::legit_total, (&s,), legit),
        call_ensures(Score::failures, (&s,), failures),
        call_ensures(Score::weighted_errors, (&s,), weighted),
    ensures
        frauds + legit == s.latencies_us@.len(),
        right + failures == s.latencies_us@.len() + s.err,
        frauds - s.tp == s.fn_,
        right - s.tp == s.tn,
        weighted == failures + 2 * s.fn_ + 4 * s.err,
{
}

/// The latencies: none of an empty score; the median has at most half of them
/// below it and more than half not above it; the one at a place has at most as
/// many below it as the place says, and behind the last place stands the
/// largest. The total is their sum.
pub proof fn law_latencies(
    s: Score,
    place: usize,
    at: Option<u64>,
    median: Option<u64>,
    total: u128,
)
    requires
        call_ensures(Score::latency_at, (&s, place), at),
        call_ensures(Score::median_us, (&s,), median),
        call_ensures(Score::total_us, (&s,), total),
    ensures
        ({
            let values = s.latencies_us@;
            let n = values.len() as int;
            &&& total == values.fold_left(0int, |a: int, x: u64| a + x)
            &&& n == 0 ==> at is None && median is None
            &&& n > 0 ==> at is Some && median is Some && values.contains(at->0)
                && values.contains(median->0)
            &&& n > 0 ==> values.filter(|v: u64| v < median->0).len() <= n / 2 < values.filter(
                |v: u64| v <= median->0,
            ).len()
            &&& place < n ==> values.filter(|v: u64| v < at->0).len() <= place < values.filter(
                |v: u64| v <= at->0,
            ).len()
            &&& place >= n > 0 ==> values.filter(|v: u64| v <= at->0).len() >= n
        }),
{
    let values = s.latencies_us@;
    law_sums_fold(values);
    if values.len() > 0 {
        let a = choose|a: Seq<u64>| #[trigger]
            is_sorted_from(a, values) && at->0 == a[if place < a.len() {
                place as int
            } else {
                a.len() - 1
            }];
        law_sorted(a, values, 0);
        law_place_of_a_value(
            a,
            values,
            if place < a.len() {
                place as int
            } else {
                a.len() - 1
            },
        );
        let b = choose|b: Seq<u64>| #[trigger]
            is_sorted_from(b, values) && median->0 == b[b.len() as int / 2];
        law_sorted(b, values, 0);
        law_place_of_a_value(b, values, b.len() as int / 2);
    }
}

} // verus!
