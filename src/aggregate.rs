//! The daily aggregator: groups time entries by calendar day and derives each
//! day's total, its extra time against a baseline, and the running extra time.
use vstd::prelude::*;
use crate::day::Day;

verus! {

/// The expected working time of one day, in seconds (seven hours).
pub const BASELINE_SECONDS: i64 = 25200;

/// One recorded span of work: the day it started and how long it lasted.
#[derive(Clone, Copy, Debug, PartialEq, Eq, Structural)]
pub struct TimeEntry {
    pub day: Day,
    pub duration_seconds: i64,
}

/// Failure of a lookup in a summary.
#[derive(Clone, Copy, Debug, PartialEq, Eq, Structural)]
pub enum SummaryError {
    /// The day queried has no entry in the summary.
    MissingDayTotal,
}

/// The sum of a sequence of integers.
pub open spec fn seq_sum(s: Seq<i64>) -> int
    decreases s.len(),
{
    if s.len() == 0 {
        0
    } else {
        seq_sum(s.drop_last()) + s.last()
    }
}

/// The durations of the entries, in input order.
pub open spec fn durations(es: Seq<TimeEntry>) -> Seq<i64> {
    es.map_values(|e: TimeEntry| e.duration_seconds)
}

/// Whether some entry belongs to day `d`.
pub open spec fn has_day(es: Seq<TimeEntry>, d: Day) -> bool
    decreases es.len(),
{
    if es.len() == 0 {
        false
    } else {
        es.last().day == d || has_day(es.drop_last(), d)
    }
}

/// The durations of the entries of day `d`, in input order.
pub open spec fn bucket_of(es: Seq<TimeEntry>, d: Day) -> Seq<i64>
    decreases es.len(),
{
    if es.len() == 0 {
        seq![]
    } else if es.last().day == d {
        bucket_of(es.drop_last(), d).push(es.last().duration_seconds)
    } else {
        bucket_of(es.drop_last(), d)
    }
}

/// The days are in strictly ascending chronological order.
pub open spec fn strictly_ascending(days: Seq<Day>) -> bool {
    forall|a: int, b: int| 0 <= a < b < days.len() ==> (#[trigger] days[a]).before(#[trigger] days[b])
}

/// What the aggregator may be given: valid days, durations that are not
/// negative, a baseline that is not negative, and sums that fit in an `i64`.
pub open spec fn admissible(es: Seq<TimeEntry>, baseline: int) -> bool {
    &&& forall|i: int| 0 <= i < es.len() ==> (#[trigger] es[i]).day.is_valid()
    &&& forall|i: int| 0 <= i < es.len() ==> (#[trigger] es[i]).duration_seconds >= 0
    &&& 0 <= baseline
    &&& seq_sum(durations(es)) <= i64::MAX
    &&& es.len() * baseline <= i64::MAX
}

/// The per-day figures of a batch of entries. Position `k` of each vector
/// belongs to `days[k]`.
pub struct DailySummary {
    /// The distinct days of the entries, ascending.
    pub days: Vec<Day>,
    /// The durations of each day's entries, in input order.
    pub buckets: Vec<Vec<i64>>,
    /// Total seconds worked each day.
    pub totals: Vec<i64>,
    /// Total minus baseline, each day.
    pub extras: Vec<i64>,
    /// Running sum of the extra times up to and including each day.
    pub cumulative: Vec<i64>,
    /// Extra time over the whole period.
    pub total_extra: i64,
}

impl DailySummary {
    /// The vectors of the summary all have one position per day.
    pub open spec fn well_formed(&self) -> bool {
        &&& strictly_ascending(self.days@)
        &&& self.buckets@.len() == self.days@.len()
        &&& self.totals@.len() == self.days@.len()
        &&& self.extras@.len() == self.days@.len()
        &&& self.cumulative@.len() == self.days@.len()
    }

    /// The summary is the aggregation of `es` against `baseline`.
    pub open spec fn summarizes(&self, es: Seq<TimeEntry>, baseline: int) -> bool {
        &&& self.well_formed()
        &&& forall|d: Day| self.days@.contains(d) <==> has_day(es, d)
        &&& forall|k: int| 0 <= k < self.days@.len() ==> (#[trigger] self.buckets@[k])@
            == bucket_of(es, self.days@[k])
        &&& forall|k: int| 0 <= k < self.days@.len() ==> #[trigger] self.totals@[k]
            == seq_sum(bucket_of(es, self.days@[k]))
        &&& forall|k: int| 0 <= k < self.days@.len() ==> #[trigger] self.extras@[k]
            == self.totals@[k] - baseline
        &&& forall|k: int| 0 <= k < self.days@.len() ==> #[trigger] self.cumulative@[k]
            == seq_sum(self.extras@.take(k + 1))
        &&& self.total_extra == seq_sum(self.extras@)
    }
}

/// Adding a value at any position adds it to the sum.
pub proof fn lemma_sum_insert(s: Seq<i64>, k: int, x: i64)
    requires
        0 <= k <= s.len(),
    ensures
        seq_sum(s.insert(k, x)) == seq_sum(s) + x,
    decreases s.len(),
{
    if k == s.len() {
        assert(s.insert(k, x) =~= s.push(x));
        assert(s.push(x).drop_last() =~= s);
    } else {
        lemma_sum_insert(s.drop_last(), k, x);
        assert(s.insert(k, x).drop_last() =~= s.drop_last().insert(k, x));
    }
}

/// Replacing a value changes the sum by the difference.
pub proof fn lemma_sum_update(s: Seq<i64>, k: int, x: i64)
    requires
        0 <= k < s.len(),
    ensures
        seq_sum(s.update(k, x)) == seq_sum(s) - s[k] + x,
    decreases s.len(),
{
    if k == s.len() - 1 {
        assert(s.update(k, x).drop_last() =~= s.drop_last());
    } else {
        lemma_sum_update(s.drop_last(), k, x);
        assert(s.update(k, x).drop_last() =~= s.drop_last().update(k, x));
    }
}

/// Of values that are not negative, every prefix sums to between zero and
/// the whole sum.
pub proof fn lemma_sum_prefix_bounds(s: Seq<i64>, i: int)
    requires
        0 <= i <= s.len(),
        forall|j: int| 0 <= j < s.len() ==> s[j] >= 0,
    ensures
        0 <= seq_sum(s.take(i)) <= seq_sum(s),
    decreases s.len(),
{
    if s.len() > 0 {
        if i == s.len() {
            assert(s.take(i) =~= s);
            lemma_sum_prefix_bounds(s.drop_last(), i - 1);
            assert(s.drop_last().take(i - 1) =~= s.take(i - 1));
            assert(s.drop_last().take(s.len() - 1) =~= s.drop_last());
        } else {
            lemma_sum_prefix_bounds(s.drop_last(), i);
            assert(s.drop_last().take(i) =~= s.take(i));
            lemma_sum_prefix_bounds(s.drop_last(), s.len() - 1);
            assert(s.drop_last().take(s.len() - 1) =~= s.drop_last());
        }
    }
}

/// Every value of a sequence that is not negative is at most the sum.
pub proof fn lemma_sum_element_bound(s: Seq<i64>, k: int)
    requires
        0 <= k < s.len(),
        forall|j: int| 0 <= j < s.len() ==> s[j] >= 0,
    ensures
        s[k] <= seq_sum(s),
    decreases s.len(),
{
    if k < s.len() - 1 {
        lemma_sum_element_bound(s.drop_last(), k);
    }
    lemma_sum_prefix_bounds(s.drop_last(), s.len() - 1);
    assert(s.drop_last().take(s.len() - 1) =~= s.drop_last());
}

/// A day that no entry belongs to has no durations.
pub proof fn lemma_bucket_of_absent(es: Seq<TimeEntry>, d: Day)
    requires
        !has_day(es, d),
    ensures
        bucket_of(es, d) == Seq::<i64>::empty(),
    decreases es.len(),
{
    if es.len() > 0 {
        lemma_bucket_of_absent(es.drop_last(), d);
    }
}

/// The first position of `days` whose day is not before `d`.
fn find_slot(days: &Vec<Day>, d: &Day) -> (k: usize)
    requires
        strictly_ascending(days@),
    ensures
        k <= days@.len(),
        forall|j: int| 0 <= j < k ==> (#[trigger] days@[j]).before(*d),
        forall|j: int| k <= j < days@.len() ==> !(#[trigger] days@[j]).before(*d),
{
    let mut k: usize = 0;
    while k < days.len()
        invariant
            k <= days@.len(),
            strictly_ascending(days@),
            forall|j: int| 0 <= j < k ==> (#[trigger] days@[j]).before(*d),
        decreases days@.len() - k,
    {
        if !days[k].is_before(d) {
            return k;
        }
        k = k + 1;
    }
    k
}

/// Adds one entry's duration to the day buckets, keeping the days ascending.
fn add_entry(
    days: &mut Vec<Day>,
    buckets: &mut Vec<Vec<i64>>,
    totals: &mut Vec<i64>,
    e: TimeEntry,
    Ghost(p): Ghost<Seq<TimeEntry>>,
)
    requires
        old(buckets)@.len() == old(days)@.len(),
        old(totals)@.len() == old(days)@.len(),
        strictly_ascending(old(days)@),
        forall|d: Day| old(days)@.contains(d) <==> has_day(p, d),
        forall|k: int| 0 <= k < old(days)@.len() ==> (#[trigger] old(buckets)@[k])@
            == bucket_of(p, old(days)@[k]),
        forall|k: int| 0 <= k < old(days)@.len() ==> #[trigger] old(totals)@[k]
            == seq_sum(bucket_of(p, old(days)@[k])),
        forall|k: int| 0 <= k < old(days)@.len() ==> #[trigger] old(totals)@[k] >= 0,
        seq_sum(old(totals)@) == seq_sum(durations(p)),
        e.duration_seconds >= 0,
        seq_sum(durations(p)) + e.duration_seconds <= i64::MAX,
    ensures
        final(buckets)@.len() == final(days)@.len(),
        final(totals)@.len() == final(days)@.len(),
        final(days)@.len() <= old(days)@.len() + 1,
        strictly_ascending(final(days)@),
        forall|d: Day| final(days)@.contains(d) <==> has_day(p.push(e), d),
        forall|k: int| 0 <= k < final(days)@.len() ==> (#[trigger] final(buckets)@[k])@
            == bucket_of(p.push(e), final(days)@[k]),
        forall|k: int| 0 <= k < final(days)@.len() ==> #[trigger] final(totals)@[k]
            == seq_sum(bucket_of(p.push(e), final(days)@[k])),
        forall|k: int| 0 <= k < final(days)@.len() ==> #[trigger] final(totals)@[k] >= 0,
        seq_sum(final(totals)@) == seq_sum(durations(p.push(e))),
{
    let ghost q = p.push(e);
    assert(q.drop_last() =~= p);
    assert(durations(q) =~= durations(p).push(e.duration_seconds));
    assert(durations(q).drop_last() =~= durations(p));
    let k = find_slot(days, &e.day);
    if k < days.len() && days[k] == e.day {
        proof {
            lemma_sum_element_bound(totals@, k as int);
            lemma_sum_update(totals@, k as int, (totals@[k as int] + e.duration_seconds) as i64);
        }
        let t = totals.remove(k);
        totals.insert(k, t + e.duration_seconds);
        let mut b = buckets.remove(k);
        b.push(e.duration_seconds);
        buckets.insert(k, b);
        assert(totals@ =~= old(totals)@.update(k as int, (t + e.duration_seconds) as i64));
        assert forall|d: Day| days@.contains(d) <==> has_day(q, d) by {
            assert(q.last() == e);
            assert(has_day(q, d) == (e.day == d || has_day(p, d)));
            if d == e.day {
                assert(days@[k as int] == d);
            }
        }
        assert forall|j: int| 0 <= j < days@.len() implies (#[trigger] buckets@[j])@ == bucket_of(q, days@[j]) by {
            if j != k {
                assert(days@[j] != days@[k as int]);
            }
        }
        assert forall|j: int| 0 <= j < days@.len() implies #[trigger] totals@[j] == seq_sum(bucket_of(q, days@[j])) by {
            if j != k {
                assert(days@[j] != days@[k as int]);
            } else {
                assert(bucket_of(q, e.day).drop_last() =~= bucket_of(p, e.day));
            }
        }
    } else {
        let ghost od = days@;
        proof {
            assert(!od.contains(e.day)) by {
                if od.contains(e.day) {
                    let j = choose|j: int| 0 <= j < od.len() && od[j] == e.day;
                    assert(!od[j].before(e.day));
                    if j > k {
                        assert(od[k as int].before(od[j]));
                    }
                }
            }
            lemma_bucket_of_absent(p, e.day);
            lemma_sum_insert(totals@, k as int, e.duration_seconds);
        }
        days.insert(k, e.day);
        totals.insert(k, e.duration_seconds);
        let mut b: Vec<i64> = Vec::new();
        b.push(e.duration_seconds);
        buckets.insert(k, b);
        assert(bucket_of(q, e.day) =~= seq![e.duration_seconds]);
        assert(seq_sum(seq![e.duration_seconds]) == e.duration_seconds) by {
            assert(seq![e.duration_seconds].drop_last() =~= Seq::<i64>::empty());
            assert(seq_sum(Seq::<i64>::empty()) == 0);
        }
        assert forall|a: int, c: int| 0 <= a < c < days@.len() implies (#[trigger] days@[a]).before(#[trigger] days@[c]) by {
            if a < k && c > k {
                assert(od[a].before(e.day));
                assert(!od[c - 1].before(e.day));
                assert(od[c - 1] != e.day);
            } else if a == k {
                assert(!od[c - 1].before(e.day));
                assert(od[c - 1] != e.day);
            } else if c == k {
                assert(od[a].before(e.day));
            } else if a > k {
                assert(od[a - 1].before(od[c - 1]));
            } else {
                assert(od[a].before(od[c]));
            }
        }
        assert forall|d: Day| days@.contains(d) <==> has_day(q, d) by {
            if days@.contains(d) && d != e.day {
                let j = choose|j: int| 0 <= j < days@.len() && days@[j] == d;
                if j < k {
                    assert(od[j] == d);
                } else {
                    assert(od[j - 1] == d);
                }
            }
            if has_day(p, d) {
                assert(od.contains(d));
                let j = choose|j: int| 0 <= j < od.len() && od[j] == d;
                if j < k {
                    assert(days@[j] == d);
                } else {
                    assert(days@[j + 1] == d);
                }
            }
            if d == e.day {
                assert(days@[k as int] == d);
            }
        }
        assert forall|j: int| 0 <= j < days@.len() implies (#[trigger] buckets@[j])@ == bucket_of(q, days@[j])
            && #[trigger] totals@[j] == seq_sum(bucket_of(q, days@[j])) && totals@[j] >= 0 by {
            if j < k {
                assert(od[j] != e.day);
                assert(buckets@[j] == old(buckets)@[j]);
            } else if j > k {
                assert(od[j - 1] != e.day);
                assert(buckets@[j] == old(buckets)@[j - 1]);
            }
        }
    }
}

/// Every day that some entry belongs to is the day of one of the entries.
pub proof fn lemma_has_day_valid(es: Seq<TimeEntry>, d: Day)
    requires
        has_day(es, d),
        forall|i: int| 0 <= i < es.len() ==> (#[trigger] es[i]).day.is_valid(),
    ensures
        d.is_valid(),
    decreases es.len(),
{
    if es.last().day != d {
        lemma_has_day_valid(es.drop_last(), d);
    }
}

/// Aggregates a batch of entries against a daily baseline: groups the
/// durations by day, totals each day, subtracts the baseline, and accumulates
/// the extra times in chronological order.
pub fn aggregate(entries: &Vec<TimeEntry>, baseline: i64) -> (r: DailySummary)
    requires
        admissible(entries@, baseline as int),
    ensures
        r.summarizes(entries@, baseline as int),
        forall|k: int| 0 <= k < r.days@.len() ==> (#[trigger] r.days@[k]).is_valid(),
{
    let ghost es = entries@;
    let mut days: Vec<Day> = Vec::new();
    let mut buckets: Vec<Vec<i64>> = Vec::new();
    let mut totals: Vec<i64> = Vec::new();
    let mut i: usize = 0;
    assert(es.take(0) =~= Seq::<TimeEntry>::empty());
    assert(durations(es.take(0)) =~= Seq::<i64>::empty());
    while i < entries.len()
        invariant
            i <= es.len(),
            es == entries@,
            admissible(es, baseline as int),
            buckets@.len() == days@.len(),
            totals@.len() == days@.len(),
            days@.len() <= i,
            strictly_ascending(days@),
            forall|d: Day| days@.contains(d) <==> has_day(es.take(i as int), d),
            forall|k: int| 0 <= k < days@.len() ==> (#[trigger] buckets@[k])@
                == bucket_of(es.take(i as int), days@[k]),
            forall|k: int| 0 <= k < days@.len() ==> #[trigger] totals@[k]
                == seq_sum(bucket_of(es.take(i as int), days@[k])),
            forall|k: int| 0 <= k < days@.len() ==> #[trigger] totals@[k] >= 0,
            seq_sum(totals@) == seq_sum(durations(es.take(i as int))),
        decreases es.len() - i,
    {
        let e = entries[i];
        proof {
            assert(es.take(i + 1) =~= es.take(i as int).push(e));
            assert(durations(es.take(i + 1)) =~= durations(es).take(i + 1));
            assert(durations(es.take(i + 1)) =~= durations(es.take(i as int)).push(e.duration_seconds));
            assert(durations(es.take(i + 1)).drop_last() =~= durations(es.take(i as int)));
            assert forall|j: int| 0 <= j < es.len() implies #[trigger] durations(es)[j] >= 0 by {
                assert(es[j].duration_seconds >= 0);
            }
            lemma_sum_prefix_bounds(durations(es), i + 1);
        }
        add_entry(&mut days, &mut buckets, &mut totals, e, Ghost(es.take(i as int)));
        i = i + 1;
    }
    assert(es.take(i as int) =~= es);
    proof {
        assert forall|k: int| 0 <= k < days@.len() implies (#[trigger] days@[k]).is_valid() by {
            assert(days@.contains(days@[k]));
            lemma_has_day_valid(es, days@[k]);
        }
    }

    let mut extras: Vec<i64> = Vec::new();
    let mut cumulative: Vec<i64> = Vec::new();
    let mut acc: i64 = 0;
    let n = days.len();
    let mut j: usize = 0;
    assert(totals@.take(0) =~= Seq::<i64>::empty());
    assert(extras@ =~= Seq::<i64>::empty());
    while j < n
        invariant
            j <= n,
            n == days@.len(),
            n <= es.len(),
            totals@.len() == n,
            forall|k: int| 0 <= k < n ==> #[trigger] totals@[k] >= 0,
            seq_sum(totals@) <= i64::MAX,
            0 <= baseline,
            es.len() * baseline <= i64::MAX,
            extras@.len() == j,
            cumulative@.len() == j,
            forall|m: int| 0 <= m < j ==> #[trigger] extras@[m] == totals@[m] - baseline,
            forall|m: int| 0 <= m < j ==> #[trigger] cumulative@[m] == seq_sum(extras@.take(m + 1)),
            acc == seq_sum(extras@),
            acc == seq_sum(totals@.take(j as int)) - j * baseline,
        decreases n - j,
    {
        proof {
            lemma_sum_prefix_bounds(totals@, j + 1);
            assert(totals@.take(j + 1).drop_last() =~= totals@.take(j as int));
            assert((j + 1) * baseline <= es.len() * baseline) by (nonlinear_arith)
                requires j + 1 <= es.len(), 0 <= baseline;
            assert(j * baseline + baseline == (j + 1) * baseline) by (nonlinear_arith);
        }
        let extra = totals[j] - baseline;
        let ghost old_extras = extras@;
        extras.push(extra);
        acc = acc + extra;
        cumulative.push(acc);
        proof {
            assert(extras@.drop_last() =~= old_extras);
            assert(extras@.take(j + 1) =~= extras@);
            assert forall|m: int| 0 <= m < j implies #[trigger] cumulative@[m] == seq_sum(extras@.take(m + 1)) by {
                assert(extras@.take(m + 1) =~= old_extras.take(m + 1));
            }
        }
        j = j + 1;
    }
    DailySummary { days, buckets, totals, extras, cumulative, total_extra: acc }
}

impl DailySummary {
    /// The position of day `d` in the summary, if it is there.
    pub fn position_of(&self, d: &Day) -> (r: Option<usize>)
        requires
            self.well_formed(),
        ensures
            r is None <==> !self.days@.contains(*d),
            r matches Some(k) ==> k < self.days@.len() && self.days@[k as int] == *d,
    {
        let mut k: usize = 0;
        while k < self.days.len()
            invariant
                k <= self.days@.len(),
                forall|j: int| 0 <= j < k ==> self.days@[j] != *d,
            decreases self.days@.len() - k,
        {
            if self.days[k] == *d {
                return Some(k);
            }
            k = k + 1;
        }
        None
    }

    /// Total seconds worked on day `d`.
    pub fn total_of(&self, d: &Day) -> (r: Result<i64, SummaryError>)
        requires
            self.well_formed(),
        ensures
            r == Err::<i64, SummaryError>(SummaryError::MissingDayTotal) <==> !self.days@.contains(*d),
            forall|k: int| 0 <= k < self.days@.len() && self.days@[k] == *d ==> r == Ok::<i64, SummaryError>(self.totals@[k]),
    {
        match self.position_of(d) {
            Some(k) => {
                proof { self.lemma_position_unique(k as int); }
                Ok(self.totals[k])
            }
            None => Err(SummaryError::MissingDayTotal),
        }
    }

    /// Extra time worked on day `d`.
    pub fn extra_of(&self, d: &Day) -> (r: Result<i64, SummaryError>)
        requires
            self.well_formed(),
        ensures
            r == Err::<i64, SummaryError>(SummaryError::MissingDayTotal) <==> !self.days@.contains(*d),
            forall|k: int| 0 <= k < self.days@.len() && self.days@[k] == *d ==> r == Ok::<i64, SummaryError>(self.extras@[k]),
    {
        match self.position_of(d) {
            Some(k) => {
                proof { self.lemma_position_unique(k as int); }
                Ok(self.extras[k])
            }
            None => Err(SummaryError::MissingDayTotal),
        }
    }

    /// Extra time accumulated up to and including day `d`.
    pub fn cumulative_of(&self, d: &Day) -> (r: Result<i64, SummaryError>)
        requires
            self.well_formed(),
        ensures
            r == Err::<i64, SummaryError>(SummaryError::MissingDayTotal) <==> !self.days@.contains(*d),
            forall|k: int| 0 <= k < self.days@.len() && self.days@[k] == *d ==> r == Ok::<i64, SummaryError>(self.cumulative@[k]),
    {
        match self.position_of(d) {
            Some(k) => {
                proof { self.lemma_position_unique(k as int); }
                Ok(self.cumulative[k])
            }
            None => Err(SummaryError::MissingDayTotal),
        }
    }

    /// A day stands at one position only.
    pub proof fn lemma_position_unique(&self, k: int)
        requires
            self.well_formed(),
            0 <= k < self.days@.len(),
        ensures
            forall|j: int| 0 <= j < self.days@.len() && self.days@[j] == self.days@[k] ==> j == k,
    {
        assert forall|j: int| 0 <= j < self.days@.len() && self.days@[j] == self.days@[k] implies j == k by {
            if j < k {
                assert(self.days@[j].before(self.days@[k]));
            } else if j > k {
                assert(self.days@[k].before(self.days@[j]));
            }
        }
    }
}

/// On the last day, the cumulative extra time equals the sum of the extra
/// times of all days, which is the total extra time of the period.
pub proof fn lemma_last_cumulative_is_total(s: &DailySummary, es: Seq<TimeEntry>, baseline: int)
    requires
        s.summarizes(es, baseline),
        s.days@.len() > 0,
    ensures
        s.cumulative@.last() == seq_sum(s.extras@),
        s.cumulative@.last() == s.total_extra,
{
    let n = s.days@.len() as int;
    assert(s.extras@.take(n) =~= s.extras@);
    assert(s.cumulative@[n - 1] == seq_sum(s.extras@.take(n)));
}

/// Each day's extra time is its total minus the baseline, negative when the
/// day falls short of it.
pub proof fn lemma_extra_is_total_minus_baseline(s: &DailySummary, es: Seq<TimeEntry>, baseline: int, k: int)
    requires
        s.summarizes(es, baseline),
        0 <= k < s.days@.len(),
    ensures
        s.extras@[k] == seq_sum(bucket_of(es, s.days@[k])) - baseline,
        s.extras@[k] < 0 <==> s.totals@[k] < baseline,
{
}

/// No entries give no days, no figures, and a total extra time of zero.
pub proof fn lemma_empty_input(s: &DailySummary, es: Seq<TimeEntry>, baseline: int)
    requires
        s.summarizes(es, baseline),
        es.len() == 0,
    ensures
        s.days@.len() == 0,
        s.buckets@.len() == 0,
        s.totals@.len() == 0,
        s.extras@.len() == 0,
        s.cumulative@.len() == 0,
        s.total_extra == 0,
{
    assert(s.days@.len() == 0) by {
        if s.days@.len() > 0 {
            assert(s.days@.contains(s.days@[0]));
            assert(!has_day(es, s.days@[0]));
        }
    }
    assert(s.extras@ =~= Seq::<i64>::empty());
    assert(seq_sum(Seq::<i64>::empty()) == 0);
}

} // verus!
