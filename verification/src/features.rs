//! From log lines to features.
//!
//! What is counted and decided of a feature is found here. Its arithmetic in doubles (logarithms,
//! means, quotients) is left to the caller, who completes a `FeatureRow` to an `Enriched`.

use std::collections::{HashMap, VecDeque};

use vstd::prelude::*;

use crate::calendar::{in_calendar, is_weekend, law_week, weekend};
use crate::counting::{
    count, lemma_count_more, lemma_count_permuted, lemma_count_range, lemma_count_same,
};
use crate::double::{lemma_order_key, Double};
use crate::order::{before, double_keys, sort_doubles, stable_sorting, taken};
use crate::record::{
    by_time, encode_operation, law_operation_codes, operation_code, LogRecord,
};

verus! {

/// The sliding window: five minutes.
pub const WINDOW_SECS: i64 = 300;

/// A user needs this many earlier lines before sizes are compared with their mean.
pub const MIN_HISTORY: usize = 10;

/// The features of a line, with what the explanations need.
#[derive(Debug)]
pub struct Enriched {
    pub features: Vec<Double>,
    /// Operations of the user in the five minutes that end with this line.
    pub count5: usize,
    /// The largest such number of the whole log, at least one.
    pub max_count: usize,
    /// The size, over the mean size of the user's earlier lines.
    pub ratio: Double,
}

/// The middle of some numbers in sorted order.
#[derive(Clone, Copy, Debug, PartialEq, Eq, Structural)]
pub enum Middle {
    /// There are no numbers.
    Empty,
    /// The number in the middle.
    One(Double),
    /// The two numbers beside the middle; the median is their mean.
    Two(Double, Double),
}

/// The middle of a sorted sequence.
pub open spec fn middle(sorted: Seq<Double>) -> Middle {
    let n = sorted.len() as int;
    if n == 0 {
        Middle::Empty
    } else if n % 2 == 1 {
        Middle::One(sorted[n / 2])
    } else {
        Middle::Two(sorted[n / 2 - 1], sorted[n / 2])
    }
}

/// Sorts numbers and finds their middle. Should there be NaNs, they go to the ends.
pub fn median(vals: &mut Vec<Double>) -> (r: Middle)
    ensures
        exists|order: Seq<usize>|
            stable_sorting(double_keys(old(vals)@), order) && final(vals)@ == taken(
                old(vals)@,
                order,
            ),
        r == middle(final(vals)@),
{
    sort_doubles(vals);
    let n = vals.len();
    if n == 0 {
        Middle::Empty
    } else if n % 2 == 1 {
        Middle::One(vals[n / 2])
    } else {
        Middle::Two(vals[n / 2 - 1], vals[n / 2])
    }
}

/// A window without the times, from its start, that lie more than five minutes before `now`.
pub open spec fn fresh(window: Seq<i64>, now: i64) -> Seq<i64>
    decreases window.len(),
{
    if window.len() > 0 && now - window[0] > WINDOW_SECS {
        fresh(window.drop_first(), now)
    } else {
        window
    }
}

/// The window of a user after the first `n` lines.
pub open spec fn window(logs: Seq<LogRecord>, user: u32, n: nat) -> Seq<i64>
    decreases n,
{
    if n == 0 {
        Seq::empty()
    } else {
        let before = window(logs, user, (n - 1) as nat);
        let line = logs[n - 1];
        if line.user_id == user {
            fresh(before, line.timestamp.epoch).push(line.timestamp.epoch)
        } else {
            before
        }
    }
}

/// The operations in the window of the user of line `i`, with that line.
pub open spec fn count5(logs: Seq<LogRecord>, i: int) -> nat {
    window(logs, logs[i].user_id, (i + 1) as nat).len()
}

/// The largest of the first `n` such numbers, at least one.
pub open spec fn peak(logs: Seq<LogRecord>, n: nat) -> nat
    decreases n,
{
    if n == 0 {
        1
    } else {
        let rest = peak(logs, (n - 1) as nat);
        if count5(logs, n - 1) > rest {
            count5(logs, n - 1)
        } else {
            rest
        }
    }
}

/// How many of the first `n` lines belong to a user.
pub open spec fn earlier(logs: Seq<LogRecord>, user: u32, n: nat) -> nat {
    count(n, |j: int| logs[j].user_id == user)
}

/// What the features of a line are computed from.
#[derive(Clone, Copy, Debug, PartialEq, Eq, Structural)]
pub struct FeatureRow {
    pub hour: u32,
    pub minute: u32,
    pub file_size_kb: Double,
    pub sensitivity: u8,
    /// The code of the operation.
    pub operation: i64,
    pub count5: usize,
    pub max_count: usize,
    /// The number of the user's earlier lines, if there are enough of them to compare the size
    /// with their mean; otherwise the ratio is one.
    pub history: Option<usize>,
    /// Whether the line falls on a weekend, where that is a feature.
    pub weekend: Option<bool>,
}

/// What the features of line `i` are computed from.
pub open spec fn feature_row(logs: Seq<LogRecord>, i: int, include_weekday: bool) -> FeatureRow {
    let line = logs[i];
    let before = earlier(logs, line.user_id, i as nat);
    FeatureRow {
        hour: line.timestamp.hour,
        minute: line.timestamp.minute,
        file_size_kb: line.file_size_kb,
        sensitivity: line.sensitivity,
        operation: operation_code(line.operation@) as i64,
        count5: count5(logs, i) as usize,
        max_count: peak(logs, logs.len()) as usize,
        history: if before < MIN_HISTORY {
            None
        } else {
            Some(before as usize)
        },
        weekend: if include_weekday {
            Some(weekend(line.timestamp.day as int))
        } else {
            None
        },
    }
}

spec fn held(windows: Map<u32, VecDeque<i64>>, user: u32) -> Seq<i64> {
    if windows.contains_key(user) {
        windows[user]@
    } else {
        Seq::empty()
    }
}

spec fn noted(hist: Map<u32, usize>, user: u32) -> nat {
    if hist.contains_key(user) {
        hist[user] as nat
    } else {
        0
    }
}

/// The sizes of the windows, line by line, and how many lines of its user come before each.
fn window_counts(logs: &Vec<LogRecord>) -> (r: (Vec<usize>, Vec<usize>))
    ensures
        r.0@.len() == logs@.len(),
        r.1@.len() == logs@.len(),
        forall|i: int|
            0 <= i < logs@.len() ==> (#[trigger] r.0@[i]) == count5(logs@, i) && r.0@[i] >= 1,
        forall|i: int|
            0 <= i < logs@.len() ==> (#[trigger] r.1@[i]) == earlier(
                logs@,
                logs@[i].user_id,
                i as nat,
            ),
{
    broadcast use vstd::std_specs::hash::group_hash_axioms;

    let mut windows: HashMap<u32, VecDeque<i64>> = HashMap::new();
    let mut hist: HashMap<u32, usize> = HashMap::new();
    let mut counts: Vec<usize> = Vec::new();
    let mut befores: Vec<usize> = Vec::new();
    for i in 0..logs.len()
        invariant
            counts@.len() == i,
            befores@.len() == i,
            i <= logs@.len(),
            forall|k: int|
                0 <= k < i ==> (#[trigger] counts@[k]) == count5(logs@, k) && counts@[k] >= 1,
            forall|k: int|
                0 <= k < i ==> (#[trigger] befores@[k]) == earlier(
                    logs@,
                    logs@[k].user_id,
                    k as nat,
                ),
            forall|u: u32| #[trigger] held(windows@, u) == window(logs@, u, i as nat),
            forall|u: u32| #[trigger] noted(hist@, u) == earlier(logs@, u, i as nat),
    {
        let user = logs[i].user_id;
        let ts = logs[i].timestamp.epoch;
        let ghost (windows0, hist0) = (windows@, hist@);
        let mut dq = match windows.remove(&user) {
            Some(dq) => dq,
            None => VecDeque::new(),
        };
        let ghost before = window(logs@, user, i as nat);
        assert(held(windows0, user) == before);
        assert(dq@ =~= before);
        while dq.len() > 0 && ts as i128 - dq[0] as i128 > WINDOW_SECS as i128
            invariant
                fresh(dq@, ts) == fresh(before, ts),
            decreases dq@.len(),
        {
            dq.pop_front();
        }
        dq.push_back(ts);
        assert(dq@ == window(logs@, user, (i + 1) as nat));
        counts.push(dq.len());
        windows.insert(user, dq);
        let seen = match hist.remove(&user) {
            Some(seen) => seen,
            None => 0,
        };
        befores.push(seen);
        proof {
            assert(noted(hist0, user) == earlier(logs@, user, i as nat));
            lemma_earlier_bound(logs@, user, i as nat);
        }
        hist.insert(user, seen + 1);
        assert forall|u: u32| #[trigger] held(windows@, u) == window(logs@, u, (i + 1) as nat) by {
            assert(held(windows0, u) == window(logs@, u, i as nat));
        }
        assert forall|u: u32| #[trigger] noted(hist@, u) == earlier(logs@, u, (i + 1) as nat) by {
            assert(noted(hist0, u) == earlier(logs@, u, i as nat));
        }
    }
    (counts, befores)
}

proof fn lemma_earlier_bound(logs: Seq<LogRecord>, user: u32, n: nat)
    ensures
        earlier(logs, user, n) <= n,
    decreases n,
{
    if n > 0 {
        lemma_earlier_bound(logs, user, (n - 1) as nat);
    }
}

/// Finds, line by line, what the features are computed from. The seventh feature, whether a line
/// falls on a weekend, is there only on request.
pub fn engineer_features(logs: &Vec<LogRecord>, include_weekday: bool) -> (r: Vec<FeatureRow>)
    requires
        include_weekday ==> forall|i: int|
            0 <= i < logs@.len() ==> in_calendar((#[trigger] logs@[i]).timestamp.day as int),
    ensures
        r@.len() == logs@.len(),
        forall|i: int|
            0 <= i < logs@.len() ==> (#[trigger] r@[i]) == feature_row(logs@, i, include_weekday),
{
    let (counts, befores) = window_counts(logs);
    let mut max_count: usize = 1;
    for i in 0..counts.len()
        invariant
            counts@.len() == logs@.len(),
            forall|k: int|
                0 <= k < logs@.len() ==> (#[trigger] counts@[k]) == count5(logs@, k),
            max_count == peak(logs@, i as nat),
    {
        if counts[i] > max_count {
            max_count = counts[i];
        }
    }
    let mut rows: Vec<FeatureRow> = Vec::new();
    for i in 0..logs.len()
        invariant
            counts@.len() == logs@.len(),
            befores@.len() == logs@.len(),
            forall|k: int|
                0 <= k < logs@.len() ==> (#[trigger] counts@[k]) == count5(logs@, k),
            forall|k: int|
                0 <= k < logs@.len() ==> (#[trigger] befores@[k]) == earlier(
                    logs@,
                    logs@[k].user_id,
                    k as nat,
                ),
            max_count == peak(logs@, logs@.len()),
            include_weekday ==> forall|k: int|
                0 <= k < logs@.len() ==> in_calendar((#[trigger] logs@[k]).timestamp.day as int),
            rows@.len() == i,
            forall|k: int|
                0 <= k < i ==> (#[trigger] rows@[k]) == feature_row(logs@, k, include_weekday),
    {
        let line = &logs[i];
        rows.push(
            FeatureRow {
                hour: line.timestamp.hour,
                minute: line.timestamp.minute,
                file_size_kb: line.file_size_kb,
                sensitivity: line.sensitivity,
                operation: encode_operation(line.operation.as_str()),
                count5: counts[i],
                max_count,
                history: if befores[i] < MIN_HISTORY {
                    None
                } else {
                    Some(befores[i])
                },
                weekend: if include_weekday {
                    Some(is_weekend(line.timestamp.day))
                } else {
                    None
                },
            },
        );
    }
    rows
}

/// No count exceeds the largest one, and some line has it, so that the share of the largest
/// count lies above zero, at most at one, and reaches one.
pub proof fn law_frequency_is_a_share(logs: Seq<LogRecord>, n: nat)
    requires
        0 < n,
        n <= logs.len(),
    ensures
        forall|i: int| 0 <= i < n ==> 1 <= #[trigger] count5(logs, i) <= peak(logs, n),
        exists|i: int| 0 <= i < n && #[trigger] count5(logs, i) == peak(logs, n),
    decreases n,
{
    assert(count5(logs, n - 1) >= 1);
    if n > 1 {
        law_frequency_is_a_share(logs, (n - 1) as nat);
        let i = choose|i: int|
            0 <= i < n - 1 && #[trigger] count5(logs, i) == peak(logs, (n - 1) as nat);
        if count5(logs, n - 1) <= peak(logs, (n - 1) as nat) {
            assert(0 <= i < n && count5(logs, i) == peak(logs, n));
        } else {
            assert(0 <= n - 1 < n && count5(logs, n - 1) == peak(logs, n));
        }
    } else {
        assert(peak(logs, 0) == 1);
        assert(0 <= 0 < n && count5(logs, 0) == peak(logs, n));
    }
}

/// The first ten lines of a user carry no ratio, and every later one does, over the number of
/// lines before it.
pub proof fn law_early_lines_have_no_ratio(logs: Seq<LogRecord>, i: int, include_weekday: bool)
    requires
        0 <= i < logs.len(),
        logs.len() <= usize::MAX,
    ensures
        feature_row(logs, i, include_weekday).history is None <==> earlier(
            logs,
            logs[i].user_id,
            i as nat,
        ) < 10,
        feature_row(logs, i, include_weekday).history matches Some(n) ==> n == earlier(
            logs,
            logs[i].user_id,
            i as nat,
        ),
{
    lemma_earlier_bound(logs, logs[i].user_id, i as nat);
}

/// Two lines that differ in their labels at most.
pub open spec fn same_but_labels(a: LogRecord, b: LogRecord) -> bool {
    &&& a.user_id == b.user_id
    &&& a.timestamp == b.timestamp
    &&& a.operation@ == b.operation@
    &&& a.file_size_kb == b.file_size_kb
    &&& a.sensitivity == b.sensitivity
}

proof fn lemma_window_same(a: Seq<LogRecord>, b: Seq<LogRecord>, user: u32, n: nat)
    requires
        n <= a.len(),
        n <= b.len(),
        forall|i: int| 0 <= i < n ==> same_but_labels(#[trigger] a[i], b[i]),
    ensures
        window(a, user, n) == window(b, user, n),
        earlier(a, user, n) == earlier(b, user, n),
    decreases n,
{
    if n > 0 {
        lemma_window_same(a, b, user, (n - 1) as nat);
        assert(same_but_labels(a[n - 1], b[n - 1]));
    }
}

proof fn lemma_peak_same(a: Seq<LogRecord>, b: Seq<LogRecord>, n: nat)
    requires
        n <= a.len(),
        n <= b.len(),
        forall|i: int| 0 <= i < n ==> same_but_labels(#[trigger] a[i], b[i]),
    ensures
        peak(a, n) == peak(b, n),
    decreases n,
{
    if n > 0 {
        lemma_peak_same(a, b, (n - 1) as nat);
        assert(same_but_labels(a[n - 1], b[n - 1]));
        lemma_window_same(a, b, a[n - 1].user_id, n);
    }
}

/// Labels do not leak into the features: logs that differ in labels only have the same features.
pub proof fn law_no_label_leaks(
    a: Seq<LogRecord>,
    b: Seq<LogRecord>,
    i: int,
    include_weekday: bool,
)
    requires
        a.len() == b.len(),
        forall|k: int| 0 <= k < a.len() ==> same_but_labels(#[trigger] a[k], b[k]),
        0 <= i < a.len(),
    ensures
        feature_row(a, i, include_weekday) == feature_row(b, i, include_weekday),
{
    assert(same_but_labels(a[i], b[i]));
    lemma_window_same(a, b, a[i].user_id, (i + 1) as nat);
    lemma_window_same(a, b, a[i].user_id, i as nat);
    lemma_peak_same(a, b, a.len());
}

/// The future does not leak into the window and the history of a line: what comes after line `i`
/// makes no difference to them.
pub proof fn law_no_future_leaks(a: Seq<LogRecord>, b: Seq<LogRecord>, i: int)
    requires
        0 <= i < a.len(),
        i < b.len(),
        forall|k: int| 0 <= k <= i ==> same_but_labels(#[trigger] a[k], b[k]),
    ensures
        count5(a, i) == count5(b, i),
        earlier(a, a[i].user_id, i as nat) == earlier(b, b[i].user_id, i as nat),
{
    assert(same_but_labels(a[i], b[i]));
    lemma_window_same(a, b, a[i].user_id, (i + 1) as nat);
    lemma_window_same(a, b, a[i].user_id, i as nat);
}

/// The times of a user's lines, among the first `n`, that lie at most five minutes before `now`.
spec fn recent(logs: Seq<LogRecord>, user: u32, n: nat, now: i64) -> Seq<i64>
    decreases n,
{
    if n == 0 {
        Seq::empty()
    } else {
        let rest = recent(logs, user, (n - 1) as nat, now);
        let t = logs[n - 1].timestamp.epoch;
        if logs[n - 1].user_id == user && now - t <= WINDOW_SECS {
            rest.push(t)
        } else {
            rest
        }
    }
}

proof fn lemma_fresh_push(s: Seq<i64>, x: i64, now: i64)
    requires
        now - x <= WINDOW_SECS,
    ensures
        fresh(s.push(x), now) == fresh(s, now).push(x),
    decreases s.len(),
{
    if s.len() > 0 && now - s[0] > WINDOW_SECS {
        assert(s.push(x).drop_first() =~= s.drop_first().push(x));
        lemma_fresh_push(s.drop_first(), x, now);
    }
}

proof fn lemma_fresh_none(s: Seq<i64>, now: i64)
    requires
        forall|k: int| 0 <= k < s.len() ==> now - #[trigger] s[k] > WINDOW_SECS,
    ensures
        fresh(s, now) == Seq::<i64>::empty(),
    decreases s.len(),
{
    if s.len() > 0 {
        assert(now - s[0] > WINDOW_SECS);
        assert forall|k: int| 0 <= k < s.drop_first().len() implies now
            - #[trigger] s.drop_first()[k] > WINDOW_SECS by {
            assert(s.drop_first()[k] == s[k + 1]);
        }
        lemma_fresh_none(s.drop_first(), now);
    }
}

proof fn lemma_recent_stale(logs: Seq<LogRecord>, user: u32, n: nat, now: i64)
    requires
        n <= logs.len(),
        forall|j: int| 0 <= j < n ==> now - (#[trigger] logs[j]).timestamp.epoch > WINDOW_SECS,
    ensures
        recent(logs, user, n, now) == Seq::<i64>::empty(),
    decreases n,
{
    if n > 0 {
        lemma_recent_stale(logs, user, (n - 1) as nat, now);
        assert(now - logs[n - 1].timestamp.epoch > WINDOW_SECS);
    }
}

proof fn lemma_recent_old(logs: Seq<LogRecord>, user: u32, n: nat, now: i64, latest: i64)
    requires
        n <= logs.len(),
        forall|j: int| 0 <= j < n ==> (#[trigger] logs[j]).timestamp.epoch <= latest,
    ensures
        forall|k: int|
            0 <= k < recent(logs, user, n, now).len() ==> #[trigger] recent(logs, user, n, now)[k]
                <= latest,
    decreases n,
{
    if n > 0 {
        let less = recent(logs, user, (n - 1) as nat, now);
        let all = recent(logs, user, n, now);
        lemma_recent_old(logs, user, (n - 1) as nat, now, latest);
        assert(logs[n - 1].timestamp.epoch <= latest);
        assert forall|k: int| 0 <= k < all.len() implies #[trigger] all[k] <= latest by {
            if k < less.len() {
                assert(all[k] == less[k]);
            }
        }
    }
}

proof fn lemma_recent_fresh(logs: Seq<LogRecord>, user: u32, n: nat, then: i64, now: i64)
    requires
        n <= logs.len(),
        by_time(logs),
        then <= now,
    ensures
        fresh(recent(logs, user, n, then), now) == recent(logs, user, n, now),
    decreases n,
{
    if n > 0 {
        let m = (n - 1) as nat;
        let t = logs[n - 1].timestamp.epoch;
        lemma_recent_fresh(logs, user, m, then, now);
        if logs[n - 1].user_id == user && then - t <= WINDOW_SECS {
            if now - t <= WINDOW_SECS {
                lemma_fresh_push(recent(logs, user, m, then), t, now);
            } else {
                assert forall|j: int| 0 <= j < n implies (#[trigger] logs[j]).timestamp.epoch
                    <= t by {}
                lemma_recent_old(logs, user, n, then, t);
                lemma_fresh_none(recent(logs, user, n, then), now);
                lemma_recent_stale(logs, user, n, now);
            }
        }
    }
}

proof fn lemma_window_recent(logs: Seq<LogRecord>, user: u32, n: nat, now: i64)
    requires
        n <= logs.len(),
        by_time(logs),
        forall|j: int| 0 <= j < n ==> (#[trigger] logs[j]).timestamp.epoch <= now,
    ensures
        fresh(window(logs, user, n), now) == recent(logs, user, n, now),
    decreases n,
{
    if n > 0 {
        let m = (n - 1) as nat;
        let t = logs[n - 1].timestamp.epoch;
        assert(t <= now);
        if logs[n - 1].user_id == user {
            assert forall|j: int| 0 <= j < m implies (#[trigger] logs[j]).timestamp.epoch <= t by {}
            lemma_window_recent(logs, user, m, t);
            assert(window(logs, user, n) == recent(logs, user, m, t).push(t));
            assert(recent(logs, user, n, t) == recent(logs, user, m, t).push(t));
            lemma_recent_fresh(logs, user, n, t, now);
        } else {
            lemma_window_recent(logs, user, m, now);
        }
    }
}

proof fn lemma_recent_count(logs: Seq<LogRecord>, user: u32, n: nat, now: i64)
    requires
        n <= logs.len(),
    ensures
        recent(logs, user, n, now).len() == count(
            n,
            |j: int| logs[j].user_id == user && now - logs[j].timestamp.epoch <= WINDOW_SECS,
        ),
    decreases n,
{
    if n > 0 {
        lemma_recent_count(logs, user, (n - 1) as nat, now);
    }
}

/// In a log that is sorted by time, the count of a line is the number of its user's lines, up to
/// and with this one, in the five minutes before it.
pub proof fn law_count_of_five_minutes(logs: Seq<LogRecord>, i: int)
    requires
        by_time(logs),
        0 <= i < logs.len(),
    ensures
        count5(logs, i) == count(
            (i + 1) as nat,
            |j: int|
                logs[j].user_id == logs[i].user_id && logs[i].timestamp.epoch
                    - logs[j].timestamp.epoch <= 300,
        ),
{
    let user = logs[i].user_id;
    let now = logs[i].timestamp.epoch;
    assert forall|j: int| 0 <= j < i implies (#[trigger] logs[j]).timestamp.epoch <= now by {}
    lemma_window_recent(logs, user, i as nat, now);
    assert(window(logs, user, (i + 1) as nat) == recent(logs, user, i as nat, now).push(now));
    lemma_recent_count(logs, user, (i + 1) as nat, now);
    assert(recent(logs, user, (i + 1) as nat, now) == recent(logs, user, i as nat, now).push(now));
    lemma_count_same(
        (i + 1) as nat,
        |j: int| logs[j].user_id == user && now - logs[j].timestamp.epoch <= WINDOW_SECS,
        |j: int|
            logs[j].user_id == logs[i].user_id && logs[i].timestamp.epoch
                - logs[j].timestamp.epoch <= 300,
    );
}

/// Half of the numbers, or more, lie at or below the upper of the two middle numbers, and half
/// or more at or above the lower one (with an odd count the two are one).
pub proof fn law_median_halves(vals: Seq<Double>, order: Seq<usize>)
    requires
        0 < vals.len() <= usize::MAX,
        stable_sorting(double_keys(vals), order),
    ensures
        ({
            let n = vals.len() as int;
            let (lower, upper) = match middle(taken(vals, order)) {
                Middle::Empty => (vals[0], vals[0]),
                Middle::One(m) => (m, m),
                Middle::Two(a, b) => (a, b),
            };
            &&& 2 * count(vals.len(), |i: int| vals[i].value() <= upper.value()) >= n
            &&& 2 * count(vals.len(), |i: int| vals[i].value() >= lower.value()) >= n
        }),
{
    let n = vals.len();
    let keys = double_keys(vals);
    let sorted = taken(vals, order);
    let (lower, upper) = match middle(sorted) {
        Middle::Empty => (vals[0], vals[0]),
        Middle::One(m) => (m, m),
        Middle::Two(a, b) => (a, b),
    };
    let lo_at = if n % 2 == 1 { n as int / 2 } else { n as int / 2 - 1 };
    let hi_at = n as int / 2;
    assert(lower == sorted[lo_at] && upper == sorted[hi_at]);
    assert forall|i: int, j: int| 0 <= i < j < n implies order[i] != order[j] && sorted[i].value()
        <= sorted[j].value() by {
        assert(before(keys, order[i] as int, order[j] as int));
        lemma_order_key(sorted[i], sorted[j]);
        lemma_order_key(sorted[j], sorted[i]);
    }
    let below = |i: int| vals[i].value() <= upper.value();
    let above = |i: int| vals[i].value() >= lower.value();
    lemma_count_permuted(n, order, below);
    lemma_count_permuted(n, order, above);
    lemma_count_range(n, 0, hi_at + 1);
    lemma_count_range(n, lo_at, n as int);
    lemma_count_more(n, |i: int| 0 <= i < hi_at + 1, |i: int| below(order[i] as int));
    lemma_count_more(n, |i: int| lo_at <= i < n as int, |i: int| above(order[i] as int));
}

proof fn lemma_sorted_below(vals: Seq<Double>, order: Seq<usize>, i: int)
    requires
        vals.len() <= usize::MAX,
        stable_sorting(double_keys(vals), order),
        0 <= i < vals.len(),
    ensures
        count(vals.len(), |j: int| vals[j].value() <= taken(vals, order)[i].value()) > i,
        count(vals.len(), |j: int| vals[j].value() < taken(vals, order)[i].value()) <= i,
{
    let n = vals.len();
    let keys = double_keys(vals);
    let sorted = taken(vals, order);
    let v = sorted[i].value();
    assert forall|a: int, b: int| 0 <= a < b < n implies order[a] != order[b] && sorted[a].value()
        <= sorted[b].value() by {
        assert(before(keys, order[a] as int, order[b] as int));
        lemma_order_key(sorted[a], sorted[b]);
        lemma_order_key(sorted[b], sorted[a]);
    }
    let at_most = |j: int| vals[j].value() <= v;
    let under = |j: int| vals[j].value() < v;
    lemma_count_permuted(n, order, at_most);
    lemma_count_permuted(n, order, under);
    lemma_count_range(n, 0, i + 1);
    lemma_count_range(n, 0, i);
    lemma_count_more(n, |j: int| 0 <= j < i + 1, |j: int| at_most(order[j] as int));
    lemma_count_more(n, |j: int| under(order[j] as int), |j: int| 0 <= j < i);
}

/// Numbers in another order have the same middle: their sorted sequences denote the same numbers.
pub proof fn law_order_does_not_matter(
    vals: Seq<Double>,
    order: Seq<usize>,
    shuffle: Seq<usize>,
    others_order: Seq<usize>,
    i: int,
)
    requires
        vals.len() <= usize::MAX,
        shuffle.len() == vals.len(),
        forall|k: int| 0 <= k < shuffle.len() ==> shuffle[k] < vals.len(),
        forall|k: int, l: int| 0 <= k < l < shuffle.len() ==> shuffle[k] != shuffle[l],
        forall|v: usize| v < vals.len() ==> shuffle.contains(v),
        stable_sorting(double_keys(vals), order),
        stable_sorting(double_keys(taken(vals, shuffle)), others_order),
        0 <= i < vals.len(),
    ensures
        taken(taken(vals, shuffle), others_order)[i].value() == taken(vals, order)[i].value(),
{
    let n = vals.len();
    let others = taken(vals, shuffle);
    let a = taken(vals, order)[i].value();
    let b = taken(others, others_order)[i].value();
    lemma_sorted_below(vals, order, i);
    lemma_sorted_below(others, others_order, i);
    if a < b {
        let (p, q) = (|j: int| vals[j].value() <= a, |j: int| others[j].value() < b);
        lemma_count_permuted(n, shuffle, p);
        lemma_count_more(n, |j: int| p(shuffle[j] as int), q);
    }
    if b < a {
        let (p, q) = (|j: int| vals[j].value() < a, |j: int| others[j].value() <= b);
        lemma_count_permuted(n, shuffle, p);
        lemma_count_more(n, q, |j: int| p(shuffle[j] as int));
    }
}

/// What leaves a window is its oldest part: the times at its start that lie more than 300 seconds
/// back, and no time from the first one on that does not.
pub proof fn law_windows_lose_their_start(window: Seq<i64>, now: i64)
    ensures
        exists|m: int|
            {
                &&& 0 <= m <= window.len()
                &&& fresh(window, now) == #[trigger] window.skip(m)
                &&& forall|k: int| 0 <= k < m ==> now - #[trigger] window[k] > 300
                &&& m < window.len() ==> now - window[m] <= 300
            },
    decreases window.len(),
{
    if window.len() > 0 && now - window[0] > WINDOW_SECS {
        let rest = window.drop_first();
        law_windows_lose_their_start(rest, now);
        let m = choose|m: int|
            {
                &&& 0 <= m <= rest.len()
                &&& fresh(rest, now) == #[trigger] rest.skip(m)
                &&& forall|k: int| 0 <= k < m ==> now - #[trigger] rest[k] > 300
                &&& m < rest.len() ==> now - rest[m] <= 300
            };
        assert(window.skip(m + 1) =~= rest.skip(m));
        assert forall|k: int| 0 <= k < m + 1 implies now - #[trigger] window[k] > 300 by {
            if k > 0 {
                assert(rest[k - 1] == window[k]);
            }
        }
        assert(m < rest.len() ==> rest[m] == window[m + 1]);
    } else {
        assert(window.skip(0) =~= window);
    }
}

/// A line joins the window of its own user, after the times that it makes stale have left, and
/// leaves the windows of all others as they are. The count of a line is the length of that window.
pub proof fn law_windows_grow(logs: Seq<LogRecord>, user: u32, n: nat)
    requires
        n < logs.len(),
    ensures
        window(logs, user, 0) == Seq::<i64>::empty(),
        logs[n as int].user_id != user ==> window(logs, user, n + 1) == window(logs, user, n),
        logs[n as int].user_id == user ==> window(logs, user, n + 1) == fresh(
            window(logs, user, n),
            logs[n as int].timestamp.epoch,
        ).push(logs[n as int].timestamp.epoch),
        count5(logs, n as int) == window(logs, logs[n as int].user_id, n + 1).len(),
{
}

/// What the features of a line are computed from: the line's own clock time, size, level and
/// operation; its count and the largest of the log; the number of its user's earlier lines from
/// ten on; and on request whether its day is a Saturday or a Sunday.
pub proof fn law_row_of_a_line(logs: Seq<LogRecord>, i: int, include_weekday: bool)
    requires
        0 <= i < logs.len(),
        logs.len() <= usize::MAX,
    ensures
        ({
            let row = feature_row(logs, i, include_weekday);
            let line = logs[i];
            let before = count(i as nat, |j: int| logs[j].user_id == line.user_id);
            let day = line.timestamp.day as int;
            &&& row.hour == line.timestamp.hour
            &&& row.minute == line.timestamp.minute
            &&& row.file_size_kb == line.file_size_kb
            &&& row.sensitivity == line.sensitivity
            &&& line.operation@ == "view"@ ==> row.operation == 0
            &&& line.operation@ == "download"@ ==> row.operation == 1
            &&& line.operation@ == "edit"@ ==> row.operation == 2
            &&& line.operation@ == "delete"@ ==> row.operation == 3
            &&& line.operation@ != "view"@ && line.operation@ != "download"@ && line.operation@
                != "edit"@ && line.operation@ != "delete"@ ==> row.operation == -1
            &&& before < 10 ==> row.history is None
            &&& before >= 10 ==> row.history == Some(before as usize)
            &&& !include_weekday ==> row.weekend is None
            &&& include_weekday ==> row.weekend == Some(day % 7 == 6 || day % 7 == 0)
        }),
{
    law_operation_codes(logs[i].operation@);
    law_week(logs[i].timestamp.day as int);
    lemma_earlier_bound(logs, logs[i].user_id, i as nat);
}

/// The counts of a line in a log sorted by time: the number of its user's lines in the 300 seconds
/// that end with it, and the largest such number of all lines.
pub proof fn law_counts_of_a_line(logs: Seq<LogRecord>, i: int, k: int, include_weekday: bool)
    requires
        by_time(logs),
        0 <= i < logs.len(),
        0 <= k < logs.len(),
        logs.len() <= usize::MAX,
    ensures
        feature_row(logs, i, include_weekday).count5 == count(
            (i + 1) as nat,
            |j: int|
                logs[j].user_id == logs[i].user_id && logs[i].timestamp.epoch
                    - logs[j].timestamp.epoch <= 300,
        ),
        feature_row(logs, i, include_weekday).max_count == feature_row(
            logs,
            k,
            include_weekday,
        ).max_count,
        feature_row(logs, k, include_weekday).count5 <= feature_row(
            logs,
            i,
            include_weekday,
        ).max_count,
        exists|l: int|
            0 <= l < logs.len() && (#[trigger] feature_row(logs, l, include_weekday)).count5
                == feature_row(logs, i, include_weekday).max_count,
{
    let n = logs.len();
    law_count_of_five_minutes(logs, i);
    law_frequency_is_a_share(logs, n);
    assert forall|l: int| 0 <= l < n implies #[trigger] count5(logs, l) <= l + 1 by {
        law_count_of_five_minutes(logs, l);
        let p = |j: int|
            logs[j].user_id == logs[l].user_id && logs[l].timestamp.epoch - logs[j].timestamp.epoch
                <= 300;
        lemma_count_more((l + 1) as nat, p, p);
    }
    let l = choose|l: int| 0 <= l < n && #[trigger] count5(logs, l) == peak(logs, n);
    assert(count5(logs, k) <= peak(logs, n));
    assert(feature_row(logs, l, include_weekday).count5 == peak(logs, n));
}

/// The middle of an odd number of numbers has as many before it as after it; of an even number the
/// two in the middle have as many before the first as after the second.
pub proof fn law_middle_is_central(sorted: Seq<Double>, k: nat)
    ensures
        sorted.len() == 0 ==> middle(sorted) == Middle::Empty,
        sorted.len() == 2 * k + 1 ==> middle(sorted) == Middle::One(sorted[k as int]),
        k > 0 && sorted.len() == 2 * k ==> middle(sorted) == Middle::Two(
            sorted[k - 1],
            sorted[k as int],
        ),
{
}

} // verus!
