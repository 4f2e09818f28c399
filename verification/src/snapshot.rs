//! Derived, point-in-time views of the engine state: scalar rates over the
//! retained log, endpoint rankings, the status-code distribution and hourly
//! buckets. Everything here is a pure function of the log, the aggregate
//! list and the instant of the request.

use crate::metrics::{is_error_status, EndpointStats, RequestMetric};
use vstd::prelude::*;

verus! {

/// One hour-bucket of the retained log. `hour` is the bucket's start instant
/// in seconds since the Unix epoch, floored to the hour boundary.
#[derive(Debug, Clone)]
pub struct HourlyStats {
    pub hour: i64,
    pub requests: u64,
    pub avg_response_time_ms: u64,
    pub error_rate_percent: u64,
}

/// An immutable report computed fresh on each request; never cached and
/// never itself mutated. Means and rates are in whole units (rounded down);
/// over an empty window they are 0 rather than a fault.
#[derive(Debug)]
pub struct MetricsSnapshot {
    pub timestamp: i64,
    pub uptime_seconds: u64,
    pub total_requests: u64,
    pub requests_per_minute: u64,
    pub avg_response_time_ms: u64,
    pub error_rate_percent: u64,
    pub active_users: u64,
    pub most_used_endpoints: Vec<EndpointStats>,
    pub slowest_endpoints: Vec<EndpointStats>,
    pub error_endpoints: Vec<EndpointStats>,
    pub status_code_distribution: Vec<(u16, u64)>,
    pub hourly_stats: Vec<HourlyStats>,
}

/// Whole seconds elapsed between engine start and `now` (0 if the clock ran
/// backwards past the start instant).
pub open spec fn spec_uptime(start: int, now: int) -> int {
    if now >= start {
        (now - start) / 1000
    } else {
        0
    }
}

/// Is the entry within the last minute as of `now`?
pub open spec fn in_minute_window(m: RequestMetric, now: int) -> bool {
    m.timestamp > now - 60_000
}

/// How many log entries arrived within the last minute as of `now`.
pub open spec fn count_recent(s: Seq<RequestMetric>, now: int) -> int
    decreases s.len(),
{
    if s.len() == 0 {
        0
    } else {
        count_recent(s.drop_last(), now) + if in_minute_window(s.last(), now) {
            1int
        } else {
            0int
        }
    }
}

/// The sum of all durations in the log, in milliseconds.
pub open spec fn sum_durations(s: Seq<RequestMetric>) -> int
    decreases s.len(),
{
    if s.len() == 0 {
        0
    } else {
        sum_durations(s.drop_last()) + s.last().duration_ms as int
    }
}

/// How many log entries carry an error status (the `>= 400` rule).
pub open spec fn count_errors(s: Seq<RequestMetric>) -> int
    decreases s.len(),
{
    if s.len() == 0 {
        0
    } else {
        count_errors(s.drop_last()) + if is_error_status(s.last().status) {
            1int
        } else {
            0int
        }
    }
}

/// The mean duration over the whole retained log, in whole milliseconds
/// (0 over an empty log).
pub open spec fn spec_avg_duration(s: Seq<RequestMetric>) -> int {
    if s.len() == 0 {
        0
    } else {
        sum_durations(s) / s.len() as int
    }
}

/// The share of error entries in the retained log, in whole percent
/// (0 over an empty log).
pub open spec fn spec_error_rate(s: Seq<RequestMetric>) -> int {
    if s.len() == 0 {
        0
    } else {
        100 * count_errors(s) / s.len() as int
    }
}

/// Does the entry count towards the active users: within the last five
/// minutes as of `now` and attributed to a user?
pub open spec fn is_active_entry(m: RequestMetric, now: int) -> bool {
    &&& m.timestamp > now - 300_000
    &&& m.user_id is Some
}

/// The distinct user ids among active entries, in order of first attributed
/// arrival; its length is the active-user count.
pub open spec fn active_users_seq(s: Seq<RequestMetric>, now: int) -> Seq<i32>
    decreases s.len(),
{
    if s.len() == 0 {
        Seq::empty()
    } else {
        let pre = active_users_seq(s.drop_last(), now);
        match s.last().user_id {
            Some(u) => if is_active_entry(s.last(), now) && !pre.contains(u) {
                pre.push(u)
            } else {
                pre
            },
            None => pre,
        }
    }
}

/// How many log entries carry exactly this status code.
pub open spec fn count_status(s: Seq<RequestMetric>, code: u16) -> int
    decreases s.len(),
{
    if s.len() == 0 {
        0
    } else {
        count_status(s.drop_last(), code) + if s.last().status == code {
            1int
        } else {
            0int
        }
    }
}

/// The distinct status codes of the log, in order of first occurrence.
pub open spec fn statuses_in_order(s: Seq<RequestMetric>) -> Seq<u16>
    decreases s.len(),
{
    if s.len() == 0 {
        Seq::empty()
    } else {
        let pre = statuses_in_order(s.drop_last());
        if pre.contains(s.last().status) {
            pre
        } else {
            pre.push(s.last().status)
        }
    }
}

/// A code that never occurred is not in the occurrence order and counts 0.
pub proof fn lemma_status_count_zero(s: Seq<RequestMetric>, code: u16)
    requires
        !statuses_in_order(s).contains(code),
    ensures
        count_status(s, code) == 0,
    decreases s.len(),
{
    if s.len() > 0 {
        let pre = statuses_in_order(s.drop_last());
        if pre.contains(code) {
            assert(statuses_in_order(s).contains(code)) by {
                if !pre.contains(s.last().status) {
                    let j = choose|j: int| 0 <= j < pre.len() && pre[j] == code;
                    assert(statuses_in_order(s)[j] == code);
                }
            }
        }
        if s.last().status == code {
            assert(statuses_in_order(s).contains(code)) by {
                assert(statuses_in_order(s) == pre.push(code));
                assert(statuses_in_order(s)[pre.len() as int] == code);
            }
        }
        lemma_status_count_zero(s.drop_last(), code);
    }
}

/// The status-code distribution of the log: each code that occurs, paired
/// with its number of occurrences, in order of first occurrence.
pub open spec fn status_dist_spec(s: Seq<RequestMetric>) -> Seq<(u16, u64)> {
    statuses_in_order(s).map_values(|c: u16| (c, count_status(s, c) as u64))
}

/// Finds the row of a status code in the distribution being built.
fn find_code(out: &Vec<(u16, u64)>, code: u16) -> (r: Option<usize>)
    ensures
        match r {
            Some(j) => j < out@.len() && out@[j as int].0 == code,
            None => forall|j: int| 0 <= j < out@.len() ==> (#[trigger] out@[j]).0 != code,
        },
{
    let n = out.len();
    let mut i: usize = 0;
    while i < n
        invariant
            i <= n,
            n == out@.len(),
            forall|j: int| 0 <= j < i ==> (#[trigger] out@[j]).0 != code,
        decreases n - i,
    {
        if out[i].0 == code {
            return Some(i);
        }
        i = i + 1;
    }
    None
}

/// Tallies the status-code distribution of the log.
pub(crate) fn status_dist_exec(log: &Vec<RequestMetric>) -> (r: Vec<(u16, u64)>)
    ensures
        r@ == status_dist_spec(log@),
{
    let n = log.len();
    let mut out: Vec<(u16, u64)> = Vec::new();
    let mut i: usize = 0;
    while i < n
        invariant
            i <= n,
            n == log@.len(),
            out@.map_values(|p: (u16, u64)| p.0) == statuses_in_order(log@.take(i as int)),
            forall|j: int|
                0 <= j < out@.len() ==> (#[trigger] out@[j]).1 as int == count_status(
                    log@.take(i as int),
                    out@[j].0,
                ),
            forall|j: int| 0 <= j < out@.len() ==> (#[trigger] out@[j]).1 <= i,
            forall|j: int, k: int|
                0 <= j < k < out@.len() ==> (#[trigger] out@[j]).0 != (#[trigger] out@[k]).0,
        decreases n - i,
    {
        let ghost pre = log@.take(i as int);
        let ghost pre_statuses = statuses_in_order(pre);
        proof {
            assert(log@.take(i + 1).drop_last() =~= log@.take(i as int));
            assert(log@.take(i + 1).last() == log@[i as int]);
        }
        let code = log[i].status;
        let ghost out0 = out@;
        match find_code(&out, code) {
            Some(j) => {
                let row = out[j];
                out.remove(j);
                out.insert(j, (row.0, row.1 + 1));
                proof {
                    assert(out@ =~= out0.update(j as int, (row.0, (row.1 + 1) as u64)));
                    assert(pre_statuses.contains(code)) by {
                        assert(pre_statuses[j as int] == out0[j as int].0);
                    }
                    assert(statuses_in_order(log@.take(i + 1)) == pre_statuses);
                    assert(out@.map_values(|p: (u16, u64)| p.0) =~= pre_statuses);
                    assert forall|k: int| 0 <= k < out@.len() implies (#[trigger] out@[k]).1
                        as int == count_status(log@.take(i + 1), out@[k].0) by {
                        if k == j {
                            assert(out@[k].0 == code);
                        } else {
                            assert(out0[k].0 != code);
                        }
                    }
                }
            },
            None => {
                out.push((code, 1));
                proof {
                    assert(!pre_statuses.contains(code)) by {
                        if pre_statuses.contains(code) {
                            let j = choose|j: int|
                                0 <= j < pre_statuses.len() && pre_statuses[j] == code;
                            assert(out0[j].0 == code);
                        }
                    }
                    assert(statuses_in_order(log@.take(i + 1)) == pre_statuses.push(code));
                    assert(out@.map_values(|p: (u16, u64)| p.0) =~= pre_statuses.push(code));
                    assert forall|k: int| 0 <= k < out@.len() implies (#[trigger] out@[k]).1
                        as int == count_status(log@.take(i + 1), out@[k].0) by {
                        if k < out0.len() {
                            assert(out0[k].0 != code);
                        } else {
                            lemma_status_count_zero(pre, code);
                            assert(out@[k] == (code, 1u64));
                        }
                    }
                }
            },
        }
        i = i + 1;
    }
    proof {
        assert(log@.take(n as int) =~= log@);
        let full = statuses_in_order(log@);
        assert(out@.map_values(|p: (u16, u64)| p.0).len() == out@.len());
        assert forall|j: int| 0 <= j < out@.len() implies out@[j]
            == status_dist_spec(log@)[j] by {
            assert(out@[j].0 == out@.map_values(|p: (u16, u64)| p.0)[j]);
            assert(out@[j].1 as int == count_status(log@, out@[j].0));
        }
        assert(out@ =~= status_dist_spec(log@));
    }
    out
}

/// What a snapshot holds: every field is the stated pure function of the
/// log, the aggregate list, the engine start instant and the instant `now`
/// of the request.
pub open spec fn snapshot_matches(
    snap: MetricsSnapshot,
    log: Seq<RequestMetric>,
    stats: Seq<EndpointStats>,
    start: i64,
    now: i64,
) -> bool {
    &&& snap.timestamp == now
    &&& snap.uptime_seconds as int == spec_uptime(start as int, now as int)
    &&& snap.total_requests as int == log.len()
    &&& snap.requests_per_minute as int == count_recent(log, now as int)
    &&& snap.avg_response_time_ms as int == spec_avg_duration(log)
    &&& snap.error_rate_percent as int == spec_error_rate(log)
    &&& snap.active_users as int == active_users_seq(log, now as int).len()
    &&& snap.most_used_endpoints@ == top_ranked(stats, RankBy::TotalRequests)
    &&& snap.slowest_endpoints@ == top_ranked(stats, RankBy::AvgDuration)
    &&& snap.error_endpoints@ == top_ranked(with_errors(stats), RankBy::ErrorRequests)
    &&& snap.status_code_distribution@ == status_dist_spec(log)
    &&& snap.hourly_stats@ == hourly_spec(log)
}

/// Reading is idempotent: two snapshots of the same engine state agree on
/// everything that does not depend on the clock, and on everything at all
/// when taken at the same instant.
pub proof fn lemma_snapshot_idempotent(
    s1: MetricsSnapshot,
    s2: MetricsSnapshot,
    log: Seq<RequestMetric>,
    stats: Seq<EndpointStats>,
    start: i64,
    now1: i64,
    now2: i64,
)
    requires
        snapshot_matches(s1, log, stats, start, now1),
        snapshot_matches(s2, log, stats, start, now2),
    ensures
        s1.total_requests == s2.total_requests,
        s1.avg_response_time_ms == s2.avg_response_time_ms,
        s1.error_rate_percent == s2.error_rate_percent,
        s1.most_used_endpoints@ == s2.most_used_endpoints@,
        s1.slowest_endpoints@ == s2.slowest_endpoints@,
        s1.error_endpoints@ == s2.error_endpoints@,
        s1.status_code_distribution@ == s2.status_code_distribution@,
        s1.hourly_stats@ == s2.hourly_stats@,
        now1 == now2 ==> s1.timestamp == s2.timestamp && s1.uptime_seconds == s2.uptime_seconds
            && s1.requests_per_minute == s2.requests_per_minute && s1.active_users
            == s2.active_users,
{
}

/// Every aggregate a filtered error list holds saw at least one error.
pub proof fn lemma_with_errors_pred(list: Seq<EndpointStats>)
    ensures
        forall|k: int|
            0 <= k < with_errors(list).len() ==> (#[trigger] with_errors(list)[k]).error_requests
                > 0,
    decreases list.len(),
{
    if list.len() > 0 {
        lemma_with_errors_pred(list.drop_last());
        let pre = with_errors(list.drop_last());
        assert forall|k: int| 0 <= k < with_errors(list).len() implies (
        #[trigger] with_errors(list)[k]).error_requests > 0 by {
            if k < pre.len() {
                assert(with_errors(list)[k] == pre[k]);
            }
        }
    }
}

/// Every hour bucket of a log lies in the representable range.
pub proof fn lemma_hours_in_order_bounds(s: Seq<RequestMetric>)
    ensures
        forall|k: int|
            0 <= k < hours_in_order(s).len() ==> -2_562_047_788_016 <= #[trigger] hours_in_order(
                s,
            )[k] <= 2_562_047_788_015,
    decreases s.len(),
{
    if s.len() > 0 {
        lemma_hours_in_order_bounds(s.drop_last());
        lemma_hour_val(s.last().timestamp);
        let pre = hours_in_order(s.drop_last());
        assert forall|k: int| 0 <= k < hours_in_order(s).len() implies -2_562_047_788_016
            <= #[trigger] hours_in_order(s)[k] <= 2_562_047_788_015 by {
            if k < pre.len() {
                assert(hours_in_order(s)[k] == pre[k]);
            }
        }
    }
}

/// The shape of a snapshot's rankings and hour report: each ranking holds
/// at most ten aggregates in descending rank order, every reported error
/// endpoint saw at least one error, and the hour report holds at most 24
/// buckets, most recent first.
pub proof fn lemma_snapshot_ordered(
    snap: MetricsSnapshot,
    log: Seq<RequestMetric>,
    stats: Seq<EndpointStats>,
    start: i64,
    now: i64,
)
    requires
        snapshot_matches(snap, log, stats, start, now),
    ensures
        snap.most_used_endpoints@.len() <= 10,
        snap.slowest_endpoints@.len() <= 10,
        snap.error_endpoints@.len() <= 10,
        snap.hourly_stats@.len() <= 24,
        forall|i: int, j: int|
            0 <= i < j < snap.most_used_endpoints@.len() ==> rank_key(
                #[trigger] snap.most_used_endpoints@[i],
                RankBy::TotalRequests,
            ) >= rank_key(#[trigger] snap.most_used_endpoints@[j], RankBy::TotalRequests),
        forall|i: int, j: int|
            0 <= i < j < snap.slowest_endpoints@.len() ==> rank_key(
                #[trigger] snap.slowest_endpoints@[i],
                RankBy::AvgDuration,
            ) >= rank_key(#[trigger] snap.slowest_endpoints@[j], RankBy::AvgDuration),
        forall|i: int, j: int|
            0 <= i < j < snap.error_endpoints@.len() ==> rank_key(
                #[trigger] snap.error_endpoints@[i],
                RankBy::ErrorRequests,
            ) >= rank_key(#[trigger] snap.error_endpoints@[j], RankBy::ErrorRequests),
        forall|k: int|
            0 <= k < snap.error_endpoints@.len() ==> (#[trigger] snap.error_endpoints@[k]).error_requests
                > 0,
        forall|i: int, j: int|
            0 <= i < j < snap.hourly_stats@.len() ==> (#[trigger] snap.hourly_stats@[i]).hour
                >= (#[trigger] snap.hourly_stats@[j]).hour,
{
    broadcast use vstd::multiset::group_multiset_axioms;

    lemma_sort_rank_sorted(stats, RankBy::TotalRequests);
    lemma_sort_rank_sorted(stats, RankBy::AvgDuration);
    lemma_sort_rank_sorted(with_errors(stats), RankBy::ErrorRequests);
    lemma_sort_rank_multiset(with_errors(stats), RankBy::ErrorRequests);
    lemma_with_errors_pred(stats);
    with_errors(stats).to_multiset_ensures();
    sort_rank_desc(with_errors(stats), RankBy::ErrorRequests).to_multiset_ensures();
    assert forall|k: int| 0 <= k < snap.error_endpoints@.len() implies (
    #[trigger] snap.error_endpoints@[k]).error_requests > 0 by {
        let sorted = sort_rank_desc(with_errors(stats), RankBy::ErrorRequests);
        let y = snap.error_endpoints@[k];
        assert(sorted[k] == y);
        assert(sorted.contains(y)) by {
            assert(sorted[k] == y);
        }
        assert(with_errors(stats).contains(y));
        let j = choose|j: int|
            0 <= j < with_errors(stats).len() && with_errors(stats)[j] == y;
        assert(with_errors(stats)[j].error_requests > 0);
    }
    lemma_sort_hours_sorted(hours_in_order(log));
    lemma_sort_hours_multiset(hours_in_order(log));
    lemma_hours_in_order_bounds(log);
    let sorted_hours = sort_hours_desc(hours_in_order(log));
    sorted_hours.to_multiset_ensures();
    hours_in_order(log).to_multiset_ensures();
    assert forall|k: int| 0 <= k < kept_hours(log).len() implies -2_562_047_788_016
        <= #[trigger] kept_hours(log)[k] <= 2_562_047_788_015 by {
        assert(kept_hours(log)[k] == sorted_hours[k]);
        let y = sorted_hours[k];
        assert(sorted_hours.contains(y)) by {
            assert(sorted_hours[k] == y);
        }
        assert(hours_in_order(log).contains(y));
        let j = choose|j: int|
            0 <= j < hours_in_order(log).len() && hours_in_order(log)[j] == y;
        assert(hours_in_order(log)[j] == y);
    }
    assert forall|i: int, j: int| 0 <= i < j < snap.hourly_stats@.len() implies (
    #[trigger] snap.hourly_stats@[i]).hour >= (#[trigger] snap.hourly_stats@[j]).hour by {
        assert(snap.hourly_stats@[i] == hstat_of(log, kept_hours(log)[i]));
        assert(snap.hourly_stats@[j] == hstat_of(log, kept_hours(log)[j]));
        assert(kept_hours(log)[i] == sorted_hours[i]);
        assert(kept_hours(log)[j] == sorted_hours[j]);
        assert(sorted_hours[i] >= sorted_hours[j]);
    }
}

/// Whole seconds elapsed since engine start.
pub(crate) fn uptime_seconds_exec(start: i64, now: i64) -> (r: u64)
    ensures
        r as int == spec_uptime(start as int, now as int),
{
    if now >= start {
        let diff = (now as i128) - (start as i128);
        ((diff as u128) / 1000) as u64
    } else {
        0
    }
}

/// Counts the log entries of the last minute.
pub(crate) fn count_recent_exec(log: &Vec<RequestMetric>, now: i64) -> (r: u64)
    ensures
        r as int == count_recent(log@, now as int),
        r <= log@.len(),
{
    let n = log.len();
    let mut c: u64 = 0;
    let mut i: usize = 0;
    while i < n
        invariant
            i <= n,
            n == log@.len(),
            c as int == count_recent(log@.take(i as int), now as int),
            c <= i,
        decreases n - i,
    {
        proof {
            assert(log@.take(i + 1).drop_last() =~= log@.take(i as int));
            assert(log@.take(i + 1).last() == log@[i as int]);
        }
        if (log[i].timestamp as i128) > (now as i128) - 60_000 {
            c = c + 1;
        }
        i = i + 1;
    }
    proof {
        assert(log@.take(n as int) =~= log@);
    }
    c
}

/// The mean duration over the retained log, in whole milliseconds.
pub(crate) fn avg_duration_exec(log: &Vec<RequestMetric>) -> (r: u64)
    ensures
        r as int == spec_avg_duration(log@),
{
    let n = log.len();
    if n == 0 {
        return 0;
    }
    let mut sum: u128 = 0;
    let mut i: usize = 0;
    while i < n
        invariant
            i <= n,
            n == log@.len(),
            sum as int == sum_durations(log@.take(i as int)),
            sum as int <= i as int * (u64::MAX as int),
        decreases n - i,
    {
        proof {
            assert(log@.take(i + 1).drop_last() =~= log@.take(i as int));
            assert(log@.take(i + 1).last() == log@[i as int]);
        }
        sum = sum + (log[i].duration_ms as u128);
        i = i + 1;
    }
    proof {
        assert(log@.take(n as int) =~= log@);
        vstd::arithmetic::div_mod::lemma_div_is_ordered(
            sum as int,
            n as int * (u64::MAX as int),
            n as int,
        );
        vstd::arithmetic::div_mod::lemma_div_by_multiple(u64::MAX as int, n as int);
        assert(n as int * (u64::MAX as int) == (u64::MAX as int) * (n as int));
    }
    (sum / (n as u128)) as u64
}

/// The share of error entries in the retained log, in whole percent.
pub(crate) fn error_rate_exec(log: &Vec<RequestMetric>) -> (r: u64)
    ensures
        r as int == spec_error_rate(log@),
{
    let n = log.len();
    if n == 0 {
        return 0;
    }
    let mut c: u64 = 0;
    let mut i: usize = 0;
    while i < n
        invariant
            i <= n,
            n == log@.len(),
            c as int == count_errors(log@.take(i as int)),
            c <= i,
        decreases n - i,
    {
        proof {
            assert(log@.take(i + 1).drop_last() =~= log@.take(i as int));
            assert(log@.take(i + 1).last() == log@[i as int]);
        }
        if log[i].status >= 400 {
            c = c + 1;
        }
        i = i + 1;
    }
    proof {
        assert(log@.take(n as int) =~= log@);
        vstd::arithmetic::div_mod::lemma_div_is_ordered(
            100 * c as int,
            100 * n as int,
            n as int,
        );
        vstd::arithmetic::div_mod::lemma_div_by_multiple(100int, n as int);
        assert(100 * n as int == 100int * (n as int));
    }
    ((100u128 * (c as u128)) / (n as u128)) as u64
}

/// The hour bucket a timestamp falls in: milliseconds since the epoch,
/// floored to whole hours.
pub open spec fn hour_of(t: i64) -> int {
    t as int / 3_600_000
}

/// The hour bucket as a plain value; it always fits an `i64`.
pub open spec fn hour_val(t: i64) -> i64 {
    (t as int / 3_600_000) as i64
}

/// The hour bucket of any representable timestamp is itself representable,
/// and so is its start instant in seconds.
pub proof fn lemma_hour_val(t: i64)
    ensures
        hour_val(t) as int == hour_of(t),
        -2_562_047_788_016 <= hour_of(t) <= 2_562_047_788_015,
{
    vstd::arithmetic::div_mod::lemma_fundamental_div_mod(t as int, 3_600_000);
    vstd::arithmetic::div_mod::lemma_mod_bound(t as int, 3_600_000);
}

/// The hour bucket of a timestamp, computed without signed division.
fn hour_val_exec(t: i64) -> (h: i64)
    ensures
        h == hour_val(t),
        h as int == hour_of(t),
{
    proof {
        lemma_hour_val(t);
    }
    if t >= 0 {
        ((t as u64) / 3_600_000) as i64
    } else {
        proof {
            let q = t as int / 3_600_000;
            let r = t as int % 3_600_000;
            let m = -(t as int);
            vstd::arithmetic::div_mod::lemma_fundamental_div_mod(t as int, 3_600_000);
            vstd::arithmetic::div_mod::lemma_mod_bound(t as int, 3_600_000);
            vstd::arithmetic::div_mod::lemma_fundamental_div_mod_converse(
                m + 3_599_999,
                3_600_000,
                -q,
                3_599_999 - r,
            );
        }
        let m = (-(t as i128)) as u128;
        let q_ceil = (m + 3_599_999) / 3_600_000;
        -(q_ceil as i64)
    }
}

/// The distinct hour buckets of the log, in order of first occurrence.
pub open spec fn hours_in_order(s: Seq<RequestMetric>) -> Seq<i64>
    decreases s.len(),
{
    if s.len() == 0 {
        Seq::empty()
    } else {
        let pre = hours_in_order(s.drop_last());
        if pre.contains(hour_val(s.last().timestamp)) {
            pre
        } else {
            pre.push(hour_val(s.last().timestamp))
        }
    }
}

/// How many log entries fall in hour bucket `h`.
pub open spec fn count_in_hour(s: Seq<RequestMetric>, h: i64) -> int
    decreases s.len(),
{
    if s.len() == 0 {
        0
    } else {
        count_in_hour(s.drop_last(), h) + if hour_val(s.last().timestamp) == h {
            1int
        } else {
            0int
        }
    }
}

/// The sum of durations of the entries in hour bucket `h`.
pub open spec fn sum_in_hour(s: Seq<RequestMetric>, h: i64) -> int
    decreases s.len(),
{
    if s.len() == 0 {
        0
    } else {
        sum_in_hour(s.drop_last(), h) + if hour_val(s.last().timestamp) == h {
            s.last().duration_ms as int
        } else {
            0int
        }
    }
}

/// How many error entries (the `>= 400` rule) fall in hour bucket `h`.
pub open spec fn errors_in_hour(s: Seq<RequestMetric>, h: i64) -> int
    decreases s.len(),
{
    if s.len() == 0 {
        0
    } else {
        errors_in_hour(s.drop_last(), h) + if hour_val(s.last().timestamp) == h
            && is_error_status(s.last().status) {
            1int
        } else {
            0int
        }
    }
}

/// Hour buckets in descending order: `x` goes after every at-least-as-large
/// element already placed.
pub open spec fn insert_hour_desc(s: Seq<i64>, x: i64) -> Seq<i64>
    decreases s.len(),
{
    if s.len() == 0 {
        seq![x]
    } else if s[0] >= x {
        seq![s[0]] + insert_hour_desc(s.drop_first(), x)
    } else {
        seq![x] + s
    }
}

/// Insertion sort of hour buckets, descending (most recent first).
pub open spec fn sort_hours_desc(s: Seq<i64>) -> Seq<i64>
    decreases s.len(),
{
    if s.len() == 0 {
        Seq::empty()
    } else {
        insert_hour_desc(sort_hours_desc(s.drop_last()), s.last())
    }
}

/// Inserting at the first position whose element is smaller matches the
/// recursive insertion.
proof fn lemma_insert_hour_position(s: Seq<i64>, x: i64, j: int)
    requires
        0 <= j <= s.len(),
        forall|k: int| 0 <= k < j ==> s[k] >= x,
        j < s.len() ==> s[j] < x,
    ensures
        insert_hour_desc(s, x) =~= s.subrange(0, j) + seq![x] + s.skip(j),
    decreases j,
{
    if j == 0 {
        if s.len() > 0 {
            assert(s[0] < x);
        }
    } else {
        lemma_insert_hour_position(s.drop_first(), x, j - 1);
        assert(insert_hour_desc(s, x) == seq![s[0]] + insert_hour_desc(s.drop_first(), x));
    }
}

/// Inserting adds one element and otherwise keeps the collection.
proof fn lemma_insert_hour_multiset(s: Seq<i64>, x: i64)
    ensures
        insert_hour_desc(s, x).len() == s.len() + 1,
        insert_hour_desc(s, x).to_multiset() == s.to_multiset().insert(x),
    decreases s.len(),
{
    broadcast use vstd::seq_lib::lemma_multiset_commutative;
    broadcast use vstd::multiset::group_multiset_axioms;

    let r = insert_hour_desc(s, x);
    if s.len() == 0 {
        assert(s =~= Seq::<i64>::empty());
        assert(r =~= Seq::<i64>::empty().push(x));
        Seq::<i64>::empty().to_multiset_ensures();
        assert(r.to_multiset() =~= s.to_multiset().insert(x));
    } else if s[0] >= x {
        lemma_insert_hour_multiset(s.drop_first(), x);
        let rr = insert_hour_desc(s.drop_first(), x);
        assert(r == seq![s[0]] + rr);
        assert(s =~= seq![s[0]] + s.drop_first());
        assert((seq![s[0]] + rr).to_multiset() =~= seq![s[0]].to_multiset().add(
            rr.to_multiset(),
        ));
        assert((seq![s[0]] + s.drop_first()).to_multiset() =~= seq![s[0]].to_multiset().add(
            s.drop_first().to_multiset(),
        ));
        assert(r.to_multiset() =~= s.to_multiset().insert(x));
    } else {
        assert(r == seq![x] + s);
        assert((seq![x] + s).to_multiset() =~= seq![x].to_multiset().add(s.to_multiset()));
        assert(seq![x] =~= Seq::<i64>::empty().push(x));
        Seq::<i64>::empty().to_multiset_ensures();
        assert(r.to_multiset() =~= s.to_multiset().insert(x));
    }
}

/// Sorting keeps length and the collection of elements.
pub proof fn lemma_sort_hours_multiset(s: Seq<i64>)
    ensures
        sort_hours_desc(s).len() == s.len(),
        sort_hours_desc(s).to_multiset() == s.to_multiset(),
        forall|x: i64| sort_hours_desc(s).contains(x) <==> s.contains(x),
    decreases s.len(),
{
    broadcast use vstd::multiset::group_multiset_axioms;

    s.to_multiset_ensures();
    sort_hours_desc(s).to_multiset_ensures();
    if s.len() > 0 {
        lemma_sort_hours_multiset(s.drop_last());
        lemma_insert_hour_multiset(sort_hours_desc(s.drop_last()), s.last());
        s.drop_last().to_multiset_ensures();
        assert(s =~= s.drop_last().push(s.last()));
        assert(sort_hours_desc(s).to_multiset() =~= s.to_multiset());
    }
    assert forall|x: i64| sort_hours_desc(s).contains(x) <==> s.contains(x) by {
        assert(sort_hours_desc(s).contains(x) <==> sort_hours_desc(s).to_multiset().count(x)
            > 0);
        assert(s.contains(x) <==> s.to_multiset().count(x) > 0);
    }
}

/// Sorted output: every element is at least as large as the ones after it.
pub proof fn lemma_sort_hours_sorted(s: Seq<i64>)
    ensures
        forall|i: int, j: int|
            0 <= i < j < sort_hours_desc(s).len() ==> sort_hours_desc(s)[i]
                >= sort_hours_desc(s)[j],
    decreases s.len(),
{
    if s.len() > 0 {
        lemma_sort_hours_sorted(s.drop_last());
        lemma_insert_hour_sorted(sort_hours_desc(s.drop_last()), s.last());
    }
}

/// Insertion into a descending list keeps it descending.
proof fn lemma_insert_hour_sorted(s: Seq<i64>, x: i64)
    requires
        forall|i: int, j: int| 0 <= i < j < s.len() ==> s[i] >= s[j],
    ensures
        forall|i: int, j: int|
            0 <= i < j < insert_hour_desc(s, x).len() ==> insert_hour_desc(s, x)[i]
                >= insert_hour_desc(s, x)[j],
    decreases s.len(),
{
    broadcast use vstd::multiset::group_multiset_axioms;

    let r = insert_hour_desc(s, x);
    if s.len() == 0 {
    } else if s[0] >= x {
        assert(forall|i: int, j: int|
            0 <= i < j < s.drop_first().len() ==> s.drop_first()[i] >= s.drop_first()[j]) by {
            assert(forall|k: int|
                0 <= k < s.drop_first().len() ==> s.drop_first()[k] == s[k + 1]);
        }
        lemma_insert_hour_sorted(s.drop_first(), x);
        lemma_insert_hour_multiset(s.drop_first(), x);
        s.drop_first().to_multiset_ensures();
        let rr = insert_hour_desc(s.drop_first(), x);
        rr.to_multiset_ensures();
        assert(r == seq![s[0]] + rr);
        assert forall|i: int, j: int| 0 <= i < j < r.len() implies r[i] >= r[j] by {
            assert((seq![s[0]] + rr)[j] == rr[j - 1]);
            if i == 0 {
                assert(r[0] == (seq![s[0]] + rr)[0]);
                assert((seq![s[0]] + rr)[0] == s[0]);
                let y = rr[j - 1];
                assert(rr.contains(y)) by {
                    assert(rr[j - 1] == y);
                }
                assert(rr.to_multiset().count(y) > 0);
                if y == x {
                    assert(s[0] >= y);
                } else {
                    assert(s.drop_first().to_multiset().count(y) > 0);
                    assert(s.drop_first().contains(y));
                    let k = choose|k: int|
                        0 <= k < s.drop_first().len() && s.drop_first()[k] == y;
                    assert(s.drop_first()[k] == s[k + 1]);
                    assert(s[0] >= s[k + 1]);
                }
            } else {
                assert((seq![s[0]] + rr)[i] == rr[i - 1]);
            }
        }
    }
}

/// The hour-bucket report of one hour: request count, mean duration and
/// error rate (the `>= 400` rule) over the entries of that hour, with the
/// same whole-unit, 0-on-empty arithmetic as the snapshot scalars.
pub open spec fn hstat_of(s: Seq<RequestMetric>, h: i64) -> HourlyStats {
    let cnt = count_in_hour(s, h);
    HourlyStats {
        hour: (h as int * 3600) as i64,
        requests: cnt as u64,
        avg_response_time_ms: (if cnt == 0 {
            0int
        } else {
            sum_in_hour(s, h) / cnt
        }) as u64,
        error_rate_percent: (if cnt == 0 {
            0int
        } else {
            100 * errors_in_hour(s, h) / cnt
        }) as u64,
    }
}

/// The hour buckets a snapshot reports: every bucket of the log, most
/// recent first, and at most the 24 most recent ones.
pub open spec fn kept_hours(s: Seq<RequestMetric>) -> Seq<i64> {
    let sorted = sort_hours_desc(hours_in_order(s));
    if sorted.len() <= 24 {
        sorted
    } else {
        sorted.take(24)
    }
}

/// The hourly report of a snapshot: one [`HourlyStats`] per kept bucket.
pub open spec fn hourly_spec(s: Seq<RequestMetric>) -> Seq<HourlyStats> {
    kept_hours(s).map_values(|h: i64| hstat_of(s, h))
}

/// Membership test on a plain hour list.
fn contains_i64(v: &Vec<i64>, x: i64) -> (r: bool)
    ensures
        r == v@.contains(x),
{
    let n = v.len();
    let mut i: usize = 0;
    while i < n
        invariant
            i <= n,
            n == v@.len(),
            forall|j: int| 0 <= j < i ==> v@[j] != x,
        decreases n - i,
    {
        if v[i] == x {
            return true;
        }
        i = i + 1;
    }
    false
}

/// Insertion sort of hour buckets, descending.
fn sort_hours_exec(v: &Vec<i64>) -> (r: Vec<i64>)
    ensures
        r@ == sort_hours_desc(v@),
{
    let n = v.len();
    let mut out: Vec<i64> = Vec::new();
    let mut i: usize = 0;
    while i < n
        invariant
            i <= n,
            n == v@.len(),
            out@ == sort_hours_desc(v@.take(i as int)),
        decreases n - i,
    {
        proof {
            assert(v@.take(i + 1).drop_last() =~= v@.take(i as int));
            assert(v@.take(i + 1).last() == v@[i as int]);
        }
        let x = v[i];
        let m = out.len();
        let mut j: usize = 0;
        while j < m && out[j] >= x
            invariant
                j <= m,
                m == out@.len(),
                out@ == sort_hours_desc(v@.take(i as int)),
                forall|k: int| 0 <= k < j ==> out@[k] >= x,
            decreases m - j,
        {
            j = j + 1;
        }
        let ghost out0 = out@;
        out.insert(j, x);
        proof {
            lemma_insert_hour_position(out0, x, j as int);
            assert(out@ =~= out0.subrange(0, j as int) + seq![x] + out0.skip(j as int));
            assert(out@ == insert_hour_desc(out0, x));
        }
        i = i + 1;
    }
    proof {
        assert(v@.take(n as int) =~= v@);
    }
    out
}

/// Request count, duration sum and error count of one hour bucket.
fn hour_totals_exec(log: &Vec<RequestMetric>, h: i64) -> (r: (u64, u128, u64))
    ensures
        r.0 as int == count_in_hour(log@, h),
        r.1 as int == sum_in_hour(log@, h),
        r.2 as int == errors_in_hour(log@, h),
        r.2 <= r.0,
        r.1 as int <= r.0 as int * (u64::MAX as int),
{
    let n = log.len();
    let mut cnt: u64 = 0;
    let mut sum: u128 = 0;
    let mut errs: u64 = 0;
    let mut i: usize = 0;
    while i < n
        invariant
            i <= n,
            n == log@.len(),
            cnt as int == count_in_hour(log@.take(i as int), h),
            sum as int == sum_in_hour(log@.take(i as int), h),
            errs as int == errors_in_hour(log@.take(i as int), h),
            cnt <= i,
            errs <= cnt,
            sum as int <= cnt as int * (u64::MAX as int),
        decreases n - i,
    {
        proof {
            assert(log@.take(i + 1).drop_last() =~= log@.take(i as int));
            assert(log@.take(i + 1).last() == log@[i as int]);
        }
        let mh = hour_val_exec(log[i].timestamp);
        if mh == h {
            cnt = cnt + 1;
            sum = sum + (log[i].duration_ms as u128);
            if log[i].status >= 400 {
                errs = errs + 1;
            }
        }
        i = i + 1;
    }
    proof {
        assert(log@.take(n as int) =~= log@);
    }
    (cnt, sum, errs)
}

/// Builds the report of one hour bucket.
fn make_hstat(log: &Vec<RequestMetric>, h: i64) -> (st: HourlyStats)
    requires
        -2_562_047_788_016 <= h <= 2_562_047_788_015,
    ensures
        st == hstat_of(log@, h),
{
    let totals = hour_totals_exec(log, h);
    let hour_sec = h * 3600;
    if totals.0 == 0 {
        HourlyStats { hour: hour_sec, requests: 0, avg_response_time_ms: 0, error_rate_percent: 0 }
    } else {
        proof {
            let cnt = totals.0 as int;
            vstd::arithmetic::div_mod::lemma_div_is_ordered(
                totals.1 as int,
                cnt * (u64::MAX as int),
                cnt,
            );
            vstd::arithmetic::div_mod::lemma_div_by_multiple(u64::MAX as int, cnt);
            assert(cnt * (u64::MAX as int) == (u64::MAX as int) * cnt);
            vstd::arithmetic::div_mod::lemma_div_is_ordered(
                100 * totals.2 as int,
                100 * cnt,
                cnt,
            );
            vstd::arithmetic::div_mod::lemma_div_by_multiple(100int, cnt);
            assert(100 * cnt == 100int * cnt);
        }
        HourlyStats {
            hour: hour_sec,
            requests: totals.0,
            avg_response_time_ms: (totals.1 / (totals.0 as u128)) as u64,
            error_rate_percent: ((100u128 * (totals.2 as u128)) / (totals.0 as u128)) as u64,
        }
    }
}

/// Builds the hourly report of the log: its hour buckets most recent first,
/// at most 24 of them, each with its request count, mean duration and error
/// rate.
pub(crate) fn hourly_stats_exec(log: &Vec<RequestMetric>) -> (r: Vec<HourlyStats>)
    ensures
        r@ == hourly_spec(log@),
{
    let n = log.len();
    let mut hours: Vec<i64> = Vec::new();
    let mut i: usize = 0;
    while i < n
        invariant
            i <= n,
            n == log@.len(),
            hours@ == hours_in_order(log@.take(i as int)),
            forall|k: int|
                0 <= k < hours@.len() ==> -2_562_047_788_016 <= #[trigger] hours@[k]
                    <= 2_562_047_788_015,
        decreases n - i,
    {
        proof {
            assert(log@.take(i + 1).drop_last() =~= log@.take(i as int));
            assert(log@.take(i + 1).last() == log@[i as int]);
        }
        let hv = hour_val_exec(log[i].timestamp);
        if !contains_i64(&hours, hv) {
            hours.push(hv);
        }
        i = i + 1;
    }
    proof {
        assert(log@.take(n as int) =~= log@);
    }
    let mut sorted = sort_hours_exec(&hours);
    proof {
        lemma_sort_hours_multiset(hours@);
        assert forall|k: int| 0 <= k < sorted@.len() implies -2_562_047_788_016
            <= #[trigger] sorted@[k] <= 2_562_047_788_015 by {
            assert(sorted@.contains(sorted@[k]));
            assert(hours@.contains(sorted@[k]));
            let j = choose|j: int| 0 <= j < hours@.len() && hours@[j] == sorted@[k];
            assert(hours@[j] == sorted@[k]);
        }
    }
    let ghost sorted_full = sorted@;
    if sorted.len() > 24 {
        sorted.truncate(24);
    }
    proof {
        assert(sorted@ =~= kept_hours(log@));
    }
    let m = sorted.len();
    let mut out: Vec<HourlyStats> = Vec::new();
    let mut k: usize = 0;
    while k < m
        invariant
            k <= m,
            m == sorted@.len(),
            sorted@ == kept_hours(log@),
            forall|j: int|
                0 <= j < sorted@.len() ==> -2_562_047_788_016 <= #[trigger] sorted@[j]
                    <= 2_562_047_788_015,
            out@.len() == k,
            forall|j: int| 0 <= j < k ==> #[trigger] out@[j] == hstat_of(log@, sorted@[j]),
        decreases m - k,
    {
        let st = make_hstat(log, sorted[k]);
        out.push(st);
        k = k + 1;
    }
    proof {
        assert forall|j: int| 0 <= j < out@.len() implies out@[j] == hourly_spec(log@)[j] by {
            assert(hourly_spec(log@)[j] == hstat_of(log@, kept_hours(log@)[j]));
        }
        assert(out@.len() == hourly_spec(log@).len());
        assert(out@ =~= hourly_spec(log@));
    }
    out
}

/// The three orders a snapshot ranks endpoints by.
#[derive(Clone, Copy)]
pub enum RankBy {
    TotalRequests,
    AvgDuration,
    ErrorRequests,
}

/// The key an aggregate is ranked by.
pub open spec fn rank_key(e: EndpointStats, by: RankBy) -> int {
    match by {
        RankBy::TotalRequests => e.total_requests as int,
        RankBy::AvgDuration => e.spec_avg(),
        RankBy::ErrorRequests => e.error_requests as int,
    }
}

/// The ranking key as a plain value.
fn rank_key_exec(e: &EndpointStats, by: RankBy) -> (r: u64)
    requires
        e.foldable(),
    ensures
        r as int == rank_key(*e, by),
{
    match by {
        RankBy::TotalRequests => e.total_requests,
        RankBy::AvgDuration => e.avg_response_time_ms(),
        RankBy::ErrorRequests => e.error_requests,
    }
}

/// Aggregates in descending rank order: `x` goes after every element that
/// ranks at least as high, so equally ranked entries keep their old order.
pub open spec fn insert_rank_desc(s: Seq<EndpointStats>, x: EndpointStats, by: RankBy) -> Seq<
    EndpointStats,
>
    decreases s.len(),
{
    if s.len() == 0 {
        seq![x]
    } else if rank_key(s[0], by) >= rank_key(x, by) {
        seq![s[0]] + insert_rank_desc(s.drop_first(), x, by)
    } else {
        seq![x] + s
    }
}

/// Stable insertion sort of aggregates, descending by rank.
pub open spec fn sort_rank_desc(s: Seq<EndpointStats>, by: RankBy) -> Seq<EndpointStats>
    decreases s.len(),
{
    if s.len() == 0 {
        Seq::empty()
    } else {
        insert_rank_desc(sort_rank_desc(s.drop_last(), by), s.last(), by)
    }
}

/// Inserting at the first position whose element ranks lower matches the
/// recursive insertion.
proof fn lemma_insert_rank_position(s: Seq<EndpointStats>, x: EndpointStats, by: RankBy, j: int)
    requires
        0 <= j <= s.len(),
        forall|k: int| 0 <= k < j ==> rank_key(s[k], by) >= rank_key(x, by),
        j < s.len() ==> rank_key(s[j], by) < rank_key(x, by),
    ensures
        insert_rank_desc(s, x, by) =~= s.subrange(0, j) + seq![x] + s.skip(j),
    decreases j,
{
    if j == 0 {
        if s.len() > 0 {
            assert(rank_key(s[0], by) < rank_key(x, by));
        }
    } else {
        lemma_insert_rank_position(s.drop_first(), x, by, j - 1);
        assert(insert_rank_desc(s, x, by) == seq![s[0]] + insert_rank_desc(
            s.drop_first(),
            x,
            by,
        ));
    }
}

/// Inserting adds one aggregate and otherwise keeps the collection.
proof fn lemma_insert_rank_multiset(s: Seq<EndpointStats>, x: EndpointStats, by: RankBy)
    ensures
        insert_rank_desc(s, x, by).len() == s.len() + 1,
        insert_rank_desc(s, x, by).to_multiset() == s.to_multiset().insert(x),
    decreases s.len(),
{
    broadcast use vstd::seq_lib::lemma_multiset_commutative;
    broadcast use vstd::multiset::group_multiset_axioms;

    let r = insert_rank_desc(s, x, by);
    if s.len() == 0 {
        assert(s =~= Seq::<EndpointStats>::empty());
        assert(r =~= Seq::<EndpointStats>::empty().push(x));
        Seq::<EndpointStats>::empty().to_multiset_ensures();
        assert(r.to_multiset() =~= s.to_multiset().insert(x));
    } else if rank_key(s[0], by) >= rank_key(x, by) {
        lemma_insert_rank_multiset(s.drop_first(), x, by);
        let rr = insert_rank_desc(s.drop_first(), x, by);
        assert(r == seq![s[0]] + rr);
        assert(s =~= seq![s[0]] + s.drop_first());
        assert((seq![s[0]] + rr).to_multiset() =~= seq![s[0]].to_multiset().add(
            rr.to_multiset(),
        ));
        assert((seq![s[0]] + s.drop_first()).to_multiset() =~= seq![s[0]].to_multiset().add(
            s.drop_first().to_multiset(),
        ));
        assert(r.to_multiset() =~= s.to_multiset().insert(x));
    } else {
        assert(r == seq![x] + s);
        assert((seq![x] + s).to_multiset() =~= seq![x].to_multiset().add(s.to_multiset()));
        assert(seq![x] =~= Seq::<EndpointStats>::empty().push(x));
        Seq::<EndpointStats>::empty().to_multiset_ensures();
        assert(r.to_multiset() =~= s.to_multiset().insert(x));
    }
}

/// A ranking is a permutation: sorting keeps length and the collection of
/// aggregates.
pub proof fn lemma_sort_rank_multiset(s: Seq<EndpointStats>, by: RankBy)
    ensures
        sort_rank_desc(s, by).len() == s.len(),
        sort_rank_desc(s, by).to_multiset() == s.to_multiset(),
        forall|x: EndpointStats| sort_rank_desc(s, by).contains(x) <==> s.contains(x),
    decreases s.len(),
{
    broadcast use vstd::multiset::group_multiset_axioms;

    s.to_multiset_ensures();
    sort_rank_desc(s, by).to_multiset_ensures();
    if s.len() > 0 {
        lemma_sort_rank_multiset(s.drop_last(), by);
        lemma_insert_rank_multiset(sort_rank_desc(s.drop_last(), by), s.last(), by);
        s.drop_last().to_multiset_ensures();
        assert(s =~= s.drop_last().push(s.last()));
        assert(sort_rank_desc(s, by).to_multiset() =~= s.to_multiset());
    }
    assert forall|x: EndpointStats| sort_rank_desc(s, by).contains(x) <==> s.contains(x) by {
        assert(sort_rank_desc(s, by).contains(x) <==> sort_rank_desc(s, by).to_multiset().count(
            x,
        ) > 0);
        assert(s.contains(x) <==> s.to_multiset().count(x) > 0);
    }
}

/// A ranking is ordered: every aggregate ranks at least as high as the ones
/// after it.
pub proof fn lemma_sort_rank_sorted(s: Seq<EndpointStats>, by: RankBy)
    ensures
        forall|i: int, j: int|
            0 <= i < j < sort_rank_desc(s, by).len() ==> rank_key(sort_rank_desc(s, by)[i], by)
                >= rank_key(sort_rank_desc(s, by)[j], by),
    decreases s.len(),
{
    if s.len() > 0 {
        lemma_sort_rank_sorted(s.drop_last(), by);
        lemma_insert_rank_sorted(sort_rank_desc(s.drop_last(), by), s.last(), by);
    }
}

/// Insertion into a descending ranking keeps it descending.
proof fn lemma_insert_rank_sorted(s: Seq<EndpointStats>, x: EndpointStats, by: RankBy)
    requires
        forall|i: int, j: int| 0 <= i < j < s.len() ==> rank_key(s[i], by) >= rank_key(s[j], by),
    ensures
        forall|i: int, j: int|
            0 <= i < j < insert_rank_desc(s, x, by).len() ==> rank_key(
                insert_rank_desc(s, x, by)[i],
                by,
            ) >= rank_key(insert_rank_desc(s, x, by)[j], by),
    decreases s.len(),
{
    broadcast use vstd::multiset::group_multiset_axioms;

    let r = insert_rank_desc(s, x, by);
    if s.len() == 0 {
    } else if rank_key(s[0], by) >= rank_key(x, by) {
        assert(forall|i: int, j: int|
            0 <= i < j < s.drop_first().len() ==> rank_key(s.drop_first()[i], by) >= rank_key(
                s.drop_first()[j],
                by,
            )) by {
            assert(forall|k: int|
                0 <= k < s.drop_first().len() ==> s.drop_first()[k] == s[k + 1]);
        }
        lemma_insert_rank_sorted(s.drop_first(), x, by);
        lemma_insert_rank_multiset(s.drop_first(), x, by);
        s.drop_first().to_multiset_ensures();
        let rr = insert_rank_desc(s.drop_first(), x, by);
        rr.to_multiset_ensures();
        assert(r == seq![s[0]] + rr);
        assert forall|i: int, j: int| 0 <= i < j < r.len() implies rank_key(r[i], by)
            >= rank_key(r[j], by) by {
            assert((seq![s[0]] + rr)[j] == rr[j - 1]);
            if i == 0 {
                assert((seq![s[0]] + rr)[0] == s[0]);
                let y = rr[j - 1];
                assert(rr.contains(y)) by {
                    assert(rr[j - 1] == y);
                }
                assert(rr.to_multiset().count(y) > 0);
                if y == x {
                    assert(rank_key(s[0], by) >= rank_key(y, by));
                } else {
                    assert(s.drop_first().to_multiset().count(y) > 0);
                    assert(s.drop_first().contains(y));
                    let k = choose|k: int|
                        0 <= k < s.drop_first().len() && s.drop_first()[k] == y;
                    assert(s.drop_first()[k] == s[k + 1]);
                    assert(rank_key(s[0], by) >= rank_key(s[k + 1], by));
                }
            } else {
                assert((seq![s[0]] + rr)[i] == rr[i - 1]);
            }
        }
    }
}

/// The aggregates with at least one error, in their stored order.
pub open spec fn with_errors(list: Seq<EndpointStats>) -> Seq<EndpointStats>
    decreases list.len(),
{
    if list.len() == 0 {
        Seq::empty()
    } else {
        let pre = with_errors(list.drop_last());
        if list.last().error_requests > 0 {
            pre.push(list.last())
        } else {
            pre
        }
    }
}

/// The first ten aggregates of the descending ranking (all of them when
/// there are fewer).
pub open spec fn top_ranked(list: Seq<EndpointStats>, by: RankBy) -> Seq<EndpointStats> {
    let sorted = sort_rank_desc(list, by);
    if sorted.len() <= 10 {
        sorted
    } else {
        sorted.take(10)
    }
}

/// Stable insertion sort of aggregates, descending by rank.
fn sort_rank_exec(v: &Vec<EndpointStats>, by: RankBy) -> (r: Vec<EndpointStats>)
    requires
        forall|k: int| 0 <= k < v@.len() ==> (#[trigger] v@[k]).wf(),
    ensures
        r@ == sort_rank_desc(v@, by),
{
    broadcast use vstd::multiset::group_multiset_axioms;

    let n = v.len();
    let mut out: Vec<EndpointStats> = Vec::new();
    let mut i: usize = 0;
    while i < n
        invariant
            i <= n,
            n == v@.len(),
            forall|k: int| 0 <= k < v@.len() ==> (#[trigger] v@[k]).wf(),
            out@ == sort_rank_desc(v@.take(i as int), by),
            forall|k: int| 0 <= k < out@.len() ==> (#[trigger] out@[k]).wf(),
        decreases n - i,
    {
        proof {
            assert(v@.take(i + 1).drop_last() =~= v@.take(i as int));
            assert(v@.take(i + 1).last() == v@[i as int]);
        }
        let x = v[i].duplicate();
        let key = rank_key_exec(&x, by);
        let m = out.len();
        let mut j: usize = 0;
        while j < m && rank_key_exec(&out[j], by) >= key
            invariant
                j <= m,
                m == out@.len(),
                key as int == rank_key(x, by),
                x.foldable(),
                forall|k: int| 0 <= k < out@.len() ==> (#[trigger] out@[k]).wf(),
                forall|k: int| 0 <= k < j ==> rank_key(out@[k], by) >= rank_key(x, by),
            decreases m - j,
        {
            j = j + 1;
        }
        let ghost out0 = out@;
        out.insert(j, x);
        proof {
            lemma_insert_rank_position(out0, x, by, j as int);
            assert(out@ =~= out0.subrange(0, j as int) + seq![x] + out0.skip(j as int));
            assert(out@ == insert_rank_desc(out0, x, by));
            lemma_insert_rank_multiset(out0, x, by);
            out0.to_multiset_ensures();
            out@.to_multiset_ensures();
            assert forall|k: int| 0 <= k < out@.len() implies (#[trigger] out@[k]).wf() by {
                let y = out@[k];
                assert(out@.contains(y)) by {
                    assert(out@[k] == y);
                }
                assert(out@.to_multiset().count(y) > 0);
                if y != x {
                    assert(out0.to_multiset().count(y) > 0);
                    assert(out0.contains(y));
                    let kk = choose|kk: int| 0 <= kk < out0.len() && out0[kk] == y;
                }
            }
        }
        i = i + 1;
    }
    proof {
        assert(v@.take(n as int) =~= v@);
    }
    out
}

/// The first ten of the descending ranking of the given aggregates.
pub(crate) fn top_ranked_exec(v: &Vec<EndpointStats>, by: RankBy) -> (r: Vec<EndpointStats>)
    requires
        forall|k: int| 0 <= k < v@.len() ==> (#[trigger] v@[k]).wf(),
    ensures
        r@ == top_ranked(v@, by),
{
    let mut sorted = sort_rank_exec(v, by);
    if sorted.len() > 10 {
        sorted.truncate(10);
    }
    proof {
        assert(sorted@ =~= top_ranked(v@, by));
    }
    sorted
}

/// The aggregates that saw at least one error.
pub(crate) fn with_errors_exec(v: &Vec<EndpointStats>) -> (r: Vec<EndpointStats>)
    requires
        forall|k: int| 0 <= k < v@.len() ==> (#[trigger] v@[k]).wf(),
    ensures
        r@ == with_errors(v@),
        forall|k: int| 0 <= k < r@.len() ==> (#[trigger] r@[k]).wf(),
{
    let n = v.len();
    let mut out: Vec<EndpointStats> = Vec::new();
    let mut i: usize = 0;
    while i < n
        invariant
            i <= n,
            n == v@.len(),
            forall|k: int| 0 <= k < v@.len() ==> (#[trigger] v@[k]).wf(),
            out@ == with_errors(v@.take(i as int)),
            forall|k: int| 0 <= k < out@.len() ==> (#[trigger] out@[k]).wf(),
        decreases n - i,
    {
        proof {
            assert(v@.take(i + 1).drop_last() =~= v@.take(i as int));
            assert(v@.take(i + 1).last() == v@[i as int]);
        }
        if v[i].error_requests > 0 {
            out.push(v[i].duplicate());
        }
        i = i + 1;
    }
    proof {
        assert(v@.take(n as int) =~= v@);
    }
    out
}

/// Membership test on a plain id list.
fn contains_i32(v: &Vec<i32>, x: i32) -> (r: bool)
    ensures
        r == v@.contains(x),
{
    let n = v.len();
    let mut i: usize = 0;
    while i < n
        invariant
            i <= n,
            n == v@.len(),
            forall|j: int| 0 <= j < i ==> v@[j] != x,
        decreases n - i,
    {
        if v[i] == x {
            return true;
        }
        i = i + 1;
    }
    false
}

/// Counts the distinct users with an attributed request in the last five
/// minutes.
pub(crate) fn active_users_exec(log: &Vec<RequestMetric>, now: i64) -> (r: u64)
    ensures
        r as int == active_users_seq(log@, now as int).len(),
{
    let n = log.len();
    let mut seen: Vec<i32> = Vec::new();
    let mut i: usize = 0;
    while i < n
        invariant
            i <= n,
            n == log@.len(),
            seen@ == active_users_seq(log@.take(i as int), now as int),
        decreases n - i,
    {
        proof {
            assert(log@.take(i + 1).drop_last() =~= log@.take(i as int));
            assert(log@.take(i + 1).last() == log@[i as int]);
        }
        match log[i].user_id {
            Some(u) => {
                if (log[i].timestamp as i128) > (now as i128) - 300_000 && !contains_i32(
                    &seen,
                    u,
                ) {
                    seen.push(u);
                }
            },
            None => {},
        }
        i = i + 1;
    }
    proof {
        assert(log@.take(n as int) =~= log@);
    }
    seen.len() as u64
}

} // verus!
