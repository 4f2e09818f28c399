//! The request-metrics aggregation engine: one observation per completed HTTP
//! request goes in; a bounded arrival-ordered log and per-endpoint running
//! aggregates are maintained; snapshots are derived from them on demand.

use crate::snapshot::{
    avg_duration_exec, active_users_exec, count_recent_exec, error_rate_exec, hourly_stats_exec,
    snapshot_matches, status_dist_exec, top_ranked_exec, uptime_seconds_exec, with_errors_exec,
    MetricsSnapshot, RankBy,
};
use vstd::arithmetic::div_mod::{lemma_div_by_multiple, lemma_div_is_ordered};
use vstd::prelude::*;

verus! {

/// One immutable observation of a completed request.
///
/// `timestamp` is the arrival instant in milliseconds since the Unix epoch.
#[derive(Debug, Clone)]
pub struct RequestMetric {
    pub method: String,
    pub path: String,
    pub status: u16,
    pub duration_ms: u64,
    pub timestamp: i64,
    pub user_id: Option<i32>,
}

impl RequestMetric {
    /// An equal copy (the derived `Clone` carries no contract, so the copy is
    /// spelled out field by field).
    pub fn duplicate(&self) -> (r: Self)
        ensures
            r == *self,
    {
        RequestMetric {
            method: self.method.clone(),
            path: self.path.clone(),
            status: self.status,
            duration_ms: self.duration_ms,
            timestamp: self.timestamp,
            user_id: self.user_id,
        }
    }
}

/// Running statistics for one exact `method + " " + path` key.
///
/// Instead of a floating running mean, the exact sum of durations is kept in
/// `duration_sum_ms`; the mean is derived from it on demand. The sum of all
/// durations of up to `u64::MAX` requests always fits in a `u128`.
#[derive(Debug, Clone)]
pub struct EndpointStats {
    pub path: String,
    pub method: String,
    pub total_requests: u64,
    pub success_requests: u64,
    pub error_requests: u64,
    pub duration_sum_ms: u128,
    pub min_response_time_ms: u64,
    pub max_response_time_ms: u64,
    /// Arrival instant of the latest observation, milliseconds since the epoch.
    pub last_accessed: i64,
}

/// The success test used for the per-endpoint success/error split.
///
/// This is deliberately different from [`is_error_status`], which the
/// snapshot's global error rate uses; both rules exist in their own right.
pub open spec fn is_success_status(status: u16) -> bool {
    200 <= status < 400
}

/// The error test used for the snapshot-wide error rate and hourly buckets.
pub open spec fn is_error_status(status: u16) -> bool {
    status >= 400
}

/// The index key of an aggregate: the exact string `method + " " + path`.
pub open spec fn metric_key(method: Seq<char>, path: Seq<char>) -> Seq<char> {
    method + seq![' '] + path
}

impl EndpointStats {
    /// The key this aggregate is stored under.
    pub open spec fn key(self) -> Seq<char> {
        metric_key(self.method@, self.path@)
    }

    /// Consistency of an aggregate an observation can be folded into: the
    /// split adds up and the duration sum is bracketed by the extremes. It
    /// holds of a blank aggregate as well as of every live one.
    pub open spec fn foldable(self) -> bool {
        &&& self.total_requests == self.success_requests + self.error_requests
        &&& self.min_response_time_ms as int * self.total_requests as int
            <= self.duration_sum_ms as int
        &&& self.duration_sum_ms as int
            <= self.max_response_time_ms as int * self.total_requests as int
    }

    /// Internal consistency of a live aggregate: the success/error split adds
    /// up, at least one observation was recorded, and the duration sum is
    /// bracketed by the extremes, so the derived mean lies between them.
    pub open spec fn wf(self) -> bool {
        &&& self.foldable()
        &&& 1 <= self.total_requests
    }

    /// The mean duration in whole milliseconds (0 before any observation).
    pub open spec fn spec_avg(self) -> int {
        if self.total_requests == 0 {
            0
        } else {
            self.duration_sum_ms as int / self.total_requests as int
        }
    }

    /// The mean duration in whole milliseconds.
    pub fn avg_response_time_ms(&self) -> (r: u64)
        requires
            self.foldable(),
        ensures
            r == self.spec_avg(),
    {
        if self.total_requests == 0 {
            0
        } else {
            proof {
                lemma_avg_bounds(*self);
            }
            (self.duration_sum_ms / (self.total_requests as u128)) as u64
        }
    }

    /// An equal copy (the derived `Clone` carries no contract, so the copy is
    /// spelled out field by field).
    pub fn duplicate(&self) -> (r: Self)
        ensures
            r == *self,
    {
        EndpointStats {
            path: self.path.clone(),
            method: self.method.clone(),
            total_requests: self.total_requests,
            success_requests: self.success_requests,
            error_requests: self.error_requests,
            duration_sum_ms: self.duration_sum_ms,
            min_response_time_ms: self.min_response_time_ms,
            max_response_time_ms: self.max_response_time_ms,
            last_accessed: self.last_accessed,
        }
    }
}

/// The first half of the aggregate invariant is `wf` itself (the success and
/// error counters add up to the total); this law is the second half: the
/// running mean of a well-formed aggregate lies between its recorded extremes.
pub proof fn lemma_avg_bounds(e: EndpointStats)
    requires
        e.wf(),
    ensures
        e.min_response_time_ms <= e.spec_avg() <= e.max_response_time_ms,
{
    let t = e.total_requests as int;
    let s = e.duration_sum_ms as int;
    let mn = e.min_response_time_ms as int;
    let mx = e.max_response_time_ms as int;
    lemma_div_is_ordered(mn * t, s, t);
    lemma_div_by_multiple(mn, t);
    lemma_div_is_ordered(s, mx * t, t);
    lemma_div_by_multiple(mx, t);
}

/// A blank aggregate for a key seen for the first time, before its first
/// observation is folded in.
pub open spec fn fresh_stats(method: String, path: String, now: i64) -> EndpointStats {
    EndpointStats {
        path: path,
        method: method,
        total_requests: 0,
        success_requests: 0,
        error_requests: 0,
        duration_sum_ms: 0,
        min_response_time_ms: u64::MAX,
        max_response_time_ms: 0,
        last_accessed: now,
    }
}

/// The aggregate after folding in one observation.
///
/// A counter at `u64::MAX` can no longer be incremented without violating the
/// split invariant, so such an aggregate is left unchanged (unreachable in any
/// real run).
pub open spec fn updated_stats(e: EndpointStats, status: u16, duration_ms: u64, now: i64) -> EndpointStats {
    if e.total_requests == u64::MAX {
        e
    } else {
        EndpointStats {
            total_requests: (e.total_requests + 1) as u64,
            success_requests: if is_success_status(status) {
                (e.success_requests + 1) as u64
            } else {
                e.success_requests
            },
            error_requests: if is_success_status(status) {
                e.error_requests
            } else {
                (e.error_requests + 1) as u64
            },
            duration_sum_ms: (e.duration_sum_ms + duration_ms) as u128,
            min_response_time_ms: if duration_ms < e.min_response_time_ms {
                duration_ms
            } else {
                e.min_response_time_ms
            },
            max_response_time_ms: if duration_ms > e.max_response_time_ms {
                duration_ms
            } else {
                e.max_response_time_ms
            },
            last_accessed: now,
            path: e.path,
            method: e.method,
        }
    }
}

/// Folding an observation into a consistent aggregate keeps it consistent,
/// makes it live when the counter can still move, and never touches the key.
pub proof fn lemma_updated_stats_wf(e: EndpointStats, status: u16, duration_ms: u64, now: i64)
    requires
        e.foldable(),
    ensures
        updated_stats(e, status, duration_ms, now).foldable(),
        e.total_requests < u64::MAX ==> updated_stats(e, status, duration_ms, now).wf(),
        e.total_requests == u64::MAX ==> updated_stats(e, status, duration_ms, now) == e,
        updated_stats(e, status, duration_ms, now).method == e.method,
        updated_stats(e, status, duration_ms, now).path == e.path,
        e.duration_sum_ms + duration_ms <= u128::MAX,
{
    let t = e.total_requests as int;
    let mn = e.min_response_time_ms as int;
    let mx = e.max_response_time_ms as int;
    let s = e.duration_sum_ms as int;
    let d = duration_ms as int;
    assert(s + d <= u128::MAX) by (nonlinear_arith)
        requires
            s <= mx * t,
            0 <= mx <= u64::MAX,
            0 <= t <= u64::MAX,
            0 <= d <= u64::MAX,
    ;
    if e.total_requests < u64::MAX {
        let mn2 = if d < mn {
            d
        } else {
            mn
        };
        let mx2 = if d > mx {
            d
        } else {
            mx
        };
        assert(mn2 * (t + 1) <= s + d) by (nonlinear_arith)
            requires
                mn * t <= s,
                mn2 <= mn,
                mn2 <= d,
                0 <= t,
        ;
        assert(s + d <= mx2 * (t + 1)) by (nonlinear_arith)
            requires
                s <= mx * t,
                mx <= mx2,
                d <= mx2,
                0 <= t,
        ;
    }
}

/// Folds one observation into an aggregate, exactly as [`updated_stats`]
/// describes.
fn apply_update(e: EndpointStats, status: u16, duration_ms: u64, now: i64) -> (r: EndpointStats)
    requires
        e.foldable(),
    ensures
        r == updated_stats(e, status, duration_ms, now),
{
    proof {
        lemma_updated_stats_wf(e, status, duration_ms, now);
    }
    if e.total_requests == u64::MAX {
        return e;
    }
    EndpointStats {
        total_requests: e.total_requests + 1,
        success_requests: if 200 <= status && status < 400 {
            e.success_requests + 1
        } else {
            e.success_requests
        },
        error_requests: if 200 <= status && status < 400 {
            e.error_requests
        } else {
            e.error_requests + 1
        },
        duration_sum_ms: e.duration_sum_ms + duration_ms as u128,
        min_response_time_ms: if duration_ms < e.min_response_time_ms {
            duration_ms
        } else {
            e.min_response_time_ms
        },
        max_response_time_ms: if duration_ms > e.max_response_time_ms {
            duration_ms
        } else {
            e.max_response_time_ms
        },
        last_accessed: now,
        path: e.path,
        method: e.method,
    }
}

/// The index of the first aggregate stored under `key`, or -1 if the key is
/// not present.
pub open spec fn find_stats(list: Seq<EndpointStats>, key: Seq<char>) -> int
    decreases list.len(),
{
    if list.len() == 0 {
        -1
    } else if list[0].key() == key {
        0
    } else {
        let r = find_stats(list.drop_first(), key);
        if r == -1 {
            -1
        } else {
            r + 1
        }
    }
}

/// What `find_stats` returns: a hit is in range, carries the key, and is the
/// first such index; a miss means no entry carries the key.
pub proof fn lemma_find_stats(list: Seq<EndpointStats>, key: Seq<char>)
    ensures
        -1 <= find_stats(list, key) < list.len(),
        find_stats(list, key) >= 0 ==> list[find_stats(list, key)].key() == key,
        forall|j: int| 0 <= j < find_stats(list, key) ==> (#[trigger] list[j]).key() != key,
        find_stats(list, key) == -1 ==> forall|j: int|
            0 <= j < list.len() ==> (#[trigger] list[j]).key() != key,
    decreases list.len(),
{
    if list.len() == 0 {
    } else if list[0].key() == key {
    } else {
        lemma_find_stats(list.drop_first(), key);
        assert(forall|j: int|
            1 <= j < list.len() ==> (#[trigger] list[j]).key() == list.drop_first()[j - 1].key());
    }
}

/// The log after appending one observation: the newest entries up to the
/// capacity `max` are retained, the oldest beyond it fall off the front.
pub open spec fn log_push(log: Seq<RequestMetric>, m: RequestMetric, max: nat) -> Seq<
    RequestMetric,
> {
    let appended = log.push(m);
    if appended.len() <= max {
        appended
    } else {
        appended.skip(appended.len() - max)
    }
}

/// The aggregate list after folding one observation into its endpoint's
/// entry; a first observation for a key appends a new entry at the end.
pub open spec fn upsert_stats(
    list: Seq<EndpointStats>,
    method: String,
    path: String,
    status: u16,
    duration_ms: u64,
    now: i64,
) -> Seq<EndpointStats> {
    let i = find_stats(list, metric_key(method@, path@));
    if i >= 0 {
        list.update(i, updated_stats(list[i], status, duration_ms, now))
    } else {
        list.push(updated_stats(fresh_stats(method, path, now), status, duration_ms, now))
    }
}

/// Builds the exact index key `method + " " + path`.
fn make_key(method: &str, path: &str) -> (k: String)
    ensures
        k@ == metric_key(method@, path@),
{
    proof {
        reveal_strlit(" ");
        assert(" "@ =~= seq![' ']);
    }
    let mut k = method.to_owned();
    k.append(" ");
    k.append(path);
    k
}

/// Finds the aggregate stored under `method + " " + path`, if any.
fn find_stats_index(list: &Vec<EndpointStats>, method: &str, path: &str) -> (r: Option<usize>)
    ensures
        match r {
            Some(i) => i < list@.len() && find_stats(list@, metric_key(method@, path@)) == i,
            None => find_stats(list@, metric_key(method@, path@)) == -1,
        },
{
    proof {
        lemma_find_stats(list@, metric_key(method@, path@));
    }
    let key = make_key(method, path);
    let ghost spec_key = metric_key(method@, path@);
    let n = list.len();
    let mut i: usize = 0;
    while i < n
        invariant
            n == list@.len(),
            i <= n,
            key@ == spec_key,
            spec_key == metric_key(method@, path@),
            forall|j: int| 0 <= j < i ==> (#[trigger] list@[j]).key() != spec_key,
            -1 <= find_stats(list@, spec_key) < list@.len(),
            find_stats(list@, spec_key) >= 0 ==> list@[find_stats(list@, spec_key)].key()
                == spec_key,
            forall|j: int|
                0 <= j < find_stats(list@, spec_key) ==> (#[trigger] list@[j]).key() != spec_key,
            find_stats(list@, spec_key) == -1 ==> forall|j: int|
                0 <= j < list@.len() ==> (#[trigger] list@[j]).key() != spec_key,
        decreases n - i,
    {
        let entry_key = make_key(list[i].method.as_str(), list[i].path.as_str());
        if entry_key == key {
            proof {
                assert(list@[i as int].key() == spec_key);
                let f = find_stats(list@, spec_key);
                if f == -1 {
                    assert(list@[i as int].key() != spec_key);
                } else if f < i {
                    assert(list@[f].key() != spec_key);
                    assert(list@[f].key() == spec_key);
                } else if f > i {
                    assert(list@[i as int].key() != spec_key);
                }
                assert(find_stats(list@, spec_key) == i as int);
            }
            return Some(i);
        }
        i = i + 1;
    }
    None
}

/// Does `m` survive a cleanup run at instant `now` with threshold
/// `max_age_ms`? Exactly the entries strictly younger than the threshold do.
pub open spec fn fresh_enough(m: RequestMetric, now: int, max_age_ms: int) -> bool {
    m.timestamp > now - max_age_ms
}

/// The log after a cleanup run: the surviving entries, in arrival
/// order.
pub open spec fn retained(log: Seq<RequestMetric>, now: int, max_age_ms: int) -> Seq<
    RequestMetric,
>
    decreases log.len(),
{
    if log.len() == 0 {
        Seq::empty()
    } else {
        let rest = retained(log.drop_last(), now, max_age_ms);
        if fresh_enough(log.last(), now, max_age_ms) {
            rest.push(log.last())
        } else {
            rest
        }
    }
}

/// Cleanup never grows the log.
pub proof fn lemma_retained_len(log: Seq<RequestMetric>, now: int, max_age_ms: int)
    ensures
        retained(log, now, max_age_ms).len() <= log.len(),
    decreases log.len(),
{
    if log.len() > 0 {
        lemma_retained_len(log.drop_last(), now, max_age_ms);
    }
}

/// Appending to the log never exceeds the capacity: the new length is the
/// old one plus one, capped at `max`.
pub proof fn lemma_log_push_len(log: Seq<RequestMetric>, m: RequestMetric, max: nat)
    ensures
        log_push(log, m, max).len() == if log.len() + 1 <= max {
            log.len() as int + 1
        } else {
            max as int
        },
{
}

/// Recording into a full log evicts exactly the earliest-arriving entry:
/// the rest survive in order and the new observation stands at the end.
pub proof fn lemma_record_evicts_oldest(log: Seq<RequestMetric>, m: RequestMetric, max: nat)
    requires
        log.len() == max,
        max >= 1,
    ensures
        log_push(log, m, max).len() == max,
        log_push(log, m, max) == log.skip(1).push(m),
{
    assert(log_push(log, m, max) =~= log.skip(1).push(m));
}

/// The survival test of one cleanup run, as a predicate on entries.
pub open spec fn fresh_pred(now: int, max_age_ms: int) -> spec_fn(RequestMetric) -> bool {
    |m: RequestMetric| fresh_enough(m, now, max_age_ms)
}

/// Cleanup removes exactly the too-old entries: what it keeps is the log
/// filtered to the entries strictly younger than the age threshold.
pub proof fn lemma_retained_is_filter(log: Seq<RequestMetric>, now: int, max_age_ms: int)
    ensures
        retained(log, now, max_age_ms) == log.filter(fresh_pred(now, max_age_ms)),
    decreases log.len(),
{
    reveal(Seq::filter);
    if log.len() == 0 {
        assert(retained(log, now, max_age_ms) =~= log.filter(fresh_pred(now, max_age_ms)));
    } else {
        lemma_retained_is_filter(log.drop_last(), now, max_age_ms);
    }
}

/// Consistency of the whole aggregate list: every entry is live and
/// well-formed, and no key occurs twice.
pub open spec fn stats_wf(list: Seq<EndpointStats>) -> bool {
    &&& forall|i: int| 0 <= i < list.len() ==> (#[trigger] list[i]).wf()
    &&& forall|i: int, j: int|
        0 <= i < j < list.len() ==> (#[trigger] list[i]).key() != (#[trigger] list[j]).key()
}

/// The engine: arrival-ordered log, bounded by `max_metrics`, plus one
/// aggregate per endpoint key. Aggregates are never evicted; only the log
/// shrinks, by count on overflow and by age on `cleanup_at`.
pub struct MetricsCollector {
    /// Engine construction instant, milliseconds since the epoch.
    start_time: i64,
    metrics: Vec<RequestMetric>,
    endpoint_stats: Vec<EndpointStats>,
    max_metrics: usize,
}

impl MetricsCollector {
    pub closed spec fn spec_start_time(self) -> i64 {
        self.start_time
    }

    pub closed spec fn log(self) -> Seq<RequestMetric> {
        self.metrics@
    }

    pub closed spec fn stats(self) -> Seq<EndpointStats> {
        self.endpoint_stats@
    }

    pub closed spec fn spec_max_metrics(self) -> usize {
        self.max_metrics
    }

    /// The engine invariant: the log respects its bound, every aggregate is
    /// internally consistent, and no key occurs twice.
    pub open spec fn wf(self) -> bool {
        &&& self.log().len() <= self.spec_max_metrics()
        &&& stats_wf(self.stats())
    }

    /// A new engine with an empty log and no aggregates.
    pub fn new_at(max_metrics: usize, now: i64) -> (r: Self)
        ensures
            r.wf(),
            r.spec_start_time() == now,
            r.log() == Seq::<RequestMetric>::empty(),
            r.stats() == Seq::<EndpointStats>::empty(),
            r.spec_max_metrics() == max_metrics,
    {
        MetricsCollector {
            start_time: now,
            metrics: Vec::new(),
            endpoint_stats: Vec::new(),
            max_metrics,
        }
    }

    /// A new engine started at the current wall-clock instant, with an empty
    /// log bounded by `max_metrics` and no aggregates.
    pub fn new(max_metrics: usize) -> (r: Self)
        ensures
            r.wf(),
            r.log() == Seq::<RequestMetric>::empty(),
            r.stats() == Seq::<EndpointStats>::empty(),
            r.spec_max_metrics() == max_metrics,
    {
        let now = crate::clock::now_millis();
        Self::new_at(max_metrics, now)
    }

    /// Folds one observation into the aggregate of its endpoint, creating the
    /// aggregate on first sight of the key.
    fn update_endpoint_stats(
        &mut self,
        method: String,
        path: String,
        status: u16,
        duration_ms: u64,
        now: i64,
    )
        requires
            stats_wf(old(self).stats()),
        ensures
            final(self).stats() == upsert_stats(
                old(self).stats(),
                method,
                path,
                status,
                duration_ms,
                now,
            ),
            stats_wf(final(self).stats()),
            final(self).log() == old(self).log(),
            final(self).spec_start_time() == old(self).spec_start_time(),
            final(self).spec_max_metrics() == old(self).spec_max_metrics(),
    {
        let ghost key = metric_key(method@, path@);
        let ghost list0 = self.endpoint_stats@;
        match find_stats_index(&self.endpoint_stats, method.as_str(), path.as_str()) {
            Some(i) => {
                let entry = self.endpoint_stats.remove(i);
                proof {
                    assert(list0[i as int].wf());
                    lemma_updated_stats_wf(entry, status, duration_ms, now);
                }
                let updated = apply_update(entry, status, duration_ms, now);
                self.endpoint_stats.insert(i, updated);
                proof {
                    let list1 = self.endpoint_stats@;
                    assert(list1 =~= list0.update(
                        i as int,
                        updated_stats(list0[i as int], status, duration_ms, now),
                    ));
                    assert(updated.wf());
                    assert forall|a: int| 0 <= a < list1.len() implies (#[trigger] list1[a]).key()
                        == list0[a].key() by {}
                    assert forall|a: int, b: int| 0 <= a < b < list1.len() implies (
                    #[trigger] list1[a]).key() != (#[trigger] list1[b]).key() by {
                        assert(list0[a].key() != list0[b].key());
                    }
                }
            },
            None => {
                proof {
                    lemma_find_stats(list0, key);
                }
                let blank = EndpointStats {
                    path,
                    method,
                    total_requests: 0,
                    success_requests: 0,
                    error_requests: 0,
                    duration_sum_ms: 0,
                    min_response_time_ms: u64::MAX,
                    max_response_time_ms: 0,
                    last_accessed: now,
                };
                proof {
                    lemma_updated_stats_wf(blank, status, duration_ms, now);
                }
                let first = apply_update(blank, status, duration_ms, now);
                self.endpoint_stats.push(first);
                proof {
                    let list1 = self.endpoint_stats@;
                    assert(first.wf());
                    assert(first.key() == key);
                    assert forall|a: int, b: int| 0 <= a < b < list1.len() implies (
                    #[trigger] list1[a]).key() != (#[trigger] list1[b]).key() by {
                        if b < list0.len() {
                            assert(list0[a].key() != list0[b].key());
                        } else {
                            assert(list0[a].key() != key);
                        }
                    }
                }
            },
        }
    }

    /// Records one completed request observed at instant `now`: appends it to
    /// the log, evicts the oldest entries should the log exceed its capacity,
    /// and folds the observation into its endpoint's aggregate. The
    /// operation is total: no observation is ever rejected.
    pub fn record_at(
        &mut self,
        method: String,
        path: String,
        status: u16,
        duration_ms: u64,
        user_id: Option<i32>,
        now: i64,
    )
        requires
            old(self).wf(),
        ensures
            final(self).wf(),
            final(self).log() == log_push(
                old(self).log(),
                RequestMetric { method, path, status, duration_ms, timestamp: now, user_id },
                old(self).spec_max_metrics() as nat,
            ),
            final(self).stats() == upsert_stats(
                old(self).stats(),
                method,
                path,
                status,
                duration_ms,
                now,
            ),
            final(self).spec_start_time() == old(self).spec_start_time(),
            final(self).spec_max_metrics() == old(self).spec_max_metrics(),
    {
        let metric = RequestMetric {
            method: method.clone(),
            path: path.clone(),
            status,
            duration_ms,
            timestamp: now,
            user_id,
        };
        let ghost appended = old(self).log().push(
            RequestMetric { method, path, status, duration_ms, timestamp: now, user_id },
        );
        self.metrics.push(metric);
        proof {
            assert(self.metrics@ == appended);
            assert(self.metrics@ =~= appended.skip(appended.len() - self.metrics@.len()));
        }
        while self.metrics.len() > self.max_metrics
            invariant
                self.max_metrics == old(self).spec_max_metrics(),
                self.start_time == old(self).spec_start_time(),
                self.endpoint_stats@ == old(self).stats(),
                stats_wf(old(self).stats()),
                self.metrics@.len() <= appended.len(),
                self.metrics@ == appended.skip(appended.len() - self.metrics@.len()),
                appended.len() == self.metrics@.len() || self.metrics@.len()
                    >= self.max_metrics,
            decreases self.metrics@.len(),
        {
            self.metrics.remove(0);
            proof {
                assert(self.metrics@ =~= appended.skip(appended.len() - self.metrics@.len()));
            }
        }
        proof {
            if appended.len() <= self.max_metrics {
                assert(self.metrics@ =~= appended);
            }
        }
        self.update_endpoint_stats(method, path, status, duration_ms, now);
    }

    /// Records one completed request at the current wall-clock instant. The
    /// log and aggregate transitions hold for whatever instant the clock
    /// read.
    pub fn record_request(
        &mut self,
        method: String,
        path: String,
        status: u16,
        duration_ms: u64,
        user_id: Option<i32>,
    )
        requires
            old(self).wf(),
        ensures
            final(self).wf(),
            final(self).spec_start_time() == old(self).spec_start_time(),
            final(self).spec_max_metrics() == old(self).spec_max_metrics(),
            exists|now: i64|
                {
                    &&& final(self).log() == log_push(
                        old(self).log(),
                        RequestMetric {
                            method,
                            path,
                            status,
                            duration_ms,
                            timestamp: now,
                            user_id,
                        },
                        old(self).spec_max_metrics() as nat,
                    )
                    &&& final(self).stats() == upsert_stats(
                        old(self).stats(),
                        method,
                        path,
                        status,
                        duration_ms,
                        now,
                    )
                },
    {
        let now = crate::clock::now_millis();
        self.record_at(method, path, status, duration_ms, user_id, now);
    }

    /// Drops every log entry at least `max_age_ms` old at instant `now` and
    /// keeps all others in order; the per-endpoint aggregates are never
    /// touched by cleanup.
    pub fn cleanup_at(&mut self, max_age_ms: u64, now: i64)
        requires
            old(self).wf(),
        ensures
            final(self).wf(),
            final(self).log() == retained(old(self).log(), now as int, max_age_ms as int),
            final(self).stats() == old(self).stats(),
            final(self).spec_start_time() == old(self).spec_start_time(),
            final(self).spec_max_metrics() == old(self).spec_max_metrics(),
    {
        let ghost log0 = self.metrics@;
        let mut kept: Vec<RequestMetric> = Vec::new();
        let n = self.metrics.len();
        let mut i: usize = 0;
        while i < n
            invariant
                i <= n,
                n == self.metrics@.len(),
                kept@ == retained(self.metrics@.take(i as int), now as int, max_age_ms as int),
            decreases n - i,
        {
            let m = &self.metrics[i];
            proof {
                assert(self.metrics@.take(i + 1).drop_last() =~= self.metrics@.take(i as int));
                assert(self.metrics@.take(i + 1).last() == self.metrics@[i as int]);
            }
            if (m.timestamp as i128) > (now as i128) - (max_age_ms as i128) {
                kept.push(m.duplicate());
            }
            i = i + 1;
        }
        proof {
            assert(self.metrics@.take(n as int) =~= self.metrics@);
            lemma_retained_len(self.metrics@, now as int, max_age_ms as int);
        }
        self.metrics = kept;
    }

    /// Drops every log entry at least `max_age_ms` old at the current
    /// wall-clock instant; whatever the clock read, the log becomes exactly
    /// the retained entries for that instant.
    pub fn cleanup_old_metrics(&mut self, max_age_ms: u64)
        requires
            old(self).wf(),
        ensures
            final(self).wf(),
            final(self).stats() == old(self).stats(),
            final(self).spec_start_time() == old(self).spec_start_time(),
            final(self).spec_max_metrics() == old(self).spec_max_metrics(),
            exists|now: i64|
                final(self).log() == retained(old(self).log(), now as int, max_age_ms as int),
    {
        let now = crate::clock::now_millis();
        self.cleanup_at(max_age_ms, now);
    }

    /// Computes the snapshot of the current state as of instant `now`: every
    /// field is the pure function of the log, the aggregates and `now` that
    /// [`crate::snapshot::snapshot_matches`] states.
    pub fn snapshot_at(&self, now: i64) -> (snap: MetricsSnapshot)
        requires
            self.wf(),
        ensures
            snapshot_matches(snap, self.log(), self.stats(), self.spec_start_time(), now),
    {
        let most_used_endpoints = top_ranked_exec(&self.endpoint_stats, RankBy::TotalRequests);
        let slowest_endpoints = top_ranked_exec(&self.endpoint_stats, RankBy::AvgDuration);
        let error_list = with_errors_exec(&self.endpoint_stats);
        let error_endpoints = top_ranked_exec(&error_list, RankBy::ErrorRequests);
        MetricsSnapshot {
            timestamp: now,
            uptime_seconds: uptime_seconds_exec(self.start_time, now),
            total_requests: self.metrics.len() as u64,
            requests_per_minute: count_recent_exec(&self.metrics, now),
            avg_response_time_ms: avg_duration_exec(&self.metrics),
            error_rate_percent: error_rate_exec(&self.metrics),
            active_users: active_users_exec(&self.metrics, now),
            most_used_endpoints,
            slowest_endpoints,
            error_endpoints,
            status_code_distribution: status_dist_exec(&self.metrics),
            hourly_stats: hourly_stats_exec(&self.metrics),
        }
    }

    /// Computes the snapshot as of the current wall-clock instant: whatever
    /// the clock read, every field is the stated function of the state and
    /// that instant.
    pub fn get_metrics_snapshot(&self) -> (snap: MetricsSnapshot)
        requires
            self.wf(),
        ensures
            exists|now: i64|
                snapshot_matches(snap, self.log(), self.stats(), self.spec_start_time(), now),
    {
        let now = crate::clock::now_millis();
        self.snapshot_at(now)
    }

    /// The aggregate recorded for `method` and `path`, if that exact pair has
    /// been seen.
    pub fn get_endpoint_metrics(&self, method: &str, path: &str) -> (r: Option<EndpointStats>)
        ensures
            match r {
                Some(e) => find_stats(self.stats(), metric_key(method@, path@)) >= 0 && e
                    == self.stats()[find_stats(self.stats(), metric_key(method@, path@))],
                None => find_stats(self.stats(), metric_key(method@, path@)) == -1,
            },
    {
        match find_stats_index(&self.endpoint_stats, method, path) {
            Some(i) => Some(self.endpoint_stats[i].duplicate()),
            None => None,
        }
    }
}

} // verus!
