//! Health reporting decisions: classifying resource usage, combining check
//! outcomes into an overall status, and the small derived values of the
//! health endpoints. The probes themselves (database, system readings) are
//! I/O and live with the embedding application.

use crate::text::str_eq;
use vstd::prelude::*;

verus! {

/// The outcome of one health check.
#[derive(Debug, Clone)]
pub struct CheckStatus {
    pub status: String,
    pub message: String,
    pub response_time_ms: Option<u64>,
}

/// The four check outcomes of a full health report.
#[derive(Debug)]
pub struct HealthChecks {
    pub api: CheckStatus,
    pub database: CheckStatus,
    pub disk_space: CheckStatus,
    pub memory: CheckStatus,
}

/// Connection-pool health of the database.
#[derive(Debug, Clone)]
pub struct DatabaseHealth {
    pub connection_status: String,
    pub pool_size: u32,
    pub active_connections: u32,
    pub idle_connections: u32,
    pub response_time_ms: u64,
    pub version: Option<String>,
    pub total_queries: Option<u64>,
}

/// Does some check in the list carry this status?
pub open spec fn has_status(checks: Seq<CheckStatus>, which: Seq<char>) -> bool {
    exists|i: int| 0 <= i < checks.len() && (#[trigger] checks[i]).status@ == which
}

/// Is some check's status equal to `which`?
fn any_status(checks: &Vec<CheckStatus>, which: &str) -> (r: bool)
    ensures
        r == has_status(checks@, which@),
{
    let n = checks.len();
    let mut i: usize = 0;
    while i < n
        invariant
            i <= n,
            n == checks@.len(),
            forall|j: int| 0 <= j < i ==> (#[trigger] checks@[j]).status@ != which@,
        decreases n - i,
    {
        if str_eq(checks[i].status.as_str(), which) {
            proof {
                assert(checks@[i as int].status@ == which@);
            }
            return true;
        }
        i = i + 1;
    }
    false
}

/// Folds the individual checks into the overall service status: any
/// critical or unhealthy check makes the service unhealthy, otherwise any
/// warning degrades it, otherwise it is healthy.
pub fn determine_overall_status(checks: &Vec<CheckStatus>) -> (r: String)
    ensures
        r@ == if has_status(checks@, "critical"@) || has_status(checks@, "unhealthy"@) {
            "unhealthy"@
        } else if has_status(checks@, "warning"@) {
            "degraded"@
        } else {
            "healthy"@
        },
{
    let has_critical = any_status(checks, "critical");
    let has_unhealthy = any_status(checks, "unhealthy");
    let has_warning = any_status(checks, "warning");
    if has_critical || has_unhealthy {
        "unhealthy".to_owned()
    } else if has_warning {
        "degraded".to_owned()
    } else {
        "healthy".to_owned()
    }
}

/// Classifies resource usage by its share of the total: over 90% is
/// critical, over 80% a warning, anything else (a zero total included)
/// healthy. The comparisons are exact integer forms of the percentage
/// thresholds.
pub fn classify_usage(used: u64, total: u64) -> (r: String)
    ensures
        r@ == if total > 0 && 10 * used > 9 * total {
            "critical"@
        } else if total > 0 && 10 * used > 8 * total {
            "warning"@
        } else {
            "healthy"@
        },
{
    let used_w = used as u128;
    let total_w = total as u128;
    if total > 0 && 10 * used_w > 9 * total_w {
        "critical".to_owned()
    } else if total > 0 && 10 * used_w > 8 * total_w {
        "warning".to_owned()
    } else {
        "healthy".to_owned()
    }
}

/// The connections currently in use: pool size minus the idle ones, never
/// below zero.
pub fn compute_active_connections(pool_size: u32, idle: usize) -> (r: u32)
    ensures
        r as int == if pool_size as int >= idle as int {
            pool_size as int - idle as int
        } else {
            0
        },
{
    if (pool_size as usize) >= idle {
        ((pool_size as usize) - idle) as u32
    } else {
        0
    }
}

/// The readiness decision: the service is ready exactly when the database
/// check reported healthy.
pub fn is_ready(db_check: &CheckStatus) -> (r: bool)
    ensures
        r == (db_check.status@ == "healthy"@),
{
    str_eq(db_check.status.as_str(), "healthy")
}

/// The HTTP status the health endpoint answers with: 200 for a healthy or
/// degraded service, 503 for an unhealthy one, 500 for anything else.
pub fn health_status_code(status: &str) -> (r: u16)
    ensures
        r == if status@ == "healthy"@ || status@ == "degraded"@ {
            200u16
        } else if status@ == "unhealthy"@ {
            503u16
        } else {
            500u16
        },
{
    if str_eq(status, "healthy") || str_eq(status, "degraded") {
        200
    } else if str_eq(status, "unhealthy") {
        503
    } else {
        500
    }
}

} // verus!
