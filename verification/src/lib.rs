//! In-process request-metrics aggregation for an HTTP backend, together with
//! the plain data model (auth requests, JWT claims, users) that the
//! surrounding service exchanges with its handlers.
//!
//! The heart of the crate is [`metrics::MetricsCollector`]: it ingests one
//! observation per completed request, keeps a bounded arrival-ordered log and
//! per-endpoint running aggregates, and derives point-in-time snapshots
//! (rates, rankings, hourly buckets) on demand.

pub mod auth;
mod clock;
pub mod health;
pub mod httpmeta;
pub mod metrics;
pub mod snapshot;
pub mod text;
pub mod user;
