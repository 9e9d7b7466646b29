//! Request-level policies: rate limiting and the stats report.
pub mod rate_limiter;
pub mod health_check;
