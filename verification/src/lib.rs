//! A load-balancing reverse proxy: backend bookkeeping, balancing policies,
//! health decisions, per-client rate limiting and request planning.
pub mod backend;
pub mod external;
pub mod text;
pub mod config;
pub mod error;
pub mod load_balancer;
pub mod middleware;
pub mod proxy;
