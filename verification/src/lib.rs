//! Verified core of an LLM API router: configuration, per-model health
//! tracking, priority failover, model catalogue and SSE decoding.

pub mod config;
pub mod error;
pub mod health;
pub mod provider;
pub mod routing;
pub mod server;
pub mod text;
