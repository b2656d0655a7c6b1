//! Request admission and the model catalogue served by the router.

pub mod auth;
pub mod handlers;
