//! Assigns absent members to present members who represent them by proxy.
pub mod health;
pub mod indexed;
pub mod laws;
pub mod lottery;
pub mod member;
pub mod metrics;
pub mod order;
pub mod placement;
pub mod problem;
pub mod solution;
