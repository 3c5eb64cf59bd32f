//! Local-first data layer for a personal finance and goal-tracking
//! application: an offline mutation queue with coalescing and idempotent
//! replay, a sync engine with last-writer-wins conflict resolution, and a
//! notification scheduler driven by cron-style rules with quiet hours.

pub mod cron;
pub mod engine;
pub mod parse;
pub mod queue;
pub mod records;
pub mod schedule;
pub mod time;
