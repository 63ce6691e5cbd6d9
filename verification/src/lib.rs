//! Registry model and state-diff notification engine for a dev-environment
//! monitor.
//!
//! The library tracks externally managed process groups ("environments")
//! through an on-disk registry of meta files and per-unit status files.
//! It parses registry snapshots, decides liveness, diffs consecutive
//! snapshots, and turns state transitions into at most one batched alert
//! action per cycle, under per-unit and global mute rules.

pub mod model;
pub mod notifications;
pub mod strutil;
pub mod watcher;
