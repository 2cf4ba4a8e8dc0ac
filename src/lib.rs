//! Time tracking with pausable timers, a log of finished sessions and todos.
//!
//! The library holds the rules: duration accounting over break intervals,
//! the active-timer state machine, the compact binary form of a break list,
//! and the queries over log entries and todos. Storage and prompts live with
//! the caller, which hands plain values in and writes back what comes out.
pub mod codec;
pub mod state;
pub mod timer;
pub mod todo;
