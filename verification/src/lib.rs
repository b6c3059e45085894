//! A verified core for a wake-back-to-bed alarm tool: time-of-day scheduling,
//! an alarm store, the alarm firing state machine, an append-only practice
//! history with its on-disk codec, and technique-effectiveness statistics.
pub mod alarm;
pub mod clock;
pub mod codec;
pub mod digits;
pub mod practice;
pub mod scheduler;
pub mod sequencer;
pub mod stats;
pub mod timeofday;
