//! A timer for tracking work sessions at a terminal. Stopping the timer
//! persists one record, the session's wall-clock start timestamp and its
//! elapsed seconds, and the stored records are aggregated by calendar date
//! into a daily history: total duration, pause count, and the day's start
//! and end times. The history can be rendered as delimited text and read
//! back.

pub mod aggregate;
pub mod clock;
pub mod export;
pub mod helpers;
pub mod models;
pub mod state;
pub mod store;
pub mod timestamp;
