use vstd::prelude::*;

verus! {

/// A single completed timer interval: the wall-clock timestamp at which the
/// timer was started and the number of elapsed seconds until it was stopped.
pub struct Record {
    /// Store-assigned identifier; `None` before the record is persisted.
    pub id: Option<i32>,
    /// Elapsed seconds between start and stop.
    pub duration: u64,
    /// Wall-clock start timestamp, `"YYYY-MM-DD HH:MM:SS"`.
    pub created_at: String,
}

impl Record {
    /// Constructs a new `Record` with a given duration and creation timestamp,
    /// with `id` left unassigned.
    pub fn new(duration: u64, created_at: String) -> (r: Record)
        ensures
            r.id is None,
            r.duration == duration,
            r.created_at@ == created_at@,
    {
        Record { id: None, duration, created_at }
    }
}

/// The aggregate of all `Record`s that share one calendar date.
pub struct History {
    /// Number of records on this date minus one.
    pub total_pauses: i32,
    /// Sum of the durations of all records on this date, in seconds.
    pub total_duration: u64,
    /// The grouping key, `"YYYY-MM-DD"`.
    pub record_date: String,
    /// Time of day of the earliest record on this date, `"HH:MM:SS"`.
    pub start_time: String,
    /// Time of day at which the latest record on this date ended, `"HH:MM:SS"`.
    pub end_time: String,
}

} // verus!
