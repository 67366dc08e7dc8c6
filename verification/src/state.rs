use vstd::prelude::*;
use vstd::string::*;
use crate::aggregate::aggregate_post;
use crate::export::rows_wf;
use crate::clock::{elapsed_secs, instant_now, now_local_timestamp};
use crate::helpers::{duration_str, format_duration};
use crate::models::{History, Record};
use crate::store::{create_record, find_all_records};

verus! {

/// The view of a log: each entry's character sequence.
pub open spec fn log_views(logs: Seq<String>) -> Seq<Seq<char>> {
    logs.map_values(|s: String| s@)
}

/// The log line appended when the timer starts.
pub open spec fn started_msg() -> Seq<char> {
    "Timer started."@
}

/// The log line appended when the timer stops after `elapsed` seconds.
pub open spec fn stopped_msg(elapsed: u64) -> Seq<char> {
    "Timer stopped. Duration: "@ + duration_str(elapsed as nat) + "."@
}

/// The log line appended when the store refuses the stopped session's record.
pub open spec fn store_failure_msg() -> Seq<char> {
    "Session record could not be persisted."@
}

/// The in-memory state of the timer: whether it runs, when it started, the
/// running log of events, and the cached per-date history.
pub struct AppState {
    /// Monotonic instant captured at start; absent when stopped.
    pub start_time: Option<std::time::Instant>,
    /// Wall-clock timestamp captured at start, stored as `created_at` when
    /// the session is persisted.
    pub start_date: Option<String>,
    pub timer_running: bool,
    /// Append-only log of human-readable event lines.
    pub timer_logs: Vec<String>,
    /// The latest aggregate, replaced wholesale on every refresh.
    pub history: Vec<History>,
    /// Every record handed to the store so far, in order, whether or not the
    /// store accepted it.
    pub insert_attempts: Ghost<Seq<Record>>,
}

impl Default for AppState {
    /// The initial, stopped state with an empty log and an empty history.
    fn default() -> (r: AppState)
        ensures
            r.wf(),
            !r.timer_running,
            r.start_time is None,
            r.start_date is None,
            r.timer_logs@.len() == 0,
            r.history@.len() == 0,
            r.insert_attempts@.len() == 0,
    {
        AppState {
            start_time: None,
            start_date: None,
            timer_running: false,
            timer_logs: Vec::new(),
            history: Vec::new(),
            insert_attempts: Ghost(Seq::empty()),
        }
    }
}

impl AppState {
    /// Well-formedness: while the timer runs, the start instant and start
    /// timestamp are both present.
    pub open spec fn wf(&self) -> bool {
        self.timer_running ==> (self.start_time is Some && self.start_date is Some)
    }

    /// Starts the timer: captures the current monotonic instant and local
    /// wall-clock timestamp and appends one log line. A second call while
    /// already running changes nothing at all.
    pub fn start_timer(&mut self)
        requires
            old(self).wf(),
        ensures
            final(self).wf(),
            final(self).timer_running,
            final(self).history == old(self).history,
            final(self).insert_attempts == old(self).insert_attempts,
            old(self).timer_running ==> *final(self) == *old(self),
            !old(self).timer_running ==> {
                &&& final(self).start_time is Some
                &&& final(self).start_date is Some
                &&& log_views(final(self).timer_logs@) == log_views(
                    old(self).timer_logs@,
                ).push(started_msg())
            },
    {
        if !self.timer_running {
            self.timer_running = true;
            self.start_time = Some(instant_now());
            self.start_date = Some(now_local_timestamp());
            self.timer_logs.push(String::from_str("Timer started."));
            proof {
                assert(log_views(self.timer_logs@) =~= log_views(
                    old(self).timer_logs@,
                ).push(started_msg()));
            }
        }
    }

    /// Appends the stop log line for an elapsed duration and leaves the
    /// running state. The elapsed seconds are measured by the caller, since
    /// they come from the machine's monotonic clock.
    pub fn add_log(&mut self, elapsed: u64) -> (r: Result<(), &'static str>)
        ensures
            r is Ok,
            !final(self).timer_running,
            final(self).start_time is None,
            final(self).start_date == old(self).start_date,
            final(self).history == old(self).history,
            final(self).insert_attempts == old(self).insert_attempts,
            log_views(final(self).timer_logs@) == log_views(old(self).timer_logs@).push(
                stopped_msg(elapsed),
            ),
    {
        let formatted = format_duration(elapsed);
        let mut line = String::from_str("Timer stopped. Duration: ");
        line.append(formatted.as_str());
        line.append(".");
        proof {
            assert(line@ =~= stopped_msg(elapsed));
        }
        self.timer_logs.push(line);
        self.timer_running = false;
        self.start_time = None;
        proof {
            assert(log_views(self.timer_logs@) =~= log_views(old(self).timer_logs@).push(
                stopped_msg(elapsed),
            ));
        }
        Ok(())
    }

    /// Builds the finished session's record — the given duration under the
    /// given start timestamp, with no identifier yet — and hands it to the
    /// store, exactly once. The outcome is returned to the caller; a refusal
    /// does not undo anything, so the timer never sticks on a write failure.
    pub fn add_record(
        &mut self,
        duration: u64,
        start_date: String,
        conn: &rusqlite::Connection,
    ) -> (r: Result<(), &'static str>)
        ensures
            final(self).insert_attempts@.len() == old(self).insert_attempts@.len() + 1,
            final(self).insert_attempts@.drop_last() == old(self).insert_attempts@,
            final(self).insert_attempts@.last().id is None,
            final(self).insert_attempts@.last().duration == duration,
            final(self).insert_attempts@.last().created_at@ == start_date@,
            final(self).timer_running == old(self).timer_running,
            final(self).start_time == old(self).start_time,
            final(self).start_date == old(self).start_date,
            final(self).timer_logs == old(self).timer_logs,
            final(self).history == old(self).history,
    {
        let record = Record::new(duration, start_date);
        self.insert_attempts = Ghost(self.insert_attempts@.push(record));
        proof {
            assert(self.insert_attempts@.drop_last() =~= old(self).insert_attempts@);
        }
        match create_record(conn, &record) {
            Some(_) => Ok(()),
            None => Err("STATE => The store refused the session record"),
        }
    }

    /// Replaces the cached history wholesale with a fresh aggregate of the
    /// store's full record set.
    pub fn set_history(&mut self, conn: &rusqlite::Connection)
        ensures
            exists|rs: Seq<Record>| #[trigger] aggregate_post(final(self).history@, rs),
            rows_wf(final(self).history@),
            final(self).timer_running == old(self).timer_running,
            final(self).start_time == old(self).start_time,
            final(self).start_date == old(self).start_date,
            final(self).timer_logs == old(self).timer_logs,
            final(self).insert_attempts == old(self).insert_attempts,
    {
        let fresh = find_all_records(conn);
        let ghost rs0 = choose|rs: Seq<Record>| #[trigger] aggregate_post(fresh@, rs);
        self.history = fresh;
        proof {
            assert(aggregate_post(self.history@, rs0));
        }
    }

    /// Stops the timer: appends one stop log line, hands the store exactly
    /// one record — the session's captured start timestamp under the same
    /// elapsed seconds the log line shows — and refreshes the history. A
    /// store refusal is reported by one more log line and undoes nothing. A
    /// call while already stopped changes nothing at all.
    pub fn stop_timer(&mut self, conn: &rusqlite::Connection)
        requires
            old(self).wf(),
        ensures
            final(self).wf(),
            !final(self).timer_running,
            !old(self).timer_running ==> *final(self) == *old(self),
            old(self).timer_running ==> {
                &&& final(self).start_time is None
                &&& final(self).start_date == old(self).start_date
                &&& final(self).insert_attempts@.len() == old(self).insert_attempts@.len() + 1
                &&& final(self).insert_attempts@.drop_last() == old(self).insert_attempts@
                &&& final(self).insert_attempts@.last().id is None
                &&& old(self).start_date matches Some(d0)
                    && final(self).insert_attempts@.last().created_at@ == d0@
                &&& ({
                    let e = final(self).insert_attempts@.last().duration;
                    ||| log_views(final(self).timer_logs@) == log_views(
                        old(self).timer_logs@,
                    ).push(stopped_msg(e))
                    ||| log_views(final(self).timer_logs@) == log_views(
                        old(self).timer_logs@,
                    ).push(stopped_msg(e)).push(store_failure_msg())
                })
                &&& (exists|rs: Seq<Record>|
                    #[trigger] aggregate_post(final(self).history@, rs))
                &&& rows_wf(final(self).history@)
            },
    {
        if self.timer_running {
            let elapsed = elapsed_secs(self.start_time.as_ref().unwrap());
            let start_date = self.start_date.as_ref().unwrap().clone();
            let _ = self.add_log(elapsed);
            let stored = self.add_record(elapsed, start_date, conn);
            if stored.is_err() {
                self.timer_logs.push(String::from_str(
                    "Session record could not be persisted.",
                ));
                proof {
                    assert(log_views(self.timer_logs@) =~= log_views(
                        old(self).timer_logs@,
                    ).push(stopped_msg(elapsed)).push(store_failure_msg()));
                }
            }
            self.set_history(conn);
        }
    }
}

} // verus!
