//! One logged query, and the clock that stamps it.

use crate::error::LogError;
use std::time::{Duration, SystemTime, SystemTimeError};
use vstd::prelude::*;

verus! {

/// The mathematical content of a log entry.
pub struct Entry {
    /// Seconds since the Unix epoch at which the query was last run.
    pub timestamp: u64,
    /// The text of the query, which identifies the entry.
    pub query: Seq<char>,
}

/// A query that was run, with the time at which it was run.
#[derive(Debug)]
pub struct QueryLog {
    pub timestamp: u64,
    pub query: String,
}

impl View for QueryLog {
    type V = Entry;

    open spec fn view(&self) -> Entry {
        Entry { timestamp: self.timestamp, query: self.query@ }
    }
}

/// The entry for `query` with the time `timestamp`.
pub open spec fn entry_at(timestamp: u64, query: Seq<char>) -> Entry {
    Entry { timestamp, query }
}

/// The content of each entry of `entries`, in the same order.
pub open spec fn views_of(entries: Seq<QueryLog>) -> Seq<Entry> {
    entries.map_values(|e: QueryLog| e@)
}

#[verifier::external_type_specification]
#[verifier::external_body]
pub struct ExSystemTime(SystemTime);

#[verifier::external_type_specification]
#[verifier::external_body]
pub struct ExSystemTimeError(SystemTimeError);

/// The whole seconds that the duration `d` spans.
pub uninterp spec fn seconds_of(d: Duration) -> u64;

/// `SystemTime::now` reads the system clock; nothing is known of the reading.
pub assume_specification[ SystemTime::now ]() -> SystemTime;

/// `SystemTime::duration_since` measures the time from `earlier` to `t`, and
/// fails where `earlier` is the later of the two; which of these happens
/// depends on the readings alone, of which nothing is known.
pub assume_specification[ SystemTime::duration_since ](t: &SystemTime, earlier: SystemTime) -> Result<Duration, SystemTimeError>;

/// `Duration::as_secs` gives the whole seconds of a duration.
pub assume_specification[ Duration::as_secs ](d: &Duration) -> (secs: u64)
    ensures
        secs == seconds_of(*d),
;

/// The constant `SystemTime::UNIX_EPOCH`, the instant from which timestamps
/// are counted.
#[verifier::external_body]
fn unix_epoch() -> SystemTime {
    SystemTime::UNIX_EPOCH
}

impl QueryLog {
    /// An entry for `query`, run at `timestamp`.
    pub fn new(timestamp: u64, query: &str) -> (entry: QueryLog)
        ensures
            entry@ == (Entry { timestamp, query: query@ }),
    {
        QueryLog { timestamp, query: query.to_owned() }
    }

    /// An entry for `query` from a measurement of the time since the Unix
    /// epoch: stamped with its whole seconds, or a clock error where the
    /// measurement failed because the clock stood before the epoch.
    pub fn from_elapsed(elapsed: Result<Duration, SystemTimeError>, query: &str) -> (r: Result<
        QueryLog,
        LogError,
    >)
        ensures
            match elapsed {
                Ok(d) => r matches Ok(entry) && entry@ == (Entry {
                    timestamp: seconds_of(d),
                    query: query@,
                }),
                Err(_) => r == Err::<QueryLog, LogError>(LogError::Clock),
            },
    {
        match elapsed {
            Ok(d) => Ok(QueryLog::new(d.as_secs(), query)),
            Err(_) => Err(LogError::Clock),
        }
    }

    /// An entry for `query`, stamped with the current time of the system
    /// clock. Fails with a clock error, and only with that, when the clock
    /// stands before the Unix epoch.
    pub fn try_new(query: &str) -> (r: Result<QueryLog, LogError>)
        ensures
            match r {
                Ok(entry) => entry.query@ == query@,
                Err(e) => e == LogError::Clock,
            },
    {
        let now = SystemTime::now();
        QueryLog::from_elapsed(now.duration_since(unix_epoch()), query)
    }

    /// A copy of this entry.
    pub fn duplicate(&self) -> (copy: QueryLog)
        ensures
            copy@ == self@,
    {
        QueryLog { timestamp: self.timestamp, query: self.query.clone() }
    }
}

} // verus!
