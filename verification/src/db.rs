//! Records read from the review database.

use vstd::prelude::*;

use crate::date::Date;
use crate::date::Timestamp;

verus! {

/// A drill session as stored in the database.
#[derive(Clone, Copy, Debug, PartialEq, Eq, Structural)]
pub struct SessionRow {
    /// The session's identifier.
    pub session_id: i64,
    /// When the session started.
    pub started_at: Timestamp,
    /// When the session ended.
    pub ended_at: Timestamp,
}

/// Is a card's stored performance that of a new card? It is reviewed only
/// when all six scheduling columns are present: when it was last reviewed,
/// its stability, difficulty, raw interval, interval in days and due date.
pub open spec fn performance_is_new(
    last_reviewed_at: Option<Timestamp>,
    has_stability: bool,
    has_difficulty: bool,
    has_interval_raw: bool,
    interval_days: Option<i64>,
    due_date: Option<Date>,
) -> bool {
    !(last_reviewed_at is Some && has_stability && has_difficulty && has_interval_raw
        && interval_days is Some && due_date is Some)
}

/// Decides from a card's performance columns whether it is new (see
/// `performance_is_new`); the floating-point columns are given by whether
/// they are present.
pub fn is_new_performance(
    last_reviewed_at: Option<Timestamp>,
    has_stability: bool,
    has_difficulty: bool,
    has_interval_raw: bool,
    interval_days: Option<i64>,
    due_date: Option<Date>,
) -> (r: bool)
    ensures
        r == performance_is_new(last_reviewed_at, has_stability, has_difficulty, has_interval_raw, interval_days, due_date),
{
    match (last_reviewed_at, interval_days, due_date) {
        (Some(_), Some(_), Some(_)) => !(has_stability && has_difficulty && has_interval_raw),
        _ => true,
    }
}

} // verus!
