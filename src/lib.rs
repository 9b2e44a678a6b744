//! An on-call schedule engine: a half-open range algebra, a weekly/daily
//! recurrence generator over a fixed UTC offset, a merge that turns
//! overlapping provider-tagged windows into one non-overlapping coverage
//! list, and point-in-time lookup of who is on call.
//!
//! Times are whole seconds. A local (wall-clock) time counts seconds since
//! 1970-01-01T00:00 on the local clock; an instant counts seconds since the
//! Unix epoch. A fixed offset is the number of seconds local time runs ahead
//! of UTC, so an instant is a local time minus the offset.

pub mod range;
pub mod schedule;
pub mod time;
pub mod users;
