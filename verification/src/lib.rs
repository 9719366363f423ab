//! Merging of per-region holiday listings into one calendar.
//!
//! Each region supplies a list of holidays sorted by date. The listings are
//! merged by date, collecting for every date the regions that observe it,
//! and the merged list is rendered as the lines of an iCalendar document.

pub mod date;
pub mod lands;
pub mod feiertag;
pub mod merge;
pub mod ical;
pub mod parse;
