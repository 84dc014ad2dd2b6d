//! Decoding of CalDAV multi-status responses into resource records, and of
//! iCalendar text into an ordered tree of scalars, mappings and sequences.

pub mod caldav;
pub mod config;
pub mod events;
pub mod ical;
pub mod session;
pub mod value;
