//! Week-based calendars over a pluggable week rule.
//!
//! A [`WeekSpecification`] says which weekday opens a week and how many days
//! of January must fall inside week 1. From that rule it derives the first
//! and last day of a week-based year, the number of weeks in it, and the
//! `(week year, week number, week start)` triple of any date, including the
//! dates at a year boundary that belong to a week of the adjacent year.

pub mod date;
pub mod error;
pub mod render;
pub mod week;

pub use date::Date;
pub use date::Weekday;
pub use error::Error;
pub use week::CustomWeek;
pub use week::WeekSpecification;
