//! A file-backed activity log: records of `(date, activity, duration)` kept
//! one per line as comma-separated text fields, with daily, weekly and
//! monthly aggregation over the whole log. The caller reads the log file and
//! hands its text in; the library does everything else — formatting the line
//! an append writes, splitting the text into lines and fields, parsing dates
//! and durations, and accumulating the totals.

pub mod date;
pub mod laws;
pub mod numbers;
pub mod record;
pub mod summary;
pub mod text;

pub use crate::date::date_from_parts;
pub use crate::date::Date;
pub use crate::date::format_date;
pub use crate::date::parse_date;
pub use crate::date::today_date;
pub use crate::numbers::parse_duration;
pub use crate::record::format_record;
pub use crate::summary::daily_summary;
pub use crate::summary::monthly_summary;
pub use crate::summary::weekday_name;
pub use crate::summary::weekly_summary;
pub use crate::summary::Summary;
pub use crate::summary::SummaryError;
pub use crate::summary::WeekSummary;
