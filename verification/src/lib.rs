//! Verified core of a Toggl Track summary tool: date handling, duration
//! formatting, grouping and aggregation of time entries, and the project
//! cache that backs remote lookups.
pub mod summary;
pub mod text;
pub mod time_utils;
pub mod toggl;
