//! An activity log engine for time tracking: a day-ordered record of what was
//! worked on, the operations that open, close and edit activities, and the
//! queries that filter, round and sum them.

pub mod calendar;
pub mod text;
pub mod activity;
pub mod log;
pub mod syntax;
pub mod line;
pub mod format;
pub mod history;
pub mod manipulation;
pub mod filter;
pub mod processor;
pub mod report;
pub mod list;
pub mod search;
pub mod status;
pub mod sanity;
