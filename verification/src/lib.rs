//! Cron expression parsing and next/previous fire-time computation.

pub mod agree;
pub mod api;
pub mod calc;
pub mod cli;
pub mod consts;
pub mod error;
pub mod expand;
pub mod datetime;
pub mod hash;
pub mod item;
pub mod matcher;
pub mod range;
pub mod reldelta;
pub mod skip;
pub mod text;
pub mod token;
pub mod tz;
