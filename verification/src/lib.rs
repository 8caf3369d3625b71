//! The decisions behind `notfail`: reading what a test run prints, and saying what to show for it.

pub mod accuracy;
pub mod ansi;
pub mod binary64;
pub mod cache;
pub mod chunks;
pub mod counts;
pub mod failure;
pub mod launch;
pub mod paths;
pub mod progress;
pub mod protocol;
pub mod rounding;
pub mod run;
pub mod select;
pub mod summary;
pub mod text;
