//! Verified core of an mdBook preprocessor that annotates each chapter with
//! provenance metadata taken from the file's version-control history: who
//! created it, who last edited it, and who else contributed in between.
//!
//! The library owns the data-shaping logic: parsing the log output of the
//! external `git log` query into commit records, reducing a record sequence to
//! a history summary, and rendering that summary as a Markdown table fragment.
//! Process spawning and the mdBook host protocol live outside the library.

pub mod date;
pub mod git_history;
pub mod preprocessor;
pub mod render;
pub mod summary;
