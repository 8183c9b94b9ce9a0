//! Finds copied and pasted runs of lines across source files.
//!
//! Every line of every file is trimmed ([`line`]), lines inside comments and
//! blank lines are set aside, and each remaining line is counted in a
//! [`trie::RepetitionIndex`] shared by all files. A line whose text has been
//! counted before is flagged. Runs of flagged lines that are long enough
//! ([`run`], [`scan`]) are reported as [`span::CPLocation`]s; [`rank::rank`]
//! puts the longest first, and [`report`] writes them out.
//!
//! Which files are scanned is settled on disk by the caller: [`pattern`]
//! gives the patterns to look up, and [`ignore`] tells which of the files
//! found are left out.

pub mod config;
pub mod ignore;
pub mod line;
pub mod pattern;
pub mod rank;
pub mod report;
pub mod run;
pub mod scan;
pub mod span;
pub mod text;
pub mod trie;
