//! Renames photos after their embedded capture timestamp.
//!
//! The library holds the decisions of a batch run: which files are
//! candidates, what destination name each photo gets, and how the outcomes
//! of extraction and moving are gathered into one report. Reading files,
//! walking directories and renaming are left to the caller.
pub mod extract;
pub mod naming;
pub mod plan;
pub mod setup;
