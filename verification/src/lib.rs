//! `hermit` finds install commands that send remote content straight into a shell.
//!
//! The library decides which files to read, what a file's lines mean and what is
//! reported of them; reading files and writing to the terminal are left to the caller.

pub mod address_laws;
pub mod comparisons;
pub mod directives;
pub mod files;
pub mod grammar;
pub mod guarantees;
pub mod path;
pub mod patterns;
pub mod reading_laws;
pub mod report;
pub mod report_laws;
pub mod results;
pub mod rules;
pub mod scan;
pub mod scan_laws;
pub mod submodules;
pub mod text;
pub mod text_laws;
pub mod tree_laws;
