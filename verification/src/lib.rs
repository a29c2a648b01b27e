//! A directory-organization library: files are classified by their name's
//! extension into named categories, and a move plan relocates each file into
//! a category subfolder beside it.
//!
//! The library itself performs no filesystem access: it parses and normalizes
//! a category table from configuration text, classifies file names, and turns
//! a snapshot of discovered files into an explicit plan of moves; a thin
//! binary around it enumerates directories and carries the plan out.

pub mod config;
pub mod laws;
pub mod organizer;
pub mod text;
