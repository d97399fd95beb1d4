//! Discovery and interactive selection of project root directories.
//!
//! The library finds, beneath a starting directory, the directories that
//! contain a marker entry (such as a version-control metadata directory),
//! and lets a caller narrow the discovered set by a typed substring query
//! and pick one entry.
//!
//! The crate holds the decision logic only. Listing a directory, reading
//! keys and drawing a screen are left to the surrounding program, which
//! feeds plain values in and reads plain values back:
//!
//! - [`scanner`] walks a tree one directory listing at a time, applying
//!   the ignore, marker and greedy policy and deduplicating by canonical
//!   path;
//! - [`scan_laws`] proves what every completed scan reports, however its
//!   workers interleave;
//! - [`aggregate`] collects discovered paths exactly once each;
//! - [`select`] owns the discovered set, the live filtered view and the
//!   cursor, and reacts to query edits and navigation commands;
//! - [`highlight`] computes which span of a candidate path visually
//!   matches the current query;
//! - [`text`] gives case folding, substring search and lexicographic
//!   order over the character sequences the other modules speak of;
//! - [`config`] validates the configuration a scan starts from.

pub mod aggregate;
pub mod config;
pub mod highlight;
pub mod scan_laws;
pub mod scanner;
pub mod select;
pub mod text;
