//! Preparing manga downloaded as per-chapter `.zip` archives for Kindle Comic
//! Converter: chapters are unpacked, pages get one continuous numbering and end
//! up in a single flat folder.
//!
//! The crate holds the decisions of that process; the program around it does
//! the file-system work that each decision asks for.

pub mod text;
pub mod key;
pub mod order;
pub mod paths;
pub mod natural_sort;
pub mod archive;
pub mod error;
pub mod report;
pub mod pipeline;
pub mod session;
pub mod laws;
