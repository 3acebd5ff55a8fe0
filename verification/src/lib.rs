//! Disk-usage reporting: recursive totals of a directory tree, listings of one
//! directory level, and human-readable byte sizes.
//!
//! A directory tree is handed over as plain values ([`Node`]); the queries
//! ([`summarize`], [`filter_by_suffix`], [`filter_by_name`]) answer with lines
//! and totals for a presentation layer to print.

pub mod command;
pub mod format;
pub mod listing;
pub mod query;
pub mod text;
pub mod tree;

pub use crate::command::{analyse_arg, analyse_args, is_wild_card, Command, PathKind};
pub use crate::format::{format_bytes, format_number, is_large, magnitude_of, unit_str};
pub use crate::listing::DirectoryEntry;
pub use crate::query::{
    filter_by_name, filter_by_suffix, get_file_info, list, summarize, QueryError, QueryMode,
    QueryResult,
};
pub use crate::tree::{aggregate, DirectoryAggregate, Node};
