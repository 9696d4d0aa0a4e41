//! Forensic reading of Git packs, indexes, loose objects and delta chains.
use vstd::prelude::*;

pub mod analysis;
pub mod analyze;
pub mod analyzer;
pub mod api;
pub mod app;
pub mod attach;
pub mod binformat;
pub mod builder;
pub mod builder_index;
pub mod candidates;
pub mod crc;
pub mod delta;
pub mod engine;
pub mod entry;
pub mod error;
pub mod fixtures;
pub mod forge;
pub mod formats;
pub mod git;
pub mod gitbase;
pub mod gitcore;
pub mod gitenc;
pub mod gitfmt;
pub mod gitobj;
pub mod kernel;
pub mod model;

