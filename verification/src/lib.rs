//! Fast, parallel drop-in replacement for `cargo fmt`: the verified core.

pub mod text;
pub mod number;
pub mod order;
pub mod bytes;
pub mod path;
pub mod keyed;

pub mod types;

pub mod metadata;
pub mod selection_laws;
pub mod search;
pub mod manifest;
pub mod text_laws;
pub mod search_laws;
pub mod claims;
pub mod discover;
pub mod claims_laws;
pub mod path_laws;

pub mod size;
pub mod fingerprint;
pub mod fingerprint_laws;
pub mod cache;
pub mod cache_laws;
pub mod skip_laws;

pub mod coalesce;
pub mod coalesce_laws;
pub mod dispatch;
pub mod grouping_laws;

pub mod invoke;
pub mod invoke_laws;
pub mod report;
pub mod report_laws;

pub mod style;
pub mod warnings;
pub mod warning_laws;

pub mod cli;
pub mod pipeline;
pub mod settings_laws;
pub mod run_laws;

pub use types::{Config, Edition, Error, FileFailure, Report};
