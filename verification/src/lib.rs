//! Hierarchical configuration resolution: a typed value tree, a directory
//! walker that lists candidate fragment paths, a nearest-wins point lookup,
//! and an aggregating resolver that merges every discovered fragment.
use vstd::prelude::*;

pub mod laws;
pub mod parse;
pub mod settings;
pub mod walk;
pub mod resolve;
pub mod raw;
pub mod value;

pub use resolve::{all_configs, get_config, Fragment};
pub use settings::{Config, Location};
pub use value::{ConfigValue, ConfigValueValue};
pub use walk::candidate_paths;

verus! {

/// The failures a resolution call can surface.
#[derive(Debug)]
pub enum ConfigError {
    /// Point lookup exhausted every ancestor without finding the key.
    NotFound { key: String },
    /// A fragment's contents could not be parsed; `cause` is diagnostic text.
    ParseError { path: String, cause: String },
    /// Two values for one logical key have incompatible kinds, or a fragment
    /// held a kind outside the accepted ones.
    TypeMismatch { expected: String, found: String, key: String },
    /// A fragment existed but could not be read.
    IOError { path: String },
}

} // verus!
