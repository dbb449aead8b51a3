//! Renders a directory tree as an indented text diagram, with optional
//! filtering by hidden names, directories only and ignore-file patterns.
//!
//! The library works on a snapshot of the directories (`DirEntry`) and on the
//! lines of an ignore file; reading them and writing the result is left to
//! the caller.

use vstd::prelude::*;

pub mod config;
pub mod entry;
pub mod error;
pub mod gitignore;
pub mod render;
pub mod stats;
pub mod text;
pub mod tree;

use crate::config::Config;
use crate::entry::RootDir;
use crate::error::TreeError;
use crate::render::{all_counts_fit, report, report_failure};
use crate::tree::TreeGenerator;

verus! {

/// Lists `roots` as the options `config` ask: the text of the listings, one
/// after the other, or the first failure to read a directory that a listing
/// needs.
pub fn run(config: &Config, roots: &Vec<RootDir>) -> (r: Result<String, TreeError>)
    requires
        all_counts_fit(*config, roots@),
    ensures
        match r {
            Ok(text) => report_failure(*config, roots@, 0) is None && text@ == report(
                *config,
                roots@,
            ),
            Err(e) => report_failure(*config, roots@, 0) == Some(e.detail()),
        },
{
    let mut generator = TreeGenerator::new(config);
    generator.generate(roots)
}

} // verus!
