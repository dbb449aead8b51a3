//! What a run was asked to do.

use vstd::prelude::*;
use vstd::string::StringExecFns;

verus! {

/// The options of one run. They do not change while it lasts.
pub struct Config {
    /// Hidden entries, whose names begin with a dot, are listed too.
    pub all: bool,
    /// Only directories are listed.
    pub dirs_only: bool,
    /// Lines carry no connectors and no indentation.
    pub no_indent: bool,
    /// Entries are shown by their full path.
    pub full_path: bool,
    /// Entries that the base directory's ignore file names are left out.
    pub gitignore: bool,
    /// The deepest level whose entries are listed, if any.
    pub max_depth: Option<usize>,
    /// The file that the result goes to, if not the console.
    pub output: Option<String>,
    /// The directories to list, in order.
    pub paths: Vec<String>,
}

impl Config {
    /// Completes what the command line gave: with no path, the current
    /// directory is listed.
    pub fn parse_args(parsed: Config) -> (config: Config)
        ensures
            config.all == parsed.all,
            config.dirs_only == parsed.dirs_only,
            config.no_indent == parsed.no_indent,
            config.full_path == parsed.full_path,
            config.gitignore == parsed.gitignore,
            config.max_depth == parsed.max_depth,
            config.output == parsed.output,
            parsed.paths@.len() > 0 ==> config.paths == parsed.paths,
            parsed.paths@.len() == 0 ==> config.paths@.len() == 1 && config.paths@[0]@ == seq!['.'],
    {
        let mut config: Config = parsed;
        if config.paths.len() == 0 {
            proof {
                reveal_strlit(".");
            }
            let here: String = String::from_str(".");
            assert(here@ =~= seq!['.']);
            config.paths.push(here);
        }
        config
    }
}

} // verus!
