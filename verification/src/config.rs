//! Turning raw command-line arguments into a validated search configuration.

use vstd::prelude::*;
use vstd::string::StringExecFns;

verus! {

/// Whether lines are matched exactly or after simple case folding.
#[derive(Clone, Copy, PartialEq, Eq, Structural, Debug)]
pub enum SearchSettings {
    CaseSensitive,
    CaseInsensitive,
}

impl Default for SearchSettings {
    /// Matching is case-sensitive unless asked for otherwise.
    fn default() -> (r: Self)
        ensures
            r == SearchSettings::CaseSensitive,
    {
        SearchSettings::CaseSensitive
    }
}

/// Why a configuration could not be built.
#[derive(Clone, Copy, PartialEq, Eq, Structural, Debug)]
pub enum ConfigError {
    /// The query and/or the file path were not supplied.
    MissingArguments,
}

/// A validated description of one search: what to look for, where, and how.
/// Immutable once built.
pub struct Config {
    pub query: String,
    pub file_path: String,
    pub settings: SearchSettings,
}

impl Config {
    pub fn new(query: String, file_path: String, settings: SearchSettings) -> (r: Self)
        ensures
            r.query == query,
            r.file_path == file_path,
            r.settings == settings,
    {
        Config { query, file_path, settings }
    }
}

/// The search mode selected by an argument sequence: case-insensitive exactly
/// when a fourth argument is present and equals `--case-insensitive` or `-i`;
/// anything else, or its absence, falls back to the default.
pub open spec fn spec_mode_of(args: Seq<String>) -> SearchSettings {
    if args.len() > 3 && (args[3]@ == "--case-insensitive"@ || args[3]@ == "-i"@) {
        SearchSettings::CaseInsensitive
    } else {
        SearchSettings::CaseSensitive
    }
}

/// Collects raw startup arguments and resolves them into a `Config`.
pub struct ConfigBuilder {
    pub args: Vec<String>,
}

impl Default for ConfigBuilder {
    fn default() -> (r: Self)
        ensures
            r.args@.len() == 0,
    {
        ConfigBuilder { args: Vec::new() }
    }
}

impl ConfigBuilder {
    pub fn new() -> (r: Self)
        ensures
            r.args@.len() == 0,
    {
        Self::default()
    }

    /// Replaces the builder's arguments with a copy of the given ones.
    pub fn with_args(self, args: &[String]) -> (r: Self)
        ensures
            r.args@ == args@,
    {
        let mut copied: Vec<String> = Vec::new();
        let n = args.len();
        let mut i: usize = 0;
        while i < n
            invariant
                i <= n,
                n == args@.len(),
                copied@ == args@.subrange(0, i as int),
            decreases n - i,
        {
            copied.push(args[i].clone());
            i = i + 1;
            proof {
                assert(copied@ =~= args@.subrange(0, i as int));
            }
        }
        proof {
            assert(copied@ =~= args@);
        }
        ConfigBuilder { args: copied }
    }

    /// Resolves the collected arguments: position 1 is the query, position 2
    /// the file path, and an optional position 3 selects the search mode.
    /// Fails exactly when query or file path is absent.
    pub fn build(self) -> (r: Result<Config, ConfigError>)
        ensures
            self.args@.len() < 3 ==> r == Err::<Config, ConfigError>(ConfigError::MissingArguments),
            self.args@.len() >= 3 ==> {
                &&& r is Ok
                &&& r->Ok_0.query == self.args@[1]
                &&& r->Ok_0.file_path == self.args@[2]
                &&& r->Ok_0.settings == spec_mode_of(self.args@)
            },
    {
        if self.args.len() < 3 {
            return Err(ConfigError::MissingArguments);
        }
        let query = self.args[1].clone();
        let file_path = self.args[2].clone();
        let settings = if self.args.len() > 3 {
            let long_flag = String::from_str("--case-insensitive");
            let short_flag = String::from_str("-i");
            if self.args[3] == long_flag || self.args[3] == short_flag {
                SearchSettings::CaseInsensitive
            } else {
                SearchSettings::CaseSensitive
            }
        } else {
            SearchSettings::CaseSensitive
        };
        Ok(Config::new(query, file_path, settings))
    }
}

} // verus!
