//! The search configuration and how it is made from command-line arguments.

use vstd::prelude::*;
use vstd::string::*;

use crate::error::GrepError;
use crate::text::{fold_case, lower_of, lowercase};

verus! {

/// What to search for, and where.
#[derive(Debug)]
pub struct Config {
    /// The file to search.
    pub filename: String,
    /// The text searched for; already lowercased in case-insensitive mode.
    pub pattern: String,
    /// Whether comparisons ignore case.
    pub insensitive: bool,
}

/// The flag that turns on case-insensitive search, in any casing.
pub open spec fn is_insensitive_flag(s: Seq<char>) -> bool {
    lower_of(s) == "--insensitive"@ || lower_of(s) == "-i"@
}

/// The number of arguments after the program name.
pub open spec fn supplied_count(n: nat) -> nat {
    if n == 0 {
        0
    } else {
        (n - 1) as nat
    }
}

impl Config {
    /// Builds a configuration from already parsed values, lowercasing the
    /// pattern once when the search ignores case.
    pub fn build(filename: String, pattern: String, insensitive: bool) -> (c: Config)
        ensures
            c.filename@ == filename@,
            c.pattern@ == fold_case(pattern@, insensitive),
            c.insensitive == insensitive,
    {
        let pattern = if insensitive {
            lowercase(pattern.as_str())
        } else {
            pattern
        };
        Config { filename, pattern, insensitive }
    }

    /// Reads `<program> <filename> <pattern> [--insensitive | -i]`. A fourth
    /// argument turns on case-insensitive search if it is the flag in any
    /// casing, and is otherwise ignored.
    pub fn myparse(args: &[String]) -> (r: Result<Config, GrepError>)
        ensures
            args@.len() < 3 ==> r == Err::<Config, GrepError>(
                GrepError::Usage { supplied: supplied_count(args@.len()) as usize },
            ),
            args@.len() >= 3 ==> (r matches Ok(c) && {
                &&& c.filename@ == args@[1]@
                &&& c.insensitive == (args@.len() >= 4 && is_insensitive_flag(args@[3]@))
                &&& c.pattern@ == fold_case(args@[2]@, c.insensitive)
            }),
    {
        let n: usize = args.len();
        if n < 3 {
            let supplied: usize = if n == 0 {
                0
            } else {
                n - 1
            };
            return Err(GrepError::Usage { supplied });
        }
        let filename = args[1].clone();
        let insensitive = if n >= 4 {
            let flag = lowercase(args[3].as_str());
            flag == String::from_str("--insensitive") || flag == String::from_str("-i")
        } else {
            false
        };
        let pattern = if insensitive {
            lowercase(args[2].as_str())
        } else {
            args[2].clone()
        };
        Ok(Config { filename, pattern, insensitive })
    }
}

} // verus!
