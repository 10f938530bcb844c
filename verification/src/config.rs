//! The arguments of a search on the command line.

use vstd::prelude::*;
use crate::text::same_text;

verus! {

/// What to search for, and where.
#[derive(Debug)]
pub struct Config {
    pub query: String,
    pub directory: String,
    pub ignore_case: bool,
}

/// Whether the argument behind the program's name asks to ignore case.
pub open spec fn has_flag(args: Seq<String>) -> bool {
    args.len() >= 2 && (args[1]@ == "-i"@ || args[1]@ == "--ignore-case"@)
}

/// Where the query stands among the arguments: behind the program's name,
/// and behind the flag if there is one.
pub open spec fn query_position(args: Seq<String>) -> int {
    if has_flag(args) {
        2
    } else {
        1
    }
}

impl Config {
    /// The configuration that the arguments spell. `args[0]` is the name of
    /// the program; behind it stand, in turn, the flag `-i` or
    /// `--ignore-case` if wanted, the query, and the directory.
    /// `ignore_case_default` says whether to ignore case where the flag is
    /// not given.
    pub fn build(args: Vec<String>, ignore_case_default: bool) -> (built: Result<Config, String>)
        ensures
            match built {
                Ok(config) => {
                    &&& args@.len() == query_position(args@) + 2
                    &&& config.query@ == args@[query_position(args@)]@
                    &&& config.directory@ == args@[query_position(args@) + 1]@
                    &&& config.ignore_case == (has_flag(args@) || ignore_case_default)
                },
                Err(message) => {
                    ||| args@.len() <= query_position(args@) && message@
                        == "Didn't get a query string"@
                    ||| args@.len() == query_position(args@) + 1 && message@
                        == "Didn't get a directory"@
                    ||| args@.len() > query_position(args@) + 2 && message@
                        == "Unexpected argument: "@ + args@[query_position(args@) + 2]@
                },
            },
    {
        let flag = args.len() >= 2 && (same_text(args[1].as_str(), "-i") || same_text(
            args[1].as_str(),
            "--ignore-case",
        ));
        let at: usize = if flag { 2 } else { 1 };
        if args.len() <= at {
            return Err(String::from_str("Didn't get a query string"));
        }
        if args.len() == at + 1 {
            return Err(String::from_str("Didn't get a directory"));
        }
        if args.len() > at + 2 {
            let mut message = String::from_str("Unexpected argument: ");
            message.append(args[at + 2].as_str());
            return Err(message);
        }
        Ok(
            Config {
                query: args[at].clone(),
                directory: args[at + 1].clone(),
                ignore_case: flag || ignore_case_default,
            },
        )
    }
}

} // verus!
