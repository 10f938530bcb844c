//! The subcommands of the command line.

use vstd::prelude::*;
use crate::text::{lowercase_of, same_text};

verus! {

/// What the command line asks for.
#[derive(Debug)]
pub enum Command {
    /// Index the folder and store the index.
    IndexDirectory(String),
    /// Report on the stored index in the file.
    Search(String),
    /// Serve queries on the stored index at `index_path`, listening at
    /// `address`.
    Serve { index_path: String, address: String },
}

/// The text that describes the subcommands.
pub const SUBCOMMANDS: &'static str =
    "
    index <folder>                       index the <folder> and save the index to index.json file
    search <index-file>                  check how many documents are indexed in the file (searching is not implemented yet)
    serve <index-file> [address]         start local HTTP server with Web Interface";

/// The address that `serve` listens at where the command line names none.
pub const DEFAULT_ADDRESS: &'static str = "127.0.0.1:6969";

/// Whether `command` is what the subcommand `subcommand`, in lower case, and
/// the arguments `args` ask for; `args[0]` is where the subcommand stood.
///
/// `index` and `search` take the argument behind them, and `serve` takes
/// one, and the address behind it if there is one. There is no command
/// where the subcommand is none of the three, or no argument stands behind
/// it.
pub open spec fn is_command(
    command: Option<Command>,
    subcommand: Seq<char>,
    args: Seq<String>,
) -> bool {
    match command {
        Some(Command::IndexDirectory(folder)) => {
            &&& subcommand == "index"@
            &&& args.len() >= 2
            &&& folder@ == args[1]@
        },
        Some(Command::Search(index_path)) => {
            &&& subcommand == "search"@
            &&& args.len() >= 2
            &&& index_path@ == args[1]@
        },
        Some(Command::Serve { index_path, address }) => {
            &&& subcommand == "serve"@
            &&& args.len() >= 2
            &&& index_path@ == args[1]@
            &&& address@ == if args.len() >= 3 {
                args[2]@
            } else {
                DEFAULT_ADDRESS@
            }
        },
        None => {
            ||| args.len() < 2
            ||| (subcommand != "index"@ && subcommand != "search"@ && subcommand != "serve"@)
        },
    }
}

impl Command {
    /// The text that describes the subcommands, for a usage message.
    pub fn get_subcommands_description() -> (description: &'static str)
        ensures
            description@ == SUBCOMMANDS@,
    {
        SUBCOMMANDS
    }

    /// The command for a subcommand that is in lower case already.
    pub fn select(subcommand: &str, args: &Vec<String>) -> (command: Option<Command>)
        ensures
            is_command(command, subcommand@, args@),
    {
        if args.len() < 2 {
            return None;
        }
        if same_text(subcommand, "index") {
            Some(Command::IndexDirectory(args[1].clone()))
        } else if same_text(subcommand, "search") {
            Some(Command::Search(args[1].clone()))
        } else if same_text(subcommand, "serve") {
            let address = if args.len() >= 3 {
                args[2].clone()
            } else {
                String::from_str(DEFAULT_ADDRESS)
            };
            Some(Command::Serve { index_path: args[1].clone(), address })
        } else {
            None
        }
    }

    /// The command that the arguments of the command line ask for. The
    /// subcommand is `args[0]`, in any case of letters.
    pub fn build(args: Vec<String>) -> (command: Option<Command>)
        ensures
            args@.len() == 0 ==> command is None,
            args@.len() > 0 ==> is_command(command, lowercase_of(args@[0]@), args@),
    {
        if args.len() == 0 {
            return None;
        }
        let subcommand = args[0].as_str().to_lowercase();
        Self::select(subcommand.as_str(), &args)
    }
}

} // verus!
