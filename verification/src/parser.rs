//! The command parser: one raw input line becomes a structured command.
//! A line is split on runs of whitespace and matched structurally; any
//! shape that fits no command is kept whole as an invalid line.

use vstd::prelude::*;
use crate::text::{split_tokens, str_eq, tokens_of};

verus! {

/// A parsed command, over character sequences: the specification-level
/// image of [`Command`].
pub enum SpecCommand {
    Add { name: Seq<char>, department: Seq<char> },
    ListDepartment { department: Seq<char> },
    ListAll,
    Invalid { line: Seq<char> },
}

/// One parsed input line.
#[derive(Debug, Clone, PartialEq, Eq)]
pub enum Command {
    Add { name: String, department: String },
    ListDepartment { department: String },
    ListAll,
    Invalid { line: String },
}

impl View for Command {
    type V = SpecCommand;

    open spec fn view(&self) -> SpecCommand {
        match self {
            Command::Add { name, department } => SpecCommand::Add {
                name: name@,
                department: department@,
            },
            Command::ListDepartment { department } => SpecCommand::ListDepartment {
                department: department@,
            },
            Command::ListAll => SpecCommand::ListAll,
            Command::Invalid { line } => SpecCommand::Invalid { line: line@ },
        }
    }
}

/// What one line parses to. In priority order: exactly
/// `Add <name> to <department>`, then `List <department>` for any
/// department other than the reserved literal `All`, then `List All`;
/// every other token shape is invalid.
pub open spec fn spec_parse(line: Seq<char>) -> SpecCommand {
    let toks = tokens_of(line);
    if toks.len() == 4 && toks[0] == "Add"@ && toks[2] == "to"@ {
        SpecCommand::Add { name: toks[1], department: toks[3] }
    } else if toks.len() == 2 && toks[0] == "List"@ && toks[1] == "All"@ {
        SpecCommand::ListAll
    } else if toks.len() == 2 && toks[0] == "List"@ {
        SpecCommand::ListDepartment { department: toks[1] }
    } else {
        SpecCommand::Invalid { line: line }
    }
}

/// Parses one raw input line into a [`Command`]. No semantic validation
/// of name or department content occurs here: any non-whitespace token
/// is accepted.
pub fn parse(line: &str) -> (c: Command)
    ensures
        c@ == spec_parse(line@),
{
    let toks = split_tokens(line);
    if toks.len() == 4 && str_eq(toks[0].as_str(), "Add") && str_eq(toks[2].as_str(), "to") {
        Command::Add { name: toks[1].clone(), department: toks[3].clone() }
    } else if toks.len() == 2 && str_eq(toks[0].as_str(), "List") {
        if str_eq(toks[1].as_str(), "All") {
            Command::ListAll
        } else {
            Command::ListDepartment { department: toks[1].clone() }
        }
    } else {
        Command::Invalid { line: String::from_str(line) }
    }
}

} // verus!
