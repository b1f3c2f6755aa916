//! What each subcommand reports about itself.
use vstd::prelude::*;
use crate::cli::{Command, CommandModel};
use crate::text::{append_decimal, append_str, decimal, string_from_chars};

verus! {

/// The repository a command is about.
pub open spec fn command_repo(c: CommandModel) -> Seq<char> {
    match c {
        CommandModel::Ask { repo, .. } => repo,
        CommandModel::Structure { repo } => repo,
        CommandModel::Read { repo, .. } => repo,
    }
}

/// The name of a command's kind of query, as the output header shows it.
pub open spec fn query_type_name(c: CommandModel) -> Seq<char> {
    match c {
        CommandModel::Ask { .. } => "ask"@,
        CommandModel::Structure { .. } => "structure"@,
        CommandModel::Read { .. } => "read"@,
    }
}

/// The repository of a command and the name of its kind of query.
pub fn repo_and_query_type(command: &Command) -> (r: (&str, &str))
    ensures
        r.0@ == command_repo(command.model()),
        r.1@ == query_type_name(command.model()),
{
    match command {
        Command::Ask { repo, .. } => (repo.as_str(), "ask"),
        Command::Structure { repo } => (repo.as_str(), "structure"),
        Command::Read { repo, .. } => (repo.as_str(), "read"),
    }
}

/// The progress message shown while a command runs.
pub open spec fn spinner_text(c: CommandModel) -> Seq<char> {
    match c {
        CommandModel::Ask { repo, .. } => "Asking Code Wiki about "@ + repo + "..."@,
        CommandModel::Structure { repo } => "Fetching wiki structure for "@ + repo + "..."@,
        CommandModel::Read { repo, .. } => "Reading wiki contents for "@ + repo + "..."@,
    }
}

/// The progress message shown while a command runs.
pub fn command_spinner_message(command: &Command) -> (r: String)
    ensures
        r@ == spinner_text(command.model()),
{
    let mut out: Vec<char> = Vec::new();
    match command {
        Command::Ask { repo, .. } => {
            append_str(&mut out, "Asking Code Wiki about ");
            append_str(&mut out, repo.as_str());
        },
        Command::Structure { repo } => {
            append_str(&mut out, "Fetching wiki structure for ");
            append_str(&mut out, repo.as_str());
        },
        Command::Read { repo, .. } => {
            append_str(&mut out, "Reading wiki contents for ");
            append_str(&mut out, repo.as_str());
        },
    }
    append_str(&mut out, "...");
    string_from_chars(out.as_slice())
}

/// The report of a `read` that wrote its split files into a directory.
pub open spec fn files_written_text(count: usize, dir: Seq<char>) -> Seq<char> {
    "Successfully wrote "@ + decimal(count as nat) + " markdown files to "@ + dir
}

/// The report of a `read` that wrote `count` files into `dir`.
pub fn files_written_message(count: usize, dir: &str) -> (r: String)
    ensures
        r@ == files_written_text(count, dir@),
{
    let mut out: Vec<char> = Vec::new();
    append_str(&mut out, "Successfully wrote ");
    append_decimal(&mut out, count as u64);
    append_str(&mut out, " markdown files to ");
    append_str(&mut out, dir);
    string_from_chars(out.as_slice())
}

}
