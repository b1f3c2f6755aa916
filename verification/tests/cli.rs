use codewiki::cli::{ArgName, Cli, CliError, Command};
use codewiki::commands::{command_spinner_message, repo_and_query_type};

#[test]
fn parses_ask_command() {
    let cli = Cli::try_parse_from(&["codewiki", "ask", "facebook/react", "How it works?"])
        .expect("ask command should parse");
    match cli.command {
        Command::Ask { repo, question } => {
            assert_eq!(repo, "facebook/react");
            assert_eq!(question, "How it works?");
        }
        _ => panic!("expected ask command"),
    }
}

#[test]
fn parses_structure_command() {
    let cli = Cli::try_parse_from(&["codewiki", "structure", "facebook/react"])
        .expect("structure command should parse");
    match cli.command {
        Command::Structure { repo } => assert_eq!(repo, "facebook/react"),
        _ => panic!("expected structure command"),
    }
}

#[test]
fn parses_read_command() {
    let cli = Cli::try_parse_from(&["codewiki", "read", "facebook/react"])
        .expect("read command should parse");
    match cli.command {
        Command::Read { repo, out_dir, depth } => {
            assert_eq!(repo, "facebook/react");
            assert_eq!(out_dir, None);
            assert_eq!(depth, 2);
        }
        _ => panic!("expected read command"),
    }

    let cli_with_flag = Cli::try_parse_from(&["codewiki", "read", "facebook/react", "-o"])
        .expect("read command with flag should parse");
    match cli_with_flag.command {
        Command::Read { repo, out_dir, depth } => {
            assert_eq!(repo, "facebook/react");
            assert_eq!(out_dir, Some(String::from("wiki")));
            assert_eq!(depth, 2);
        }
        _ => panic!("expected read command with flag"),
    }

    let cli_with_custom = Cli::try_parse_from(&["codewiki", "read", "facebook/react", "-o", "custom_dir"])
        .expect("read command with custom dir should parse");
    match cli_with_custom.command {
        Command::Read { repo, out_dir, depth } => {
            assert_eq!(repo, "facebook/react");
            assert_eq!(out_dir, Some(String::from("custom_dir")));
            assert_eq!(depth, 2);
        }
        _ => panic!("expected read command with custom dir"),
    }
}

#[test]
fn parses_read_command_with_depth() {
    let cli = Cli::try_parse_from(&["codewiki", "read", "facebook/react", "-d", "3"])
        .expect("read command should parse");
    match cli.command {
        Command::Read { repo, out_dir, depth } => {
            assert_eq!(repo, "facebook/react");
            assert_eq!(out_dir, None);
            assert_eq!(depth, 3);
        }
        _ => panic!("expected read command"),
    }
}

#[test]
fn fails_when_required_args_are_missing() {
    let result = Cli::try_parse_from(&["codewiki", "ask", "facebook/react"]);
    assert!(result.is_err());
}

fn parse_err(args: &[&str]) -> CliError {
    match Cli::try_parse_from(args) {
        Ok(cli) => panic!("expected an error, got {:?}", cli),
        Err(e) => e,
    }
}

fn parse_read(args: &[&str]) -> (String, Option<String>, usize) {
    match Cli::try_parse_from(args).expect("read command should parse").command {
        Command::Read { repo, out_dir, depth } => (repo, out_dir, depth),
        other => panic!("expected read command, got {:?}", other),
    }
}

#[test]
fn read_accepts_long_and_attached_option_forms() {
    assert_eq!(
        parse_read(&["codewiki", "read", "o/r", "--out-dir", "docs", "--depth", "4"]),
        (String::from("o/r"), Some(String::from("docs")), 4)
    );
    assert_eq!(
        parse_read(&["codewiki", "read", "o/r", "--out-dir=docs", "--depth=1"]),
        (String::from("o/r"), Some(String::from("docs")), 1)
    );
    assert_eq!(
        parse_read(&["codewiki", "read", "-odocs", "-d5", "o/r"]),
        (String::from("o/r"), Some(String::from("docs")), 5)
    );
    assert_eq!(
        parse_read(&["codewiki", "read", "-o=docs", "-d=+7", "o/r"]),
        (String::from("o/r"), Some(String::from("docs")), 7)
    );
}

#[test]
fn read_out_dir_without_value_before_another_option_defaults_to_wiki() {
    assert_eq!(
        parse_read(&["codewiki", "read", "o/r", "-o", "-d", "3"]),
        (String::from("o/r"), Some(String::from("wiki")), 3)
    );
}

#[test]
fn double_dash_makes_the_rest_positional() {
    let cli = Cli::try_parse_from(&["codewiki", "ask", "o/r", "--", "-why?"]).expect("parse");
    match cli.command {
        Command::Ask { repo, question } => {
            assert_eq!(repo, "o/r");
            assert_eq!(question, "-why?");
        }
        other => panic!("expected ask command, got {:?}", other),
    }
}

#[test]
fn refused_command_lines_name_their_error() {
    assert_eq!(parse_err(&["codewiki"]), CliError::MissingSubcommand);
    assert_eq!(parse_err(&["codewiki", "--help"]), CliError::HelpRequested);
    assert_eq!(parse_err(&["codewiki", "help"]), CliError::HelpRequested);
    assert_eq!(parse_err(&["codewiki", "read", "o/r", "-h"]), CliError::HelpRequested);
    assert_eq!(parse_err(&["codewiki", "list", "o/r"]), CliError::UnknownSubcommand);
    assert_eq!(parse_err(&["codewiki", "--verbose"]), CliError::UnexpectedArgument(1));
    assert_eq!(parse_err(&["codewiki", "structure", "o/r", "extra"]), CliError::UnexpectedArgument(3));
    assert_eq!(parse_err(&["codewiki", "ask", "o/r", "-d", "3"]), CliError::UnexpectedArgument(3));
    assert_eq!(
        parse_err(&["codewiki", "read", "o/r", "-d", "1", "-d", "2"]),
        CliError::DuplicateArgument(ArgName::Depth)
    );
    assert_eq!(
        parse_err(&["codewiki", "read", "o/r", "-o", "a", "--out-dir=b"]),
        CliError::DuplicateArgument(ArgName::OutDir)
    );
    assert_eq!(parse_err(&["codewiki", "read", "o/r", "-d"]), CliError::MissingValue(ArgName::Depth));
    assert_eq!(parse_err(&["codewiki", "read", "o/r", "-d", "two"]), CliError::InvalidValue(ArgName::Depth));
    assert_eq!(parse_err(&["codewiki", "read", "o/r", "--out-dir="]), CliError::InvalidValue(ArgName::OutDir));
    assert_eq!(parse_err(&["codewiki", "read"]), CliError::MissingArgument(ArgName::Repo));
    assert_eq!(parse_err(&["codewiki", "ask", "o/r"]), CliError::MissingArgument(ArgName::Question));
}

#[test]
fn depth_values_follow_usize_parsing() {
    assert_eq!(parse_read(&["codewiki", "read", "o/r", "-d", "0"]).2, 0);
    assert_eq!(parse_read(&["codewiki", "read", "o/r", "-d", "007"]).2, 7);
    assert_eq!(
        parse_err(&["codewiki", "read", "o/r", "-d", "99999999999999999999999"]),
        CliError::InvalidValue(ArgName::Depth)
    );
    assert_eq!(parse_err(&["codewiki", "read", "o/r", "--depth=+"]), CliError::InvalidValue(ArgName::Depth));
}

#[test]
fn commands_report_repo_query_type_and_progress_message() {
    let ask = Cli::try_parse_from(&["codewiki", "ask", "facebook/react", "Why?"]).unwrap().command;
    assert_eq!(repo_and_query_type(&ask), ("facebook/react", "ask"));
    assert_eq!(command_spinner_message(&ask), "Asking Code Wiki about facebook/react...");

    let structure = Cli::try_parse_from(&["codewiki", "structure", "o/r"]).unwrap().command;
    assert_eq!(repo_and_query_type(&structure), ("o/r", "structure"));
    assert_eq!(command_spinner_message(&structure), "Fetching wiki structure for o/r...");

    let read = Cli::try_parse_from(&["codewiki", "read", "o/r", "-o"]).unwrap().command;
    assert_eq!(repo_and_query_type(&read), ("o/r", "read"));
    assert_eq!(command_spinner_message(&read), "Reading wiki contents for o/r...");
}

#[test]
fn files_written_report() {
    assert_eq!(
        codewiki::commands::files_written_message(3, "docs/wiki"),
        "Successfully wrote 3 markdown files to docs/wiki"
    );
}
