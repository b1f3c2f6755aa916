//! The command line: `codewiki ask|structure|read ...`.
use vstd::prelude::*;
use crate::text::{append_chars, chars_eq, chars_of, has_prefix, starts_with, string_from_chars};

verus! {

/// A parsed command line.
#[derive(Debug)]
pub struct Cli {
    pub command: Command,
}

/// The subcommands.
#[derive(Debug)]
pub enum Command {
    /// Ask an AI-powered question about a repository.
    Ask { repo: String, question: String },
    /// List wiki section titles for a repository.
    Structure { repo: String },
    /// Read full wiki contents (Markdown) for a repository; with an output
    /// directory the wiki is split into files, by heading depth.
    Read { repo: String, out_dir: Option<String>, depth: usize },
}

/// The arguments a subcommand can be missing or repeat.
#[derive(Debug, PartialEq, Eq, Structural)]
pub enum ArgName {
    Repo,
    Question,
    OutDir,
    Depth,
}

/// Why a command line was refused. Arguments are named by their index in
/// the command line (0 is the program name).
#[derive(Debug, PartialEq, Eq, Structural)]
pub enum CliError {
    /// No subcommand was given (the usage is shown).
    MissingSubcommand,
    /// `-h`, `--help` or `help` asked for the usage.
    HelpRequested,
    /// The subcommand at index 1 is not one of `ask`, `structure`, `read`.
    UnknownSubcommand,
    /// The argument at this index is not expected.
    UnexpectedArgument(usize),
    /// An option was given twice.
    DuplicateArgument(ArgName),
    /// An option that takes a value was given none.
    MissingValue(ArgName),
    /// The value of an option is not valid.
    InvalidValue(ArgName),
    /// A required positional argument is missing.
    MissingArgument(ArgName),
}

/// The subcommand of a command line.
#[derive(Debug, PartialEq, Eq, Structural, Clone, Copy)]
pub enum SubcommandKind {
    Ask,
    Structure,
    Read,
}

/// A command line as values.
pub enum CommandModel {
    Ask { repo: Seq<char>, question: Seq<char> },
    Structure { repo: Seq<char> },
    Read { repo: Seq<char>, out_dir: Option<Seq<char>>, depth: usize },
}

impl Command {
    pub open spec fn model(self) -> CommandModel {
        match self {
            Command::Ask { repo, question } => CommandModel::Ask { repo: repo@, question: question@ },
            Command::Structure { repo } => CommandModel::Structure { repo: repo@ },
            Command::Read { repo, out_dir, depth } => CommandModel::Read {
                repo: repo@,
                out_dir: match out_dir { Some(d) => Some(d@), None => None },
                depth,
            },
        }
    }
}

/// How many positional arguments a subcommand takes.
pub open spec fn positional_count(kind: SubcommandKind) -> nat {
    match kind {
        SubcommandKind::Ask => 2,
        _ => 1,
    }
}

/// An argument that reads as an option: a `-` followed by anything.
pub open spec fn looks_like_flag(t: Seq<char>) -> bool {
    t.len() >= 2 && t[0] == '-'
}

/// The value of a decimal numeral with an optional leading `+`, when it fits a `usize`.
pub open spec fn digits_value(t: Seq<char>) -> nat
    decreases t.len(),
{
    if t.len() == 0 { 0 } else { digits_value(t.drop_last()) * 10 + ((t.last() as int) - 48) as nat }
}

/// All characters are ASCII digits.
pub open spec fn all_digits(t: Seq<char>) -> bool {
    forall|i: int| 0 <= i < t.len() ==> '0' <= #[trigger] t[i] <= '9'
}

/// What `str::parse::<usize>` accepts: an optional `+` and at least one digit,
/// with a value that fits.
pub open spec fn parsed_usize(t: Seq<char>) -> Option<usize> {
    let d = if t.len() > 0 && t[0] == '+' { t.drop_first() } else { t };
    if d.len() > 0 && all_digits(d) && digits_value(d) <= usize::MAX {
        Some(digits_value(d) as usize)
    } else {
        None
    }
}

/// The options and positional arguments read so far.
pub struct ArgsSoFar {
    pub positionals: Seq<Seq<char>>,
    pub out_dir: Option<Seq<char>>,
    pub depth: Option<usize>,
    pub only_positional: bool,
}

/// Nothing read yet.
pub open spec fn args_start() -> ArgsSoFar {
    ArgsSoFar { positionals: seq![], out_dir: None, depth: None, only_positional: false }
}

/// Takes the argument at `i` as a positional one.
pub open spec fn take_positional(kind: SubcommandKind, args: Seq<Seq<char>>, i: int, st: ArgsSoFar) -> Result<ArgsSoFar, CliError> {
    if st.positionals.len() < positional_count(kind) {
        Ok(ArgsSoFar { positionals: st.positionals.push(args[i]), ..st })
    } else {
        Err(CliError::UnexpectedArgument(i as usize))
    }
}

/// The value attached to a short option (`-ovalue` or `-o=value`).
pub open spec fn attached_short_value(t: Seq<char>) -> Seq<char> {
    if t.len() > 2 && t[2] == '=' { t.skip(3) } else { t.skip(2) }
}

/// Sets the output directory, refusing a repeat or an empty value.
pub open spec fn set_out_dir(st: ArgsSoFar, v: Seq<char>) -> Result<ArgsSoFar, CliError> {
    if st.out_dir is Some {
        Err(CliError::DuplicateArgument(ArgName::OutDir))
    } else if v.len() == 0 {
        Err(CliError::InvalidValue(ArgName::OutDir))
    } else {
        Ok(ArgsSoFar { out_dir: Some(v), ..st })
    }
}

/// Sets the depth, refusing a repeat or a value that is not a `usize`.
pub open spec fn set_depth(st: ArgsSoFar, v: Seq<char>) -> Result<ArgsSoFar, CliError> {
    if st.depth is Some {
        Err(CliError::DuplicateArgument(ArgName::Depth))
    } else {
        match parsed_usize(v) {
            Some(n) => Ok(ArgsSoFar { depth: Some(n), ..st }),
            None => Err(CliError::InvalidValue(ArgName::Depth)),
        }
    }
}

/// Reads the arguments of a subcommand from index `i` on, in order:
/// after `--` every argument is positional; `-h`/`--help` asks for the usage;
/// `read` takes `-o`/`--out-dir` with an optional value (the next argument
/// when it does not read as an option, else `wiki`; or attached as
/// `--out-dir=DIR`, `-oDIR`, `-o=DIR`) and `-d`/`--depth` with a required
/// value (next or attached the same ways); any other argument that reads as
/// an option is refused; the rest are positional, up to the number the
/// subcommand takes.
pub open spec fn read_args(kind: SubcommandKind, args: Seq<Seq<char>>, i: int, st: ArgsSoFar) -> Result<ArgsSoFar, CliError>
    decreases args.len() - i,
{
    if i < 0 || i >= args.len() {
        Ok(st)
    } else {
        let t = args[i];
        if st.only_positional {
            match take_positional(kind, args, i, st) {
                Ok(s2) => read_args(kind, args, i + 1, s2),
                Err(e) => Err(e),
            }
        } else if t == "--"@ {
            read_args(kind, args, i + 1, ArgsSoFar { only_positional: true, ..st })
        } else if t == "-h"@ || t == "--help"@ {
            Err(CliError::HelpRequested)
        } else if kind == SubcommandKind::Read && (t == "-o"@ || t == "--out-dir"@) {
            if st.out_dir is Some {
                Err(CliError::DuplicateArgument(ArgName::OutDir))
            } else if i + 1 < args.len() && !looks_like_flag(args[i + 1]) {
                match set_out_dir(st, args[i + 1]) {
                    Ok(s2) => read_args(kind, args, i + 2, s2),
                    Err(e) => Err(e),
                }
            } else {
                read_args(kind, args, i + 1, ArgsSoFar { out_dir: Some("wiki"@), ..st })
            }
        } else if kind == SubcommandKind::Read && t.len() >= 10 && t.take(10) == "--out-dir="@ {
            match set_out_dir(st, t.skip(10)) {
                Ok(s2) => read_args(kind, args, i + 1, s2),
                Err(e) => Err(e),
            }
        } else if kind == SubcommandKind::Read && t.len() > 2 && t[0] == '-' && t[1] == 'o' {
            match set_out_dir(st, attached_short_value(t)) {
                Ok(s2) => read_args(kind, args, i + 1, s2),
                Err(e) => Err(e),
            }
        } else if kind == SubcommandKind::Read && (t == "-d"@ || t == "--depth"@) {
            if st.depth is Some {
                Err(CliError::DuplicateArgument(ArgName::Depth))
            } else if i + 1 < args.len() && !looks_like_flag(args[i + 1]) {
                match set_depth(st, args[i + 1]) {
                    Ok(s2) => read_args(kind, args, i + 2, s2),
                    Err(e) => Err(e),
                }
            } else {
                Err(CliError::MissingValue(ArgName::Depth))
            }
        } else if kind == SubcommandKind::Read && t.len() >= 8 && t.take(8) == "--depth="@ {
            match set_depth(st, t.skip(8)) {
                Ok(s2) => read_args(kind, args, i + 1, s2),
                Err(e) => Err(e),
            }
        } else if kind == SubcommandKind::Read && t.len() > 2 && t[0] == '-' && t[1] == 'd' {
            match set_depth(st, attached_short_value(t)) {
                Ok(s2) => read_args(kind, args, i + 1, s2),
                Err(e) => Err(e),
            }
        } else if looks_like_flag(t) {
            Err(CliError::UnexpectedArgument(i as usize))
        } else {
            match take_positional(kind, args, i, st) {
                Ok(s2) => read_args(kind, args, i + 1, s2),
                Err(e) => Err(e),
            }
        }
    }
}

/// The command of a subcommand once its arguments are read; the depth
/// defaults to 2 and a missing positional argument is refused.
pub open spec fn finish_command(kind: SubcommandKind, st: ArgsSoFar) -> Result<CommandModel, CliError> {
    if st.positionals.len() < 1 {
        Err(CliError::MissingArgument(ArgName::Repo))
    } else {
        match kind {
            SubcommandKind::Ask => if st.positionals.len() < 2 {
                Err(CliError::MissingArgument(ArgName::Question))
            } else {
                Ok(CommandModel::Ask { repo: st.positionals[0], question: st.positionals[1] })
            },
            SubcommandKind::Structure => Ok(CommandModel::Structure { repo: st.positionals[0] }),
            SubcommandKind::Read => Ok(CommandModel::Read {
                repo: st.positionals[0],
                out_dir: st.out_dir,
                depth: match st.depth { Some(n) => n, None => 2 },
            }),
        }
    }
}

/// What a command line (program name first) parses to.
pub open spec fn cli_outcome(args: Seq<Seq<char>>) -> Result<CommandModel, CliError> {
    if args.len() < 2 {
        Err(CliError::MissingSubcommand)
    } else {
        let t = args[1];
        if t == "-h"@ || t == "--help"@ || t == "help"@ {
            Err(CliError::HelpRequested)
        } else {
            let kind = if t == "ask"@ {
                Some(SubcommandKind::Ask)
            } else if t == "structure"@ {
                Some(SubcommandKind::Structure)
            } else if t == "read"@ {
                Some(SubcommandKind::Read)
            } else {
                None
            };
            match kind {
                Some(k) => match read_args(k, args, 2, args_start()) {
                    Ok(st) => finish_command(k, st),
                    Err(e) => Err(e),
                },
                None => if looks_like_flag(t) {
                    Err(CliError::UnexpectedArgument(1))
                } else {
                    Err(CliError::UnknownSubcommand)
                },
            }
        }
    }
}


/// The value of a numeral for `usize` (see `parsed_usize`).
fn parse_usize(t: &[char]) -> (r: Option<usize>)
    ensures
        r == parsed_usize(t@),
{
    let start: usize = if t.len() > 0 && t[0] == '+' { 1 } else { 0 };
    let ghost d = if t@.len() > 0 && t@[0] == '+' { t@.drop_first() } else { t@ };
    assert(d =~= t@.skip(start as int));
    if start >= t.len() {
        return None;
    }
    let mut value: usize = 0;
    let mut i = start;
    while i < t.len()
        invariant
            start <= i <= t.len(),
            d == t@.skip(start as int),
            d == (if t@.len() > 0 && t@[0] == '+' { t@.drop_first() } else { t@ }),
            all_digits(t@.subrange(start as int, i as int)),
            value as nat == digits_value(t@.subrange(start as int, i as int)),
        decreases t.len() - i,
    {
        let c = t[i];
        assert(t@.subrange(start as int, i + 1).drop_last() =~= t@.subrange(start as int, i as int));
        if !('0' <= c && c <= '9') {
            assert(d[i - start] == c);
            assert(!all_digits(d));
            return None;
        }
        let dv = (c as u32 - 48) as usize;
        assert(dv as int == (c as int) - 48);
        if value > (usize::MAX - dv) / 10 {
            proof {
                let nv = digits_value(t@.subrange(start as int, i + 1));
                assert(nv == value * 10 + dv);
                assert(nv > usize::MAX) by (nonlinear_arith)
                    requires
                        value > (usize::MAX - dv) / 10,
                        nv == value * 10 + dv,
                        dv <= 9,
                ;
                assert(t@.subrange(start as int, t.len() as int) =~= d);
                assert(d.take((i + 1 - start) as int) =~= t@.subrange(start as int, i + 1));
                if all_digits(d) {
                    lemma_digits_value_prefix_bound(d, (i + 1 - start) as int);
                }
            }
            return None;
        }
        value = value * 10 + dv;
        i = i + 1;
        assert(all_digits(t@.subrange(start as int, i as int))) by {
            assert forall|k: int| 0 <= k < t@.subrange(start as int, i as int).len() implies '0' <= #[trigger] t@.subrange(start as int, i as int)[k] <= '9' by {
                if k < i - 1 - start {
                    assert(t@.subrange(start as int, i as int)[k] == t@.subrange(start as int, i - 1)[k]);
                }
            }
        }
    }
    assert(t@.subrange(start as int, t.len() as int) =~= d);
    Some(value)
}

proof fn lemma_digits_value_prefix_bound(t: Seq<char>, n: int)
    requires
        0 <= n <= t.len(),
        all_digits(t),
    ensures
        digits_value(t) >= digits_value(t.take(n)),
    decreases t.len(),
{
    if t.len() > n {
        assert(all_digits(t.drop_last())) by {
            assert forall|k: int| 0 <= k < t.drop_last().len() implies '0' <= #[trigger] t.drop_last()[k] <= '9' by {
                assert(t.drop_last()[k] == t[k]);
            }
        }
        assert(t.drop_last().take(n) =~= t.take(n));
        lemma_digits_value_prefix_bound(t.drop_last(), n);
        assert('0' <= t[t.len() - 1] <= '9');
        assert(digits_value(t) >= digits_value(t.drop_last())) by (nonlinear_arith)
            requires
                digits_value(t) == digits_value(t.drop_last()) * 10 + ((t.last() as int) - 48) as nat,
                (t.last() as int) - 48 >= 0,
        ;
    } else {
        assert(t.take(n) =~= t);
    }
}


/// The options and positional arguments read so far.
struct ArgsState {
    positionals: Vec<Vec<char>>,
    out_dir: Option<Vec<char>>,
    depth: Option<usize>,
    only_positional: bool,
}

impl ArgsState {
    spec fn model(&self) -> ArgsSoFar {
        ArgsSoFar {
            positionals: self.positionals@.map_values(|v: Vec<char>| v@),
            out_dir: match self.out_dir { Some(d) => Some(d@), None => None },
            depth: self.depth,
            only_positional: self.only_positional,
        }
    }
}

/// The arguments as character sequences.
pub open spec fn args_view(args: Seq<&str>) -> Seq<Seq<char>> {
    args.map_values(|a: &str| a@)
}

fn copy_chars(t: &Vec<char>) -> (r: Vec<char>)
    ensures
        r@ == t@,
{
    let mut v: Vec<char> = Vec::new();
    append_chars(&mut v, t.as_slice());
    v
}

fn take_positional_exec(kind: SubcommandKind, args: &Vec<Vec<char>>, i: usize, st: ArgsState) -> (r: Result<ArgsState, CliError>)
    requires
        i < args.len(),
    ensures
        match (r, take_positional(kind, args@.map_values(|v: Vec<char>| v@), i as int, st.model())) {
            (Ok(s2), Ok(m)) => s2.model() == m,
            (Err(e), Err(f)) => e == f,
            _ => false,
        },
{
    let limit: usize = match kind {
        SubcommandKind::Ask => 2,
        _ => 1,
    };
    if st.positionals.len() < limit {
        let mut st = st;
        let ghost before = st.model();
        st.positionals.push(copy_chars(&args[i]));
        assert(st.model().positionals =~= before.positionals.push(args@.map_values(|v: Vec<char>| v@)[i as int]));
        Ok(st)
    } else {
        Err(CliError::UnexpectedArgument(i))
    }
}

fn set_out_dir_exec(st: ArgsState, v: Vec<char>) -> (r: Result<ArgsState, CliError>)
    ensures
        match (r, set_out_dir(st.model(), v@)) {
            (Ok(s2), Ok(m)) => s2.model() == m,
            (Err(e), Err(f)) => e == f,
            _ => false,
        },
{
    if st.out_dir.is_some() {
        Err(CliError::DuplicateArgument(ArgName::OutDir))
    } else if v.len() == 0 {
        Err(CliError::InvalidValue(ArgName::OutDir))
    } else {
        let mut st = st;
        st.out_dir = Some(v);
        Ok(st)
    }
}

fn set_depth_exec(st: ArgsState, v: &[char]) -> (r: Result<ArgsState, CliError>)
    ensures
        match (r, set_depth(st.model(), v@)) {
            (Ok(s2), Ok(m)) => s2.model() == m,
            (Err(e), Err(f)) => e == f,
            _ => false,
        },
{
    if st.depth.is_some() {
        return Err(CliError::DuplicateArgument(ArgName::Depth));
    }
    match parse_usize(v) {
        Some(n) => {
            let mut st = st;
            st.depth = Some(n);
            Ok(st)
        },
        None => Err(CliError::InvalidValue(ArgName::Depth)),
    }
}

/// The characters of `t` from index `k` on.
fn tail_from(t: &Vec<char>, k: usize) -> (r: Vec<char>)
    requires
        k <= t.len(),
    ensures
        r@ == t@.skip(k as int),
{
    let mut v: Vec<char> = Vec::new();
    let mut i = k;
    while i < t.len()
        invariant
            k <= i <= t.len(),
            v@ == t@.subrange(k as int, i as int),
        decreases t.len() - i,
    {
        v.push(t[i]);
        i = i + 1;
        assert(v@ =~= t@.subrange(k as int, i as int));
    }
    assert(v@ =~= t@.skip(k as int));
    v
}

fn attached_value(t: &Vec<char>) -> (r: Vec<char>)
    requires
        t.len() >= 2,
    ensures
        r@ == attached_short_value(t@),
{
    if t.len() > 2 && t[2] == '=' { tail_from(t, 3) } else { tail_from(t, 2) }
}

fn is_flag_like(t: &Vec<char>) -> (r: bool)
    ensures
        r == looks_like_flag(t@),
{
    t.len() >= 2 && t[0] == '-'
}

fn eq_lit(t: &Vec<char>, lit: &str) -> (r: bool)
    ensures
        r == (t@ == lit@),
{
    let l = chars_of(lit);
    chars_eq(t.as_slice(), l.as_slice())
}

fn has_lit_prefix(t: &Vec<char>, lit: &str, n: usize) -> (r: bool)
    requires
        lit@.len() == n,
    ensures
        r == (t@.len() >= n && t@.take(n as int) == lit@),
{
    let l = chars_of(lit);
    starts_with(t.as_slice(), l.as_slice())
}

/// Reads the argument at `i` (and its value, when it takes the next one).
fn read_one(kind: SubcommandKind, args: &Vec<Vec<char>>, i: usize, st: ArgsState) -> (r: Result<(ArgsState, usize), CliError>)
    requires
        i < args.len(),
    ensures
        match r {
            Ok((s2, j)) => i < j <= args.len() && read_args(kind, args@.map_values(|v: Vec<char>| v@), i as int, st.model())
                == read_args(kind, args@.map_values(|v: Vec<char>| v@), j as int, s2.model()),
            Err(e) => read_args(kind, args@.map_values(|v: Vec<char>| v@), i as int, st.model()) == Err::<ArgsSoFar, CliError>(e),
        },
{
    let ghost a = args@.map_values(|v: Vec<char>| v@);
    let t = &args[i];
    assert(a[i as int] == t@);
    proof {
        reveal_strlit("--out-dir=");
        reveal_strlit("--depth=");
    }
    let is_read = kind == SubcommandKind::Read;
    if st.only_positional {
        return match take_positional_exec(kind, args, i, st) {
            Ok(s2) => Ok((s2, i + 1)),
            Err(e) => Err(e),
        };
    }
    if eq_lit(t, "--") {
        let mut st = st;
        st.only_positional = true;
        return Ok((st, i + 1));
    }
    if eq_lit(t, "-h") || eq_lit(t, "--help") {
        return Err(CliError::HelpRequested);
    }
    if is_read && (eq_lit(t, "-o") || eq_lit(t, "--out-dir")) {
        if st.out_dir.is_some() {
            return Err(CliError::DuplicateArgument(ArgName::OutDir));
        }
        if i + 1 < args.len() && !is_flag_like(&args[i + 1]) {
            assert(a[i + 1] == args@[i + 1]@);
            return match set_out_dir_exec(st, copy_chars(&args[i + 1])) {
                Ok(s2) => Ok((s2, i + 2)),
                Err(e) => Err(e),
            };
        }
        let mut st = st;
        st.out_dir = Some(chars_of("wiki"));
        return Ok((st, i + 1));
    }
    if is_read && has_lit_prefix(t, "--out-dir=", 10) {
        return match set_out_dir_exec(st, tail_from(t, 10)) {
            Ok(s2) => Ok((s2, i + 1)),
            Err(e) => Err(e),
        };
    }
    if is_read && t.len() > 2 && t[0] == '-' && t[1] == 'o' {
        return match set_out_dir_exec(st, attached_value(t)) {
            Ok(s2) => Ok((s2, i + 1)),
            Err(e) => Err(e),
        };
    }
    if is_read && (eq_lit(t, "-d") || eq_lit(t, "--depth")) {
        if st.depth.is_some() {
            return Err(CliError::DuplicateArgument(ArgName::Depth));
        }
        if i + 1 < args.len() && !is_flag_like(&args[i + 1]) {
            assert(a[i + 1] == args@[i + 1]@);
            return match set_depth_exec(st, args[i + 1].as_slice()) {
                Ok(s2) => Ok((s2, i + 2)),
                Err(e) => Err(e),
            };
        }
        return Err(CliError::MissingValue(ArgName::Depth));
    }
    if is_read && has_lit_prefix(t, "--depth=", 8) {
        let v = tail_from(t, 8);
        return match set_depth_exec(st, v.as_slice()) {
            Ok(s2) => Ok((s2, i + 1)),
            Err(e) => Err(e),
        };
    }
    if is_read && t.len() > 2 && t[0] == '-' && t[1] == 'd' {
        let v = attached_value(t);
        return match set_depth_exec(st, v.as_slice()) {
            Ok(s2) => Ok((s2, i + 1)),
            Err(e) => Err(e),
        };
    }
    if is_flag_like(t) {
        return Err(CliError::UnexpectedArgument(i));
    }
    match take_positional_exec(kind, args, i, st) {
        Ok(s2) => Ok((s2, i + 1)),
        Err(e) => Err(e),
    }
}


fn finish_exec(kind: SubcommandKind, st: ArgsState) -> (r: Result<Command, CliError>)
    ensures
        match (r, finish_command(kind, st.model())) {
            (Ok(c), Ok(m)) => c.model() == m,
            (Err(e), Err(f)) => e == f,
            _ => false,
        },
{
    let ghost m = st.model();
    let mut ps = st.positionals;
    if ps.len() < 1 {
        return Err(CliError::MissingArgument(ArgName::Repo));
    }
    match kind {
        SubcommandKind::Ask => {
            if ps.len() < 2 {
                return Err(CliError::MissingArgument(ArgName::Question));
            }
            let repo = string_from_chars(ps[0].as_slice());
            let question = string_from_chars(ps[1].as_slice());
            Ok(Command::Ask { repo, question })
        },
        SubcommandKind::Structure => {
            let repo = string_from_chars(ps[0].as_slice());
            Ok(Command::Structure { repo })
        },
        SubcommandKind::Read => {
            let repo = string_from_chars(ps[0].as_slice());
            let out_dir = match &st.out_dir {
                Some(d) => Some(string_from_chars(d.as_slice())),
                None => None,
            };
            let depth = match st.depth {
                Some(n) => n,
                None => 2,
            };
            Ok(Command::Read { repo, out_dir, depth })
        },
    }
}

impl Cli {
    /// Parses a command line (program name first) as `codewiki` reads it:
    /// a subcommand, `ask REPO QUESTION`, `structure REPO` or
    /// `read REPO [-o [DIR]] [-d DEPTH]` (see `read_args`), with `help`,
    /// `-h` and `--help` asking for the usage.
    pub fn try_parse_from(args: &[&str]) -> (r: Result<Cli, CliError>)
        ensures
            match (r, cli_outcome(args_view(args@))) {
                (Ok(c), Ok(m)) => c.command.model() == m,
                (Err(e), Err(f)) => e == f,
                _ => false,
            },
    {
        let ghost a = args_view(args@);
        let mut cs: Vec<Vec<char>> = Vec::new();
        let mut k: usize = 0;
        while k < args.len()
            invariant
                k <= args.len(),
                a == args_view(args@),
                cs@.map_values(|v: Vec<char>| v@) == a.take(k as int),
            decreases args.len() - k,
        {
            let ghost before = cs@;
            let c = chars_of(args[k]);
            assert(a[k as int] == args@[k as int]@);
            assert(c@ == a[k as int]);
            cs.push(c);
            assert(cs@ == before.push(c));
            assert(cs@.map_values(|v: Vec<char>| v@) =~= before.map_values(|v: Vec<char>| v@).push(c@));
            assert(a.take(k + 1) =~= a.take(k as int).push(a[k as int]));
            k = k + 1;
            assert(cs@.map_values(|v: Vec<char>| v@) =~= a.take(k as int));
        }
        assert(a.take(args.len() as int) =~= a);
        if cs.len() < 2 {
            return Err(CliError::MissingSubcommand);
        }
        let t = &cs[1];
        assert(a[1] == t@);
        if eq_lit(t, "-h") || eq_lit(t, "--help") || eq_lit(t, "help") {
            return Err(CliError::HelpRequested);
        }
        let kind = if eq_lit(t, "ask") {
            SubcommandKind::Ask
        } else if eq_lit(t, "structure") {
            SubcommandKind::Structure
        } else if eq_lit(t, "read") {
            SubcommandKind::Read
        } else if is_flag_like(t) {
            return Err(CliError::UnexpectedArgument(1));
        } else {
            return Err(CliError::UnknownSubcommand);
        };
        let mut st = ArgsState { positionals: Vec::new(), out_dir: None, depth: None, only_positional: false };
        assert(st.model().positionals =~= Seq::<Seq<char>>::empty());
        let mut i: usize = 2;
        proof {
            assert(a == args_view(args@));
        }
        while i < cs.len()
            invariant
                2 <= i <= cs.len(),
                args_view(args@) == cs@.map_values(|v: Vec<char>| v@),
                cli_outcome(args_view(args@)) == match read_args(kind, args_view(args@), 2, args_start()) {
                    Ok(s) => finish_command(kind, s),
                    Err(e) => Err(e),
                },
                read_args(kind, args_view(args@), 2, args_start()) == read_args(kind, args_view(args@), i as int, st.model()),
            decreases cs.len() - i,
        {
            match read_one(kind, &cs, i, st) {
                Ok((s2, j)) => {
                    st = s2;
                    i = j;
                },
                Err(e) => {
                    return Err(e);
                },
            }
        }
        match finish_exec(kind, st) {
            Ok(c) => Ok(Cli { command: c }),
            Err(e) => Err(e),
        }
    }
}


/// An argument that is taken as a value wherever it stands: it does not read as an option.
pub open spec fn plain_arg(t: Seq<char>) -> bool {
    !looks_like_flag(t)
}

proof fn lemma_plain_is_not_option(t: Seq<char>)
    requires
        plain_arg(t),
    ensures
        t != "--"@,
        t != "-h"@,
        t != "--help"@,
        t != "-o"@,
        t != "--out-dir"@,
        t != "-d"@,
        t != "--depth"@,
        !(t.len() >= 10 && t.take(10) == "--out-dir="@),
        !(t.len() >= 8 && t.take(8) == "--depth="@),
        !(t.len() > 2 && t[0] == '-'),
{
    reveal_strlit("--");
    reveal_strlit("-h");
    reveal_strlit("--help");
    reveal_strlit("-o");
    reveal_strlit("--out-dir");
    reveal_strlit("-d");
    reveal_strlit("--depth");
    reveal_strlit("--out-dir=");
    reveal_strlit("--depth=");
    if t.len() >= 10 && t.take(10) == "--out-dir="@ {
        assert(t[0] == t.take(10)[0]);
    }
    if t.len() >= 8 && t.take(8) == "--depth="@ {
        assert(t[0] == t.take(8)[0]);
    }
}

proof fn lemma_subcommand_names()
    ensures
        "ask"@ != "-h"@ && "ask"@ != "--help"@ && "ask"@ != "help"@,
        "read"@ != "-h"@ && "read"@ != "--help"@ && "read"@ != "help"@ && "read"@ != "ask"@ && "read"@ != "structure"@,
        "structure"@ != "-h"@ && "structure"@ != "--help"@ && "structure"@ != "help"@ && "structure"@ != "ask"@,
{
    reveal_strlit("ask");
    reveal_strlit("read");
    reveal_strlit("structure");
    reveal_strlit("-h");
    reveal_strlit("--help");
    reveal_strlit("help");
    assert("ask"@[0] != "-h"@[0]);
    assert("ask"@[0] != "--help"@[0]);
    assert("ask"@[0] != "help"@[0]);
    assert("read"@[0] != "-h"@[0]);
    assert("read"@[0] != "--help"@[0]);
    assert("read"@[0] != "help"@[0]);
    assert("read"@[0] != "ask"@[0]);
    assert("read"@[0] != "structure"@[0]);
    assert("structure"@[0] != "-h"@[0]);
    assert("structure"@[0] != "--help"@[0]);
    assert("structure"@[0] != "help"@[0]);
    assert("structure"@[0] != "ask"@[0]);
}

/// `ask REPO QUESTION` asks QUESTION about REPO, for every repository and
/// question that do not read as options.
pub proof fn law_ask_command(program: Seq<char>, repo: Seq<char>, question: Seq<char>)
    requires
        plain_arg(repo),
        plain_arg(question),
    ensures
        cli_outcome(seq![program, "ask"@, repo, question]) == Ok::<CommandModel, CliError>(
            CommandModel::Ask { repo, question },
        ),
{
    lemma_subcommand_names();
    lemma_plain_is_not_option(repo);
    lemma_plain_is_not_option(question);
    let args = seq![program, "ask"@, repo, question];
    let s1 = ArgsSoFar { positionals: seq![repo], ..args_start() };
    let s2 = ArgsSoFar { positionals: seq![repo, question], ..args_start() };
    assert(args_start().positionals.push(repo) =~= seq![repo]);
    assert(seq![repo].push(question) =~= seq![repo, question]);
    assert(read_args(SubcommandKind::Ask, args, 4, s2) == Ok::<ArgsSoFar, CliError>(s2));
    assert(read_args(SubcommandKind::Ask, args, 3, s1) == read_args(SubcommandKind::Ask, args, 4, s2));
    assert(read_args(SubcommandKind::Ask, args, 2, args_start()) == read_args(SubcommandKind::Ask, args, 3, s1));
}

/// `read REPO` reads REPO's wiki to standard output (no directory) with the
/// default split depth 2, and `read REPO -o` splits it into the directory
/// `wiki`, for every repository that does not read as an option.
pub proof fn law_read_defaults(program: Seq<char>, repo: Seq<char>)
    requires
        plain_arg(repo),
    ensures
        cli_outcome(seq![program, "read"@, repo]) == Ok::<CommandModel, CliError>(
            CommandModel::Read { repo, out_dir: None, depth: 2 },
        ),
        cli_outcome(seq![program, "read"@, repo, "-o"@]) == Ok::<CommandModel, CliError>(
            CommandModel::Read { repo, out_dir: Some("wiki"@), depth: 2 },
        ),
{
    lemma_subcommand_names();
    lemma_plain_is_not_option(repo);
    reveal_strlit("-o");
    reveal_strlit("--");
    reveal_strlit("-h");
    reveal_strlit("--help");
    assert("-o"@ != "--"@ && "-o"@ != "-h"@ && "-o"@ != "--help"@) by {
        assert("-o"@[1] != "--"@[1]);
        assert("-o"@[1] != "-h"@[1]);
        assert("-o"@.len() != "--help"@.len());
    }
    let s1 = ArgsSoFar { positionals: seq![repo], ..args_start() };
    assert(args_start().positionals.push(repo) =~= seq![repo]);
    let a1 = seq![program, "read"@, repo];
    assert(read_args(SubcommandKind::Read, a1, 3, s1) == Ok::<ArgsSoFar, CliError>(s1));
    assert(read_args(SubcommandKind::Read, a1, 2, args_start()) == read_args(SubcommandKind::Read, a1, 3, s1));
    let a2 = seq![program, "read"@, repo, "-o"@];
    let s2 = ArgsSoFar { out_dir: Some("wiki"@), ..s1 };
    assert(read_args(SubcommandKind::Read, a2, 4, s2) == Ok::<ArgsSoFar, CliError>(s2));
    assert(a2[3] == "-o"@);
    assert(read_args(SubcommandKind::Read, a2, 3, s1) == read_args(SubcommandKind::Read, a2, 4, s2));
    assert(read_args(SubcommandKind::Read, a2, 2, args_start()) == read_args(SubcommandKind::Read, a2, 3, s1));
}

}
