//! The command line: what the arguments of an invocation say and what is
//! done for them.

use crate::request::{Request, SearchRequest, UsageError};
use crate::text::{same_text, texts};
use vstd::prelude::*;
use vstd::string::StringExecFns;

verus! {

/// What the arguments of an invocation say.
pub struct Arguments {
    pub help: bool,
    pub recursive: bool,
    pub ignore_case: bool,
    pub regex: bool,
    pub pattern: Seq<char>,
    pub path: Option<Seq<char>>,
    pub unknown: Seq<Seq<char>>,
}

/// The arguments of an invocation, sorted out: the flags that were given,
/// the pattern (empty where none was given), the path if one was given, and
/// the arguments that look like flags and are none.
#[derive(Debug, PartialEq, Eq)]
pub struct Invocation {
    pub help: bool,
    pub recursive: bool,
    pub ignore_case: bool,
    pub regex: bool,
    pub pattern: String,
    pub path: Option<String>,
    pub unknown: Vec<String>,
}

impl View for Invocation {
    type V = Arguments;

    open spec fn view(&self) -> Arguments {
        Arguments {
            help: self.help,
            recursive: self.recursive,
            ignore_case: self.ignore_case,
            regex: self.regex,
            pattern: self.pattern@,
            path: match self.path {
                Some(path) => Some(path@),
                None => None,
            },
            unknown: texts(self.unknown@),
        }
    }
}

/// What is known before any argument is read.
pub open spec fn no_arguments() -> Arguments {
    Arguments {
        help: false,
        recursive: false,
        ignore_case: false,
        regex: false,
        pattern: Seq::empty(),
        path: None,
        unknown: Seq::empty(),
    }
}

/// What is known after one more argument. A flag is noted. Any other
/// argument that begins with a hyphen is unknown. The first argument that is
/// neither, while the pattern is empty, is the pattern; the next is the path;
/// any further one is ignored.
pub open spec fn with_argument(so_far: Arguments, arg: Seq<char>) -> Arguments {
    if arg == "-h"@ || arg == "--help"@ {
        Arguments { help: true, ..so_far }
    } else if arg == "-r"@ || arg == "--recursive"@ {
        Arguments { recursive: true, ..so_far }
    } else if arg == "-i"@ || arg == "--ignore-case"@ {
        Arguments { ignore_case: true, ..so_far }
    } else if arg == "-x"@ || arg == "--regex"@ {
        Arguments { regex: true, ..so_far }
    } else if arg.len() > 0 && arg[0] == '-' {
        Arguments { unknown: so_far.unknown.push(arg), ..so_far }
    } else if so_far.pattern.len() == 0 {
        Arguments { pattern: arg, ..so_far }
    } else if so_far.path is None {
        Arguments { path: Some(arg), ..so_far }
    } else {
        so_far
    }
}

/// What the arguments say, read from first to last.
pub open spec fn parsed(args: Seq<Seq<char>>) -> Arguments {
    args.fold_left(no_arguments(), |so_far: Arguments, arg: Seq<char>| with_argument(so_far, arg))
}

/// What an invocation asks for.
#[derive(Debug, PartialEq, Eq)]
pub enum Command {
    /// The usage is to be shown.
    Help,
    /// A search is to be run.
    Search(SearchRequest),
}

/// What a command holds.
pub enum Plan {
    Help,
    Search(Request),
}

impl View for Command {
    type V = Plan;

    open spec fn view(&self) -> Plan {
        match self {
            Command::Help => Plan::Help,
            Command::Search(request) => Plan::Search(request@),
        }
    }
}

/// The path that is searched where none is given.
pub open spec fn default_path() -> Seq<char> {
    "."@
}

/// What is done for the given arguments. A request for regular expressions
/// is refused whatever else was given; then a request for help is served;
/// then a missing pattern is refused; what is left is a search.
pub open spec fn planned(arguments: Arguments) -> Result<Plan, UsageError> {
    if arguments.regex {
        Err(UsageError::RegexNotImplemented)
    } else if arguments.help {
        Ok(Plan::Help)
    } else if arguments.pattern.len() == 0 {
        Err(UsageError::MissingPattern)
    } else {
        Ok(
            Plan::Search(
                Request {
                    pattern: arguments.pattern,
                    root: match arguments.path {
                        Some(path) => path,
                        None => default_path(),
                    },
                    recursive: arguments.recursive,
                    case_insensitive: arguments.ignore_case,
                },
            ),
        )
    }
}

fn starts_with_hyphen(arg: &str) -> (hyphen: bool)
    ensures
        hyphen == (arg@.len() > 0 && arg@[0] == '-'),
{
    !arg.is_empty() && arg.get_char(0) == '-'
}

/// Sorts out the arguments of an invocation, the program's name left out.
/// Nothing is looked up and nothing is refused here.
pub fn parse_args(args: &Vec<String>) -> (invocation: Invocation)
    ensures
        invocation@ == parsed(texts(args@)),
{
    let mut invocation = Invocation {
        help: false,
        recursive: false,
        ignore_case: false,
        regex: false,
        pattern: String::new(),
        path: None,
        unknown: Vec::new(),
    };
    assert(invocation@.unknown =~= Seq::empty());
    let mut i: usize = 0;
    while i < args.len()
        invariant
            i <= args.len(),
            invocation@ == parsed(texts(args@).take(i as int)),
        decreases args.len() - i,
    {
        let ghost so_far = invocation@;
        let ghost given = texts(args@);
        assert(given.take(i + 1).drop_last() == given.take(i as int));
        assert(given.take(i + 1).last() == args@[i as int]@);
        let arg = args[i].as_str();
        if same_text(arg, "-h") || same_text(arg, "--help") {
            invocation.help = true;
        } else if same_text(arg, "-r") || same_text(arg, "--recursive") {
            invocation.recursive = true;
        } else if same_text(arg, "-i") || same_text(arg, "--ignore-case") {
            invocation.ignore_case = true;
        } else if same_text(arg, "-x") || same_text(arg, "--regex") {
            invocation.regex = true;
        } else if starts_with_hyphen(arg) {
            invocation.unknown.push(String::from_str(arg));
            assert(invocation@.unknown =~= so_far.unknown.push(arg@));
        } else if invocation.pattern.as_str().is_empty() {
            invocation.pattern = String::from_str(arg);
        } else if invocation.path.is_none() {
            invocation.path = Some(String::from_str(arg));
        }
        assert(invocation@ == with_argument(so_far, arg@));
        i += 1;
    }
    assert(texts(args@).take(i as int) == texts(args@));
    invocation
}

/// Decides what is done for an invocation.
pub fn plan(invocation: &Invocation) -> (command: Result<Command, UsageError>)
    ensures
        match command {
            Ok(c) => planned(invocation@) == Ok::<Plan, UsageError>(c@),
            Err(e) => planned(invocation@) == Err::<Plan, UsageError>(e),
        },
{
    if invocation.regex {
        Err(UsageError::RegexNotImplemented)
    } else if invocation.help {
        Ok(Command::Help)
    } else {
        let root = match &invocation.path {
            Some(path) => path.as_str(),
            None => ".",
        };
        match SearchRequest::new(
            invocation.pattern.as_str(),
            root,
            invocation.recursive,
            invocation.ignore_case,
        ) {
            Ok(request) => Ok(Command::Search(request)),
            Err(error) => Err(error),
        }
    }
}

/// The lines of the usage, as they are shown for a request for help.
pub open spec fn usage_lines() -> Seq<Seq<char>> {
    seq![
        "Usage: grop [PATTERN] [FILE] [PARAMS]"@,
        "Search for PATTERN in each FILE"@,
        "Example: grop \"Hello World\" src/main.rs -i"@,
        ""@,
        "-h, --help\t\t Show the help screen"@,
        "-r, --recursive\t\tRecursively search FILE as a directory"@,
        "-i, --ignore-case\t\tMatch pattern in any case"@,
        "-x, --regex\t\tInterpret pattern as a regular expression"@,
    ]
}

/// The line that reports a usage error.
pub open spec fn usage_error_message(error: UsageError) -> Seq<char> {
    match error {
        UsageError::MissingPattern => "Missing PATTERN"@,
        UsageError::RegexNotImplemented => "Regex not implemented yet"@,
    }
}

/// The line that reports an argument that looks like a flag and is none.
pub open spec fn unknown_argument_message(arg: Seq<char>) -> Seq<char> {
    "Unknown argument '"@ + arg + "'"@
}

/// Writes the usage.
pub fn usage() -> (lines: Vec<String>)
    ensures
        texts(lines@) == usage_lines(),
{
    let mut lines: Vec<String> = Vec::new();
    lines.push(String::from_str("Usage: grop [PATTERN] [FILE] [PARAMS]"));
    lines.push(String::from_str("Search for PATTERN in each FILE"));
    lines.push(String::from_str("Example: grop \"Hello World\" src/main.rs -i"));
    lines.push(String::from_str(""));
    lines.push(String::from_str("-h, --help\t\t Show the help screen"));
    lines.push(String::from_str("-r, --recursive\t\tRecursively search FILE as a directory"));
    lines.push(String::from_str("-i, --ignore-case\t\tMatch pattern in any case"));
    lines.push(String::from_str("-x, --regex\t\tInterpret pattern as a regular expression"));
    assert(texts(lines@) =~= usage_lines());
    lines
}

/// Writes the line that reports a usage error.
pub fn describe_usage_error(error: UsageError) -> (message: String)
    ensures
        message@ == usage_error_message(error),
{
    match error {
        UsageError::MissingPattern => String::from_str("Missing PATTERN"),
        UsageError::RegexNotImplemented => String::from_str("Regex not implemented yet"),
    }
}

/// Writes the line that reports an unknown argument.
pub fn describe_unknown_argument(arg: &str) -> (message: String)
    ensures
        message@ == unknown_argument_message(arg@),
{
    let mut message = String::from_str("Unknown argument '");
    message.append(arg);
    message.append("'");
    message
}

/// A request for regular expressions is refused whatever else the arguments
/// say.
pub proof fn lemma_regex_is_always_refused(arguments: Arguments)
    requires
        arguments.regex,
    ensures
        planned(arguments) == Err::<Plan, UsageError>(UsageError::RegexNotImplemented),
{
}

/// One of the two forms of a flag stands among the arguments.
pub open spec fn given(args: Seq<Seq<char>>, short: Seq<char>, long: Seq<char>) -> bool {
    exists|i: int| 0 <= i < args.len() && ((#[trigger] args[i]) == short || args[i] == long)
}

/// What one more argument does to the flags: it sets the flag that it
/// names and leaves the others as they are.
pub proof fn lemma_with_argument_flags(so_far: Arguments, arg: Seq<char>)
    ensures
        with_argument(so_far, arg).help == (so_far.help || arg == "-h"@ || arg == "--help"@),
        with_argument(so_far, arg).recursive == (so_far.recursive || arg == "-r"@ || arg
            == "--recursive"@),
        with_argument(so_far, arg).ignore_case == (so_far.ignore_case || arg == "-i"@ || arg
            == "--ignore-case"@),
        with_argument(so_far, arg).regex == (so_far.regex || arg == "-x"@ || arg == "--regex"@),
{
    reveal_strlit("-h");
    reveal_strlit("--help");
    reveal_strlit("-r");
    reveal_strlit("--recursive");
    reveal_strlit("-i");
    reveal_strlit("--ignore-case");
    reveal_strlit("-x");
    reveal_strlit("--regex");
    assert("-h"@[1] == 'h' && "-r"@[1] == 'r' && "-i"@[1] == 'i' && "-x"@[1] == 'x');
    assert("--help"@[2] == 'h' && "--recursive"@[3] == 'e' && "--ignore-case"@[2] == 'i'
        && "--regex"@[3] == 'e');
    assert("--recursive"@.len() == 11 && "--regex"@.len() == 7);
}

/// The flags do not depend on where they stand: a flag is set if and only
/// if one of its two forms stands somewhere among the arguments.
pub proof fn lemma_flags_do_not_depend_on_order(args: Seq<Seq<char>>)
    ensures
        parsed(args).help == given(args, "-h"@, "--help"@),
        parsed(args).recursive == given(args, "-r"@, "--recursive"@),
        parsed(args).ignore_case == given(args, "-i"@, "--ignore-case"@),
        parsed(args).regex == given(args, "-x"@, "--regex"@),
    decreases args.len(),
{
    if args.len() > 0 {
        let front = args.drop_last();
        let last = args.last();
        lemma_flags_do_not_depend_on_order(front);
        lemma_with_argument_flags(parsed(front), last);
        lemma_given_grows(args, "-h"@, "--help"@);
        lemma_given_grows(args, "-r"@, "--recursive"@);
        lemma_given_grows(args, "-i"@, "--ignore-case"@);
        lemma_given_grows(args, "-x"@, "--regex"@);
    }
}

proof fn lemma_given_grows(args: Seq<Seq<char>>, short: Seq<char>, long: Seq<char>)
    requires
        args.len() > 0,
    ensures
        given(args, short, long) == (given(args.drop_last(), short, long) || args.last() == short
            || args.last() == long),
{
    let front = args.drop_last();
    if given(front, short, long) {
        let i = choose|i: int| 0 <= i < front.len() && ((#[trigger] front[i]) == short || front[i] == long);
        assert(args[i] == front[i]);
    }
    if args.last() == short || args.last() == long {
        assert(args[args.len() - 1] == args.last());
    }
    if given(args, short, long) {
        let i = choose|i: int| 0 <= i < args.len() && ((#[trigger] args[i]) == short || args[i] == long);
        if i < front.len() {
            assert(front[i] == args[i]);
        }
    }
}

/// Where the regex flag stands among the arguments, whatever stands before
/// and behind it, nothing is searched and nothing but the refusal is planned.
pub proof fn lemma_regex_flag_anywhere(args: Seq<Seq<char>>, at: int)
    requires
        0 <= at < args.len(),
        args[at] == "-x"@ || args[at] == "--regex"@,
    ensures
        planned(parsed(args)) == Err::<Plan, UsageError>(UsageError::RegexNotImplemented),
{
    lemma_flags_do_not_depend_on_order(args);
    assert(given(args, "-x"@, "--regex"@));
}

/// Without a pattern no search is planned.
pub proof fn lemma_empty_pattern_is_never_searched(arguments: Arguments)
    requires
        arguments.pattern.len() == 0,
    ensures
        planned(arguments) is Err || planned(arguments) == Ok::<Plan, UsageError>(Plan::Help),
{
}

/// Every search that is planned has a pattern.
pub proof fn lemma_planned_search_has_pattern(arguments: Arguments)
    ensures
        planned(arguments) matches Ok(Plan::Search(request)) ==> request.pattern.len() > 0,
{
}

} // verus!
