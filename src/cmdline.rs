//! Command-line arguments: the configuration path, the log output and
//! whether to timestamp logs.
use vstd::prelude::*;

use vstd::string::{StrSliceExecFns, StringExecFns};

verus! {

pub const HELP_MESSAGE: &'static str = "neo8ball [-c|--config=] [-o|--log-output=] [-t|--timestamp] [-h|--help]

-c --config=str       The Config File to use.
-o --log-output=str   Log Output to file instead of stdout.
-t --timestamp        Timestamp logs using RFC 3339. (YYYY-MM-DD HH:MM:SS[+/-TZ]).
-h --help             This message.
";

/// What the next argument is read as.
#[derive(PartialEq, Eq, Structural, Clone, Copy, Debug)]
pub enum ParseState {
    Boolarg,
    Config,
    LogFile,
}

/// Why the arguments were refused; the text is meant for the user.
#[derive(Debug)]
pub struct ParsedArgsError(pub String);

#[derive(Debug)]
pub struct ParsedArgs {
    pub config: String,
    pub log_file: String,
    pub timestamp_logs: bool,
    pub mock: bool,
}

/// The settings that arguments give.
pub struct ArgsView {
    pub config: Seq<char>,
    pub log_file: Seq<char>,
    pub timestamp_logs: bool,
}

impl ParsedArgs {
    pub open spec fn view(&self) -> ArgsView {
        ArgsView {
            config: self.config@,
            log_file: self.log_file@,
            timestamp_logs: self.timestamp_logs,
        }
    }
}

pub open spec fn default_args() -> ArgsView {
    ArgsView { config: "./r8ball.conf"@, log_file: Seq::empty(), timestamp_logs: false }
}

impl Default for ParsedArgs {
    fn default() -> (r: Self)
        ensures
            r.view() == default_args(),
            !r.mock,
    {
        ParsedArgs {
            config: "./r8ball.conf".to_owned(),
            log_file: String::new(),
            timestamp_logs: false,
            mock: false,
        }
    }
}

/// The first index at or after `i` holding the character `c`, or the length.
pub open spec fn find_char(a: Seq<char>, i: int, c: char) -> int
    decreases a.len() - i,
{
    if i < 0 || i >= a.len() {
        a.len() as int
    } else if a[i] == c {
        i
    } else {
        find_char(a, i + 1, c)
    }
}

/// An argument split into the flag and its value: in front of a value it
/// is all flag; otherwise a flag ending in `=` carries what follows it.
pub open spec fn split_flag(a: Seq<char>, st: ParseState) -> (Seq<char>, Seq<char>) {
    let i = find_char(a, 0, '=');
    if st != ParseState::Boolarg || i >= a.len() {
        (a, Seq::empty())
    } else {
        (a.subrange(0, i + 1), a.subrange(i + 1, a.len() as int))
    }
}

pub open spec fn is_flag(f: Seq<char>, name: &str) -> bool {
    f == name@
}

/// One argument's effect on the settings and the state, or the error text.
pub open spec fn args_step(v: ArgsView, st: ParseState, a: Seq<char>) -> Result<
    (ArgsView, ParseState),
    Seq<char>,
> {
    let (flag, val) = split_flag(a, st);
    if is_flag(flag, "-t") || is_flag(flag, "--timestamp") {
        Ok((ArgsView { timestamp_logs: true, ..v }, ParseState::Boolarg))
    } else if is_flag(flag, "-c") || is_flag(flag, "--config") {
        Ok((v, ParseState::Config))
    } else if is_flag(flag, "--config=") {
        Ok((ArgsView { config: val, ..v }, ParseState::Boolarg))
    } else if is_flag(flag, "-o") || is_flag(flag, "--log-output") {
        Ok((v, ParseState::LogFile))
    } else if is_flag(flag, "--log-output=") {
        Ok((ArgsView { log_file: val, ..v }, ParseState::Boolarg))
    } else if is_flag(flag, "-h") || is_flag(flag, "--help") {
        Err(HELP_MESSAGE@)
    } else {
        match st {
            ParseState::Boolarg => Err("Unknown option passed ("@ + flag + "), see --help"@),
            ParseState::Config => Ok((ArgsView { config: flag, ..v }, ParseState::Boolarg)),
            ParseState::LogFile => Ok((ArgsView { log_file: flag, ..v }, ParseState::Boolarg)),
        }
    }
}

/// The settings and state after the arguments `args`, or the first error.
pub open spec fn args_fold(args: Seq<Seq<char>>) -> Result<(ArgsView, ParseState), Seq<char>>
    decreases args.len(),
{
    if args.len() == 0 {
        Ok((default_args(), ParseState::Boolarg))
    } else {
        match args_fold(args.drop_last()) {
            Ok((v, st)) => args_step(v, st, args.last()),
            Err(e) => Err(e),
        }
    }
}

pub open spec fn arg_chars(args: Seq<String>) -> Seq<Seq<char>> {
    args.map_values(|a: String| a@)
}

proof fn lemma_fold_after_error(args: Seq<Seq<char>>, k: int)
    requires
        0 <= k <= args.len(),
        args_fold(args.take(k)) is Err,
    ensures
        args_fold(args) == args_fold(args.take(k)),
    decreases args.len() - k,
{
    if k < args.len() {
        assert(args.take(k + 1).drop_last() =~= args.take(k));
        lemma_fold_after_error(args, k + 1);
    } else {
        assert(args.take(k) =~= args);
    }
}

/// The first `=` in `a`, or its length `n` in characters.
fn find_eq(a: &str, n: usize) -> (r: usize)
    requires
        n == a@.len(),
    ensures
        r == find_char(a@, 0, '='),
{
    let mut i: usize = 0;
    while i < n && a.get_char(i) != '='
        invariant
            i <= n,
            n == a@.len(),
            find_char(a@, 0, '=') == find_char(a@, i as int, '='),
        decreases n - i,
    {
        i = i + 1;
    }
    i
}

fn flag_is(flag: &str, name: &str) -> (r: bool)
    ensures
        r == is_flag(flag@, name),
{
    let n = flag.unicode_len();
    if n != name.unicode_len() {
        return false;
    }
    let mut i: usize = 0;
    while i < n
        invariant
            n == flag@.len(),
            n == name@.len(),
            i <= n,
            forall|j: int| 0 <= j < i ==> flag@[j] == name@[j],
        decreases n - i,
    {
        if flag.get_char(i) != name.get_char(i) {
            return false;
        }
        i = i + 1;
    }
    assert(flag@ =~= name@);
    true
}

impl ParsedArgs {
    /// Reads the arguments that follow the program name.
    pub fn from_args(args: &Vec<String>) -> (r: Result<ParsedArgs, ParsedArgsError>)
        ensures
            match r {
                Ok(p) => !p.mock && (args_fold(arg_chars(args@)) matches Ok((v, _)) && v == p.view()),
                Err(e) => args_fold(arg_chars(args@)) == Err::<(ArgsView, ParseState), Seq<char>>(
                    e.0@,
                ),
            },
    {
        let ghost all = arg_chars(args@);
        let mut ret = ParsedArgs::default();
        let mut arg_state = ParseState::Boolarg;
        let mut i: usize = 0;
        while i < args.len()
            invariant
                i <= args@.len(),
                all == arg_chars(args@),
                !ret.mock,
                args_fold(all.take(i as int)) == Ok::<(ArgsView, ParseState), Seq<char>>(
                    (ret.view(), arg_state),
                ),
            decreases args@.len() - i,
        {
            let arg: &str = args[i].as_str();
            assert(arg@ == all[i as int]);
            assert(all.take(i + 1).drop_last() =~= all.take(i as int));
            let n = arg.unicode_len();
            let eq = find_eq(arg, n);
            let (flag, val): (&str, &str) = if arg_state != ParseState::Boolarg || eq >= n {
                (arg, arg.substring_char(n, n))
            } else {
                (arg.substring_char(0, eq + 1), arg.substring_char(eq + 1, n))
            };
            assert(flag@ == split_flag(arg@, arg_state).0);
            assert(val@ == split_flag(arg@, arg_state).1);
            if flag_is(flag, "-t") || flag_is(flag, "--timestamp") {
                ret.timestamp_logs = true;
                arg_state = ParseState::Boolarg;
            } else if flag_is(flag, "-c") || flag_is(flag, "--config") {
                arg_state = ParseState::Config;
            } else if flag_is(flag, "--config=") {
                ret.config = val.to_owned();
                arg_state = ParseState::Boolarg;
            } else if flag_is(flag, "-o") || flag_is(flag, "--log-output") {
                arg_state = ParseState::LogFile;
            } else if flag_is(flag, "--log-output=") {
                ret.log_file = val.to_owned();
                arg_state = ParseState::Boolarg;
            } else if flag_is(flag, "-h") || flag_is(flag, "--help") {
                proof {
                    lemma_fold_after_error(all, i + 1);
                }
                return Err(ParsedArgsError(HELP_MESSAGE.to_owned()));
            } else {
                match arg_state {
                    ParseState::Boolarg => {
                        let mut msg = "Unknown option passed (".to_owned();
                        msg.append(flag);
                        msg.append("), see --help");
                        proof {
                            lemma_fold_after_error(all, i + 1);
                        }
                        return Err(ParsedArgsError(msg));
                    },
                    ParseState::Config => {
                        ret.config = flag.to_owned();
                        arg_state = ParseState::Boolarg;
                    },
                    ParseState::LogFile => {
                        ret.log_file = flag.to_owned();
                        arg_state = ParseState::Boolarg;
                    },
                }
            }
            i = i + 1;
        }
        assert(all.take(i as int) =~= all);
        Ok(ret)
    }
}

} // verus!
