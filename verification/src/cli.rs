//! The command line: its options, how a list of arguments is read into
//! them, and which combinations are allowed.

use vstd::prelude::*;

use crate::errors::Errors;
use crate::port::{fault_error, port_from_text, port_result, Port, PortFault};
use crate::text::{chars_equal, chars_of, string_from_chars, sub_chars};

verus! {

/// Reads the value of `--port`: a port text, as `Port::try_from` reads it
/// (the two have the same contract, so they give the same result).
pub fn parse_port(str: &str) -> (r: Result<Port, Errors>)
    ensures
        r == port_result(str@),
{
    Port::try_from(str)
}

/// How much the program reports.
#[derive(Clone, Copy, Debug, PartialEq, Eq, Structural)]
pub enum CliLogLevel {
    Off,
    Error,
    Warn,
    Info,
    Debug,
    Trace,
}

impl Default for CliLogLevel {
    fn default() -> (r: Self)
        ensures
            r == CliLogLevel::Info,
    {
        CliLogLevel::Info
    }
}

/// The options of the command line.
#[derive(Clone, Copy, Debug, PartialEq, Eq, Structural)]
pub enum CliOption {
    /// `-a`, `--all`
    All,
    /// `-p`, `--port <PORT>`
    Port,
    /// `-k`, `--kill`
    Kill,
    /// `-r`, `--restart`
    Restart,
    /// `-c`, `--attach`
    Attach,
    /// `-i`, `--ignore-unused`
    IgnoreUnused,
    /// `-l`, `--log-level <LOG_LEVEL>`
    LogLevel,
    /// `-h`, `--help`
    Help,
    /// `-V`, `--version`
    Version,
}

/// What the command line asks for.
#[derive(Debug)]
pub struct Args {
    /// Operate on every port currently in use, instead of a specific list.
    pub all: bool,
    /// Port(s) to operate on, e.g. "t8080" (TCP), "u53" (UDP), or a preset name like "ssh".
    pub port: Vec<Port>,
    /// Kill the process bound to the given port(s).
    pub kill: bool,
    /// Kill the process bound to the given port(s) and restart it with the same command, args, and working directory.
    pub restart: bool,
    /// When restarting, stay attached to the new process instead of detaching it (requires --restart, only one port).
    pub attach: bool,
    /// Don't error out when a given port has no process using it.
    pub ignore_unused: bool,
    /// Set the log level of this instance.
    pub log_level: Option<CliLogLevel>,
}

/// Why a command line is refused (or, for help and version, not run).
#[derive(Debug)]
pub enum ArgsError {
    /// `-h` or `--help` was given; it holds whether it was the long form.
    HelpRequested(bool),
    /// `-V` or `--version` was given.
    VersionRequested,
    /// An argument that is no option of this program.
    UnexpectedArgument(String),
    /// An option that needs a value got none.
    MissingValue(CliOption),
    /// An option that takes no value got one (`--all=x`).
    UnexpectedValue(CliOption, String),
    /// A value of `--port` that is no port.
    InvalidPort(String, Errors),
    /// A value of `--log-level` that is no level.
    InvalidLogLevel(String),
    /// An option that may be given once was given again.
    RepeatedArgument(CliOption),
    /// Two options that exclude each other were both given.
    Conflict(CliOption, CliOption),
    /// The first option was given without the second, which it needs.
    MissingRequirement(CliOption, CliOption),
    /// Neither `--all` nor `--port` was given.
    MissingTarget,
}

/// The meaning of a command line: the options it sets.
pub ghost struct ArgsModel {
    pub all: bool,
    pub ports: Seq<Port>,
    pub kill: bool,
    pub restart: bool,
    pub attach: bool,
    pub ignore_unused: bool,
    pub log_level: Option<CliLogLevel>,
}

/// Why a command line is refused, in terms of texts.
pub ghost enum ArgsFault {
    Help(bool),
    Version,
    UnexpectedArgument(Seq<char>),
    MissingValue(CliOption),
    UnexpectedValue(CliOption, Seq<char>),
    InvalidPort(Seq<char>, PortFault),
    InvalidLogLevel(Seq<char>),
    Repeated(CliOption),
    Conflict(CliOption, CliOption),
    MissingRequirement(CliOption, CliOption),
    MissingTarget,
}

/// The model of `Args`.
pub open spec fn args_model(a: Args) -> ArgsModel {
    ArgsModel {
        all: a.all,
        ports: a.port@,
        kill: a.kill,
        restart: a.restart,
        attach: a.attach,
        ignore_unused: a.ignore_unused,
        log_level: a.log_level,
    }
}

/// Whether an error reports a fault.
pub open spec fn args_error_matches(e: ArgsError, f: ArgsFault) -> bool {
    match (e, f) {
        (ArgsError::HelpRequested(a), ArgsFault::Help(b)) => a == b,
        (ArgsError::VersionRequested, ArgsFault::Version) => true,
        (ArgsError::UnexpectedArgument(s), ArgsFault::UnexpectedArgument(t)) => s@ == t,
        (ArgsError::MissingValue(o), ArgsFault::MissingValue(p)) => o == p,
        (ArgsError::UnexpectedValue(o, s), ArgsFault::UnexpectedValue(p, t)) => o == p && s@ == t,
        (ArgsError::InvalidPort(s, e), ArgsFault::InvalidPort(t, pf)) => s@ == t && e == fault_error(pf),
        (ArgsError::InvalidLogLevel(s), ArgsFault::InvalidLogLevel(t)) => s@ == t,
        (ArgsError::RepeatedArgument(o), ArgsFault::Repeated(p)) => o == p,
        (ArgsError::Conflict(o1, o2), ArgsFault::Conflict(p1, p2)) => o1 == p1 && o2 == p2,
        (ArgsError::MissingRequirement(o1, o2), ArgsFault::MissingRequirement(p1, p2)) => o1 == p1 && o2 == p2,
        (ArgsError::MissingTarget, ArgsFault::MissingTarget) => true,
        _ => false,
    }
}

/// The options before any argument is read.
pub open spec fn no_args() -> ArgsModel {
    ArgsModel {
        all: false,
        ports: Seq::empty(),
        kill: false,
        restart: false,
        attach: false,
        ignore_unused: false,
        log_level: None,
    }
}

/// The option with this long name (what follows `--`).
pub open spec fn long_option(name: Seq<char>) -> Option<CliOption> {
    if name == "all"@ {
        Some(CliOption::All)
    } else if name == "port"@ {
        Some(CliOption::Port)
    } else if name == "kill"@ {
        Some(CliOption::Kill)
    } else if name == "restart"@ {
        Some(CliOption::Restart)
    } else if name == "attach"@ {
        Some(CliOption::Attach)
    } else if name == "ignore-unused"@ {
        Some(CliOption::IgnoreUnused)
    } else if name == "log-level"@ {
        Some(CliOption::LogLevel)
    } else if name == "help"@ {
        Some(CliOption::Help)
    } else if name == "version"@ {
        Some(CliOption::Version)
    } else {
        None
    }
}

/// The option with this short name (the letter after `-`).
pub open spec fn short_option(c: char) -> Option<CliOption> {
    if c == 'a' {
        Some(CliOption::All)
    } else if c == 'p' {
        Some(CliOption::Port)
    } else if c == 'k' {
        Some(CliOption::Kill)
    } else if c == 'r' {
        Some(CliOption::Restart)
    } else if c == 'c' {
        Some(CliOption::Attach)
    } else if c == 'i' {
        Some(CliOption::IgnoreUnused)
    } else if c == 'l' {
        Some(CliOption::LogLevel)
    } else if c == 'h' {
        Some(CliOption::Help)
    } else if c == 'V' {
        Some(CliOption::Version)
    } else {
        None
    }
}

/// Whether the option takes a value.
pub open spec fn takes_value(o: CliOption) -> bool {
    o == CliOption::Port || o == CliOption::LogLevel
}

/// The log level with this name (names are lower case and matched exactly).
pub open spec fn level_from_name(v: Seq<char>) -> Option<CliLogLevel> {
    if v == "off"@ {
        Some(CliLogLevel::Off)
    } else if v == "error"@ {
        Some(CliLogLevel::Error)
    } else if v == "warn"@ {
        Some(CliLogLevel::Warn)
    } else if v == "info"@ {
        Some(CliLogLevel::Info)
    } else if v == "debug"@ {
        Some(CliLogLevel::Debug)
    } else if v == "trace"@ {
        Some(CliLogLevel::Trace)
    } else {
        None
    }
}

/// The options after an option that takes no value is given once more
/// (`long` tells whether by its long name). Help and version stop reading;
/// any other such option may be given once.
pub open spec fn with_flag(m: ArgsModel, o: CliOption, long: bool) -> Result<ArgsModel, ArgsFault> {
    match o {
        CliOption::Help => Err(ArgsFault::Help(long)),
        CliOption::Version => Err(ArgsFault::Version),
        CliOption::All => if m.all { Err(ArgsFault::Repeated(o)) } else { Ok(ArgsModel { all: true, ..m }) },
        CliOption::Kill => if m.kill { Err(ArgsFault::Repeated(o)) } else { Ok(ArgsModel { kill: true, ..m }) },
        CliOption::Restart => if m.restart { Err(ArgsFault::Repeated(o)) } else { Ok(ArgsModel { restart: true, ..m }) },
        CliOption::Attach => if m.attach { Err(ArgsFault::Repeated(o)) } else { Ok(ArgsModel { attach: true, ..m }) },
        CliOption::IgnoreUnused => if m.ignore_unused {
            Err(ArgsFault::Repeated(o))
        } else {
            Ok(ArgsModel { ignore_unused: true, ..m })
        },
        _ => Err(ArgsFault::MissingValue(o)),
    }
}

/// The options after an option that takes a value is given with value `v`:
/// each port value is added in turn; the log level may be given once.
pub open spec fn with_value(m: ArgsModel, o: CliOption, v: Seq<char>) -> Result<ArgsModel, ArgsFault> {
    match o {
        CliOption::Port => match port_from_text(v) {
            Ok(p) => Ok(ArgsModel { ports: m.ports.push(p), ..m }),
            Err(f) => Err(ArgsFault::InvalidPort(v, f)),
        },
        CliOption::LogLevel => if m.log_level is Some {
            Err(ArgsFault::Repeated(o))
        } else {
            match level_from_name(v) {
                Some(l) => Ok(ArgsModel { log_level: Some(l), ..m }),
                None => Err(ArgsFault::InvalidLogLevel(v)),
            }
        },
        _ => with_flag(m, o, false),
    }
}

/// The index of the first `=` in `s` at or after `from`, or the length of `s`
/// when there is none.
pub open spec fn index_of_eq(s: Seq<char>, from: int) -> int
    decreases s.len() - from,
{
    if from >= s.len() {
        s.len() as int
    } else if s[from] == '=' {
        from
    } else {
        index_of_eq(s, from + 1)
    }
}

/// An option that was given and is not settled yet: a value-taking option,
/// with the value of the next argument once it came.
pub type Pending = Option<(CliOption, Option<Seq<char>>)>;

/// Settling the pending option: with no value it is an error, with a value
/// it takes the value.
pub open spec fn settle(m: ArgsModel, pending: Pending) -> Result<ArgsModel, ArgsFault> {
    match pending {
        None => Ok(m),
        Some((o, None)) => Err(ArgsFault::MissingValue(o)),
        Some((o, Some(v))) => with_value(m, o, v),
    }
}

/// A recognized option that takes no value: the pending option is settled
/// first.
pub open spec fn give_flag_after(m: ArgsModel, pending: Pending, o: CliOption, long: bool) -> Result<(ArgsModel, Pending), ArgsFault> {
    match settle(m, pending) {
        Err(f) => Err(f),
        Ok(m1) => match with_flag(m1, o, long) {
            Ok(m2) => Ok((m2, None)),
            Err(f) => Err(f),
        },
    }
}

/// A recognized value-taking option, with a value attached to it or not:
/// the pending option is settled first; without a value the option becomes
/// the pending one.
pub open spec fn give_value_after(m: ArgsModel, pending: Pending, o: CliOption, attached: Option<Seq<char>>) -> Result<(ArgsModel, Pending), ArgsFault> {
    match settle(m, pending) {
        Err(f) => Err(f),
        Ok(m1) => match attached {
            Some(v) => match with_value(m1, o, v) {
                Ok(m2) => Ok((m2, None)),
                Err(f) => Err(f),
            },
            None => Ok((m1, Some((o, None)))),
        },
    }
}

/// One long option `--name` or `--name=value` (the argument `tok`, which
/// starts with `--` and is longer than that).
pub open spec fn long_step(tok: Seq<char>, m: ArgsModel, pending: Pending) -> Result<(ArgsModel, Pending), ArgsFault> {
    let e = index_of_eq(tok, 2);
    let name = tok.subrange(2, e);
    let attached = if e < tok.len() { Some(tok.subrange(e + 1, tok.len() as int)) } else { None };
    match long_option(name) {
        None => Err(ArgsFault::UnexpectedArgument(tok.subrange(0, e))),
        Some(o) => if takes_value(o) {
            give_value_after(m, pending, o, attached)
        } else {
            match attached {
                Some(v) => Err(ArgsFault::UnexpectedValue(o, v)),
                None => give_flag_after(m, pending, o, true),
            }
        },
    }
}

/// The short options of `tok` from index `j` on: letters of options without
/// value, until a letter of an option with value, which takes the rest of the
/// argument (less one leading `=`), or, when nothing is left, becomes the
/// pending option.
pub open spec fn short_steps(tok: Seq<char>, j: int, m: ArgsModel, pending: Pending) -> Result<(ArgsModel, Pending), ArgsFault>
    decreases tok.len() - j,
{
    if j >= tok.len() || j < 0 {
        Ok((m, pending))
    } else {
        match short_option(tok[j]) {
            None => Err(ArgsFault::UnexpectedArgument(seq!['-', tok[j]])),
            Some(o) => if takes_value(o) {
                let rest = tok.subrange(j + 1, tok.len() as int);
                let attached = if rest.len() == 0 {
                    None
                } else if rest[0] == '=' {
                    Some(rest.drop_first())
                } else {
                    Some(rest)
                };
                give_value_after(m, pending, o, attached)
            } else {
                match give_flag_after(m, pending, o, false) {
                    Ok((m2, p2)) => short_steps(tok, j + 1, m2, p2),
                    Err(f) => Err(f),
                }
            },
        }
    }
}

/// Reading the arguments of `t` from position `i` on, with options `m` so
/// far, the option `pending` not yet settled, and `ended` set after `--`.
/// After `--` every argument is refused. An argument that starts with `--`
/// is a long option, one that starts with `-` a group of short options; any
/// other argument is the value of a pending option that has none yet, and is
/// refused otherwise. An argument that names no option is refused at once,
/// whatever is pending; the pending option is settled when the next option
/// is recognized, or at the end.
pub open spec fn read_args(t: Seq<Seq<char>>, i: int, m: ArgsModel, pending: Pending, ended: bool) -> Result<ArgsModel, ArgsFault>
    decreases t.len() - i,
{
    if i >= t.len() || i < 0 {
        settle(m, pending)
    } else {
        let tok = t[i];
        if ended {
            Err(ArgsFault::UnexpectedArgument(tok))
        } else if tok.len() == 2 && tok[0] == '-' && tok[1] == '-' {
            read_args(t, i + 1, m, pending, true)
        } else if tok.len() > 2 && tok[0] == '-' && tok[1] == '-' {
            match long_step(tok, m, pending) {
                Ok((m2, p2)) => read_args(t, i + 1, m2, p2, false),
                Err(f) => Err(f),
            }
        } else if tok.len() >= 2 && tok[0] == '-' {
            match short_steps(tok, 1, m, pending) {
                Ok((m2, p2)) => read_args(t, i + 1, m2, p2, false),
                Err(f) => Err(f),
            }
        } else {
            match pending {
                Some((o, None)) => read_args(t, i + 1, m, Some((o, Some(tok))), false),
                _ => Err(ArgsFault::UnexpectedArgument(tok)),
            }
        }
    }
}

/// The rules on combinations: `--all` and `--port` exclude each other, as
/// do `--kill` and `--restart`, and `--attach` and `--kill`; `--attach`
/// needs `--restart`; one of `--all` and `--port` must be given.
pub open spec fn check_combination(m: ArgsModel) -> Result<ArgsModel, ArgsFault> {
    if m.all && m.ports.len() > 0 {
        Err(ArgsFault::Conflict(CliOption::All, CliOption::Port))
    } else if m.kill && m.restart {
        Err(ArgsFault::Conflict(CliOption::Kill, CliOption::Restart))
    } else if m.attach && m.kill {
        Err(ArgsFault::Conflict(CliOption::Attach, CliOption::Kill))
    } else if m.attach && !m.restart {
        Err(ArgsFault::MissingRequirement(CliOption::Attach, CliOption::Restart))
    } else if !m.all && m.ports.len() == 0 {
        Err(ArgsFault::MissingTarget)
    } else {
        Ok(m)
    }
}

/// The meaning of a whole command line; its first argument is the
/// program's name and is not read.
pub open spec fn command_line(t: Seq<Seq<char>>) -> Result<ArgsModel, ArgsFault> {
    match read_args(t, 1, no_args(), None, false) {
        Ok(m) => check_combination(m),
        Err(f) => Err(f),
    }
}

/// Whether the options obey the rules on combinations.
pub open spec fn combination_allowed(m: ArgsModel) -> bool {
    &&& m.all != (m.ports.len() > 0)
    &&& !(m.kill && m.restart)
    &&& m.attach ==> m.restart && !m.kill
}

/// The texts of the arguments.
pub open spec fn arg_texts(args: Seq<&str>) -> Seq<Seq<char>> {
    args.map_values(|a: &str| a@)
}

/// Whether a result of reading the command line is what `command_line` says.
pub open spec fn args_result_matches(r: Result<Args, ArgsError>, t: Seq<Seq<char>>) -> bool {
    match command_line(t) {
        Ok(m) => r matches Ok(a) && args_model(a) == m,
        Err(f) => r matches Err(e) && args_error_matches(e, f),
    }
}

/// The texts of optional character vectors.
pub open spec fn opt_chars(v: Option<Vec<char>>) -> Option<Seq<char>> {
    match v {
        Some(c) => Some(c@),
        None => None,
    }
}

fn long_option_of(name: &[char]) -> (r: Option<CliOption>)
    ensures
        r == long_option(name@),
{
    if chars_equal(name, "all") {
        Some(CliOption::All)
    } else if chars_equal(name, "port") {
        Some(CliOption::Port)
    } else if chars_equal(name, "kill") {
        Some(CliOption::Kill)
    } else if chars_equal(name, "restart") {
        Some(CliOption::Restart)
    } else if chars_equal(name, "attach") {
        Some(CliOption::Attach)
    } else if chars_equal(name, "ignore-unused") {
        Some(CliOption::IgnoreUnused)
    } else if chars_equal(name, "log-level") {
        Some(CliOption::LogLevel)
    } else if chars_equal(name, "help") {
        Some(CliOption::Help)
    } else if chars_equal(name, "version") {
        Some(CliOption::Version)
    } else {
        None
    }
}

fn short_option_of(c: char) -> (r: Option<CliOption>)
    ensures
        r == short_option(c),
{
    if c == 'a' {
        Some(CliOption::All)
    } else if c == 'p' {
        Some(CliOption::Port)
    } else if c == 'k' {
        Some(CliOption::Kill)
    } else if c == 'r' {
        Some(CliOption::Restart)
    } else if c == 'c' {
        Some(CliOption::Attach)
    } else if c == 'i' {
        Some(CliOption::IgnoreUnused)
    } else if c == 'l' {
        Some(CliOption::LogLevel)
    } else if c == 'h' {
        Some(CliOption::Help)
    } else if c == 'V' {
        Some(CliOption::Version)
    } else {
        None
    }
}

fn level_of(v: &[char]) -> (r: Option<CliLogLevel>)
    ensures
        r == level_from_name(v@),
{
    if chars_equal(v, "off") {
        Some(CliLogLevel::Off)
    } else if chars_equal(v, "error") {
        Some(CliLogLevel::Error)
    } else if chars_equal(v, "warn") {
        Some(CliLogLevel::Warn)
    } else if chars_equal(v, "info") {
        Some(CliLogLevel::Info)
    } else if chars_equal(v, "debug") {
        Some(CliLogLevel::Debug)
    } else if chars_equal(v, "trace") {
        Some(CliLogLevel::Trace)
    } else {
        None
    }
}

fn takes_value_exec(o: CliOption) -> (r: bool)
    ensures
        r == takes_value(o),
{
    match o {
        CliOption::Port | CliOption::LogLevel => true,
        _ => false,
    }
}

/// Whether an update of the options, or its error, is what `expected` says.
pub open spec fn update_matches(r: Result<(), ArgsError>, after: Args, expected: Result<ArgsModel, ArgsFault>) -> bool {
    match expected {
        Ok(m) => r is Ok && args_model(after) == m,
        Err(f) => r matches Err(e) && args_error_matches(e, f),
    }
}

/// The pending option as the model sees it.
pub open spec fn pending_view(p: Option<(CliOption, Option<Vec<char>>)>) -> Pending {
    match p {
        None => None,
        Some((o, v)) => Some((o, opt_chars(v))),
    }
}

/// Whether a step's outcome (the new pending option), or its error, is what
/// `expected` says.
pub open spec fn step_matches(r: Result<Option<(CliOption, Option<Vec<char>>)>, ArgsError>, after: Args, expected: Result<(ArgsModel, Pending), ArgsFault>) -> bool {
    match expected {
        Ok((m, p)) => r matches Ok(q) && pending_view(q) == p && args_model(after) == m,
        Err(f) => r matches Err(e) && args_error_matches(e, f),
    }
}

impl Args {
    fn none_given() -> (a: Args)
        ensures
            args_model(a) == no_args(),
    {
        Args {
            all: false,
            port: Vec::new(),
            kill: false,
            restart: false,
            attach: false,
            ignore_unused: false,
            log_level: None,
        }
    }

    fn give_flag(&mut self, o: CliOption, long: bool) -> (r: Result<(), ArgsError>)
        ensures
            update_matches(r, *final(self), with_flag(args_model(*old(self)), o, long)),
    {
        match o {
            CliOption::Help => Err(ArgsError::HelpRequested(long)),
            CliOption::Version => Err(ArgsError::VersionRequested),
            CliOption::All => if self.all {
                Err(ArgsError::RepeatedArgument(o))
            } else {
                self.all = true;
                Ok(())
            },
            CliOption::Kill => if self.kill {
                Err(ArgsError::RepeatedArgument(o))
            } else {
                self.kill = true;
                Ok(())
            },
            CliOption::Restart => if self.restart {
                Err(ArgsError::RepeatedArgument(o))
            } else {
                self.restart = true;
                Ok(())
            },
            CliOption::Attach => if self.attach {
                Err(ArgsError::RepeatedArgument(o))
            } else {
                self.attach = true;
                Ok(())
            },
            CliOption::IgnoreUnused => if self.ignore_unused {
                Err(ArgsError::RepeatedArgument(o))
            } else {
                self.ignore_unused = true;
                Ok(())
            },
            _ => Err(ArgsError::MissingValue(o)),
        }
    }

    fn give_value(&mut self, o: CliOption, v: &[char]) -> (r: Result<(), ArgsError>)
        ensures
            update_matches(r, *final(self), with_value(args_model(*old(self)), o, v@)),
    {
        match o {
            CliOption::Port => {
                let text = string_from_chars(v);
                match parse_port(text.as_str()) {
                    Ok(p) => {
                        self.port.push(p);
                        Ok(())
                    },
                    Err(e) => Err(ArgsError::InvalidPort(text, e)),
                }
            },
            CliOption::LogLevel => {
                if self.log_level.is_some() {
                    Err(ArgsError::RepeatedArgument(o))
                } else {
                    match level_of(v) {
                        Some(l) => {
                            self.log_level = Some(l);
                            Ok(())
                        },
                        None => Err(ArgsError::InvalidLogLevel(string_from_chars(v))),
                    }
                }
            },
            _ => self.give_flag(o, false),
        }
    }
}

fn eq_index(s: &[char], from: usize) -> (r: usize)
    requires
        from <= s@.len(),
    ensures
        r == index_of_eq(s@, from as int),
        from <= r <= s@.len(),
{
    let mut k: usize = from;
    while k < s.len() && s[k] != '='
        invariant
            from <= k <= s@.len(),
            index_of_eq(s@, from as int) == index_of_eq(s@, k as int),
        decreases s@.len() - k,
    {
        k = k + 1;
    }
    k
}

fn settle_exec(args: &mut Args, pending: Option<(CliOption, Option<Vec<char>>)>) -> (r: Result<(), ArgsError>)
    ensures
        update_matches(r, *final(args), settle(args_model(*old(args)), pending_view(pending))),
{
    match pending {
        None => Ok(()),
        Some((o, None)) => Err(ArgsError::MissingValue(o)),
        Some((o, Some(v))) => args.give_value(o, v.as_slice()),
    }
}

fn flag_after(args: &mut Args, pending: Option<(CliOption, Option<Vec<char>>)>, o: CliOption, long: bool) -> (r: Result<Option<(CliOption, Option<Vec<char>>)>, ArgsError>)
    ensures
        step_matches(r, *final(args), give_flag_after(args_model(*old(args)), pending_view(pending), o, long)),
{
    match settle_exec(args, pending) {
        Err(e) => Err(e),
        Ok(()) => match args.give_flag(o, long) {
            Ok(()) => Ok(None),
            Err(e) => Err(e),
        },
    }
}

fn value_after(args: &mut Args, pending: Option<(CliOption, Option<Vec<char>>)>, o: CliOption, attached: Option<Vec<char>>) -> (r: Result<Option<(CliOption, Option<Vec<char>>)>, ArgsError>)
    ensures
        step_matches(r, *final(args), give_value_after(args_model(*old(args)), pending_view(pending), o, opt_chars(attached))),
{
    match settle_exec(args, pending) {
        Err(e) => Err(e),
        Ok(()) => match attached {
            Some(v) => match args.give_value(o, v.as_slice()) {
                Ok(()) => Ok(None),
                Err(e) => Err(e),
            },
            None => Ok(Some((o, None))),
        },
    }
}

fn long_step_exec(args: &mut Args, tok: &Vec<char>, pending: Option<(CliOption, Option<Vec<char>>)>) -> (r: Result<Option<(CliOption, Option<Vec<char>>)>, ArgsError>)
    requires
        tok@.len() > 2,
    ensures
        step_matches(r, *final(args), long_step(tok@, args_model(*old(args)), pending_view(pending))),
{
    let e = eq_index(tok.as_slice(), 2);
    let name = sub_chars(tok.as_slice(), 2, e);
    match long_option_of(name.as_slice()) {
        None => {
            let shown = sub_chars(tok.as_slice(), 0, e);
            Err(ArgsError::UnexpectedArgument(string_from_chars(shown.as_slice())))
        },
        Some(o) => {
            let attached = if e < tok.len() {
                Some(sub_chars(tok.as_slice(), e + 1, tok.len()))
            } else {
                None
            };
            if takes_value_exec(o) {
                value_after(args, pending, o, attached)
            } else {
                match attached {
                    Some(v) => Err(ArgsError::UnexpectedValue(o, string_from_chars(v.as_slice()))),
                    None => flag_after(args, pending, o, true),
                }
            }
        },
    }
}

fn short_steps_exec(args: &mut Args, tok: &Vec<char>, pending: Option<(CliOption, Option<Vec<char>>)>) -> (r: Result<Option<(CliOption, Option<Vec<char>>)>, ArgsError>)
    requires
        tok@.len() >= 1,
    ensures
        step_matches(r, *final(args), short_steps(tok@, 1, args_model(*old(args)), pending_view(pending))),
{
    let ghost start = args_model(*args);
    let ghost start_pending = pending_view(pending);
    let mut pend = pending;
    let mut j: usize = 1;
    while j < tok.len()
        invariant
            1 <= j <= tok@.len(),
            start == args_model(*old(args)),
            start_pending == pending_view(pending),
            short_steps(tok@, 1, start, start_pending) == short_steps(tok@, j as int, args_model(*args), pending_view(pend)),
        decreases tok@.len() - j,
    {
        let c = tok[j];
        match short_option_of(c) {
            None => {
                let mut shown: Vec<char> = Vec::new();
                shown.push('-');
                shown.push(c);
                proof {
                    assert(shown@ =~= seq!['-', c]);
                }
                return Err(ArgsError::UnexpectedArgument(string_from_chars(shown.as_slice())));
            },
            Some(o) => {
                if takes_value_exec(o) {
                    let ghost rest = tok@.subrange(j + 1, tok@.len() as int);
                    let attached = if j + 1 < tok.len() {
                        if tok[j + 1] == '=' {
                            let v = sub_chars(tok.as_slice(), j + 2, tok.len());
                            proof {
                                assert(v@ =~= rest.drop_first());
                            }
                            Some(v)
                        } else {
                            let v = sub_chars(tok.as_slice(), j + 1, tok.len());
                            Some(v)
                        }
                    } else {
                        None
                    };
                    return value_after(args, pend, o, attached);
                } else {
                    match flag_after(args, pend, o, false) {
                        Ok(p) => {
                            pend = p;
                        },
                        Err(err) => {
                            return Err(err);
                        },
                    }
                }
            },
        }
        j = j + 1;
    }
    Ok(pend)
}

fn check_combination_exec(a: Args) -> (r: Result<Args, ArgsError>)
    ensures
        match check_combination(args_model(a)) {
            Ok(m) => r matches Ok(b) && args_model(b) == m,
            Err(f) => r matches Err(e) && args_error_matches(e, f),
        },
{
    if a.all && a.port.len() > 0 {
        Err(ArgsError::Conflict(CliOption::All, CliOption::Port))
    } else if a.kill && a.restart {
        Err(ArgsError::Conflict(CliOption::Kill, CliOption::Restart))
    } else if a.attach && a.kill {
        Err(ArgsError::Conflict(CliOption::Attach, CliOption::Kill))
    } else if a.attach && !a.restart {
        Err(ArgsError::MissingRequirement(CliOption::Attach, CliOption::Restart))
    } else if !a.all && a.port.len() == 0 {
        Err(ArgsError::MissingTarget)
    } else {
        Ok(a)
    }
}

impl Args {
    /// Reads a command line whose first argument is the program's name, as
    /// `command_line` says. Options are `-a`/`--all`, `-p`/`--port <PORT>`
    /// (any number of times), `-k`/`--kill`, `-r`/`--restart`,
    /// `-c`/`--attach`, `-i`/`--ignore-unused`, `-l`/`--log-level <LEVEL>`,
    /// `-h`/`--help` and `-V`/`--version`. What is accepted obeys the rules
    /// on combinations.
    pub fn try_parse_from(args: &[&str]) -> (r: Result<Args, ArgsError>)
        ensures
            args_result_matches(r, arg_texts(args@)),
            r matches Ok(a) ==> combination_allowed(args_model(a)),
    {
        let ghost t = arg_texts(args@);
        let mut a = Args::none_given();
        let mut pending: Option<(CliOption, Option<Vec<char>>)> = None;
        let mut ended = false;
        let mut i: usize = 1;
        while i < args.len()
            invariant
                t == arg_texts(args@),
                1 <= i,
                read_args(t, 1, no_args(), None, false) == read_args(t, i as int, args_model(a), pending_view(pending), ended),
            decreases args@.len() - i,
        {
            let tok = chars_of(args[i]);
            proof {
                assert(tok@ == t[i as int]);
            }
            if ended {
                return Err(ArgsError::UnexpectedArgument(String::from_str(args[i])));
            } else if tok.len() == 2 && tok[0] == '-' && tok[1] == '-' {
                ended = true;
            } else if tok.len() > 2 && tok[0] == '-' && tok[1] == '-' {
                match long_step_exec(&mut a, &tok, pending) {
                    Ok(p) => {
                        pending = p;
                    },
                    Err(e) => {
                        return Err(e);
                    },
                }
            } else if tok.len() >= 2 && tok[0] == '-' {
                match short_steps_exec(&mut a, &tok, pending) {
                    Ok(p) => {
                        pending = p;
                    },
                    Err(e) => {
                        return Err(e);
                    },
                }
            } else {
                match pending {
                    Some((o, None)) => {
                        pending = Some((o, Some(tok)));
                    },
                    _ => {
                        return Err(ArgsError::UnexpectedArgument(String::from_str(args[i])));
                    },
                }
            }
            i = i + 1;
        }
        match settle_exec(&mut a, pending) {
            Ok(()) => check_combination_exec(a),
            Err(e) => Err(e),
        }
    }
}


/// The same token sequence from position `i` on gives the same reading from
/// any state.
proof fn lemma_read_args_suffix(t: Seq<Seq<char>>, u: Seq<Seq<char>>, i: int, m: ArgsModel, pending: Pending, ended: bool)
    requires
        t.len() == u.len(),
        0 <= i,
        forall|k: int| i <= k < t.len() ==> #[trigger] t[k] == u[k],
    ensures
        read_args(t, i, m, pending, ended) == read_args(u, i, m, pending, ended),
    decreases t.len() - i,
{
    if i < t.len() {
        assert(t[i] == u[i]);
        let tok = t[i];
        if !ended {
            if tok.len() == 2 && tok[0] == '-' && tok[1] == '-' {
                lemma_read_args_suffix(t, u, i + 1, m, pending, true);
            } else if tok.len() > 2 && tok[0] == '-' && tok[1] == '-' {
                if let Ok((m2, p2)) = long_step(tok, m, pending) {
                    lemma_read_args_suffix(t, u, i + 1, m2, p2, false);
                }
            } else if tok.len() >= 2 && tok[0] == '-' {
                if let Ok((m2, p2)) = short_steps(tok, 1, m, pending) {
                    lemma_read_args_suffix(t, u, i + 1, m2, p2, false);
                }
            } else {
                if let Some((o, None)) = pending {
                    lemma_read_args_suffix(t, u, i + 1, m, Some((o, Some(tok))), false);
                }
            }
        }
    }
}

/// Whether `c` is the letter of an option that takes no value and is
/// neither help nor version.
pub open spec fn is_plain_flag(c: char) -> bool {
    short_option(c) matches Some(o) && !takes_value(o) && o != CliOption::Help && o != CliOption::Version
}

/// The sequence `t` with the arguments at `i` and `i + 1` swapped.
pub open spec fn swap_args(t: Seq<Seq<char>>, i: int) -> Seq<Seq<char>> {
    t.update(i, t[i + 1]).update(i + 1, t[i])
}

/// Where the reading from `i` succeeds, two plain flag arguments at `i` and
/// `i + 1` may change places.
proof fn lemma_swap_flags_from(t: Seq<Seq<char>>, i: int, j: int, a: char, b: char, m: ArgsModel, pending: Pending, ended: bool)
    requires
        1 <= j <= i,
        i + 1 < t.len(),
        t[i] == seq!['-', a],
        t[i + 1] == seq!['-', b],
        is_plain_flag(a),
        is_plain_flag(b),
        read_args(t, j, m, pending, ended) is Ok,
    ensures
        read_args(swap_args(t, i), j, m, pending, ended) == read_args(t, j, m, pending, ended),
    decreases i - j,
{
    let u = swap_args(t, i);
    assert(u.len() == t.len());
    if j < i {
        assert(u[j] == t[j]);
        let tok = t[j];
        if !ended {
            if tok.len() == 2 && tok[0] == '-' && tok[1] == '-' {
                lemma_swap_flags_from(t, i, j + 1, a, b, m, pending, true);
            } else if tok.len() > 2 && tok[0] == '-' && tok[1] == '-' {
                if let Ok((m2, p2)) = long_step(tok, m, pending) {
                    lemma_swap_flags_from(t, i, j + 1, a, b, m2, p2, false);
                }
            } else if tok.len() >= 2 && tok[0] == '-' {
                if let Ok((m2, p2)) = short_steps(tok, 1, m, pending) {
                    lemma_swap_flags_from(t, i, j + 1, a, b, m2, p2, false);
                }
            } else {
                if let Some((o, None)) = pending {
                    lemma_swap_flags_from(t, i, j + 1, a, b, m, Some((o, Some(tok))), false);
                }
            }
        }
    } else {
        assert(u[i] == seq!['-', b]);
        assert(u[i + 1] == seq!['-', a]);
        let oa = short_option(a)->0;
        let ob = short_option(b)->0;
        let ta = seq!['-', a];
        let tb = seq!['-', b];
        assert(ta[0] == '-' && ta[1] == a && ta.len() == 2);
        assert(tb[0] == '-' && tb[1] == b && tb.len() == 2);
        assert(!ended);
        let m1 = settle(m, pending)->Ok_0;
        let ma = with_flag(m1, oa, false)->Ok_0;
        assert(short_steps(ta, 1, m, pending) == short_steps(ta, 2, ma, None));
        let mab = with_flag(ma, ob, false)->Ok_0;
        assert(short_steps(tb, 1, ma, None) == short_steps(tb, 2, mab, None));
        let mb = with_flag(m1, ob, false)->Ok_0;
        assert(with_flag(m1, ob, false) is Ok);
        assert(with_flag(mb, oa, false) == Ok::<ArgsModel, ArgsFault>(mab));
        assert(short_steps(tb, 1, m, pending) == short_steps(tb, 2, mb, None));
        assert(short_steps(ta, 1, mb, None) == short_steps(ta, 2, mab, None));
        assert forall|k: int| i + 2 <= k < t.len() implies #[trigger] t[k] == u[k] by {}
        lemma_read_args_suffix(t, u, i + 2, mab, None, false);
        assert(read_args(t, i + 1, ma, None, false) == read_args(t, i + 2, mab, None, false));
        assert(read_args(t, i, m, pending, false) == read_args(t, i + 1, ma, None, false));
        assert(read_args(u, i + 1, mb, None, false) == read_args(u, i + 2, mab, None, false));
        assert(read_args(u, i, m, pending, false) == read_args(u, i + 1, mb, None, false));
    }
}

/// The order of two plain flags given one after the other (such as `-a -k`)
/// does not change what an accepted command line means.
pub proof fn lemma_flag_order_does_not_matter(t: Seq<Seq<char>>, i: int, a: char, b: char)
    requires
        1 <= i,
        i + 1 < t.len(),
        t[i] == seq!['-', a],
        t[i + 1] == seq!['-', b],
        is_plain_flag(a),
        is_plain_flag(b),
        command_line(t) is Ok,
    ensures
        command_line(swap_args(t, i)) == command_line(t),
{
    lemma_swap_flags_from(t, i, 1, a, b, no_args(), None, false);
}


/// The rules on combinations refuse only what they name: a command line is
/// accepted with options `m` exactly when its arguments read as `m` and `m`
/// gives one of `--all` and `--port`, not both `--kill` and `--restart`, and
/// `--attach` only together with `--restart` and without `--kill`.
pub proof fn lemma_combination_refuses_only_its_rules(t: Seq<Seq<char>>, m: ArgsModel)
    ensures
        command_line(t) == Ok::<ArgsModel, ArgsFault>(m) <==> {
            &&& read_args(t, 1, no_args(), None, false) == Ok::<ArgsModel, ArgsFault>(m)
            &&& m.all != (m.ports.len() > 0)
            &&& !(m.kill && m.restart)
            &&& (m.attach ==> m.restart && !m.kill)
        },
{
}

/// Whether `o` is an option that takes no value and is neither help nor
/// version.
pub open spec fn is_plain_option(o: CliOption) -> bool {
    o == CliOption::All || o == CliOption::Kill || o == CliOption::Restart || o == CliOption::Attach
        || o == CliOption::IgnoreUnused
}

/// Whether the options have the plain option `o` set.
pub open spec fn option_set(m: ArgsModel, o: CliOption) -> bool {
    match o {
        CliOption::All => m.all,
        CliOption::Kill => m.kill,
        CliOption::Restart => m.restart,
        CliOption::Attach => m.attach,
        CliOption::IgnoreUnused => m.ignore_unused,
        _ => false,
    }
}

/// Every plain option set in `m` is set in `m2`.
pub open spec fn options_kept(m: ArgsModel, m2: ArgsModel) -> bool {
    &&& m.all ==> m2.all
    &&& m.kill ==> m2.kill
    &&& m.restart ==> m2.restart
    &&& m.attach ==> m2.attach
    &&& m.ignore_unused ==> m2.ignore_unused
}

proof fn lemma_kept_transitive(a: ArgsModel, b: ArgsModel, c: ArgsModel)
    requires
        options_kept(a, b),
        options_kept(b, c),
    ensures
        options_kept(a, c),
{
}

proof fn lemma_with_flag_keeps(m: ArgsModel, o: CliOption, long: bool)
    ensures
        with_flag(m, o, long) matches Ok(m2) ==> options_kept(m, m2) && (is_plain_option(o) ==> option_set(m2, o)),
        is_plain_option(o) ==> with_flag(m, o, long) == with_flag(m, o, !long),
{
}

proof fn lemma_settle_keeps(m: ArgsModel, pending: Pending)
    ensures
        settle(m, pending) matches Ok(m2) ==> options_kept(m, m2),
{
    if let Some((o, Some(v))) = pending {
        lemma_with_flag_keeps(m, o, false);
    }
}

proof fn lemma_flag_after_keeps(m: ArgsModel, pending: Pending, o: CliOption, long: bool)
    ensures
        give_flag_after(m, pending, o, long) matches Ok((m2, p2)) ==> options_kept(m, m2) && p2 is None
            && (is_plain_option(o) ==> option_set(m2, o)),
{
    lemma_settle_keeps(m, pending);
    if let Ok(m1) = settle(m, pending) {
        lemma_with_flag_keeps(m1, o, long);
        if let Ok(m2) = with_flag(m1, o, long) {
            lemma_kept_transitive(m, m1, m2);
        }
    }
}

proof fn lemma_value_after_keeps(m: ArgsModel, pending: Pending, o: CliOption, attached: Option<Seq<char>>)
    ensures
        give_value_after(m, pending, o, attached) matches Ok((m2, p2)) ==> options_kept(m, m2),
{
    lemma_settle_keeps(m, pending);
    if let Ok(m1) = settle(m, pending) {
        if let Some(v) = attached {
            lemma_with_flag_keeps(m1, o, false);
            if let Ok(m2) = with_value(m1, o, v) {
                lemma_kept_transitive(m, m1, m2);
            }
        }
    }
}

proof fn lemma_long_step_keeps(tok: Seq<char>, m: ArgsModel, pending: Pending)
    ensures
        long_step(tok, m, pending) matches Ok((m2, p2)) ==> options_kept(m, m2),
{
    let e = index_of_eq(tok, 2);
    let attached = if e < tok.len() { Some(tok.subrange(e + 1, tok.len() as int)) } else { None };
    if let Some(o) = long_option(tok.subrange(2, e)) {
        lemma_value_after_keeps(m, pending, o, attached);
        lemma_flag_after_keeps(m, pending, o, true);
    }
}

proof fn lemma_short_steps_keeps(tok: Seq<char>, j: int, m: ArgsModel, pending: Pending)
    ensures
        short_steps(tok, j, m, pending) matches Ok((m2, p2)) ==> options_kept(m, m2),
    decreases tok.len() - j,
{
    if 0 <= j < tok.len() {
        if let Some(o) = short_option(tok[j]) {
            let rest = tok.subrange(j + 1, tok.len() as int);
            let attached = if rest.len() == 0 {
                None
            } else if rest[0] == '=' {
                Some(rest.drop_first())
            } else {
                Some(rest)
            };
            lemma_value_after_keeps(m, pending, o, attached);
            lemma_flag_after_keeps(m, pending, o, false);
            if let Ok((m1, p1)) = give_flag_after(m, pending, o, false) {
                lemma_short_steps_keeps(tok, j + 1, m1, p1);
                if let Ok((m2, p2)) = short_steps(tok, j + 1, m1, p1) {
                    lemma_kept_transitive(m, m1, m2);
                }
            }
        }
    }
}

proof fn lemma_read_args_keeps(t: Seq<Seq<char>>, i: int, m: ArgsModel, pending: Pending, ended: bool)
    ensures
        read_args(t, i, m, pending, ended) matches Ok(m2) ==> options_kept(m, m2),
    decreases t.len() - i,
{
    if i >= t.len() || i < 0 {
        lemma_settle_keeps(m, pending);
    } else {
        let tok = t[i];
        if !ended {
            if tok.len() == 2 && tok[0] == '-' && tok[1] == '-' {
                lemma_read_args_keeps(t, i + 1, m, pending, true);
            } else if tok.len() > 2 && tok[0] == '-' && tok[1] == '-' {
                lemma_long_step_keeps(tok, m, pending);
                if let Ok((m2, p2)) = long_step(tok, m, pending) {
                    lemma_read_args_keeps(t, i + 1, m2, p2, false);
                    if let Ok(m3) = read_args(t, i + 1, m2, p2, false) {
                        lemma_kept_transitive(m, m2, m3);
                    }
                }
            } else if tok.len() >= 2 && tok[0] == '-' {
                lemma_short_steps_keeps(tok, 1, m, pending);
                if let Ok((m2, p2)) = short_steps(tok, 1, m, pending) {
                    lemma_read_args_keeps(t, i + 1, m2, p2, false);
                    if let Ok(m3) = read_args(t, i + 1, m2, p2, false) {
                        lemma_kept_transitive(m, m2, m3);
                    }
                }
            } else {
                if let Some((o, None)) = pending {
                    lemma_read_args_keeps(t, i + 1, m, Some((o, Some(tok))), false);
                }
            }
        }
    }
}

/// With no `=` in `s` from `from` on, the search for one ends at the end.
proof fn lemma_index_of_eq_none(s: Seq<char>, from: int)
    requires
        0 <= from <= s.len(),
        forall|k: int| from <= k < s.len() ==> s[k] != '=',
    ensures
        index_of_eq(s, from) == s.len(),
    decreases s.len() - from,
{
    if from < s.len() {
        lemma_index_of_eq_none(s, from + 1);
    }
}

/// The long names of the plain options hold no `=`.
proof fn lemma_plain_long_names(name: Seq<char>)
    requires
        long_option(name) matches Some(o) && is_plain_option(o),
    ensures
        name.len() > 0,
        forall|k: int| 0 <= k < name.len() ==> name[k] != '=',
{
    reveal_strlit("all");
    reveal_strlit("port");
    reveal_strlit("kill");
    reveal_strlit("restart");
    reveal_strlit("attach");
    reveal_strlit("ignore-unused");
    reveal_strlit("log-level");
    reveal_strlit("help");
    reveal_strlit("version");
}

/// Whether the argument `tok` gives the option `o`: by its long name
/// (`--restart`), or by its letter in a group of letters of options that
/// take no value (`-r`, `-kr`, `-ir`).
pub open spec fn gives_option(tok: Seq<char>, o: CliOption) -> bool {
    ||| (tok.len() > 2 && tok[0] == '-' && tok[1] == '-' && long_option(tok.subrange(2, tok.len() as int)) == Some(o))
    ||| (tok.len() >= 2 && tok[0] == '-' && exists|j: int|
        1 <= j < tok.len() && short_option(#[trigger] tok[j]) == Some(o) && forall|k: int|
            1 <= k <= j ==> is_plain_flag(#[trigger] tok[k]))
}

/// Reading a group of plain letters from `k` up to and including `j`, whose
/// letter gives `o`, sets `o`.
proof fn lemma_short_group_sets(tok: Seq<char>, k: int, j: int, o: CliOption, m: ArgsModel, pending: Pending)
    requires
        1 <= k <= j < tok.len(),
        short_option(tok[j]) == Some(o),
        forall|q: int| k <= q <= j ==> is_plain_flag(#[trigger] tok[q]),
        short_steps(tok, k, m, pending) is Ok,
    ensures
        option_set(short_steps(tok, k, m, pending)->Ok_0.0, o),
    decreases j - k,
{
    assert(is_plain_flag(tok[k]));
    let ok = short_option(tok[k])->0;
    lemma_flag_after_keeps(m, pending, ok, false);
    let (m1, p1) = give_flag_after(m, pending, ok, false)->Ok_0;
    if k < j {
        lemma_short_group_sets(tok, k + 1, j, o, m1, p1);
    } else {
        lemma_short_steps_keeps(tok, k + 1, m1, p1);
    }
}

/// Reading from `j` on, an argument at `i` that gives the plain option `o`
/// leaves `o` set in every reading that succeeds.
proof fn lemma_given_option_set_from(t: Seq<Seq<char>>, i: int, j: int, o: CliOption, m: ArgsModel, pending: Pending, ended: bool)
    requires
        0 <= j <= i < t.len(),
        gives_option(t[i], o),
        is_plain_option(o),
        read_args(t, j, m, pending, ended) is Ok,
    ensures
        option_set(read_args(t, j, m, pending, ended)->Ok_0, o),
    decreases i - j,
{
    let tok = t[j];
    if j < i {
        if !ended {
            if tok.len() == 2 && tok[0] == '-' && tok[1] == '-' {
                lemma_given_option_set_from(t, i, j + 1, o, m, pending, true);
            } else if tok.len() > 2 && tok[0] == '-' && tok[1] == '-' {
                let (m2, p2) = long_step(tok, m, pending)->Ok_0;
                lemma_given_option_set_from(t, i, j + 1, o, m2, p2, false);
            } else if tok.len() >= 2 && tok[0] == '-' {
                let (m2, p2) = short_steps(tok, 1, m, pending)->Ok_0;
                lemma_given_option_set_from(t, i, j + 1, o, m2, p2, false);
            } else {
                let (po, _) = pending->0;
                lemma_given_option_set_from(t, i, j + 1, o, m, Some((po, Some(tok))), false);
            }
        }
    } else {
        assert(!ended);
        if tok.len() > 2 && tok[0] == '-' && tok[1] == '-' && long_option(tok.subrange(2, tok.len() as int)) == Some(o) {
            let name = tok.subrange(2, tok.len() as int);
            lemma_plain_long_names(name);
            assert forall|k: int| 2 <= k < tok.len() implies tok[k] != '=' by {
                assert(tok[k] == name[k - 2]);
            }
            lemma_index_of_eq_none(tok, 2);
            lemma_flag_after_keeps(m, pending, o, true);
            let (m2, p2) = long_step(tok, m, pending)->Ok_0;
            lemma_read_args_keeps(t, i + 1, m2, p2, false);
        } else {
            let g = choose|g: int|
                1 <= g < tok.len() && short_option(#[trigger] tok[g]) == Some(o) && forall|k: int|
                    1 <= k <= g ==> is_plain_flag(#[trigger] tok[k]);
            assert(is_plain_flag(tok[1]));
            assert(tok[1] != '-');
            lemma_short_group_sets(tok, 1, g, o, m, pending);
            let (m2, p2) = short_steps(tok, 1, m, pending)->Ok_0;
            lemma_read_args_keeps(t, i + 1, m2, p2, false);
        }
    }
}

/// An option without value that an accepted command line gives, by its
/// long name or by its letter, alone or in a group, is set: `--restart`
/// and `-r` both ask for a restart.
pub proof fn lemma_given_option_is_set(t: Seq<Seq<char>>, i: int, o: CliOption)
    requires
        1 <= i < t.len(),
        gives_option(t[i], o),
        is_plain_option(o),
        command_line(t) is Ok,
    ensures
        option_set(command_line(t)->Ok_0, o),
{
    lemma_given_option_set_from(t, i, 1, o, no_args(), None, false);
}

/// Reading from `j` on, the argument `-c` at `i` and the long name of the
/// same option in its place read alike: to the same result, or both refused.
proof fn lemma_long_short_from(t: Seq<Seq<char>>, u: Seq<Seq<char>>, i: int, j: int, c: char, name: Seq<char>, m: ArgsModel, pending: Pending, ended: bool)
    requires
        0 <= j <= i < t.len(),
        u == t.update(i, seq!['-', '-'] + name),
        t[i] == seq!['-', c],
        is_plain_flag(c),
        long_option(name) == short_option(c),
    ensures
        read_args(u, j, m, pending, ended) == read_args(t, j, m, pending, ended) || (read_args(u, j, m, pending, ended) is Err
            && read_args(t, j, m, pending, ended) is Err),
    decreases i - j,
{
    let tok = t[j];
    if j < i {
        assert(u[j] == tok);
        if !ended {
            if tok.len() == 2 && tok[0] == '-' && tok[1] == '-' {
                lemma_long_short_from(t, u, i, j + 1, c, name, m, pending, true);
            } else if tok.len() > 2 && tok[0] == '-' && tok[1] == '-' {
                if let Ok((m2, p2)) = long_step(tok, m, pending) {
                    lemma_long_short_from(t, u, i, j + 1, c, name, m2, p2, false);
                }
            } else if tok.len() >= 2 && tok[0] == '-' {
                if let Ok((m2, p2)) = short_steps(tok, 1, m, pending) {
                    lemma_long_short_from(t, u, i, j + 1, c, name, m2, p2, false);
                }
            } else {
                if let Some((po, None)) = pending {
                    lemma_long_short_from(t, u, i, j + 1, c, name, m, Some((po, Some(tok))), false);
                }
            }
        }
    } else if !ended {
        let o = short_option(c)->0;
        let l = seq!['-', '-'] + name;
        assert(u[i] == l);
        assert(tok[0] == '-' && tok[1] == c && tok.len() == 2);
        assert(c != '-');
        lemma_plain_long_names(name);
        assert(l.subrange(2, l.len() as int) =~= name);
        assert forall|k: int| 2 <= k < l.len() implies l[k] != '=' by {
            assert(l[k] == name[k - 2]);
        }
        lemma_index_of_eq_none(l, 2);
        lemma_with_flag_keeps(m, o, true);
        if let Ok(m1) = settle(m, pending) {
            lemma_with_flag_keeps(m1, o, true);
        }
        assert(give_flag_after(m, pending, o, true) == give_flag_after(m, pending, o, false));
        assert(long_step(l, m, pending) == give_flag_after(m, pending, o, false));
        if let Ok((m2, p2)) = give_flag_after(m, pending, o, false) {
            assert(short_steps(tok, 1, m, pending) == short_steps(tok, 2, m2, p2));
            assert forall|k: int| i + 1 <= k < t.len() implies #[trigger] t[k] == u[k] by {}
            lemma_read_args_suffix(t, u, i + 1, m2, p2, false);
        }
    }
}

/// An option without value means the same by its letter and by its long
/// name: putting `--restart` in place of an argument `-r` (and likewise
/// for `--all`, `--kill`, `--attach` and `--ignore-unused`) leaves whether
/// the command line is accepted, and what it means, unchanged.
pub proof fn lemma_long_and_short_forms_agree(t: Seq<Seq<char>>, i: int, c: char, name: Seq<char>)
    requires
        1 <= i < t.len(),
        t[i] == seq!['-', c],
        is_plain_flag(c),
        long_option(name) == short_option(c),
    ensures
        command_line(t.update(i, seq!['-', '-'] + name)) is Ok <==> command_line(t) is Ok,
        command_line(t) is Ok ==> command_line(t.update(i, seq!['-', '-'] + name)) == command_line(t),
{
    lemma_long_short_from(t, t.update(i, seq!['-', '-'] + name), i, 1, c, name, no_args(), None, false);
}

/// Whether the pending option, if any, is one that takes a value.
pub open spec fn pending_takes_value(p: Pending) -> bool {
    p matches Some((o, _)) ==> takes_value(o)
}

/// The plain options of `m` and `m2` agree.
pub open spec fn options_same(m: ArgsModel, m2: ArgsModel) -> bool {
    &&& m.all == m2.all
    &&& m.kill == m2.kill
    &&& m.restart == m2.restart
    &&& m.attach == m2.attach
    &&& m.ignore_unused == m2.ignore_unused
}

proof fn lemma_index_of_eq_bounds(s: Seq<char>, from: int)
    requires
        0 <= from <= s.len(),
    ensures
        from <= index_of_eq(s, from) <= s.len(),
    decreases s.len() - from,
{
    if from < s.len() {
        lemma_index_of_eq_bounds(s, from + 1);
    }
}

proof fn lemma_value_after_same(m: ArgsModel, pending: Pending, o: CliOption, attached: Option<Seq<char>>)
    requires
        pending_takes_value(pending),
        takes_value(o),
    ensures
        give_value_after(m, pending, o, attached) matches Ok((m2, p2)) ==> options_same(m, m2) && pending_takes_value(p2),
{
}

proof fn lemma_flag_after_only(m: ArgsModel, pending: Pending, o2: CliOption, long: bool, o: CliOption)
    requires
        pending_takes_value(pending),
    ensures
        give_flag_after(m, pending, o2, long) matches Ok((m2, p2)) ==> p2 is None && is_plain_option(o2)
            && (option_set(m2, o) && !option_set(m, o) ==> o2 == o),
{
}

proof fn lemma_long_step_gives(tok: Seq<char>, m: ArgsModel, pending: Pending, o: CliOption)
    requires
        tok.len() > 2,
        tok[0] == '-',
        tok[1] == '-',
        pending_takes_value(pending),
    ensures
        long_step(tok, m, pending) matches Ok((m2, p2)) ==> pending_takes_value(p2) && (option_set(m2, o) && !option_set(m, o)
            ==> gives_option(tok, o)),
{
    let e = index_of_eq(tok, 2);
    lemma_index_of_eq_bounds(tok, 2);
    let attached = if e < tok.len() { Some(tok.subrange(e + 1, tok.len() as int)) } else { None };
    if let Some(o2) = long_option(tok.subrange(2, e)) {
        if takes_value(o2) {
            lemma_value_after_same(m, pending, o2, attached);
        } else {
            lemma_flag_after_only(m, pending, o2, true, o);
        }
    }
}

proof fn lemma_short_steps_give(tok: Seq<char>, k: int, m: ArgsModel, pending: Pending, o: CliOption)
    requires
        1 <= k,
        pending_takes_value(pending),
        forall|q: int| 1 <= q < k && q < tok.len() ==> is_plain_flag(#[trigger] tok[q]),
    ensures
        short_steps(tok, k, m, pending) matches Ok((m2, p2)) ==> pending_takes_value(p2) && (option_set(m2, o)
            && !option_set(m, o) ==> exists|j: int|
            k <= j < tok.len() && short_option(#[trigger] tok[j]) == Some(o) && forall|q: int|
                1 <= q <= j ==> is_plain_flag(#[trigger] tok[q])),
    decreases tok.len() - k,
{
    if k < tok.len() {
        if let Some(o2) = short_option(tok[k]) {
            if takes_value(o2) {
                let rest = tok.subrange(k + 1, tok.len() as int);
                let attached = if rest.len() == 0 {
                    None
                } else if rest[0] == '=' {
                    Some(rest.drop_first())
                } else {
                    Some(rest)
                };
                lemma_value_after_same(m, pending, o2, attached);
            } else {
                lemma_flag_after_only(m, pending, o2, false, o);
                if let Ok((m1, p1)) = give_flag_after(m, pending, o2, false) {
                    assert(is_plain_flag(tok[k]));
                    lemma_short_steps_give(tok, k + 1, m1, p1, o);
                    if let Ok((m2, p2)) = short_steps(tok, k + 1, m1, p1) {
                        if option_set(m2, o) && !option_set(m, o) {
                            if option_set(m1, o) {
                                assert(short_option(tok[k]) == Some(o));
                                assert(forall|q: int| 1 <= q <= k ==> is_plain_flag(#[trigger] tok[q]));
                            } else {
                                let j = choose|j: int|
                                    k + 1 <= j < tok.len() && short_option(#[trigger] tok[j]) == Some(o) && forall|q: int|
                                        1 <= q <= j ==> is_plain_flag(#[trigger] tok[q]);
                                assert(k <= j);
                            }
                        }
                    }
                }
            }
        }
    }
}

proof fn lemma_read_args_gives(t: Seq<Seq<char>>, j: int, m: ArgsModel, pending: Pending, ended: bool, o: CliOption)
    requires
        0 <= j,
        pending_takes_value(pending),
        read_args(t, j, m, pending, ended) is Ok,
        option_set(read_args(t, j, m, pending, ended)->Ok_0, o),
        !option_set(m, o),
    ensures
        exists|i: int| j <= i < t.len() && gives_option(#[trigger] t[i], o),
    decreases t.len() - j,
{
    if j >= t.len() {
    } else {
        let tok = t[j];
        if tok.len() == 2 && tok[0] == '-' && tok[1] == '-' {
            lemma_read_args_gives(t, j + 1, m, pending, true, o);
        } else if tok.len() > 2 && tok[0] == '-' && tok[1] == '-' {
            lemma_long_step_gives(tok, m, pending, o);
            let (m2, p2) = long_step(tok, m, pending)->Ok_0;
            if !option_set(m2, o) {
                lemma_read_args_gives(t, j + 1, m2, p2, false, o);
            } else {
                assert(gives_option(t[j], o));
            }
        } else if tok.len() >= 2 && tok[0] == '-' {
            lemma_short_steps_give(tok, 1, m, pending, o);
            let (m2, p2) = short_steps(tok, 1, m, pending)->Ok_0;
            if !option_set(m2, o) {
                lemma_read_args_gives(t, j + 1, m2, p2, false, o);
            } else {
                assert(gives_option(t[j], o));
            }
        } else {
            let (po, _) = pending->0;
            lemma_read_args_gives(t, j + 1, m, Some((po, Some(tok))), false, o);
        }
    }
}

/// An accepted command line sets an option without value exactly when one
/// of its arguments gives it, by its long name or by its letter: no option
/// is set by another one, and none is lost.
pub proof fn lemma_option_set_iff_given(t: Seq<Seq<char>>, o: CliOption)
    requires
        is_plain_option(o),
        command_line(t) is Ok,
    ensures
        option_set(command_line(t)->Ok_0, o) <==> exists|i: int| 1 <= i < t.len() && gives_option(#[trigger] t[i], o),
{
    if option_set(command_line(t)->Ok_0, o) {
        lemma_read_args_gives(t, 1, no_args(), None, false, o);
    }
    if exists|i: int| 1 <= i < t.len() && gives_option(#[trigger] t[i], o) {
        let i = choose|i: int| 1 <= i < t.len() && gives_option(#[trigger] t[i], o);
        lemma_given_option_is_set(t, i, o);
    }
}

/// The options `m` with the port `p` put before its ports.
pub open spec fn with_port_first(m: ArgsModel, p: Port) -> ArgsModel {
    ArgsModel { ports: seq![p] + m.ports, ..m }
}

/// A reading's result with `p` put before its ports.
pub open spec fn port_first_in(r: Result<ArgsModel, ArgsFault>, p: Port) -> Result<ArgsModel, ArgsFault> {
    match r {
        Ok(m) => Ok(with_port_first(m, p)),
        Err(f) => Err(f),
    }
}

/// A step's result with `p` put before its ports.
pub open spec fn port_first_in_step(r: Result<(ArgsModel, Pending), ArgsFault>, p: Port) -> Result<(ArgsModel, Pending), ArgsFault> {
    match r {
        Ok((m, q)) => Ok((with_port_first(m, p), q)),
        Err(f) => Err(f),
    }
}

proof fn lemma_settle_port_first(m: ArgsModel, pending: Pending, p: Port)
    ensures
        settle(with_port_first(m, p), pending) == port_first_in(settle(m, pending), p),
{
    if let Some((o, Some(v))) = pending {
        if let Ok(q) = port_from_text(v) {
            assert(seq![p] + m.ports.push(q) =~= (seq![p] + m.ports).push(q));
        }
    }
}

proof fn lemma_flag_after_port_first(m: ArgsModel, pending: Pending, o: CliOption, long: bool, p: Port)
    ensures
        give_flag_after(with_port_first(m, p), pending, o, long) == port_first_in_step(give_flag_after(m, pending, o, long), p),
{
    lemma_settle_port_first(m, pending, p);
}

proof fn lemma_value_after_port_first(m: ArgsModel, pending: Pending, o: CliOption, attached: Option<Seq<char>>, p: Port)
    ensures
        give_value_after(with_port_first(m, p), pending, o, attached) == port_first_in_step(give_value_after(m, pending, o, attached), p),
{
    lemma_settle_port_first(m, pending, p);
    if let Ok(m1) = settle(m, pending) {
        if let Some(v) = attached {
            lemma_settle_port_first(m1, Some((o, Some(v))), p);
        }
    }
}

proof fn lemma_long_step_port_first(tok: Seq<char>, m: ArgsModel, pending: Pending, p: Port)
    ensures
        long_step(tok, with_port_first(m, p), pending) == port_first_in_step(long_step(tok, m, pending), p),
{
    let e = index_of_eq(tok, 2);
    let attached = if e < tok.len() { Some(tok.subrange(e + 1, tok.len() as int)) } else { None };
    if let Some(o) = long_option(tok.subrange(2, e)) {
        lemma_value_after_port_first(m, pending, o, attached, p);
        lemma_flag_after_port_first(m, pending, o, true, p);
    }
}

proof fn lemma_short_steps_port_first(tok: Seq<char>, j: int, m: ArgsModel, pending: Pending, p: Port)
    ensures
        short_steps(tok, j, with_port_first(m, p), pending) == port_first_in_step(short_steps(tok, j, m, pending), p),
    decreases tok.len() - j,
{
    if 0 <= j < tok.len() {
        if let Some(o) = short_option(tok[j]) {
            let rest = tok.subrange(j + 1, tok.len() as int);
            let attached = if rest.len() == 0 {
                None
            } else if rest[0] == '=' {
                Some(rest.drop_first())
            } else {
                Some(rest)
            };
            lemma_value_after_port_first(m, pending, o, attached, p);
            lemma_flag_after_port_first(m, pending, o, false, p);
            if let Ok((m1, p1)) = give_flag_after(m, pending, o, false) {
                lemma_short_steps_port_first(tok, j + 1, m1, p1, p);
            }
        }
    }
}

proof fn lemma_read_args_port_first(t: Seq<Seq<char>>, i: int, m: ArgsModel, pending: Pending, ended: bool, p: Port)
    ensures
        read_args(t, i, with_port_first(m, p), pending, ended) == port_first_in(read_args(t, i, m, pending, ended), p),
    decreases t.len() - i,
{
    if i >= t.len() || i < 0 {
        lemma_settle_port_first(m, pending, p);
    } else {
        let tok = t[i];
        if !ended {
            if tok.len() == 2 && tok[0] == '-' && tok[1] == '-' {
                lemma_read_args_port_first(t, i + 1, m, pending, true, p);
            } else if tok.len() > 2 && tok[0] == '-' && tok[1] == '-' {
                lemma_long_step_port_first(tok, m, pending, p);
                if let Ok((m2, p2)) = long_step(tok, m, pending) {
                    lemma_read_args_port_first(t, i + 1, m2, p2, false, p);
                }
            } else if tok.len() >= 2 && tok[0] == '-' {
                lemma_short_steps_port_first(tok, 1, m, pending, p);
                if let Ok((m2, p2)) = short_steps(tok, 1, m, pending) {
                    lemma_read_args_port_first(t, i + 1, m2, p2, false, p);
                }
            } else {
                if let Some((o, None)) = pending {
                    lemma_read_args_port_first(t, i + 1, m, Some((o, Some(tok))), false, p);
                }
            }
        }
    }
}

/// A pending option that settles is settled by the next recognized option:
/// a long option reads the same as with the pending option settled first.
proof fn lemma_long_step_settles_first(tok: Seq<char>, m: ArgsModel, pending: Pending)
    requires
        settle(m, pending) is Ok,
    ensures
        long_step(tok, m, pending) == long_step(tok, settle(m, pending)->Ok_0, None),
{
}

/// A group of short options reads the same as with the pending option
/// settled first.
proof fn lemma_short_steps_settle_first(tok: Seq<char>, m: ArgsModel, pending: Pending)
    requires
        tok.len() >= 2,
        settle(m, pending) is Ok,
    ensures
        short_steps(tok, 1, m, pending) == short_steps(tok, 1, settle(m, pending)->Ok_0, None),
{
    let m1 = settle(m, pending)->Ok_0;
    if let Some(o) = short_option(tok[1]) {
        assert(give_flag_after(m, pending, o, false) == give_flag_after(m1, None, o, false));
    }
}

/// Reading `u` from `j + 2` is reading `t` from `j` where `u` is `t` moved
/// two places on.
proof fn lemma_read_args_moved(t: Seq<Seq<char>>, u: Seq<Seq<char>>, j: int, m: ArgsModel, pending: Pending, ended: bool)
    requires
        0 <= j,
        u.len() == t.len() + 2,
        forall|k: int| j <= k < t.len() ==> #[trigger] u[k + 2] == t[k],
    ensures
        read_args(u, j + 2, m, pending, ended) == read_args(t, j, m, pending, ended),
    decreases t.len() - j,
{
    if j < t.len() {
        assert(u[j + 2] == t[j]);
        let tok = t[j];
        if !ended {
            if tok.len() == 2 && tok[0] == '-' && tok[1] == '-' {
                lemma_read_args_moved(t, u, j + 1, m, pending, true);
            } else if tok.len() > 2 && tok[0] == '-' && tok[1] == '-' {
                if let Ok((m2, p2)) = long_step(tok, m, pending) {
                    lemma_read_args_moved(t, u, j + 1, m2, p2, false);
                }
            } else if tok.len() >= 2 && tok[0] == '-' {
                if let Ok((m2, p2)) = short_steps(tok, 1, m, pending) {
                    lemma_read_args_moved(t, u, j + 1, m2, p2, false);
                }
            } else {
                if let Some((o, None)) = pending {
                    lemma_read_args_moved(t, u, j + 1, m, Some((o, Some(tok))), false);
                }
            }
        }
    }
}

/// With the value `s` of a `-p` pending and no port yet, reading on gives
/// what reading without it gives, with the port of `s` first.
proof fn lemma_pending_port_first(t: Seq<Seq<char>>, u: Seq<Seq<char>>, j: int, m: ArgsModel, ended: bool, s: Seq<char>, p: Port)
    requires
        1 <= j,
        u.len() == t.len() + 2,
        forall|k: int| 1 <= k < t.len() ==> #[trigger] u[k + 2] == t[k],
        port_from_text(s) == Ok::<Port, PortFault>(p),
        m.ports.len() == 0,
    ensures
        read_args(u, j + 2, m, Some((CliOption::Port, Some(s))), ended) == port_first_in(read_args(t, j, m, None, ended), p),
    decreases t.len() - j,
{
    let pd: Pending = Some((CliOption::Port, Some(s)));
    let mp = with_port_first(m, p);
    assert(settle(m, pd) == Ok::<ArgsModel, ArgsFault>(mp)) by {
        assert(m.ports.push(p) =~= seq![p] + m.ports);
    }
    if j >= t.len() {
    } else {
        assert(u[j + 2] == t[j]);
        let tok = t[j];
        if !ended {
            if tok.len() == 2 && tok[0] == '-' && tok[1] == '-' {
                lemma_pending_port_first(t, u, j + 1, m, true, s, p);
            } else if tok.len() > 2 && tok[0] == '-' && tok[1] == '-' {
                lemma_long_step_settles_first(tok, m, pd);
                lemma_long_step_port_first(tok, m, None, p);
                if let Ok((m2, p2)) = long_step(tok, m, None) {
                    lemma_read_args_moved(t, u, j + 1, with_port_first(m2, p), p2, false);
                    lemma_read_args_port_first(t, j + 1, m2, p2, false, p);
                }
            } else if tok.len() >= 2 && tok[0] == '-' {
                lemma_short_steps_settle_first(tok, m, pd);
                lemma_short_steps_port_first(tok, 1, m, None, p);
                if let Ok((m2, p2)) = short_steps(tok, 1, m, None) {
                    lemma_read_args_moved(t, u, j + 1, with_port_first(m2, p), p2, false);
                    lemma_read_args_port_first(t, j + 1, m2, p2, false, p);
                }
            }
        }
    }
}

/// Giving `-p s` before the other arguments of a command line, where `s`
/// is a port text (that does not start with `-`), puts its port first among
/// the ports read and changes nothing else: the ports are kept, all of them,
/// in the order given. So a command line that is accepted without `--all`
/// is accepted with `-p s` in front, with that port first.
pub proof fn lemma_port_given_first(t: Seq<Seq<char>>, s: Seq<char>, p: Port)
    requires
        t.len() >= 1,
        port_from_text(s) == Ok::<Port, PortFault>(p),
        s[0] != '-',
    ensures
        read_args(seq![t[0], seq!['-', 'p'], s] + t.subrange(1, t.len() as int), 1, no_args(), None, false)
            == port_first_in(read_args(t, 1, no_args(), None, false), p),
        command_line(t) matches Ok(m) ==> (!m.all ==> command_line(seq![t[0], seq!['-', 'p'], s] + t.subrange(1, t.len() as int))
            == Ok::<ArgsModel, ArgsFault>(with_port_first(m, p))),
{
    let u = seq![t[0], seq!['-', 'p'], s] + t.subrange(1, t.len() as int);
    let dp = seq!['-', 'p'];
    assert(u[1] == dp);
    assert(u[2] == s);
    assert(s.len() > 0);
    assert(dp[0] == '-' && dp[1] == 'p' && dp.len() == 2);
    assert(short_steps(dp, 1, no_args(), None) == Ok::<(ArgsModel, Pending), ArgsFault>((no_args(), Some((CliOption::Port, None))))) by {
        assert(dp.subrange(2, 2).len() == 0);
    }
    assert(read_args(u, 1, no_args(), None, false) == read_args(u, 2, no_args(), Some((CliOption::Port, None)), false));
    assert(read_args(u, 2, no_args(), Some((CliOption::Port, None)), false) == read_args(
        u,
        3,
        no_args(),
        Some((CliOption::Port, Some(s))),
        false,
    ));
    assert forall|k: int| 1 <= k < t.len() implies #[trigger] u[k + 2] == t[k] by {}
    lemma_pending_port_first(t, u, 1, no_args(), false, s, p);
}

} // verus!
