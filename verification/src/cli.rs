//! The command line: the commands, and reading them from the arguments one at a time.
//!
//! Reading is a state machine: `parse_step` takes the state so far and the next argument
//! as the argument parser hands it out, and says what comes next: another argument (as an
//! option or as a plain value), a finished command, or an error.
use vstd::prelude::*;
use crate::text::{
    all_digits, chars_eq_str, chars_of, digits_value, extend_str, is_digit, join, join_strings,
    names_of, parse_u64, parse_unsigned, string_of,
};

verus! {

// ─────────────────────────────────────────────────────────────
//  Commands
// ─────────────────────────────────────────────────────────────

/// A command of the program.
#[derive(Debug)]
pub enum Command {
    Install { packages: Vec<String>, assume_yes: bool, with_recommends: bool },
    Remove { packages: Vec<String>, assume_yes: bool, purge: bool },
    Update,
    Upgrade { assume_yes: bool, only: Option<String>, security: bool },
    Autoremove { assume_yes: bool },
    Search {
        query: String,
        installed: bool,
        repo: Option<String>,
        section: Option<String>,
        exact: bool,
        provides: Option<String>,
    },
    Info { package: String },
    List { installed: bool, upgradeable: bool, available: bool },
    Clean,
    History { subcmd: Option<HistorySubcmd> },
    Repo { action: RepoAction },
    Key { action: KeyAction },
    WhatProvides { file: String },
    Provides { file: String },
    CheckUpdate,
    ImportDpkg,
    Version,
    Help,
}

/// What `repo` does.
#[derive(Debug)]
pub enum RepoAction {
    List,
    Add { uri: String, suite: String, components: Vec<String> },
    Remove { id: usize },
    Enable { id: usize },
    Disable { id: usize },
}

/// What `key` does.
#[derive(Debug)]
pub enum KeyAction {
    Add { path: String },
    List,
}

/// What `history` does besides listing.
#[derive(Debug)]
pub enum HistorySubcmd {
    Undo { id: i64 },
    Redo { id: i64 },
    Diff { id1: i64, id2: i64 },
    Export { path: String },
}

// ─────────────────────────────────────────────────────────────
//  The state machine
// ─────────────────────────────────────────────────────────────

/// One argument as the argument parser hands it out: a short or long option, a plain
/// value, the end of the arguments, or the parser's own error (its message).
#[derive(Debug)]
pub enum ArgEvent {
    Short(char),
    Long(String),
    Value(String),
    End,
    Error(String),
}

/// How the next argument is to be read: as an option or value (`next`), or as the value
/// of the option just read (`value`).
#[derive(Debug, Clone, Copy, PartialEq, Eq, Structural)]
pub enum ArgRequest {
    Next,
    Value,
}

/// The option of `search` whose value comes next.
#[derive(Debug, Clone, Copy, PartialEq, Eq, Structural)]
pub enum SearchSlot {
    Repo,
    Section,
    Provides,
}

/// Which `repo` action takes the id that comes next.
#[derive(Debug, Clone, Copy, PartialEq, Eq, Structural)]
pub enum RepoIdAction {
    Remove,
    Enable,
    Disable,
}

/// Which id could not be read.
#[derive(Debug, Clone, Copy, PartialEq, Eq, Structural)]
pub enum IdSlot {
    Only,
    First,
    Second,
}

/// What has been read so far.
#[derive(Debug)]
pub enum ParseState {
    Start,
    Install { packages: Vec<String>, assume_yes: bool, with_recommends: bool },
    Remove { packages: Vec<String>, assume_yes: bool, purge: bool },
    Upgrade { assume_yes: bool, only: Option<String>, security: bool, awaiting_only: bool },
    Autoremove { assume_yes: bool },
    Search {
        query: String,
        installed: bool,
        repo: Option<String>,
        section: Option<String>,
        exact: bool,
        provides: Option<String>,
        awaiting: Option<SearchSlot>,
    },
    Info,
    List { installed: bool, upgradeable: bool, available: bool },
    History,
    HistoryUndo,
    HistoryRedo,
    HistoryDiffFirst,
    HistoryDiffSecond { id1: i64 },
    HistoryExport,
    Repo,
    RepoAddUri,
    RepoAddSuite { uri: String },
    RepoAddComponents { uri: String, suite: String, components: Vec<String> },
    RepoId { action: RepoIdAction },
    Key,
    KeyAddPath,
    WhatProvides,
    Provides,
}

/// Why the arguments are refused.
#[derive(Debug)]
pub enum ArgError {
    /// The first argument is an option other than help or version.
    UnexpectedArgument,
    /// An option or value the command does not take.
    UnknownFlag(ArgEvent),
    /// `install` or `remove` without packages (true for `install`).
    NoPackages(bool),
    NoQuery,
    NoPackage,
    InvalidId(IdSlot),
    UnknownHistorySubcommand(String),
    NoComponents,
    UnknownRepoSubcommand(String),
    UnknownKeySubcommand(String),
    /// `whatprovides` or `provides` without a file (true for `whatprovides`).
    NoFile(bool),
    UnknownCommand(String),
    /// The argument parser's own error message.
    Parser(String),
}

/// What comes after one argument.
#[derive(Debug)]
pub enum ParseStep {
    Continue(ParseState, ArgRequest),
    Done(Command),
    Fail(ArgError),
}

/// What `str::parse::<i64>` gives: an optional sign followed by at least one digit, and a
/// value that fits.
pub open spec fn parse_signed(s: Seq<char>) -> Option<int> {
    if s.len() > 0 && s[0] == '-' {
        let d = s.drop_first();
        if d.len() > 0 && all_digits(d) && digits_value(d) <= 0x8000_0000_0000_0000 {
            Some(-digits_value(d))
        } else {
            None
        }
    } else {
        let d = if s.len() > 0 && s[0] == '+' {
            s.drop_first()
        } else {
            s
        };
        if d.len() > 0 && all_digits(d) && digits_value(d) <= i64::MAX {
            Some(digits_value(d))
        } else {
            None
        }
    }
}

/// `str::parse::<i64>`.
pub fn parse_i64(s: &str) -> (r: Option<i64>)
    ensures
        match r {
            Some(n) => parse_signed(s@) == Some(n as int),
            None => parse_signed(s@) is None,
        },
{
    let v = chars_of(s);
    let neg = v.len() > 0 && v[0] == '-';
    let start: usize = if v.len() > 0 && (v[0] == '-' || v[0] == '+') { 1 } else { 0 };
    let d = crate::text::slice_chars(&v, start, v.len());
    assert(d@ == v@.skip(start as int));
    assert(start == 1 ==> d@ == v@.drop_first());
    assert(start == 0 ==> d@ == v@);
    if d.len() == 0 || d[0] == '+' {
        proof {
            if d@.len() > 0 {
                assert(!is_digit(d@[0]));
            }
        }
        return None;
    }
    match parse_u64(&d) {
        Some(n) => {
            if neg {
                if n <= 0x8000_0000_0000_0000u64 {
                    if n == 0x8000_0000_0000_0000u64 {
                        Some(i64::MIN)
                    } else {
                        Some(-(n as i64))
                    }
                } else {
                    None
                }
            } else if n <= 0x7FFF_FFFF_FFFF_FFFFu64 {
                Some(n as i64)
            } else {
                None
            }
        },
        None => None,
    }
}

/// `str::parse::<usize>`.
pub fn parse_usize(s: &str) -> (r: Option<usize>)
    ensures
        match r {
            Some(n) => parse_unsigned(s@, usize::MAX as int) == Some(n as int),
            None => parse_unsigned(s@, usize::MAX as int) is None,
        },
{
    match parse_u64(&chars_of(s)) {
        Some(n) => if n <= usize::MAX as u64 {
            Some(n as usize)
        } else {
            None
        },
        None => None,
    }
}


fn same_text(v: &String, lit: &str) -> (r: bool)
    ensures
        r == (v@ == lit@),
{
    chars_eq_str(&chars_of(v.as_str()), lit)
}

pub open spec fn ev_short(e: ArgEvent, c: char) -> bool {
    e matches ArgEvent::Short(x) && x == c
}

pub open spec fn ev_long(e: ArgEvent, n: Seq<char>) -> bool {
    e matches ArgEvent::Long(l) && l@ == n
}

/// `-y`, `--yes` or `--assumeyes`.
pub open spec fn yes_flag(e: ArgEvent) -> bool {
    ev_short(e, 'y') || ev_long(e, "yes"@) || ev_long(e, "assumeyes"@)
}

/// `-y` or `--yes`.
pub open spec fn short_yes_flag(e: ArgEvent) -> bool {
    ev_short(e, 'y') || ev_long(e, "yes"@)
}

/// An error that carries the parser's message.
pub open spec fn parser_fail(e: ArgEvent, r: ParseStep) -> bool {
    e matches ArgEvent::Error(m) && r matches ParseStep::Fail(ArgError::Parser(m2)) && m2@ == m@
}

/// The refusal of an option or value that the command does not take.
pub open spec fn unknown_flag(e: ArgEvent, r: ParseStep) -> bool {
    if e is Error {
        parser_fail(e, r)
    } else {
        r matches ParseStep::Fail(ArgError::UnknownFlag(x)) && x == e
    }
}

/// The state a subcommand's name starts, or what it finishes at once.
pub open spec fn start_ok(v: Seq<char>, r: ParseStep) -> bool {
    if v == "install"@ || v == "i"@ || v == "in"@ {
        r matches ParseStep::Continue(ParseState::Install { packages, assume_yes, with_recommends }, ArgRequest::Next)
            && packages@.len() == 0 && !assume_yes && !with_recommends
    } else if v == "remove"@ || v == "rm"@ || v == "erase"@ {
        r matches ParseStep::Continue(ParseState::Remove { packages, assume_yes, purge }, ArgRequest::Next)
            && packages@.len() == 0 && !assume_yes && !purge
    } else if v == "update"@ || v == "makecache"@ {
        r matches ParseStep::Done(Command::Update)
    } else if v == "upgrade"@ || v == "dist-upgrade"@ {
        r matches ParseStep::Continue(ParseState::Upgrade { assume_yes, only, security, awaiting_only }, ArgRequest::Next)
            && !assume_yes && only is None && !security && !awaiting_only
    } else if v == "autoremove"@ || v == "auto-remove"@ {
        r matches ParseStep::Continue(ParseState::Autoremove { assume_yes }, ArgRequest::Next) && !assume_yes
    } else if v == "search"@ || v == "se"@ || v == "find"@ {
        r matches ParseStep::Continue(ParseState::Search { query, installed, repo, section, exact, provides, awaiting }, ArgRequest::Next)
            && query@.len() == 0 && !installed && repo is None && section is None && !exact && provides is None && awaiting is None
    } else if v == "info"@ || v == "show"@ || v == "information"@ {
        r matches ParseStep::Continue(ParseState::Info, ArgRequest::Next)
    } else if v == "list"@ || v == "ls"@ {
        r matches ParseStep::Continue(ParseState::List { installed, upgradeable, available }, ArgRequest::Next)
            && !installed && !upgradeable && !available
    } else if v == "clean"@ || v == "autoclean"@ {
        r matches ParseStep::Done(Command::Clean)
    } else if v == "history"@ || v == "log"@ {
        r matches ParseStep::Continue(ParseState::History, ArgRequest::Next)
    } else if v == "repo"@ {
        r matches ParseStep::Continue(ParseState::Repo, ArgRequest::Next)
    } else if v == "key"@ {
        r matches ParseStep::Continue(ParseState::Key, ArgRequest::Next)
    } else if v == "whatprovides"@ {
        r matches ParseStep::Continue(ParseState::WhatProvides, ArgRequest::Next)
    } else if v == "provides"@ {
        r matches ParseStep::Continue(ParseState::Provides, ArgRequest::Next)
    } else if v == "check-update"@ {
        r matches ParseStep::Done(Command::CheckUpdate)
    } else if v == "import-dpkg"@ {
        r matches ParseStep::Done(Command::ImportDpkg)
    } else if v == "version"@ || v == "--version"@ || v == "-V"@ {
        r matches ParseStep::Done(Command::Version)
    } else if v == "help"@ || v == "--help"@ || v == "-h"@ {
        r matches ParseStep::Done(Command::Help)
    } else {
        r matches ParseStep::Fail(ArgError::UnknownCommand(o)) && o@ == v
    }
}

fn start_step(v: String) -> (r: ParseStep)
    ensures
        start_ok(v@, r),
{
    if same_text(&v, "install") || same_text(&v, "i") || same_text(&v, "in") {
        ParseStep::Continue(ParseState::Install { packages: Vec::new(), assume_yes: false, with_recommends: false }, ArgRequest::Next)
    } else if same_text(&v, "remove") || same_text(&v, "rm") || same_text(&v, "erase") {
        ParseStep::Continue(ParseState::Remove { packages: Vec::new(), assume_yes: false, purge: false }, ArgRequest::Next)
    } else if same_text(&v, "update") || same_text(&v, "makecache") {
        ParseStep::Done(Command::Update)
    } else if same_text(&v, "upgrade") || same_text(&v, "dist-upgrade") {
        ParseStep::Continue(ParseState::Upgrade { assume_yes: false, only: None, security: false, awaiting_only: false }, ArgRequest::Next)
    } else if same_text(&v, "autoremove") || same_text(&v, "auto-remove") {
        ParseStep::Continue(ParseState::Autoremove { assume_yes: false }, ArgRequest::Next)
    } else if same_text(&v, "search") || same_text(&v, "se") || same_text(&v, "find") {
        ParseStep::Continue(ParseState::Search {
            query: String::new(),
            installed: false,
            repo: None,
            section: None,
            exact: false,
            provides: None,
            awaiting: None,
        }, ArgRequest::Next)
    } else if same_text(&v, "info") || same_text(&v, "show") || same_text(&v, "information") {
        ParseStep::Continue(ParseState::Info, ArgRequest::Next)
    } else if same_text(&v, "list") || same_text(&v, "ls") {
        ParseStep::Continue(ParseState::List { installed: false, upgradeable: false, available: false }, ArgRequest::Next)
    } else if same_text(&v, "clean") || same_text(&v, "autoclean") {
        ParseStep::Done(Command::Clean)
    } else if same_text(&v, "history") || same_text(&v, "log") {
        ParseStep::Continue(ParseState::History, ArgRequest::Next)
    } else if same_text(&v, "repo") {
        ParseStep::Continue(ParseState::Repo, ArgRequest::Next)
    } else if same_text(&v, "key") {
        ParseStep::Continue(ParseState::Key, ArgRequest::Next)
    } else if same_text(&v, "whatprovides") {
        ParseStep::Continue(ParseState::WhatProvides, ArgRequest::Next)
    } else if same_text(&v, "provides") {
        ParseStep::Continue(ParseState::Provides, ArgRequest::Next)
    } else if same_text(&v, "check-update") {
        ParseStep::Done(Command::CheckUpdate)
    } else if same_text(&v, "import-dpkg") {
        ParseStep::Done(Command::ImportDpkg)
    } else if same_text(&v, "version") || same_text(&v, "--version") || same_text(&v, "-V") {
        ParseStep::Done(Command::Version)
    } else if same_text(&v, "help") || same_text(&v, "--help") || same_text(&v, "-h") {
        ParseStep::Done(Command::Help)
    } else {
        ParseStep::Fail(ArgError::UnknownCommand(v))
    }
}

fn is_long(e: &ArgEvent, name: &str) -> (r: bool)
    ensures
        r == ev_long(*e, name@),
{
    match e {
        ArgEvent::Long(l) => same_text(l, name),
        _ => false,
    }
}

fn is_short(e: &ArgEvent, c: char) -> (r: bool)
    ensures
        r == ev_short(*e, c),
{
    match e {
        ArgEvent::Short(x) => *x == c,
        _ => false,
    }
}

fn refuse(e: ArgEvent) -> (r: ParseStep)
    ensures
        unknown_flag(e, r),
{
    match e {
        ArgEvent::Error(m) => ParseStep::Fail(ArgError::Parser(m)),
        other => ParseStep::Fail(ArgError::UnknownFlag(other)),
    }
}


/// What one argument does in each state (the table `parse_step` follows).
pub open spec fn step_ok(s: ParseState, e: ArgEvent, r: ParseStep) -> bool {
    match s {
        ParseState::Start => match e {
            ArgEvent::Value(v) => start_ok(v@, r),
            ArgEvent::Short(c) => if c == 'h' {
                r matches ParseStep::Done(Command::Help)
            } else if c == 'V' {
                r matches ParseStep::Done(Command::Version)
            } else {
                r matches ParseStep::Fail(ArgError::UnexpectedArgument)
            },
            ArgEvent::Long(l) => if l@ == "help"@ {
                r matches ParseStep::Done(Command::Help)
            } else if l@ == "version"@ {
                r matches ParseStep::Done(Command::Version)
            } else {
                r matches ParseStep::Fail(ArgError::UnexpectedArgument)
            },
            ArgEvent::End => r matches ParseStep::Done(Command::Help),
            ArgEvent::Error(_) => parser_fail(e, r),
        },
        ParseState::Install { packages, assume_yes, with_recommends } => if yes_flag(e) {
            r matches ParseStep::Continue(ParseState::Install { packages: p2, assume_yes: y2, with_recommends: w2 }, ArgRequest::Next)
                && p2@ == packages@ && y2 && w2 == with_recommends
        } else if ev_long(e, "with-recommends"@) || ev_long(e, "install-recommends"@) {
            r matches ParseStep::Continue(ParseState::Install { packages: p2, assume_yes: y2, with_recommends: w2 }, ArgRequest::Next)
                && p2@ == packages@ && y2 == assume_yes && w2
        } else if ev_long(e, "no-install-recommends"@) {
            r matches ParseStep::Continue(ParseState::Install { packages: p2, assume_yes: y2, with_recommends: w2 }, ArgRequest::Next)
                && p2@ == packages@ && y2 == assume_yes && !w2
        } else if e is Value {
            r matches ParseStep::Continue(ParseState::Install { packages: p2, assume_yes: y2, with_recommends: w2 }, ArgRequest::Next)
                && p2@ == packages@.push(e->Value_0) && y2 == assume_yes && w2 == with_recommends
        } else if e is End {
            if packages@.len() == 0 {
                r matches ParseStep::Fail(ArgError::NoPackages(true))
            } else {
                r matches ParseStep::Done(Command::Install { packages: p2, assume_yes: y2, with_recommends: w2 })
                    && p2@ == packages@ && y2 == assume_yes && w2 == with_recommends
            }
        } else {
            unknown_flag(e, r)
        },
        ParseState::Remove { packages, assume_yes, purge } => if yes_flag(e) {
            r matches ParseStep::Continue(ParseState::Remove { packages: p2, assume_yes: y2, purge: g2 }, ArgRequest::Next)
                && p2@ == packages@ && y2 && g2 == purge
        } else if ev_long(e, "purge"@) {
            r matches ParseStep::Continue(ParseState::Remove { packages: p2, assume_yes: y2, purge: g2 }, ArgRequest::Next)
                && p2@ == packages@ && y2 == assume_yes && g2
        } else if e is Value {
            r matches ParseStep::Continue(ParseState::Remove { packages: p2, assume_yes: y2, purge: g2 }, ArgRequest::Next)
                && p2@ == packages@.push(e->Value_0) && y2 == assume_yes && g2 == purge
        } else if e is End {
            if packages@.len() == 0 {
                r matches ParseStep::Fail(ArgError::NoPackages(false))
            } else {
                r matches ParseStep::Done(Command::Remove { packages: p2, assume_yes: y2, purge: g2 })
                    && p2@ == packages@ && y2 == assume_yes && g2 == purge
            }
        } else {
            unknown_flag(e, r)
        },
        ParseState::Upgrade { assume_yes, only, security, awaiting_only } => if awaiting_only {
            if e is Value {
                r matches ParseStep::Continue(ParseState::Upgrade { assume_yes: y2, only: o2, security: s2, awaiting_only: a2 }, ArgRequest::Next)
                    && y2 == assume_yes && o2 == Some(e->Value_0) && s2 == security && !a2
            } else {
                unknown_flag(e, r)
            }
        } else if short_yes_flag(e) {
            r matches ParseStep::Continue(ParseState::Upgrade { assume_yes: y2, only: o2, security: s2, awaiting_only: a2 }, ArgRequest::Next)
                && y2 && o2 == only && s2 == security && !a2
        } else if ev_long(e, "only"@) {
            r matches ParseStep::Continue(ParseState::Upgrade { assume_yes: y2, only: o2, security: s2, awaiting_only: a2 }, ArgRequest::Value)
                && y2 == assume_yes && o2 == only && s2 == security && a2
        } else if ev_long(e, "security"@) {
            r matches ParseStep::Continue(ParseState::Upgrade { assume_yes: y2, only: o2, security: s2, awaiting_only: a2 }, ArgRequest::Next)
                && y2 == assume_yes && o2 == only && s2 && !a2
        } else if e is End {
            r matches ParseStep::Done(Command::Upgrade { assume_yes: y2, only: o2, security: s2 })
                && y2 == assume_yes && o2 == only && s2 == security
        } else {
            unknown_flag(e, r)
        },
        ParseState::Autoremove { assume_yes } => if short_yes_flag(e) {
            r matches ParseStep::Continue(ParseState::Autoremove { assume_yes: y2 }, ArgRequest::Next) && y2
        } else if e is End {
            r matches ParseStep::Done(Command::Autoremove { assume_yes: y2 }) && y2 == assume_yes
        } else {
            unknown_flag(e, r)
        },
        ParseState::Search { query, installed, repo, section, exact, provides, awaiting } => match awaiting {
            Some(slot) => if e is Value {
                r matches ParseStep::Continue(ParseState::Search { query: q2, installed: i2, repo: r2, section: s2, exact: x2, provides: p2, awaiting: a2 }, ArgRequest::Next)
                    && q2@ == query@ && i2 == installed && x2 == exact && a2 is None
                    && r2 == (if slot == SearchSlot::Repo { Some(e->Value_0) } else { repo })
                    && s2 == (if slot == SearchSlot::Section { Some(e->Value_0) } else { section })
                    && p2 == (if slot == SearchSlot::Provides { Some(e->Value_0) } else { provides })
            } else {
                unknown_flag(e, r)
            },
            None => if e is Value {
                r matches ParseStep::Continue(ParseState::Search { query: q2, installed: i2, repo: r2, section: s2, exact: x2, provides: p2, awaiting: a2 }, ArgRequest::Next)
                    && q2@ == (if query@.len() > 0 { query@.push(' ') } else { query@ }) + e->Value_0@
                    && i2 == installed && r2 == repo && s2 == section && x2 == exact && p2 == provides && a2 is None
            } else if ev_long(e, "installed"@) || ev_long(e, "exact"@) {
                r matches ParseStep::Continue(ParseState::Search { query: q2, installed: i2, repo: r2, section: s2, exact: x2, provides: p2, awaiting: a2 }, ArgRequest::Next)
                    && q2@ == query@ && r2 == repo && s2 == section && p2 == provides && a2 is None
                    && i2 == (installed || ev_long(e, "installed"@)) && x2 == (exact || ev_long(e, "exact"@))
            } else if ev_long(e, "repo"@) || ev_long(e, "section"@) || ev_long(e, "provides"@) {
                r matches ParseStep::Continue(ParseState::Search { query: q2, installed: i2, repo: r2, section: s2, exact: x2, provides: p2, awaiting: a2 }, ArgRequest::Value)
                    && q2@ == query@ && i2 == installed && r2 == repo && s2 == section && x2 == exact && p2 == provides
                    && a2 == Some(if ev_long(e, "repo"@) {
                        SearchSlot::Repo
                    } else if ev_long(e, "section"@) {
                        SearchSlot::Section
                    } else {
                        SearchSlot::Provides
                    })
            } else if e is End {
                if query@.len() == 0 {
                    r matches ParseStep::Fail(ArgError::NoQuery)
                } else {
                    r matches ParseStep::Done(Command::Search { query: q2, installed: i2, repo: r2, section: s2, exact: x2, provides: p2 })
                        && q2@ == query@ && i2 == installed && r2 == repo && s2 == section && x2 == exact && p2 == provides
                }
            } else {
                unknown_flag(e, r)
            },
        },
        ParseState::Info => match e {
            ArgEvent::Value(v) => r matches ParseStep::Done(Command::Info { package }) && package@ == v@,
            ArgEvent::Error(_) => parser_fail(e, r),
            _ => r matches ParseStep::Fail(ArgError::NoPackage),
        },
        ParseState::List { installed, upgradeable, available } => if ev_long(e, "installed"@) || ev_long(e, "upgrades"@)
            || ev_long(e, "upgradeable"@) || ev_long(e, "available"@) {
            r matches ParseStep::Continue(ParseState::List { installed: i2, upgradeable: u2, available: a2 }, ArgRequest::Next)
                && i2 == (installed || ev_long(e, "installed"@))
                && u2 == (upgradeable || ev_long(e, "upgrades"@) || ev_long(e, "upgradeable"@))
                && a2 == (available || ev_long(e, "available"@))
        } else if e is End {
            r matches ParseStep::Done(Command::List { installed: i2, upgradeable: u2, available: a2 })
                && i2 == installed && u2 == upgradeable && a2 == available
        } else {
            unknown_flag(e, r)
        },
        ParseState::History => match e {
            ArgEvent::Value(v) => if v@ == "undo"@ {
                r matches ParseStep::Continue(ParseState::HistoryUndo, ArgRequest::Value)
            } else if v@ == "redo"@ {
                r matches ParseStep::Continue(ParseState::HistoryRedo, ArgRequest::Value)
            } else if v@ == "diff"@ {
                r matches ParseStep::Continue(ParseState::HistoryDiffFirst, ArgRequest::Value)
            } else if v@ == "export"@ {
                r matches ParseStep::Continue(ParseState::HistoryExport, ArgRequest::Value)
            } else {
                r matches ParseStep::Fail(ArgError::UnknownHistorySubcommand(w)) && w@ == v@
            },
            ArgEvent::Error(_) => parser_fail(e, r),
            _ => r matches ParseStep::Done(Command::History { subcmd: None }),
        },
        ParseState::HistoryUndo => match e {
            ArgEvent::Value(v) => match parse_signed(v@) {
                Some(n) => r matches ParseStep::Done(Command::History { subcmd: Some(HistorySubcmd::Undo { id }) }) && id == n,
                None => r matches ParseStep::Fail(ArgError::InvalidId(IdSlot::Only)),
            },
            _ => unknown_flag(e, r),
        },
        ParseState::HistoryRedo => match e {
            ArgEvent::Value(v) => match parse_signed(v@) {
                Some(n) => r matches ParseStep::Done(Command::History { subcmd: Some(HistorySubcmd::Redo { id }) }) && id == n,
                None => r matches ParseStep::Fail(ArgError::InvalidId(IdSlot::Only)),
            },
            _ => unknown_flag(e, r),
        },
        ParseState::HistoryDiffFirst => match e {
            ArgEvent::Value(v) => match parse_signed(v@) {
                Some(n) => r matches ParseStep::Continue(ParseState::HistoryDiffSecond { id1 }, ArgRequest::Value) && id1 == n,
                None => r matches ParseStep::Fail(ArgError::InvalidId(IdSlot::First)),
            },
            _ => unknown_flag(e, r),
        },
        ParseState::HistoryDiffSecond { id1 } => match e {
            ArgEvent::Value(v) => match parse_signed(v@) {
                Some(n) => r matches ParseStep::Done(Command::History { subcmd: Some(HistorySubcmd::Diff { id1: a, id2: b }) })
                    && a == id1 && b == n,
                None => r matches ParseStep::Fail(ArgError::InvalidId(IdSlot::Second)),
            },
            _ => unknown_flag(e, r),
        },
        ParseState::HistoryExport => match e {
            ArgEvent::Value(v) => r matches ParseStep::Done(Command::History { subcmd: Some(HistorySubcmd::Export { path }) }) && path@ == v@,
            _ => unknown_flag(e, r),
        },
        ParseState::Repo => match e {
            ArgEvent::Value(v) => if v@ == "list"@ {
                r matches ParseStep::Done(Command::Repo { action: RepoAction::List })
            } else if v@ == "add"@ {
                r matches ParseStep::Continue(ParseState::RepoAddUri, ArgRequest::Value)
            } else if v@ == "remove"@ {
                r matches ParseStep::Continue(ParseState::RepoId { action: RepoIdAction::Remove }, ArgRequest::Value)
            } else if v@ == "enable"@ {
                r matches ParseStep::Continue(ParseState::RepoId { action: RepoIdAction::Enable }, ArgRequest::Value)
            } else if v@ == "disable"@ {
                r matches ParseStep::Continue(ParseState::RepoId { action: RepoIdAction::Disable }, ArgRequest::Value)
            } else {
                r matches ParseStep::Fail(ArgError::UnknownRepoSubcommand(w)) && w@ == v@
            },
            ArgEvent::Error(_) => parser_fail(e, r),
            _ => r matches ParseStep::Done(Command::Repo { action: RepoAction::List }),
        },
        ParseState::RepoAddUri => match e {
            ArgEvent::Value(v) => r matches ParseStep::Continue(ParseState::RepoAddSuite { uri }, ArgRequest::Value) && uri@ == v@,
            _ => unknown_flag(e, r),
        },
        ParseState::RepoAddSuite { uri } => match e {
            ArgEvent::Value(v) => r matches ParseStep::Continue(ParseState::RepoAddComponents { uri: u2, suite, components }, ArgRequest::Next)
                && u2@ == uri@ && suite@ == v@ && components@.len() == 0,
            _ => unknown_flag(e, r),
        },
        ParseState::RepoAddComponents { uri, suite, components } => match e {
            ArgEvent::Value(v) => r matches ParseStep::Continue(ParseState::RepoAddComponents { uri: u2, suite: s2, components: c2 }, ArgRequest::Next)
                && u2@ == uri@ && s2@ == suite@ && c2@ == components@.push(v),
            _ => if components@.len() == 0 {
                r matches ParseStep::Fail(ArgError::NoComponents)
            } else {
                r matches ParseStep::Done(Command::Repo { action: RepoAction::Add { uri: u2, suite: s2, components: c2 } })
                    && u2@ == uri@ && s2@ == suite@ && c2@ == components@
            },
        },
        ParseState::RepoId { action } => match e {
            ArgEvent::Value(v) => match parse_unsigned(v@, usize::MAX as int) {
                Some(n) => match action {
                    RepoIdAction::Remove => r matches ParseStep::Done(Command::Repo { action: RepoAction::Remove { id } }) && id == n,
                    RepoIdAction::Enable => r matches ParseStep::Done(Command::Repo { action: RepoAction::Enable { id } }) && id == n,
                    RepoIdAction::Disable => r matches ParseStep::Done(Command::Repo { action: RepoAction::Disable { id } }) && id == n,
                },
                None => r matches ParseStep::Fail(ArgError::InvalidId(IdSlot::Only)),
            },
            _ => unknown_flag(e, r),
        },
        ParseState::Key => match e {
            ArgEvent::Value(v) => if v@ == "list"@ {
                r matches ParseStep::Done(Command::Key { action: KeyAction::List })
            } else if v@ == "add"@ {
                r matches ParseStep::Continue(ParseState::KeyAddPath, ArgRequest::Value)
            } else {
                r matches ParseStep::Fail(ArgError::UnknownKeySubcommand(w)) && w@ == v@
            },
            ArgEvent::Error(_) => parser_fail(e, r),
            _ => r matches ParseStep::Done(Command::Key { action: KeyAction::List }),
        },
        ParseState::KeyAddPath => match e {
            ArgEvent::Value(v) => r matches ParseStep::Done(Command::Key { action: KeyAction::Add { path } }) && path@ == v@,
            _ => unknown_flag(e, r),
        },
        ParseState::WhatProvides => match e {
            ArgEvent::Value(v) => r matches ParseStep::Done(Command::WhatProvides { file }) && file@ == v@,
            ArgEvent::Error(_) => parser_fail(e, r),
            _ => r matches ParseStep::Fail(ArgError::NoFile(true)),
        },
        ParseState::Provides => match e {
            ArgEvent::Value(v) => r matches ParseStep::Done(Command::Provides { file }) && file@ == v@,
            ArgEvent::Error(_) => parser_fail(e, r),
            _ => r matches ParseStep::Fail(ArgError::NoFile(false)),
        },
    }
}


fn step_start(e: ArgEvent) -> (r: ParseStep)
    ensures
        step_ok(ParseState::Start, e, r),
{
    match e {
        ArgEvent::Value(v) => start_step(v),
        ArgEvent::Short(c) => if c == 'h' {
            ParseStep::Done(Command::Help)
        } else if c == 'V' {
            ParseStep::Done(Command::Version)
        } else {
            ParseStep::Fail(ArgError::UnexpectedArgument)
        },
        ArgEvent::Long(l) => if same_text(&l, "help") {
            ParseStep::Done(Command::Help)
        } else if same_text(&l, "version") {
            ParseStep::Done(Command::Version)
        } else {
            ParseStep::Fail(ArgError::UnexpectedArgument)
        },
        ArgEvent::End => ParseStep::Done(Command::Help),
        ArgEvent::Error(m) => ParseStep::Fail(ArgError::Parser(m)),
    }
}

fn step_install(packages: Vec<String>, assume_yes: bool, with_recommends: bool, e: ArgEvent) -> (r: ParseStep)
    ensures
        step_ok(ParseState::Install { packages, assume_yes, with_recommends }, e, r),
{
    if is_short(&e, 'y') || is_long(&e, "yes") || is_long(&e, "assumeyes") {
        ParseStep::Continue(ParseState::Install { packages, assume_yes: true, with_recommends }, ArgRequest::Next)
    } else if is_long(&e, "with-recommends") || is_long(&e, "install-recommends") {
        ParseStep::Continue(ParseState::Install { packages, assume_yes, with_recommends: true }, ArgRequest::Next)
    } else if is_long(&e, "no-install-recommends") {
        ParseStep::Continue(ParseState::Install { packages, assume_yes, with_recommends: false }, ArgRequest::Next)
    } else {
        match e {
            ArgEvent::Value(v) => {
                let mut p = packages;
                p.push(v);
                ParseStep::Continue(ParseState::Install { packages: p, assume_yes, with_recommends }, ArgRequest::Next)
            },
            ArgEvent::End => if packages.len() == 0 {
                ParseStep::Fail(ArgError::NoPackages(true))
            } else {
                ParseStep::Done(Command::Install { packages, assume_yes, with_recommends })
            },
            other => refuse(other),
        }
    }
}

fn step_remove(packages: Vec<String>, assume_yes: bool, purge: bool, e: ArgEvent) -> (r: ParseStep)
    ensures
        step_ok(ParseState::Remove { packages, assume_yes, purge }, e, r),
{
    if is_short(&e, 'y') || is_long(&e, "yes") || is_long(&e, "assumeyes") {
        ParseStep::Continue(ParseState::Remove { packages, assume_yes: true, purge }, ArgRequest::Next)
    } else if is_long(&e, "purge") {
        ParseStep::Continue(ParseState::Remove { packages, assume_yes, purge: true }, ArgRequest::Next)
    } else {
        match e {
            ArgEvent::Value(v) => {
                let mut p = packages;
                p.push(v);
                ParseStep::Continue(ParseState::Remove { packages: p, assume_yes, purge }, ArgRequest::Next)
            },
            ArgEvent::End => if packages.len() == 0 {
                ParseStep::Fail(ArgError::NoPackages(false))
            } else {
                ParseStep::Done(Command::Remove { packages, assume_yes, purge })
            },
            other => refuse(other),
        }
    }
}

fn step_upgrade(assume_yes: bool, only: Option<String>, security: bool, awaiting_only: bool, e: ArgEvent) -> (r: ParseStep)
    ensures
        step_ok(ParseState::Upgrade { assume_yes, only, security, awaiting_only }, e, r),
{
    if awaiting_only {
        return match e {
            ArgEvent::Value(v) => ParseStep::Continue(
                ParseState::Upgrade { assume_yes, only: Some(v), security, awaiting_only: false },
                ArgRequest::Next,
            ),
            other => refuse(other),
        };
    }
    if is_short(&e, 'y') || is_long(&e, "yes") {
        ParseStep::Continue(ParseState::Upgrade { assume_yes: true, only, security, awaiting_only: false }, ArgRequest::Next)
    } else if is_long(&e, "only") {
        ParseStep::Continue(ParseState::Upgrade { assume_yes, only, security, awaiting_only: true }, ArgRequest::Value)
    } else if is_long(&e, "security") {
        ParseStep::Continue(ParseState::Upgrade { assume_yes, only, security: true, awaiting_only: false }, ArgRequest::Next)
    } else {
        match e {
            ArgEvent::End => ParseStep::Done(Command::Upgrade { assume_yes, only, security }),
            other => refuse(other),
        }
    }
}

fn step_search(
    query: String,
    installed: bool,
    repo: Option<String>,
    section: Option<String>,
    exact: bool,
    provides: Option<String>,
    awaiting: Option<SearchSlot>,
    e: ArgEvent,
) -> (r: ParseStep)
    ensures
        step_ok(ParseState::Search { query, installed, repo, section, exact, provides, awaiting }, e, r),
{
    match awaiting {
        Some(slot) => match e {
            ArgEvent::Value(v) => {
                let (r2, s2, p2) = match slot {
                    SearchSlot::Repo => (Some(v), section, provides),
                    SearchSlot::Section => (repo, Some(v), provides),
                    SearchSlot::Provides => (repo, section, Some(v)),
                };
                ParseStep::Continue(
                    ParseState::Search { query, installed, repo: r2, section: s2, exact, provides: p2, awaiting: None },
                    ArgRequest::Next,
                )
            },
            other => refuse(other),
        },
        None => {
            if is_long(&e, "installed") || is_long(&e, "exact") {
                let i2 = installed || is_long(&e, "installed");
                let x2 = exact || is_long(&e, "exact");
                ParseStep::Continue(
                    ParseState::Search { query, installed: i2, repo, section, exact: x2, provides, awaiting: None },
                    ArgRequest::Next,
                )
            } else if is_long(&e, "repo") || is_long(&e, "section") || is_long(&e, "provides") {
                let slot = if is_long(&e, "repo") {
                    SearchSlot::Repo
                } else if is_long(&e, "section") {
                    SearchSlot::Section
                } else {
                    SearchSlot::Provides
                };
                ParseStep::Continue(
                    ParseState::Search { query, installed, repo, section, exact, provides, awaiting: Some(slot) },
                    ArgRequest::Value,
                )
            } else {
                match e {
                    ArgEvent::Value(v) => {
                        let mut q = chars_of(query.as_str());
                        if q.len() > 0 {
                            q.push(' ');
                        }
                        crate::text::extend_str(&mut q, v.as_str());
                        ParseStep::Continue(
                            ParseState::Search { query: string_of(&q), installed, repo, section, exact, provides, awaiting: None },
                            ArgRequest::Next,
                        )
                    },
                    ArgEvent::End => {
                        if chars_of(query.as_str()).len() == 0 {
                            ParseStep::Fail(ArgError::NoQuery)
                        } else {
                            ParseStep::Done(Command::Search { query, installed, repo, section, exact, provides })
                        }
                    },
                    other => refuse(other),
                }
            }
        },
    }
}

fn step_list(installed: bool, upgradeable: bool, available: bool, e: ArgEvent) -> (r: ParseStep)
    ensures
        step_ok(ParseState::List { installed, upgradeable, available }, e, r),
{
    let li = is_long(&e, "installed");
    let lu = is_long(&e, "upgrades") || is_long(&e, "upgradeable");
    let la = is_long(&e, "available");
    if li || lu || la {
        ParseStep::Continue(
            ParseState::List { installed: installed || li, upgradeable: upgradeable || lu, available: available || la },
            ArgRequest::Next,
        )
    } else {
        match e {
            ArgEvent::End => ParseStep::Done(Command::List { installed, upgradeable, available }),
            other => refuse(other),
        }
    }
}

fn step_history(e: ArgEvent) -> (r: ParseStep)
    ensures
        step_ok(ParseState::History, e, r),
{
    match e {
        ArgEvent::Value(v) => if same_text(&v, "undo") {
            ParseStep::Continue(ParseState::HistoryUndo, ArgRequest::Value)
        } else if same_text(&v, "redo") {
            ParseStep::Continue(ParseState::HistoryRedo, ArgRequest::Value)
        } else if same_text(&v, "diff") {
            ParseStep::Continue(ParseState::HistoryDiffFirst, ArgRequest::Value)
        } else if same_text(&v, "export") {
            ParseStep::Continue(ParseState::HistoryExport, ArgRequest::Value)
        } else {
            ParseStep::Fail(ArgError::UnknownHistorySubcommand(v))
        },
        ArgEvent::Error(m) => ParseStep::Fail(ArgError::Parser(m)),
        _ => ParseStep::Done(Command::History { subcmd: None }),
    }
}

fn step_history_id(s: ParseState, e: ArgEvent) -> (r: ParseStep)
    requires
        s is HistoryUndo || s is HistoryRedo || s is HistoryDiffFirst || s is HistoryDiffSecond,
    ensures
        step_ok(s, e, r),
{
    match e {
        ArgEvent::Value(v) => {
            let parsed = parse_i64(v.as_str());
            match s {
                ParseState::HistoryUndo => match parsed {
                    Some(n) => ParseStep::Done(Command::History { subcmd: Some(HistorySubcmd::Undo { id: n }) }),
                    None => ParseStep::Fail(ArgError::InvalidId(IdSlot::Only)),
                },
                ParseState::HistoryRedo => match parsed {
                    Some(n) => ParseStep::Done(Command::History { subcmd: Some(HistorySubcmd::Redo { id: n }) }),
                    None => ParseStep::Fail(ArgError::InvalidId(IdSlot::Only)),
                },
                ParseState::HistoryDiffFirst => match parsed {
                    Some(n) => ParseStep::Continue(ParseState::HistoryDiffSecond { id1: n }, ArgRequest::Value),
                    None => ParseStep::Fail(ArgError::InvalidId(IdSlot::First)),
                },
                ParseState::HistoryDiffSecond { id1 } => match parsed {
                    Some(n) => ParseStep::Done(Command::History { subcmd: Some(HistorySubcmd::Diff { id1, id2: n }) }),
                    None => ParseStep::Fail(ArgError::InvalidId(IdSlot::Second)),
                },
                _ => ParseStep::Fail(ArgError::NoPackage),
            }
        },
        other => refuse(other),
    }
}

fn step_repo(e: ArgEvent) -> (r: ParseStep)
    ensures
        step_ok(ParseState::Repo, e, r),
{
    match e {
        ArgEvent::Value(v) => if same_text(&v, "list") {
            ParseStep::Done(Command::Repo { action: RepoAction::List })
        } else if same_text(&v, "add") {
            ParseStep::Continue(ParseState::RepoAddUri, ArgRequest::Value)
        } else if same_text(&v, "remove") {
            ParseStep::Continue(ParseState::RepoId { action: RepoIdAction::Remove }, ArgRequest::Value)
        } else if same_text(&v, "enable") {
            ParseStep::Continue(ParseState::RepoId { action: RepoIdAction::Enable }, ArgRequest::Value)
        } else if same_text(&v, "disable") {
            ParseStep::Continue(ParseState::RepoId { action: RepoIdAction::Disable }, ArgRequest::Value)
        } else {
            ParseStep::Fail(ArgError::UnknownRepoSubcommand(v))
        },
        ArgEvent::Error(m) => ParseStep::Fail(ArgError::Parser(m)),
        _ => ParseStep::Done(Command::Repo { action: RepoAction::List }),
    }
}

fn step_repo_id(action: RepoIdAction, e: ArgEvent) -> (r: ParseStep)
    ensures
        step_ok(ParseState::RepoId { action }, e, r),
{
    match e {
        ArgEvent::Value(v) => match parse_usize(v.as_str()) {
            Some(n) => match action {
                RepoIdAction::Remove => ParseStep::Done(Command::Repo { action: RepoAction::Remove { id: n } }),
                RepoIdAction::Enable => ParseStep::Done(Command::Repo { action: RepoAction::Enable { id: n } }),
                RepoIdAction::Disable => ParseStep::Done(Command::Repo { action: RepoAction::Disable { id: n } }),
            },
            None => ParseStep::Fail(ArgError::InvalidId(IdSlot::Only)),
        },
        other => refuse(other),
    }
}

fn step_key(e: ArgEvent) -> (r: ParseStep)
    ensures
        step_ok(ParseState::Key, e, r),
{
    match e {
        ArgEvent::Value(v) => if same_text(&v, "list") {
            ParseStep::Done(Command::Key { action: KeyAction::List })
        } else if same_text(&v, "add") {
            ParseStep::Continue(ParseState::KeyAddPath, ArgRequest::Value)
        } else {
            ParseStep::Fail(ArgError::UnknownKeySubcommand(v))
        },
        ArgEvent::Error(m) => ParseStep::Fail(ArgError::Parser(m)),
        _ => ParseStep::Done(Command::Key { action: KeyAction::List }),
    }
}

/// Reads one argument: `state` is what was read so far, `event` the next argument as the
/// parser handed it out (read as `step_ok` says).
pub fn parse_step(state: ParseState, event: ArgEvent) -> (r: ParseStep)
    ensures
        step_ok(state, event, r),
{
    let e = event;
    match state {
        ParseState::Start => step_start(e),
        ParseState::Install { packages, assume_yes, with_recommends } => step_install(packages, assume_yes, with_recommends, e),
        ParseState::Remove { packages, assume_yes, purge } => step_remove(packages, assume_yes, purge, e),
        ParseState::Upgrade { assume_yes, only, security, awaiting_only } => step_upgrade(assume_yes, only, security, awaiting_only, e),
        ParseState::Autoremove { assume_yes } => {
            if is_short(&e, 'y') || is_long(&e, "yes") {
                ParseStep::Continue(ParseState::Autoremove { assume_yes: true }, ArgRequest::Next)
            } else {
                match e {
                    ArgEvent::End => ParseStep::Done(Command::Autoremove { assume_yes }),
                    other => refuse(other),
                }
            }
        },
        ParseState::Search { query, installed, repo, section, exact, provides, awaiting } =>
            step_search(query, installed, repo, section, exact, provides, awaiting, e),
        ParseState::Info => match e {
            ArgEvent::Value(v) => ParseStep::Done(Command::Info { package: v }),
            ArgEvent::Error(m) => ParseStep::Fail(ArgError::Parser(m)),
            _ => ParseStep::Fail(ArgError::NoPackage),
        },
        ParseState::List { installed, upgradeable, available } => step_list(installed, upgradeable, available, e),
        ParseState::History => step_history(e),
        ParseState::HistoryUndo => step_history_id(ParseState::HistoryUndo, e),
        ParseState::HistoryRedo => step_history_id(ParseState::HistoryRedo, e),
        ParseState::HistoryDiffFirst => step_history_id(ParseState::HistoryDiffFirst, e),
        ParseState::HistoryDiffSecond { id1 } => step_history_id(ParseState::HistoryDiffSecond { id1 }, e),
        ParseState::HistoryExport => match e {
            ArgEvent::Value(v) => ParseStep::Done(Command::History { subcmd: Some(HistorySubcmd::Export { path: v }) }),
            other => refuse(other),
        },
        ParseState::Repo => step_repo(e),
        ParseState::RepoAddUri => match e {
            ArgEvent::Value(v) => ParseStep::Continue(ParseState::RepoAddSuite { uri: v }, ArgRequest::Value),
            other => refuse(other),
        },
        ParseState::RepoAddSuite { uri } => match e {
            ArgEvent::Value(v) => ParseStep::Continue(
                ParseState::RepoAddComponents { uri, suite: v, components: Vec::new() },
                ArgRequest::Next,
            ),
            other => refuse(other),
        },
        ParseState::RepoAddComponents { uri, suite, components } => match e {
            ArgEvent::Value(v) => {
                let mut c = components;
                c.push(v);
                ParseStep::Continue(ParseState::RepoAddComponents { uri, suite, components: c }, ArgRequest::Next)
            },
            _ => if components.len() == 0 {
                ParseStep::Fail(ArgError::NoComponents)
            } else {
                ParseStep::Done(Command::Repo { action: RepoAction::Add { uri, suite, components } })
            },
        },
        ParseState::RepoId { action } => step_repo_id(action, e),
        ParseState::Key => step_key(e),
        ParseState::KeyAddPath => match e {
            ArgEvent::Value(v) => ParseStep::Done(Command::Key { action: KeyAction::Add { path: v } }),
            other => refuse(other),
        },
        ParseState::WhatProvides => match e {
            ArgEvent::Value(v) => ParseStep::Done(Command::WhatProvides { file: v }),
            ArgEvent::Error(m) => ParseStep::Fail(ArgError::Parser(m)),
            _ => ParseStep::Fail(ArgError::NoFile(true)),
        },
        ParseState::Provides => match e {
            ArgEvent::Value(v) => ParseStep::Done(Command::Provides { file: v }),
            ArgEvent::Error(m) => ParseStep::Fail(ArgError::Parser(m)),
            _ => ParseStep::Fail(ArgError::NoFile(false)),
        },
    }
}

// ─────────────────────────────────────────────────────────────
//  Messages and privileges
// ─────────────────────────────────────────────────────────────

impl ArgError {
    /// The message for the error. `unexpected` is the argument parser's own wording of an
    /// option or value the command does not take; only `UnknownFlag` uses it.
    pub open spec fn text(&self, unexpected: Seq<char>) -> Seq<char> {
        match self {
            ArgError::UnexpectedArgument => "Unexpected argument. Run `lpm help` for usage."@,
            ArgError::UnknownFlag(_) => "Unknown flag: "@ + unexpected,
            ArgError::NoPackages(install) => if *install {
                "No packages specified. Usage: lpm install <pkg...>"@
            } else {
                "No packages specified. Usage: lpm remove <pkg...>"@
            },
            ArgError::NoQuery => "No search query. Usage: lpm search <query>"@,
            ArgError::NoPackage => "No package specified. Usage: lpm info <package>"@,
            ArgError::InvalidId(slot) => match slot {
                IdSlot::Only => "Invalid ID"@,
                IdSlot::First => "Invalid ID1"@,
                IdSlot::Second => "Invalid ID2"@,
            },
            ArgError::UnknownHistorySubcommand(v) => "Unknown history subcommand: "@ + v@,
            ArgError::NoComponents => "No components given for repo add"@,
            ArgError::UnknownRepoSubcommand(v) => "Unknown repo subcommand: "@ + v@,
            ArgError::UnknownKeySubcommand(v) => "Unknown key subcommand: "@ + v@,
            ArgError::NoFile(what) => if *what {
                "No file specified. Usage: lpm whatprovides <file>"@
            } else {
                "No file specified. Usage: lpm provides <file>"@
            },
            ArgError::UnknownCommand(c) => "Unknown command: '"@ + c@ + "'. Run `lpm help`."@,
            ArgError::Parser(m) => m@,
        }
    }

    pub fn message(&self, unexpected: &str) -> (r: String)
        ensures
            r@ == self.text(unexpected@),
    {
        match self {
            ArgError::UnexpectedArgument => String::from_str("Unexpected argument. Run `lpm help` for usage."),
            ArgError::UnknownFlag(_) => {
                let mut v: Vec<char> = chars_of("Unknown flag: ");
                extend_str(&mut v, unexpected);
                string_of(&v)
            },
            ArgError::NoPackages(install) => if *install {
                String::from_str("No packages specified. Usage: lpm install <pkg...>")
            } else {
                String::from_str("No packages specified. Usage: lpm remove <pkg...>")
            },
            ArgError::NoQuery => String::from_str("No search query. Usage: lpm search <query>"),
            ArgError::NoPackage => String::from_str("No package specified. Usage: lpm info <package>"),
            ArgError::InvalidId(slot) => match slot {
                IdSlot::Only => String::from_str("Invalid ID"),
                IdSlot::First => String::from_str("Invalid ID1"),
                IdSlot::Second => String::from_str("Invalid ID2"),
            },
            ArgError::UnknownHistorySubcommand(v) => {
                let mut t: Vec<char> = chars_of("Unknown history subcommand: ");
                extend_str(&mut t, v.as_str());
                string_of(&t)
            },
            ArgError::NoComponents => String::from_str("No components given for repo add"),
            ArgError::UnknownRepoSubcommand(v) => {
                let mut t: Vec<char> = chars_of("Unknown repo subcommand: ");
                extend_str(&mut t, v.as_str());
                string_of(&t)
            },
            ArgError::UnknownKeySubcommand(v) => {
                let mut t: Vec<char> = chars_of("Unknown key subcommand: ");
                extend_str(&mut t, v.as_str());
                string_of(&t)
            },
            ArgError::NoFile(what) => if *what {
                String::from_str("No file specified. Usage: lpm whatprovides <file>")
            } else {
                String::from_str("No file specified. Usage: lpm provides <file>")
            },
            ArgError::UnknownCommand(c) => {
                let mut t: Vec<char> = chars_of("Unknown command: '");
                extend_str(&mut t, c.as_str());
                extend_str(&mut t, "'. Run `lpm help`.");
                string_of(&t)
            },
            ArgError::Parser(m) => m.clone(),
        }
    }
}

/// The commands that change the system and so need root: install, remove, upgrade,
/// update, clean, autoremove, repo, key and import-dpkg.
pub open spec fn needs_root_spec(cmd: Command) -> bool {
    match cmd {
        Command::Install { .. } | Command::Remove { .. } | Command::Upgrade { .. } | Command::Update
        | Command::Clean | Command::Autoremove { .. } | Command::Repo { .. } | Command::Key { .. }
        | Command::ImportDpkg => true,
        _ => false,
    }
}

pub fn needs_root(cmd: &Command) -> (r: bool)
    ensures
        r == needs_root_spec(*cmd),
{
    match cmd {
        Command::Install { .. } | Command::Remove { .. } | Command::Upgrade { .. } | Command::Update
        | Command::Clean | Command::Autoremove { .. } | Command::Repo { .. } | Command::Key { .. }
        | Command::ImportDpkg => true,
        _ => false,
    }
}

/// The message when a command needs root and the user is not root; `args` are the
/// arguments as given.
pub fn root_required_message(args: &[String]) -> (r: String)
    ensures
        r@ == "This operation requires root privileges.\n  Try: sudo lpm "@ + join(names_of(args@), " "@),
{
    let mut v: Vec<char> = chars_of("This operation requires root privileges.\n  Try: sudo lpm ");
    let j = join_strings(args, " ");
    assert(args@.map_values(|p: String| p@) =~= names_of(args@));
    extend_str(&mut v, j.as_str());
    string_of(&v)
}


// ─────────────────────────────────────────────────────────────
//  Reading the arguments with lexopt
// ─────────────────────────────────────────────────────────────

#[verifier::external_type_specification]
#[verifier::external_body]
pub struct ExLexoptParser(lexopt::Parser);

/// An argument as the argument parser hands it out, as plain values.
pub enum ArgView {
    Short(char),
    Long(Seq<char>),
    Value(Seq<char>),
    End,
    Error(Seq<char>),
}

pub open spec fn event_view(e: ArgEvent) -> ArgView {
    match e {
        ArgEvent::Short(c) => ArgView::Short(c),
        ArgEvent::Long(l) => ArgView::Long(l@),
        ArgEvent::Value(v) => ArgView::Value(v@),
        ArgEvent::End => ArgView::End,
        ArgEvent::Error(m) => ArgView::Error(m@),
    }
}

/// The reply a `lexopt::Parser` made by `Parser::from_args` over `args` gives to the last
/// of the requests `asked` (`true` for `next`, `false` for `value`), the earlier requests
/// answered in turn: an option, a value, the end (`Ok(None)`), or an error with its text.
pub uninterp spec fn lexopt_reply(args: Seq<Seq<char>>, asked: Seq<bool>) -> ArgView;

/// The reply ends the reading: the end of the arguments or an error.
pub open spec fn ends(v: ArgView) -> bool {
    v is End || v is Error
}

/// A bound on how many replies come before the end or an error: each other reply uses up
/// at least one byte of an argument (four at most to a character) or a whole argument.
pub open spec fn arg_budget(args: Seq<Seq<char>>) -> nat
    decreases args.len(),
{
    if args.len() == 0 {
        1
    } else {
        arg_budget(args.drop_last()) + 4 * args.last().len() + 1
    }
}

/// Among the replies to the requests `asked` one ends the reading.
pub open spec fn some_end(args: Seq<Seq<char>>, asked: Seq<bool>) -> bool {
    exists|k: int| 0 <= k < asked.len() && #[trigger] ends(lexopt_reply(args, asked.take(k + 1)))
}

/// Reads arguments with `lexopt`, keeping what it was handed and what it was asked.
pub struct ArgReader {
    parser: lexopt::Parser,
    args: Ghost<Seq<Seq<char>>>,
    asked: Ghost<Seq<bool>>,
}

impl ArgReader {
    pub closed spec fn args(&self) -> Seq<Seq<char>> {
        self.args@
    }

    pub closed spec fn asked(&self) -> Seq<bool> {
        self.asked@
    }

    /// `lexopt::Parser::from_args` over the arguments, the program's name left out. The
    /// contract claims that nothing has been asked yet, and what `lexopt`'s source shows of
    /// its progress: every reply but the end or an error uses up at least one byte of an
    /// argument or a whole argument, so among any `arg_budget` replies one ends the reading.
    #[verifier::external_body]
    fn from_args(args: &Vec<String>) -> (r: ArgReader)
        ensures
            r.args() == names_of(args@),
            r.asked() == Seq::<bool>::empty(),
            forall|asked: Seq<bool>| asked.len() == arg_budget(r.args()) ==> #[trigger] some_end(r.args(), asked),
    {
        ArgReader { parser: lexopt::Parser::from_args(args.iter()), args: Ghost(names_of(args@)), asked: Ghost(Seq::empty()) }
    }

    /// `Parser::next`: an option, a value, `Ok(None)` as the end, or an error with its text.
    /// The request is added to those asked; the contract says that the reply is `lexopt`'s
    /// to that sequence of requests.
    #[verifier::external_body]
    fn next_event(&mut self) -> (e: ArgEvent)
        ensures
            final(self).args() == old(self).args(),
            final(self).asked() == old(self).asked().push(true),
            event_view(e) == lexopt_reply(old(self).args(), final(self).asked()),
    {
        let e = match self.parser.next() {
            Ok(Some(lexopt::Arg::Short(c))) => ArgEvent::Short(c),
            Ok(Some(lexopt::Arg::Long(l))) => ArgEvent::Long(l.to_string()),
            Ok(Some(lexopt::Arg::Value(v))) => ArgEvent::Value(v.to_string_lossy().into_owned()),
            Ok(None) => ArgEvent::End,
            Err(err) => ArgEvent::Error(err.to_string()),
        };
        self.asked = Ghost(self.asked@.push(true));
        e
    }

    /// `Parser::value`: the value of the option just read, or an error with its text. The
    /// request is added to those asked; the contract says that the reply is `lexopt`'s to
    /// that sequence of requests.
    #[verifier::external_body]
    fn value_event(&mut self) -> (e: ArgEvent)
        ensures
            final(self).args() == old(self).args(),
            final(self).asked() == old(self).asked().push(false),
            event_view(e) == lexopt_reply(old(self).args(), final(self).asked()),
    {
        let e = match self.parser.value() {
            Ok(v) => ArgEvent::Value(v.to_string_lossy().into_owned()),
            Err(err) => ArgEvent::Error(err.to_string()),
        };
        self.asked = Ghost(self.asked@.push(false));
        e
    }
}

/// How `lexopt` quotes a value in its messages (the `Debug` form of the `OsString`).
pub uninterp spec fn quoted_arg(v: Seq<char>) -> Seq<char>;

/// `lexopt::Arg::Value(v).unexpected()` as text: `unexpected argument` and the quoted value.
#[verifier::external_body]
fn unexpected_value_text(v: &str) -> (r: String)
    ensures
        r@ == "unexpected argument "@ + quoted_arg(v@),
{
    lexopt::Arg::Value(v.into()).unexpected().to_string()
}

/// How the argument parser words an option or value that the command does not take.
pub open spec fn unexpected_text_of(e: ArgEvent) -> Seq<char> {
    match e {
        ArgEvent::Short(c) => "invalid option '-"@ + seq![c] + "'"@,
        ArgEvent::Long(l) => "invalid option '--"@ + l@ + "'"@,
        ArgEvent::Value(v) => "unexpected argument "@ + quoted_arg(v@),
        _ => Seq::empty(),
    }
}

/// The wording an error's message uses for the argument it refuses.
pub open spec fn unexpected_of(e: ArgError) -> Seq<char> {
    match e {
        ArgError::UnknownFlag(ev) => unexpected_text_of(ev),
        _ => Seq::empty(),
    }
}

/// How the argument parser words an option or value that the command does not take.
pub fn unexpected_text(e: &ArgEvent) -> (r: String)
    ensures
        r@ == unexpected_text_of(*e),
{
    match e {
        ArgEvent::Short(c) => {
            let mut v: Vec<char> = chars_of("invalid option '-");
            v.push(*c);
            extend_str(&mut v, "'");
            proof {
                assert(v@ =~= "invalid option '-"@ + seq![*c] + "'"@);
            }
            string_of(&v)
        },
        ArgEvent::Long(l) => {
            let mut v: Vec<char> = chars_of("invalid option '--");
            extend_str(&mut v, l.as_str());
            extend_str(&mut v, "'");
            string_of(&v)
        },
        ArgEvent::Value(x) => unexpected_value_text(x.as_str()),
        _ => {
            let v: Vec<char> = Vec::new();
            assert(v@ =~= Seq::<char>::empty());
            string_of(&v)
        },
    }
}

/// One step of reading: the state, how the argument was asked for, the argument, and what
/// the step gave.
pub type StepRecord = (ParseState, ArgRequest, ArgEvent, ParseStep);

/// The requests of the steps, `true` for `next`.
pub open spec fn asks(tr: Seq<StepRecord>) -> Seq<bool> {
    tr.map_values(|x: StepRecord| x.1 == ArgRequest::Next)
}

/// The steps so far follow the table from the start, each argument being `lexopt`'s reply
/// to the requests up to it.
pub open spec fn steps_ok(args: Seq<Seq<char>>, tr: Seq<StepRecord>) -> bool {
    &&& tr.len() > 0 ==> tr[0].0 == ParseState::Start && tr[0].1 == ArgRequest::Next
    &&& forall|k: int| 0 <= k < tr.len() ==> step_ok(tr[k].0, tr[k].2, #[trigger] tr[k].3)
    &&& forall|k: int| 0 <= k < tr.len() ==> event_view(#[trigger] tr[k].2) == lexopt_reply(args, asks(tr.take(k + 1)))
    &&& forall|k: int| 0 <= k < tr.len() - 1 ==> #[trigger] tr[k].3 == ParseStep::Continue(tr[k + 1].0, tr[k + 1].1)
}

/// What the command line reads as, given the step that finished reading.
pub open spec fn read_result(step: ParseStep, r: Result<Command, String>) -> bool {
    match step {
        ParseStep::Done(c) => r == Ok::<Command, String>(c),
        ParseStep::Fail(e) => r matches Err(m) && m@ == e.text(unexpected_of(e)),
        ParseStep::Continue(_, _) => false,
    }
}

/// At the end of the arguments or on the parser's error, reading stops.
proof fn lemma_end_stops(s: ParseState, e: ArgEvent, r: ParseStep)
    requires
        step_ok(s, e, r),
        ends(event_view(e)),
    ensures
        !(r is Continue),
{
}

proof fn lemma_asks_take(tr: Seq<StepRecord>, k: int)
    requires
        0 <= k <= tr.len(),
    ensures
        asks(tr.take(k)) == asks(tr).take(k),
{
    assert(asks(tr.take(k)) =~= asks(tr).take(k));
}

/// Reads a command from the arguments (the program's name left out), with `lexopt`
/// handing out the arguments and `parse_step` deciding what each one means.
pub fn parse_args_from(args: Vec<String>) -> (r: Result<Command, String>)
    ensures
        exists|tr: Seq<StepRecord>| #[trigger] steps_ok(names_of(args@), tr) && tr.len() > 0 && read_result(tr.last().3, r),
{
    let mut reader = ArgReader::from_args(&args);
    let ghost a = names_of(args@);
    let ghost budget = arg_budget(a);
    let mut state = ParseState::Start;
    let mut request = ArgRequest::Next;
    let ghost mut tr: Seq<StepRecord> = Seq::empty();
    loop
        invariant
            a == names_of(args@),
            reader.args() == a,
            reader.asked() == asks(tr),
            budget == arg_budget(a),
            forall|asked: Seq<bool>| asked.len() == budget ==> #[trigger] some_end(a, asked),
            steps_ok(a, tr),
            tr.len() < budget,
            tr.len() == 0 ==> state == ParseState::Start && request == ArgRequest::Next,
            tr.len() > 0 ==> tr.last().3 == ParseStep::Continue(state, request),
            forall|k: int| 0 <= k < tr.len() ==> #[trigger] tr[k].3 is Continue,
        decreases budget - tr.len(),
    {
        let ghost s0 = state;
        let ghost q0 = request;
        let ev = match request {
            ArgRequest::Next => reader.next_event(),
            ArgRequest::Value => reader.value_event(),
        };
        let ghost e0 = ev;
        let step = parse_step(state, ev);
        let ghost st = step;
        let ghost old_tr = tr;
        proof {
            tr = tr.push((s0, q0, e0, st));
            assert(tr.take(old_tr.len() as int) == old_tr);
            assert(asks(tr) =~= asks(old_tr).push(q0 == ArgRequest::Next));
            assert(tr.take(tr.len() as int) == tr);
            assert forall|k: int| 0 <= k < tr.len() implies step_ok(tr[k].0, tr[k].2, #[trigger] tr[k].3) by {
                if k < old_tr.len() {
                    assert(tr[k] == old_tr[k]);
                }
            }
            assert forall|k: int| 0 <= k < tr.len() implies event_view(#[trigger] tr[k].2) == lexopt_reply(a, asks(tr.take(k + 1))) by {
                if k < old_tr.len() {
                    assert(tr[k] == old_tr[k]);
                    assert(tr.take(k + 1) == old_tr.take(k + 1));
                }
            }
            assert forall|k: int| 0 <= k < tr.len() - 1 implies #[trigger] tr[k].3 == ParseStep::Continue(tr[k + 1].0, tr[k + 1].1) by {
                assert(tr[k] == old_tr[k]);
                if k + 1 < old_tr.len() {
                    assert(tr[k + 1] == old_tr[k + 1]);
                }
            }
        }
        match step {
            ParseStep::Continue(next, req) => {
                proof {
                    if ends(event_view(e0)) {
                        lemma_end_stops(s0, e0, st);
                    }
                    assert forall|k: int| 0 <= k < tr.len() implies #[trigger] tr[k].3 is Continue by {
                        if k < old_tr.len() {
                            assert(tr[k] == old_tr[k]);
                        }
                    }
                    if tr.len() >= budget {
                        let asked = asks(tr).take(budget as int);
                        assert(some_end(a, asked));
                        let k = choose|k: int| 0 <= k < asked.len() && #[trigger] ends(lexopt_reply(a, asked.take(k + 1)));
                        lemma_asks_take(tr, k + 1);
                        assert(asked.take(k + 1) == asks(tr).take(k + 1));
                        assert(tr[k].3 is Continue);
                        assert(step_ok(tr[k].0, tr[k].2, tr[k].3));
                        assert(event_view(tr[k].2) == lexopt_reply(a, asks(tr.take(k + 1))));
                        lemma_end_stops(tr[k].0, tr[k].2, tr[k].3);
                        assert(false);
                    }
                }
                state = next;
                request = req;
            },
            ParseStep::Done(c) => {
                let r = Ok(c);
                assert(read_result(tr.last().3, r));
                assert(steps_ok(a, tr));
                return r;
            },
            ParseStep::Fail(e) => {
                let u = match &e {
                    ArgError::UnknownFlag(x) => unexpected_text(x),
                    _ => {
                        let v: Vec<char> = Vec::new();
                        assert(v@ =~= Seq::<char>::empty());
                        string_of(&v)
                    },
                };
                let m = e.message(u.as_str());
                let r: Result<Command, String> = Err(m);
                assert(read_result(tr.last().3, r));
                assert(steps_ok(a, tr));
                return r;
            },
        }
    }
}

} // verus!
