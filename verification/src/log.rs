//! The lines of the log file. Taking the time and appending to the file is the
//! application's part; the time comes in as text.
use vstd::prelude::*;
use crate::text::{chars_of, extend_chars, extend_str, join, join_strings, names_of, string_of};

verus! {

/// `n` spaces.
pub open spec fn spaces(n: int) -> Seq<char> {
    Seq::new(if n > 0 { n as nat } else { 0 }, |i: int| ' ')
}

/// The text padded with spaces on the right to `w` characters (`{:w}`).
pub open spec fn padded(s: Seq<char>, w: int) -> Seq<char> {
    s + spaces(w - s.len())
}

/// A log line: time, level padded to 5, message.
pub open spec fn log_line(now: Seq<char>, level: Seq<char>, msg: Seq<char>) -> Seq<char> {
    "["@ + now + "] "@ + padded(level, 5) + " "@ + msg + "\n"@
}

fn pad_to(v: &mut Vec<char>, s: &str, w: usize)
    ensures
        final(v)@ == old(v)@ + padded(s@, w as int),
{
    let sc = chars_of(s);
    extend_chars(v, &sc);
    let mut k: usize = sc.len();
    let ghost base = old(v)@ + s@;
    while k < w
        invariant
            sc@ == s@,
            sc@.len() <= k || k == sc@.len(),
            k >= sc@.len(),
            k <= w || k == sc@.len(),
            v@ == base + spaces(k - sc@.len()),
        decreases w - k,
    {
        v.push(' ');
        assert(spaces(k + 1 - sc@.len()) =~= spaces(k - sc@.len()).push(' '));
        k = k + 1;
    }
    assert(spaces(k - sc@.len()) =~= spaces(w - s@.len()));
}

/// A log line for a level and a message.
pub fn line(now: &str, level: &str, msg: &str) -> (r: String)
    ensures
        r@ == log_line(now@, level@, msg@),
{
    let mut v: Vec<char> = Vec::new();
    extend_str(&mut v, "[");
    extend_str(&mut v, now);
    extend_str(&mut v, "] ");
    pad_to(&mut v, level, 5);
    extend_str(&mut v, " ");
    extend_str(&mut v, msg);
    extend_str(&mut v, "\n");
    assert(v@ =~= log_line(now@, level@, msg@));
    string_of(&v)
}

/// An `INFO` line.
pub fn info(now: &str, msg: &str) -> (r: String)
    ensures
        r@ == log_line(now@, "INFO"@, msg@),
{
    line(now, "INFO", msg)
}

/// A `WARN` line.
pub fn warn(now: &str, msg: &str) -> (r: String)
    ensures
        r@ == log_line(now@, "WARN"@, msg@),
{
    line(now, "WARN", msg)
}

/// An `ERROR` line.
pub fn error(now: &str, msg: &str) -> (r: String)
    ensures
        r@ == log_line(now@, "ERROR"@, msg@),
{
    line(now, "ERROR", msg)
}

/// The line for the program's invocation: `lpm` and its arguments.
pub fn cmd(now: &str, args: &[String]) -> (r: String)
    ensures
        r@ == log_line(now@, "CMD"@, "lpm "@ + join(names_of(args@), " "@)),
{
    let j = join_strings(args, " ");
    assert(args@.map_values(|p: String| p@) =~= names_of(args@));
    let mut m: Vec<char> = Vec::new();
    extend_str(&mut m, "lpm ");
    extend_str(&mut m, j.as_str());
    let ms = string_of(&m);
    line(now, "CMD", ms.as_str())
}

/// The line for the start of a transaction.
pub fn transaction_start(now: &str, action: &str, packages: &[String]) -> (r: String)
    ensures
        r@ == log_line(now@, "INFO"@, "transaction::"@ + action@ + " ["@ + join(names_of(packages@), ", "@) + "]"@),
{
    let j = join_strings(packages, ", ");
    assert(packages@.map_values(|p: String| p@) =~= names_of(packages@));
    let mut m: Vec<char> = Vec::new();
    extend_str(&mut m, "transaction::");
    extend_str(&mut m, action);
    extend_str(&mut m, " [");
    extend_str(&mut m, j.as_str());
    extend_str(&mut m, "]");
    let ms = string_of(&m);
    line(now, "INFO", ms.as_str())
}

/// The line for the end of a transaction.
pub fn transaction_done(now: &str, action: &str, packages: &[String]) -> (r: String)
    ensures
        r@ == log_line(now@, "INFO"@, "transaction::"@ + action@ + " done ["@ + join(names_of(packages@), ", "@) + "]"@),
{
    let j = join_strings(packages, ", ");
    assert(packages@.map_values(|p: String| p@) =~= names_of(packages@));
    let mut m: Vec<char> = Vec::new();
    extend_str(&mut m, "transaction::");
    extend_str(&mut m, action);
    extend_str(&mut m, " done [");
    extend_str(&mut m, j.as_str());
    extend_str(&mut m, "]");
    let ms = string_of(&m);
    line(now, "INFO", ms.as_str())
}

/// The line for an operation on a package: the action padded to 10, name and version.
pub fn pkg(now: &str, action: &str, name: &str, version: &str) -> (r: String)
    ensures
        r@ == log_line(now@, "PKG"@, padded(action@, 10) + " "@ + name@ + "-"@ + version@),
{
    let mut m: Vec<char> = Vec::new();
    pad_to(&mut m, action, 10);
    extend_str(&mut m, " ");
    extend_str(&mut m, name);
    extend_str(&mut m, "-");
    extend_str(&mut m, version);
    let ms = string_of(&m);
    assert(ms@ =~= padded(action@, 10) + " "@ + name@ + "-"@ + version@);
    line(now, "PKG", ms.as_str())
}

/// The line for an operation on a file: the action padded to 8, and the path.
pub fn file_op(now: &str, action: &str, path: &str) -> (r: String)
    ensures
        r@ == log_line(now@, "FILE"@, padded(action@, 8) + " "@ + path@),
{
    let mut m: Vec<char> = Vec::new();
    pad_to(&mut m, action, 8);
    extend_str(&mut m, " ");
    extend_str(&mut m, path);
    let ms = string_of(&m);
    assert(ms@ =~= padded(action@, 8) + " "@ + path@);
    line(now, "FILE", ms.as_str())
}

} // verus!
