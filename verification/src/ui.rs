//! Small pieces of the terminal output: repository labels, plurals and truncated text.
//! Drawing tables, colours and prompts is the application's part.
use vstd::prelude::*;
use crate::package::{ov, Package};
use crate::text::{
    chars_eq, chars_eq_str, chars_of, decimal, decimal_of, extend_str, last_segment,
    last_segment_of, lines, lines_of, lowercase, lowercase_chars, prefix_bytes, prefix_within,
    string_of, strip_end, strip_end_chars, trim, trim_chars, utf8_len, CharClass,
};

verus! {

/// The label of a package's repository: the last path segment of its base URI (trailing
/// slashes dropped), or `unknown` without a URI.
pub open spec fn repo_label(p: Package) -> Seq<char> {
    last_segment(strip_end(match ov(p.repo_base_uri) {
        Some(u) => u,
        None => "unknown"@,
    }, CharClass::Exactly('/')))
}

/// The label of a package's repository.
pub fn repo_short(pkg: &Package) -> (r: String)
    ensures
        r@ == repo_label(*pkg),
{
    let u = match &pkg.repo_base_uri {
        Some(u) => chars_of(u.as_str()),
        None => chars_of("unknown"),
    };
    let t = strip_end_chars(&u, &CharClass::Exactly('/'));
    string_of(&last_segment_of(&t))
}

/// The plural ending for a count: none for one, `s` otherwise.
pub fn plural(n: usize) -> (r: &'static str)
    ensures
        r@ == if n == 1 {
            ""@
        } else {
            "s"@
        },
{
    if n == 1 {
        ""
    } else {
        "s"
    }
}

/// `max` bytes fall on a character boundary of `s`, or `s` is no longer than that.
pub open spec fn cut_fits(s: Seq<char>, max: int) -> bool {
    utf8_len(s) <= max || utf8_len(prefix_within(s, max)) == max
}

/// `s` cut to at most `max` bytes of UTF-8 (the cut must fall between characters).
pub open spec fn truncated(s: Seq<char>, max: int) -> Seq<char> {
    if utf8_len(s) <= max {
        s
    } else {
        prefix_within(s, max)
    }
}

/// The text cut to `max` bytes.
pub fn truncate(s: &str, max: usize) -> (r: String)
    requires
        cut_fits(s@, max as int),
    ensures
        r@ == truncated(s@, max as int),
{
    let v = chars_of(s);
    let (p, fits) = prefix_bytes(&v, max);
    if fits {
        string_of(&v)
    } else {
        string_of(&p)
    }
}

/// The text cut to `max` bytes.
pub fn truncate_owned(s: String, max: usize) -> (r: String)
    requires
        cut_fits(s@, max as int),
    ensures
        r@ == truncated(s@, max as int),
{
    truncate(s.as_str(), max)
}

/// The version an upgraded package had, as a plan's pairs of name and old version give
/// it; `?` where they do not name the package.
pub open spec fn old_version_in(pairs: Seq<(String, String)>, name: Seq<char>) -> Seq<char>
    decreases pairs.len(),
{
    if pairs.len() == 0 {
        "?"@
    } else if pairs[0].0@ == name {
        pairs[0].1@
    } else {
        old_version_in(pairs.drop_first(), name)
    }
}

/// The old version of an upgraded package, or `?`.
pub fn old_version_of(pairs: &Vec<(String, String)>, name: &str) -> (r: String)
    ensures
        r@ == old_version_in(pairs@, name@),
{
    let nc = chars_of(name);
    let mut i: usize = 0;
    assert(pairs@.skip(0) == pairs@);
    while i < pairs.len()
        invariant
            i <= pairs@.len(),
            nc@ == name@,
            old_version_in(pairs@, name@) == old_version_in(pairs@.skip(i as int), name@),
        decreases pairs.len() - i,
    {
        assert(pairs@.skip(i as int).drop_first() == pairs@.skip(i + 1));
        assert(pairs@.skip(i as int)[0] == pairs@[i as int]);
        if chars_eq(&chars_of(pairs[i].0.as_str()), &nc) {
            return pairs[i].1.clone();
        }
        i = i + 1;
    }
    assert(pairs@.skip(i as int).len() == 0);
    String::from_str("?")
}

/// The version column of an upgrade: `old -> new`.
pub fn upgrade_version_text(old: &str, new: &str) -> (r: String)
    ensures
        r@ == old@ + " -> "@ + new@,
{
    let mut v: Vec<char> = chars_of(old);
    extend_str(&mut v, " -> ");
    extend_str(&mut v, new);
    string_of(&v)
}

/// Whether an answer to a yes/no question is yes: `y` or `yes`, letter case and the
/// surrounding whitespace aside.
pub open spec fn says_yes(answer: Seq<char>) -> bool {
    lowercase(trim(answer)) == "y"@ || lowercase(trim(answer)) == "yes"@
}

pub fn is_yes(answer: &str) -> (r: bool)
    ensures
        r == says_yes(answer@),
{
    let t = trim_chars(&chars_of(answer));
    let l = lowercase_chars(&t);
    chars_eq_str(&l, "y") || chars_eq_str(&l, "yes")
}

/// How the history names an operation.
pub open spec fn action_text(action: Seq<char>) -> Seq<char> {
    if action == "install"@ {
        "Install"@
    } else if action == "remove"@ {
        "Erase"@
    } else if action == "upgrade"@ {
        "Upgrade"@
    } else {
        action
    }
}

pub fn action_label(action: &str) -> (r: String)
    ensures
        r@ == action_text(action@),
{
    let a = chars_of(action);
    if chars_eq_str(&a, "install") {
        String::from_str("Install")
    } else if chars_eq_str(&a, "remove") {
        String::from_str("Erase")
    } else if chars_eq_str(&a, "upgrade") {
        String::from_str("Upgrade")
    } else {
        String::from_str(action)
    }
}

/// The versions the history shows for an operation: the new one, the old one, both as
/// `old -> new`, or nothing.
pub open spec fn versions_text(old: Option<Seq<char>>, new: Option<Seq<char>>) -> Seq<char> {
    match (old, new) {
        (None, Some(n)) => n,
        (Some(o), None) => o,
        (Some(o), Some(n)) => o + " -> "@ + n,
        (None, None) => Seq::empty(),
    }
}

pub fn history_versions(old: &Option<String>, new: &Option<String>) -> (r: String)
    ensures
        r@ == versions_text(ov(*old), ov(*new)),
{
    match (old, new) {
        (None, Some(n)) => n.clone(),
        (Some(o), None) => o.clone(),
        (Some(o), Some(n)) => upgrade_version_text(o.as_str(), n.as_str()),
        (None, None) => String::new(),
    }
}

/// The lines `info` shows for a long description: each line trimmed and indented by two
/// spaces, a line of a single `.` shown empty.
pub open spec fn description_line(l: Seq<char>) -> Seq<char> {
    if trim(l) == seq!['.'] {
        Seq::empty()
    } else {
        seq![' ', ' '] + trim(l)
    }
}

pub fn description_lines(d: &str) -> (r: Vec<String>)
    ensures
        r@.len() == lines(d@).len(),
        forall|i: int| 0 <= i < r@.len() ==> (#[trigger] r@[i])@ == description_line(lines(d@)[i]),
{
    let c = chars_of(d);
    let ls = lines_of(&c);
    let mut out: Vec<String> = Vec::new();
    let mut i: usize = 0;
    while i < ls.len()
        invariant
            i <= ls@.len(),
            c@ == d@,
            ls@.len() == lines(c@).len(),
            forall|k: int| 0 <= k < ls@.len() ==> (#[trigger] ls@[k])@ == lines(c@)[k],
            out@.len() == i,
            forall|k: int| 0 <= k < i ==> (#[trigger] out@[k])@ == description_line(lines(c@)[k]),
        decreases ls.len() - i,
    {
        let t = trim_chars(&ls[i]);
        let line = if t.len() == 1 && t[0] == '.' {
            assert(t@ == seq!['.']);
            String::new()
        } else {
            assert(t@ != seq!['.']);
            let mut v: Vec<char> = Vec::new();
            v.push(' ');
            v.push(' ');
            let mut w = v;
            crate::text::extend_chars(&mut w, &t);
            string_of(&w)
        };
        out.push(line);
        i = i + 1;
    }
    out
}

/// The last column of `list`: `@installed`, with the newer version where one is
/// available, for an installed package; the repository otherwise.
pub open spec fn list_tag_text(is_installed: bool, repo: Seq<char>, new_version: Option<Seq<char>>) -> Seq<char> {
    if is_installed {
        match new_version {
            Some(n) => "@installed (upgrade available: "@ + n + seq![')'],
            None => "@installed"@,
        }
    } else {
        repo
    }
}

pub fn list_tag(is_installed: bool, repo: &str, new_version: &Option<String>) -> (r: String)
    ensures
        r@ == list_tag_text(is_installed, repo@, ov(*new_version)),
{
    if is_installed {
        match new_version {
            Some(n) => {
                let mut v: Vec<char> = chars_of("@installed (upgrade available: ");
                extend_str(&mut v, n.as_str());
                v.push(')');
                string_of(&v)
            },
            None => String::from_str("@installed"),
        }
    } else {
        String::from_str(repo)
    }
}

/// The heading of search results.
pub fn search_header(query: &str, count: u64) -> (r: String)
    ensures
        r@ == "==================== N/S matched: "@ + decimal(count as nat) + " : "@ + query@
            + " ===================="@,
{
    let mut v: Vec<char> = chars_of("==================== N/S matched: ");
    let d = decimal_of(count);
    crate::text::extend_chars(&mut v, &d);
    extend_str(&mut v, " : ");
    extend_str(&mut v, query);
    extend_str(&mut v, " ====================");
    string_of(&v)
}

} // verus!
