//! Repository configuration: `sources.list` one-line entries and `[[repo]]` tables, and the
//! index URLs they lead to. Reading the files is the application's part.
use vstd::prelude::*;
use crate::package::{clone_opt, ov};
use crate::text::{
    char_views, chars_eq_str, chars_of, find_char, find_char_in, find_str_in, find_sub, join,
    join_chars, lemma_find_char, lemma_find_sub, lemma_names_push, lines, lines_of, names_of,
    slice_chars, split_char, split_chars, starts_with, starts_with_str, strings_of, string_of,
    strip_end, strip_end_chars, strip_start, strip_start_chars, trim, trim_chars, trim_start,
    trim_start_chars, words, words_of, extend_chars, extend_str, CharClass,
};

verus! {

// ─────────────────────────────────────────────────────────────
//  Types
// ─────────────────────────────────────────────────────────────

/// One `[[repo]]` table of `sources-list.toml`.
#[derive(Debug)]
pub struct TomlRepo {
    pub name: String,
    pub baseurl: String,
    pub suite: String,
    pub components: Vec<String>,
    pub arch: Vec<String>,
    pub enabled: bool,
    pub gpgkey: Option<String>,
}

/// The value `enabled` takes when a table leaves it out.
pub fn default_true() -> (r: bool)
    ensures
        r,
{
    true
}

/// Binary (`deb`) or source (`deb-src`) entry.
#[derive(Debug, Clone, Copy, PartialEq, Eq, Structural)]
pub enum EntryKind {
    Deb,
    DebSrc,
}

/// One configured repository, from either format.
#[derive(Debug)]
pub struct SourceEntry {
    pub kind: EntryKind,
    pub uri: String,
    pub suite: String,
    pub components: Vec<String>,
    pub arches: Vec<String>,
    pub signed_by: Option<String>,
    pub enabled: bool,
    /// Human label (the `name` of a TOML table)
    pub label: Option<String>,
}

/// All configured repositories, in the order they were read.
pub struct SourcesList {
    pub entries: Vec<SourceEntry>,
}

/// One `Packages` index to fetch.
#[derive(Debug)]
pub struct IndexUrl {
    pub url: String,
    pub base_uri: String,
    pub suite: String,
    pub component: String,
    pub arch: String,
    pub label: Option<String>,
}

fn copy_strings(v: &Vec<String>) -> (r: Vec<String>)
    ensures
        r@ == v@,
{
    let mut out: Vec<String> = Vec::new();
    let mut i: usize = 0;
    while i < v.len()
        invariant
            i <= v@.len(),
            out@ == v@.take(i as int),
        decreases v@.len() - i,
    {
        out.push(v[i].clone());
        assert(v@.take(i + 1) == v@.take(i as int).push(v@[i as int]));
        i = i + 1;
    }
    assert(v@.take(v@.len() as int) == v@);
    out
}

/// Two entries with the same contents.
pub open spec fn same_entry(a: SourceEntry, b: SourceEntry) -> bool {
    &&& a.kind == b.kind
    &&& a.uri@ == b.uri@
    &&& a.suite@ == b.suite@
    &&& a.components@ == b.components@
    &&& a.arches@ == b.arches@
    &&& a.signed_by == b.signed_by
    &&& a.enabled == b.enabled
    &&& a.label == b.label
}

impl SourceEntry {
    /// A copy of the entry.
    pub fn duplicate(&self) -> (r: SourceEntry)
        ensures
            same_entry(r, *self),
    {
        SourceEntry {
            kind: self.kind,
            uri: self.uri.clone(),
            suite: self.suite.clone(),
            components: copy_strings(&self.components),
            arches: copy_strings(&self.arches),
            signed_by: clone_opt(&self.signed_by),
            enabled: self.enabled,
            label: clone_opt(&self.label),
        }
    }
}

// ─────────────────────────────────────────────────────────────
//  Options of a one-line entry: `[arch=amd64,i386 signed-by=/path]`
// ─────────────────────────────────────────────────────────────

/// The words of the options, if there are options.
pub open spec fn option_words(o: Option<Seq<char>>) -> Seq<Seq<char>> {
    match o {
        Some(s) => words(s),
        None => Seq::empty(),
    }
}

/// The architectures of the last `arch=` option, split at commas.
pub open spec fn option_arches(toks: Seq<Seq<char>>) -> Seq<Seq<char>>
    decreases toks.len(),
{
    if toks.len() == 0 {
        Seq::empty()
    } else if starts_with(toks.last(), "arch="@) {
        split_char(toks.last().skip(5), ',')
    } else {
        option_arches(toks.drop_last())
    }
}

/// The value of the last `signed-by=` option.
pub open spec fn option_signed_by(toks: Seq<Seq<char>>) -> Option<Seq<char>>
    decreases toks.len(),
{
    if toks.len() == 0 {
        None
    } else if starts_with(toks.last(), "signed-by="@) {
        Some(toks.last().skip(10))
    } else {
        option_signed_by(toks.drop_last())
    }
}

/// Reads the options of a one-line entry: architectures and the signing key.
pub fn parse_options(opts: Option<&str>) -> (r: (Vec<String>, Option<String>))
    ensures
        names_of(r.0@) == option_arches(option_words(match opts { Some(o) => Some(o@), None => None })),
        ov(r.1) == option_signed_by(option_words(match opts { Some(o) => Some(o@), None => None })),
{
    let ghost ow = option_words(match opts { Some(o) => Some(o@), None => None });
    let mut arches: Vec<String> = Vec::new();
    let mut signed_by: Option<String> = None;
    let toks: Vec<Vec<char>> = match opts {
        Some(o) => words_of(&chars_of(o)),
        None => Vec::new(),
    };
    assert(toks@.len() == ow.len());
    assert(names_of(arches@) =~= Seq::<Seq<char>>::empty());
    let mut i: usize = 0;
    while i < toks.len()
        invariant
            i <= toks@.len(),
            toks@.len() == ow.len(),
            forall|j: int| 0 <= j < toks@.len() ==> (#[trigger] toks@[j])@ == ow[j],
            names_of(arches@) == option_arches(ow.take(i as int)),
            ov(signed_by) == option_signed_by(ow.take(i as int)),
        decreases toks@.len() - i,
    {
        proof {
            assert(ow.take(i + 1).drop_last() == ow.take(i as int));
            assert(ow.take(i + 1).last() == ow[i as int]);
        }
        let tok = &toks[i];
        if starts_with_str(tok, "arch=") {
            proof {
                reveal_strlit("arch=");
            }
            let rest = slice_chars(tok, 5, tok.len());
            assert(rest@ == tok@.skip(5));
            let parts = split_chars(&rest, ',');
            assert(char_views(parts@) =~= split_char(rest@, ','));
            arches = strings_of(&parts);
        }
        if starts_with_str(tok, "signed-by=") {
            proof {
                reveal_strlit("signed-by=");
                reveal_strlit("arch=");
                assert(!starts_with(tok@, "arch="@)) by {
                    if starts_with(tok@, "arch="@) {
                        assert(tok@.take(5)[0] == tok@[0]);
                        assert(tok@.take(10)[0] == tok@[0]);
                    }
                }
            }
            let rest = slice_chars(tok, 10, tok.len());
            assert(rest@ == tok@.skip(10));
            signed_by = Some(string_of(&rest));
        }
        i = i + 1;
    }
    assert(ow.take(ow.len() as int) == ow);
    (arches, signed_by)
}


// ─────────────────────────────────────────────────────────────
//  One-line entries: `deb [options] uri suite component...`
// ─────────────────────────────────────────────────────────────

/// The parts of a one-line entry: its kind, whether it is enabled (a `# deb` line is not),
/// its options, and its words (URI, suite, then the components). `None` where the line is
/// no entry: no `deb`/`deb-src`, an unclosed `[`, or fewer than two words.
pub open spec fn deb_line(line: Seq<char>) -> Option<(EntryKind, bool, Option<Seq<char>>, Seq<Seq<char>>)> {
    let disabled = starts_with(line, "# deb"@);
    let body = if disabled {
        trim(strip_start(line, CharClass::Exactly('#')))
    } else {
        line
    };
    let kr = if starts_with(body, "deb-src"@) {
        Some((EntryKind::DebSrc, trim_start(body.skip(7))))
    } else if starts_with(body, "deb"@) {
        Some((EntryKind::Deb, trim_start(body.skip(3))))
    } else {
        None
    };
    match kr {
        None => None,
        Some((kind, rest)) => {
            let opt = if rest.len() > 0 && rest[0] == '[' {
                match find_char(rest, ']') {
                    Some(e) => Some((Some(rest.subrange(1, e)), trim_start(rest.skip(e + 1)))),
                    None => None,
                }
            } else {
                Some((None, rest))
            };
            match opt {
                None => None,
                Some((o, rest2)) => if words(rest2).len() >= 2 {
                    Some((kind, !disabled, o, words(rest2)))
                } else {
                    None
                },
            }
        },
    }
}

/// `e` is the entry a line with these parts describes.
pub open spec fn entry_from_line(e: SourceEntry, parts: (EntryKind, bool, Option<Seq<char>>, Seq<Seq<char>>)) -> bool {
    let (kind, enabled, o, toks) = parts;
    &&& e.kind == kind
    &&& e.enabled == enabled
    &&& e.uri@ == toks[0]
    &&& e.suite@ == toks[1]
    &&& names_of(e.components@) == toks.skip(2)
    &&& names_of(e.arches@) == option_arches(option_words(o))
    &&& ov(e.signed_by) == option_signed_by(option_words(o))
    &&& e.label is None
}

/// Reads a one-line entry such as `deb [arch=amd64] http://deb.debian.org/debian stable main`.
pub fn parse_deb822_line(line: &str) -> (r: Option<SourceEntry>)
    ensures
        match r {
            Some(e) => deb_line(line@) matches Some(parts) && entry_from_line(e, parts),
            None => deb_line(line@) is None,
        },
{
    proof {
        reveal_strlit("# deb");
        reveal_strlit("deb-src");
        reveal_strlit("deb");
    }
    let lc = chars_of(line);
    let disabled = starts_with_str(&lc, "# deb");
    let body: Vec<char> = if disabled {
        let s = strip_start_chars(&lc, &CharClass::Exactly('#'));
        trim_chars(&s)
    } else {
        lc
    };
    let kind: EntryKind;
    let rest: Vec<char>;
    if starts_with_str(&body, "deb-src") {
        kind = EntryKind::DebSrc;
        let tail = slice_chars(&body, 7, body.len());
        assert(tail@ == body@.skip(7));
        rest = trim_start_chars(&tail);
    } else if starts_with_str(&body, "deb") {
        kind = EntryKind::Deb;
        let tail = slice_chars(&body, 3, body.len());
        assert(tail@ == body@.skip(3));
        rest = trim_start_chars(&tail);
    } else {
        return None;
    }
    let opts: Option<Vec<char>>;
    let rest2: Vec<char>;
    if rest.len() > 0 && rest[0] == '[' {
        proof {
            lemma_find_char(rest@, ']');
        }
        match find_char_in(&rest, ']') {
            Some(e) => {
                opts = Some(slice_chars(&rest, 1, e));
                let tail = slice_chars(&rest, e + 1, rest.len());
                assert(tail@ == rest@.skip(e + 1));
                rest2 = trim_start_chars(&tail);
            },
            None => {
                return None;
            },
        }
    } else {
        opts = None;
        rest2 = rest;
    }
    let toks = words_of(&rest2);
    if toks.len() < 2 {
        return None;
    }
    let ghost wv = words(rest2@);
    let opt_str: Option<String> = match &opts {
        Some(o) => Some(string_of(o)),
        None => None,
    };
    let (arches, signed_by) = parse_options(match &opt_str {
        Some(o) => Some(o.as_str()),
        None => None,
    });
    let comp_chars = slice_vecs(&toks, 2);
    let components = strings_of(&comp_chars);
    proof {
        assert(char_views(toks@) =~= wv);
        assert(char_views(comp_chars@) =~= wv.skip(2));
    }
    Some(SourceEntry {
        kind,
        uri: string_of(&toks[0]),
        suite: string_of(&toks[1]),
        components,
        arches,
        signed_by,
        enabled: !disabled,
        label: None,
    })
}

/// Copies of the vectors of `v` from index `from` on.
fn slice_vecs(v: &Vec<Vec<char>>, from: usize) -> (r: Vec<Vec<char>>)
    requires
        from <= v@.len(),
    ensures
        char_views(r@) == char_views(v@).skip(from as int),
{
    let mut out: Vec<Vec<char>> = Vec::new();
    let mut i: usize = from;
    while i < v.len()
        invariant
            from <= i <= v@.len(),
            char_views(out@) == char_views(v@).subrange(from as int, i as int),
        decreases v@.len() - i,
    {
        let ghost before = out@;
        out.push(slice_chars(&v[i], 0, v[i].len()));
        proof {
            assert(v@[i as int]@.subrange(0, v@[i as int]@.len() as int) == v@[i as int]@);
            assert(char_views(out@) =~= char_views(before).push(v@[i as int]@));
            assert(char_views(v@).subrange(from as int, i + 1) =~= char_views(v@).subrange(from as int, i as int).push(v@[i as int]@));
        }
        i = i + 1;
    }
    out
}

/// The entries of a `sources.list` text: each line trimmed; empty lines and comments are
/// skipped, as are lines that are no entry. A `# deb` line is no comment but a disabled
/// entry, as the repository editor writes one.
pub open spec fn source_lines(ls: Seq<Seq<char>>) -> Seq<(EntryKind, bool, Option<Seq<char>>, Seq<Seq<char>>)>
    decreases ls.len(),
{
    if ls.len() == 0 {
        Seq::empty()
    } else {
        let rest = source_lines(ls.drop_last());
        let t = trim(ls.last());
        if t.len() == 0 || (t[0] == '#' && !starts_with(t, "# deb"@)) {
            rest
        } else {
            match deb_line(t) {
                Some(p) => rest.push(p),
                None => rest,
            }
        }
    }
}

/// Reads the entries of a `sources.list` text.
pub fn parse_sources_list(content: &str) -> (r: Vec<SourceEntry>)
    ensures
        r@.len() == source_lines(lines(content@)).len(),
        forall|i: int| 0 <= i < r@.len() ==> entry_from_line(#[trigger] r@[i], source_lines(lines(content@))[i]),
{
    let ls = lines_of(&chars_of(content));
    let ghost lv = lines(content@);
    let mut out: Vec<SourceEntry> = Vec::new();
    let mut i: usize = 0;
    while i < ls.len()
        invariant
            i <= ls@.len(),
            ls@.len() == lv.len(),
            forall|j: int| 0 <= j < ls@.len() ==> (#[trigger] ls@[j])@ == lv[j],
            out@.len() == source_lines(lv.take(i as int)).len(),
            forall|k: int| 0 <= k < out@.len() ==> entry_from_line(#[trigger] out@[k], source_lines(lv.take(i as int))[k]),
        decreases ls@.len() - i,
    {
        proof {
            assert(lv.take(i + 1).drop_last() == lv.take(i as int));
            assert(lv.take(i + 1).last() == lv[i as int]);
        }
        let t = trim_chars(&ls[i]);
        if t.len() > 0 && (t[0] != '#' || starts_with_str(&t, "# deb")) {
            let ts = string_of(&t);
            match parse_deb822_line(ts.as_str()) {
                Some(e) => {
                    let ghost before = out@;
                    out.push(e);
                    assert forall|k: int| 0 <= k < out@.len() implies entry_from_line(#[trigger] out@[k], source_lines(lv.take(i + 1))[k]) by {
                        if k < before.len() {
                            assert(out@[k] == before[k]);
                        }
                    }
                },
                None => {},
            }
        }
        i = i + 1;
    }
    assert(lv.take(lv.len() as int) == lv);
    out
}


// ─────────────────────────────────────────────────────────────
//  `sources-list.toml`
// ─────────────────────────────────────────────────────────────

/// A line of `sources-list.toml` without its inline comment: what comes before the first
/// ` #` (a `#` inside a string is cut too).
pub open spec fn uncommented(l: Seq<char>) -> Seq<char> {
    match find_sub(l, " #"@) {
        Some(i) => l.take(i),
        None => l,
    }
}

pub open spec fn uncommented_lines(ls: Seq<Seq<char>>) -> Seq<Seq<char>>
    decreases ls.len(),
{
    if ls.len() == 0 {
        Seq::empty()
    } else {
        uncommented_lines(ls.drop_last()).push(uncommented(ls.last()))
    }
}

/// The text of `sources-list.toml` with inline comments cut, lines joined by `\n`, ready
/// for the TOML reader.
pub fn strip_inline_comments(content: &str) -> (r: String)
    ensures
        r@ == join(uncommented_lines(lines(content@)), "\n"@),
{
    let ls = lines_of(&chars_of(content));
    let ghost lv = lines(content@);
    let mut parts: Vec<Vec<char>> = Vec::new();
    let mut i: usize = 0;
    while i < ls.len()
        invariant
            i <= ls@.len(),
            ls@.len() == lv.len(),
            forall|j: int| 0 <= j < ls@.len() ==> (#[trigger] ls@[j])@ == lv[j],
            char_views(parts@) == uncommented_lines(lv.take(i as int)),
        decreases ls@.len() - i,
    {
        proof {
            assert(lv.take(i + 1).drop_last() == lv.take(i as int));
            assert(lv.take(i + 1).last() == lv[i as int]);
            lemma_find_sub(ls@[i as int]@, " #"@);
        }
        let l = &ls[i];
        let cut: Vec<char> = match find_str_in(l, " #") {
            Some(k) => {
                proof {
                    reveal_strlit(" #");
                }
                let c = slice_chars(l, 0, k);
                assert(c@ == l@.take(k as int));
                c
            },
            None => slice_chars(l, 0, l.len()),
        };
        assert(l@.subrange(0, l@.len() as int) == l@);
        let ghost before = parts@;
        parts.push(cut);
        assert(char_views(parts@) =~= char_views(before).push(uncommented(lv[i as int])));
        i = i + 1;
    }
    assert(lv.take(lv.len() as int) == lv);
    let joined = join_chars(&parts, "\n");
    assert(parts@.map_values(|p: Vec<char>| p@) =~= char_views(parts@));
    string_of(&joined)
}

/// The entry a `[[repo]]` table describes: a binary entry labelled with the table's name.
pub open spec fn entry_from_table(e: SourceEntry, t: TomlRepo) -> bool {
    &&& e.kind == EntryKind::Deb
    &&& e.uri@ == t.baseurl@
    &&& e.suite@ == t.suite@
    &&& e.components@ == t.components@
    &&& e.arches@ == t.arch@
    &&& e.signed_by == t.gpgkey
    &&& e.enabled == t.enabled
    &&& e.label == Some(t.name)
}

/// The entries of the `[[repo]]` tables, in order.
pub fn entries_from_toml(repos: &[TomlRepo]) -> (r: Vec<SourceEntry>)
    ensures
        r@.len() == repos@.len(),
        forall|i: int| 0 <= i < r@.len() ==> entry_from_table(#[trigger] r@[i], repos@[i]),
{
    let mut out: Vec<SourceEntry> = Vec::new();
    let mut i: usize = 0;
    while i < repos.len()
        invariant
            i <= repos@.len(),
            out@.len() == i,
            forall|k: int| 0 <= k < i ==> entry_from_table(#[trigger] out@[k], repos@[k]),
        decreases repos@.len() - i,
    {
        let t = &repos[i];
        let ghost before = out@;
        out.push(SourceEntry {
            kind: EntryKind::Deb,
            uri: t.baseurl.clone(),
            suite: t.suite.clone(),
            components: copy_strings(&t.components),
            arches: copy_strings(&t.arch),
            signed_by: clone_opt(&t.gpgkey),
            enabled: t.enabled,
            label: Some(t.name.clone()),
        });
        assert forall|k: int| 0 <= k < i + 1 implies entry_from_table(#[trigger] out@[k], repos@[k]) by {
            if k < i {
                assert(out@[k] == before[k]);
            }
        }
        i = i + 1;
    }
    out
}

// ─────────────────────────────────────────────────────────────
//  Suites
// ─────────────────────────────────────────────────────────────

/// The canonical name of a suite: `sid` is `unstable`; any other name stays as it is.
pub fn normalize_suite<'a>(suite: &'a str) -> (r: &'a str)
    ensures
        r@ == if suite@ == "sid"@ {
            "unstable"@
        } else {
            suite@
        },
{
    if chars_eq_str(&chars_of(suite), "sid") {
        "unstable"
    } else {
        suite
    }
}

// ─────────────────────────────────────────────────────────────
//  Index URLs
// ─────────────────────────────────────────────────────────────

/// An index URL as plain values: URL, base URI, suite, component, architecture, label.
pub open spec fn url_view(u: IndexUrl) -> (Seq<char>, Seq<char>, Seq<char>, Seq<char>, Seq<char>, Option<Seq<char>>) {
    (u.url@, u.base_uri@, u.suite@, u.component@, u.arch@, ov(u.label))
}

pub open spec fn urls_view(v: Seq<IndexUrl>) -> Seq<(Seq<char>, Seq<char>, Seq<char>, Seq<char>, Seq<char>, Option<Seq<char>>)> {
    v.map_values(|u: IndexUrl| url_view(u))
}

/// The URI without trailing slashes.
pub open spec fn repo_root(e: SourceEntry) -> Seq<char> {
    strip_end(e.uri@, CharClass::Exactly('/'))
}

/// The architectures an entry is fetched for: its own, or else the machine's.
pub open spec fn entry_arches(e: SourceEntry, arch: Seq<char>) -> Seq<Seq<char>> {
    if e.arches@.len() == 0 {
        seq![arch]
    } else {
        names_of(e.arches@)
    }
}

/// The index of one component for one architecture:
/// `<root>/dists/<suite>/<component>/binary-<arch>/Packages`.
pub open spec fn component_url(e: SourceEntry, a: Seq<char>, c: Seq<char>) -> (Seq<char>, Seq<char>, Seq<char>, Seq<char>, Seq<char>, Option<Seq<char>>) {
    (repo_root(e) + "/dists/"@ + e.suite@ + "/"@ + c + "/binary-"@ + a + "/Packages"@, e.uri@, e.suite@, c, a, ov(e.label))
}

pub open spec fn component_urls(e: SourceEntry, a: Seq<char>, comps: Seq<Seq<char>>) -> Seq<(Seq<char>, Seq<char>, Seq<char>, Seq<char>, Seq<char>, Option<Seq<char>>)>
    decreases comps.len(),
{
    if comps.len() == 0 {
        Seq::empty()
    } else {
        component_urls(e, a, comps.drop_last()).push(component_url(e, a, comps.last()))
    }
}

/// The indexes of an entry for one architecture: a flat repository (no components) has
/// one, `<root>/Packages`; otherwise one per component.
pub open spec fn arch_urls(e: SourceEntry, a: Seq<char>) -> Seq<(Seq<char>, Seq<char>, Seq<char>, Seq<char>, Seq<char>, Option<Seq<char>>)> {
    if e.components@.len() == 0 {
        seq![(repo_root(e) + "/Packages"@, e.uri@, e.suite@, Seq::<char>::empty(), a, ov(e.label))]
    } else {
        component_urls(e, a, names_of(e.components@))
    }
}

pub open spec fn arches_urls(e: SourceEntry, arches: Seq<Seq<char>>) -> Seq<(Seq<char>, Seq<char>, Seq<char>, Seq<char>, Seq<char>, Option<Seq<char>>)>
    decreases arches.len(),
{
    if arches.len() == 0 {
        Seq::empty()
    } else {
        arches_urls(e, arches.drop_last()) + arch_urls(e, arches.last())
    }
}

/// The indexes of an entry: none for a disabled or source entry.
pub open spec fn entry_urls(e: SourceEntry, arch: Seq<char>) -> Seq<(Seq<char>, Seq<char>, Seq<char>, Seq<char>, Seq<char>, Option<Seq<char>>)> {
    if !e.enabled || e.kind != EntryKind::Deb {
        Seq::empty()
    } else {
        arches_urls(e, entry_arches(e, arch))
    }
}

pub open spec fn all_urls(v: Seq<SourceEntry>, arch: Seq<char>) -> Seq<(Seq<char>, Seq<char>, Seq<char>, Seq<char>, Seq<char>, Option<Seq<char>>)>
    decreases v.len(),
{
    if v.len() == 0 {
        Seq::empty()
    } else {
        all_urls(v.drop_last(), arch) + entry_urls(v.last(), arch)
    }
}

/// The enabled binary entries, in order.
pub open spec fn active_entries(v: Seq<SourceEntry>) -> Seq<SourceEntry>
    decreases v.len(),
{
    if v.len() == 0 {
        Seq::empty()
    } else if v.last().enabled && v.last().kind == EntryKind::Deb {
        active_entries(v.drop_last()).push(v.last())
    } else {
        active_entries(v.drop_last())
    }
}

proof fn lemma_urls_push(v: Seq<IndexUrl>, u: IndexUrl)
    ensures
        urls_view(v.push(u)) == urls_view(v).push(url_view(u)),
{
    assert(urls_view(v.push(u)) =~= urls_view(v).push(url_view(u)));
}

fn push_component_urls(e: &SourceEntry, root: &Vec<char>, a: &String, out: &mut Vec<IndexUrl>)
    requires
        root@ == repo_root(*e),
    ensures
        urls_view(final(out)@) == urls_view(old(out)@) + component_urls(*e, a@, names_of(e.components@)),
{
    let ghost start = urls_view(out@);
    let ghost cs = names_of(e.components@);
    let mut i: usize = 0;
    assert(cs.take(0) =~= Seq::<Seq<char>>::empty());
    assert(start + component_urls(*e, a@, cs.take(0)) =~= start);
    while i < e.components.len()
        invariant
            i <= e.components@.len(),
            cs == names_of(e.components@),
            root@ == repo_root(*e),
            urls_view(out@) == start + component_urls(*e, a@, cs.take(i as int)),
        decreases e.components@.len() - i,
    {
        proof {
            assert(cs.take(i + 1).drop_last() == cs.take(i as int));
            assert(cs.take(i + 1).last() == cs[i as int]);
            assert(cs[i as int] == e.components@[i as int]@);
        }
        let c = &e.components[i];
        let mut url: Vec<char> = root.clone();
        extend_str(&mut url, "/dists/");
        extend_str(&mut url, e.suite.as_str());
        extend_str(&mut url, "/");
        extend_str(&mut url, c.as_str());
        extend_str(&mut url, "/binary-");
        extend_str(&mut url, a.as_str());
        extend_str(&mut url, "/Packages");
        let u = IndexUrl {
            url: string_of(&url),
            base_uri: e.uri.clone(),
            suite: e.suite.clone(),
            component: c.clone(),
            arch: a.clone(),
            label: clone_opt(&e.label),
        };
        let ghost before = out@;
        out.push(u);
        proof {
            lemma_urls_push(before, u);
            assert(url@ =~= component_url(*e, a@, cs[i as int]).0);
        }
        i = i + 1;
    }
    assert(cs.take(cs.len() as int) == cs);
}

fn push_arch_urls(e: &SourceEntry, root: &Vec<char>, a: &String, out: &mut Vec<IndexUrl>)
    requires
        root@ == repo_root(*e),
    ensures
        urls_view(final(out)@) == urls_view(old(out)@) + arch_urls(*e, a@),
{
    if e.components.len() == 0 {
        let mut url: Vec<char> = root.clone();
        extend_str(&mut url, "/Packages");
        let u = IndexUrl {
            url: string_of(&url),
            base_uri: e.uri.clone(),
            suite: e.suite.clone(),
            component: String::new(),
            arch: a.clone(),
            label: clone_opt(&e.label),
        };
        let ghost before = out@;
        out.push(u);
        proof {
            lemma_urls_push(before, u);
            assert(urls_view(before).push(url_view(u)) =~= urls_view(before) + arch_urls(*e, a@));
        }
    } else {
        push_component_urls(e, root, a, out);
    }
}

fn push_entry_urls(e: &SourceEntry, arch: &str, out: &mut Vec<IndexUrl>)
    ensures
        urls_view(final(out)@) == urls_view(old(out)@) + entry_urls(*e, arch@),
{
    let ghost start = urls_view(out@);
    if !e.enabled || e.kind != EntryKind::Deb {
        assert(start + entry_urls(*e, arch@) =~= start);
        return;
    }
    let root = strip_end_chars(&chars_of(e.uri.as_str()), &CharClass::Exactly('/'));
    let arches: Vec<String> = if e.arches.len() == 0 {
        let mut v: Vec<String> = Vec::new();
        v.push(string_of(&chars_of(arch)));
        v
    } else {
        copy_strings(&e.arches)
    };
    let ghost av = entry_arches(*e, arch@);
    assert(names_of(arches@) =~= av);
    let mut i: usize = 0;
    assert(start + arches_urls(*e, av.take(0)) =~= start);
    while i < arches.len()
        invariant
            i <= arches@.len(),
            names_of(arches@) == av,
            root@ == repo_root(*e),
            e.enabled && e.kind == EntryKind::Deb,
            urls_view(out@) == start + arches_urls(*e, av.take(i as int)),
        decreases arches@.len() - i,
    {
        proof {
            assert(av.take(i + 1).drop_last() == av.take(i as int));
            assert(av.take(i + 1).last() == av[i as int]);
            assert(av[i as int] == arches@[i as int]@);
        }
        let ghost before = urls_view(out@);
        push_arch_urls(e, &root, &arches[i], out);
        assert(before + arch_urls(*e, av[i as int]) == start + arches_urls(*e, av.take(i + 1)));
        i = i + 1;
    }
    assert(av.take(av.len() as int) == av);
}

impl SourcesList {
    /// The `Packages` indexes to fetch for the machine's architecture `arch`, entry by
    /// entry.
    pub fn index_urls(&self, arch: &str) -> (r: Vec<IndexUrl>)
        ensures
            urls_view(r@) == all_urls(self.entries@, arch@),
    {
        let mut out: Vec<IndexUrl> = Vec::new();
        let mut i: usize = 0;
        assert(urls_view(out@) =~= all_urls(self.entries@.take(0), arch@));
        while i < self.entries.len()
            invariant
                i <= self.entries@.len(),
                urls_view(out@) == all_urls(self.entries@.take(i as int), arch@),
            decreases self.entries@.len() - i,
        {
            proof {
                assert(self.entries@.take(i + 1).drop_last() == self.entries@.take(i as int));
                assert(self.entries@.take(i + 1).last() == self.entries@[i as int]);
            }
            push_entry_urls(&self.entries[i], arch, &mut out);
            i = i + 1;
        }
        assert(self.entries@.take(self.entries@.len() as int) == self.entries@);
        out
    }

    /// The enabled binary entries (what `repo list` shows).
    pub fn active_deb_entries(&self) -> (r: Vec<&SourceEntry>)
        ensures
            r@.len() == active_entries(self.entries@).len(),
            forall|i: int| 0 <= i < r@.len() ==> *r@[i] == active_entries(self.entries@)[i],
    {
        let mut out: Vec<&SourceEntry> = Vec::new();
        let mut i: usize = 0;
        while i < self.entries.len()
            invariant
                i <= self.entries@.len(),
                out@.len() == active_entries(self.entries@.take(i as int)).len(),
                forall|k: int| 0 <= k < out@.len() ==> *out@[k] == active_entries(self.entries@.take(i as int))[k],
            decreases self.entries@.len() - i,
        {
            proof {
                assert(self.entries@.take(i + 1).drop_last() == self.entries@.take(i as int));
                assert(self.entries@.take(i + 1).last() == self.entries@[i as int]);
            }
            let e = &self.entries[i];
            if e.enabled && e.kind == EntryKind::Deb {
                out.push(e);
            }
            i = i + 1;
        }
        assert(self.entries@.take(self.entries@.len() as int) == self.entries@);
        out
    }
}


// ─────────────────────────────────────────────────────────────
//  Laws of the index URLs
// ─────────────────────────────────────────────────────────────

/// Every entry names the architectures it is for.
pub open spec fn all_name_arches(v: Seq<SourceEntry>) -> bool {
    forall|i: int| 0 <= i < v.len() ==> (#[trigger] v[i]).arches@.len() > 0
}

/// Where every entry names its architectures, the indexes fetched do not depend on the
/// machine's architecture.
pub proof fn law_entry_arches_override_machine(v: Seq<SourceEntry>, a1: Seq<char>, a2: Seq<char>)
    requires
        all_name_arches(v),
    ensures
        all_urls(v, a1) == all_urls(v, a2),
    decreases v.len(),
{
    if v.len() > 0 {
        assert forall|i: int| 0 <= i < v.drop_last().len() implies (#[trigger] v.drop_last()[i]).arches@.len() > 0 by {
            assert(v.drop_last()[i] == v[i]);
        }
        law_entry_arches_override_machine(v.drop_last(), a1, a2);
        assert(v.last().arches@.len() > 0);
    }
}

proof fn lemma_component_urls_shape(e: SourceEntry, a: Seq<char>, comps: Seq<Seq<char>>)
    ensures
        component_urls(e, a, comps).len() == comps.len(),
        forall|k: int| 0 <= k < comps.len() ==> (#[trigger] component_urls(e, a, comps)[k]).4 == a
            && component_urls(e, a, comps)[k].3 == comps[k],
    decreases comps.len(),
{
    if comps.len() > 0 {
        lemma_component_urls_shape(e, a, comps.drop_last());
        assert forall|k: int| 0 <= k < comps.len() implies (#[trigger] component_urls(e, a, comps)[k]).4 == a
            && component_urls(e, a, comps)[k].3 == comps[k] by {
            if k < comps.len() - 1 {
                assert(component_urls(e, a, comps)[k] == component_urls(e, a, comps.drop_last())[k]);
            }
        }
    }
}

proof fn lemma_arches_urls_shape(e: SourceEntry, arches: Seq<Seq<char>>)
    requires
        e.components@.len() > 0,
    ensures
        arches_urls(e, arches).len() == arches.len() * e.components@.len(),
        forall|k: int| 0 <= k < arches_urls(e, arches).len() ==> arches.contains(#[trigger] arches_urls(e, arches)[k].4)
            && names_of(e.components@).contains(arches_urls(e, arches)[k].3),
        forall|i: int, j: int| 0 <= i < arches.len() && 0 <= j < e.components@.len() ==>
            #[trigger] arches_urls(e, arches)[i * e.components@.len() + j] == component_url(e, arches[i], #[trigger] names_of(e.components@)[j]),
    decreases arches.len(),
{
    let n = e.components@.len();
    let cs = names_of(e.components@);
    if arches.len() > 0 {
        let init = arches.drop_last();
        let a = arches.last();
        lemma_arches_urls_shape(e, init);
        lemma_component_urls_shape(e, a, cs);
        let left = arches_urls(e, init);
        let right = arch_urls(e, a);
        assert(right == component_urls(e, a, cs));
        assert(left.len() == init.len() * n);
        assert(arches.len() * n == init.len() * n + n) by (nonlinear_arith)
            requires
                arches.len() == init.len() + 1,
        ;
        assert forall|k: int| 0 <= k < arches_urls(e, arches).len() implies arches.contains(#[trigger] arches_urls(e, arches)[k].4)
            && cs.contains(arches_urls(e, arches)[k].3) by {
            if k < left.len() {
                assert(arches_urls(e, arches)[k] == left[k]);
                let x = left[k].4;
                assert(init.contains(x));
                let i = choose|i: int| 0 <= i < init.len() && init[i] == x;
                assert(arches[i] == x);
            } else {
                assert(arches_urls(e, arches)[k] == right[k - left.len()]);
                assert(right[k - left.len()].4 == a);
                assert(arches[arches.len() - 1] == a);
                assert(right[k - left.len()].3 == cs[k - left.len()]);
            }
        }
        assert forall|i: int, j: int| 0 <= i < arches.len() && 0 <= j < n implies
            #[trigger] arches_urls(e, arches)[i * n + j] == component_url(e, arches[i], #[trigger] cs[j]) by {
            if i < init.len() {
                assert(i * n + j < init.len() * n) by (nonlinear_arith)
                    requires
                        0 <= i < init.len(),
                        0 <= j < n,
                ;
                assert(0 <= i * n) by (nonlinear_arith)
                    requires
                        0 <= i,
                        0 <= n,
                ;
                assert(arches_urls(e, arches)[i * n + j] == left[i * n + j]);
                assert(init[i] == arches[i]);
            } else {
                assert(i * n == init.len() * n);
                assert(arches_urls(e, arches)[i * n + j] == right[j]);
                lemma_component_url_at(e, a, cs, j);
            }
        }
    }
}

proof fn lemma_component_url_at(e: SourceEntry, a: Seq<char>, comps: Seq<Seq<char>>, j: int)
    requires
        0 <= j < comps.len(),
    ensures
        component_urls(e, a, comps)[j] == component_url(e, a, comps[j]),
    decreases comps.len(),
{
    lemma_component_urls_shape(e, a, comps.drop_last());
    if j < comps.len() - 1 {
        lemma_component_url_at(e, a, comps.drop_last(), j);
    }
}

/// An enabled binary entry that names its architectures `A` and components `C` gives one
/// index per pair of `A × C`, in that order, each for its own architecture and component,
/// whatever the machine's architecture.
pub proof fn law_entry_urls_per_arch_and_component(e: SourceEntry, arch: Seq<char>)
    requires
        e.enabled,
        e.kind == EntryKind::Deb,
        e.arches@.len() > 0,
        e.components@.len() > 0,
    ensures
        entry_urls(e, arch).len() == e.arches@.len() * e.components@.len(),
        forall|k: int| 0 <= k < entry_urls(e, arch).len() ==> names_of(e.arches@).contains(#[trigger] entry_urls(e, arch)[k].4)
            && names_of(e.components@).contains(entry_urls(e, arch)[k].3),
        forall|i: int, j: int| 0 <= i < e.arches@.len() && 0 <= j < e.components@.len() ==>
            #[trigger] entry_urls(e, arch)[i * e.components@.len() + j] == component_url(e, #[trigger] names_of(e.arches@)[i], names_of(e.components@)[j]),
{
    let arches = names_of(e.arches@);
    assert(entry_arches(e, arch) == arches);
    lemma_arches_urls_shape(e, arches);
    assert forall|i: int, j: int| 0 <= i < e.arches@.len() && 0 <= j < e.components@.len() implies
        #[trigger] entry_urls(e, arch)[i * e.components@.len() + j] == component_url(e, #[trigger] names_of(e.arches@)[i], names_of(e.components@)[j]) by {
        assert(arches_urls(e, arches)[i * e.components@.len() + j] == component_url(e, arches[i], names_of(e.components@)[j]));
    }
}

} // verus!
