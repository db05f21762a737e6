//! The dpkg status database as text: the stanza written for an installed package, updates
//! of the status file, what it says is installed, and the `.list` file of a package.
//! Reading and writing the files is the application's part.
use vstd::prelude::*;
use crate::text::{
    chars_eq, chars_eq_str, chars_of, decimal, decimal_of, extend_chars, extend_str, join,
    join_chars, lines, lines_of, lowercase, lowercase_chars, names_of, char_views, slice_chars,
    split_on_str, split_str, starts_with, starts_with_chars, starts_with_str, string_of, trim,
    trim_chars,
};
use crate::version::{order_lex, order_lex_chars, lemma_lex_antisym, lemma_lex_lt_trans};
use crate::db::nonempty;

verus! {

// ─────────────────────────────────────────────────────────────
//  Fields
// ─────────────────────────────────────────────────────────────

/// The first line whose lower-case form starts with the lower-case form of `p`.
pub open spec fn first_line_with(ls: Seq<Seq<char>>, p: Seq<char>) -> Option<Seq<char>>
    decreases ls.len(),
{
    if ls.len() == 0 {
        None
    } else if starts_with(lowercase(ls[0]), lowercase(p)) {
        Some(ls[0])
    } else {
        first_line_with(ls.drop_first(), p)
    }
}

/// What follows the first `n` characters of `l`, trimmed.
pub open spec fn after(l: Seq<char>, n: int) -> Seq<char> {
    if n <= l.len() {
        trim(l.skip(n))
    } else {
        Seq::empty()
    }
}

/// The value of field `key` in a stanza: the first line that starts with `key:` (either
/// case), after the prefix, trimmed; only that line of a multi-line field.
pub open spec fn stanza_field(block: Seq<char>, key: Seq<char>) -> Option<Seq<char>> {
    match first_line_with(lines(block), key.push(':')) {
        Some(l) => Some(after(l, key.len() + 1int)),
        None => None,
    }
}

/// The value of field `key` in a stanza, from the first line that starts with `key:`
/// (either case).
pub fn get_field(block: &str, key: &str) -> (r: Option<String>)
    ensures
        match r {
            Some(v) => stanza_field(block@, key@) == Some(v@),
            None => stanza_field(block@, key@) is None,
        },
{
    let mut prefix = chars_of(key);
    prefix.push(':');
    let lp = lowercase_chars(&prefix);
    let ls = lines_of(&chars_of(block));
    let ghost lv = lines(block@);
    let mut i: usize = 0;
    assert(lv.skip(0) == lv);
    while i < ls.len()
        invariant
            i <= ls@.len(),
            lv == lines(block@),
            ls@.len() == lv.len(),
            forall|j: int| 0 <= j < ls@.len() ==> (#[trigger] ls@[j])@ == lv[j],
            prefix@ == key@.push(':'),
            lp@ == lowercase(key@.push(':')),
            first_line_with(lv, key@.push(':')) == first_line_with(lv.skip(i as int), key@.push(':')),
        decreases ls@.len() - i,
    {
        let l = &ls[i];
        assert(lv.skip(i as int)[0] == l@);
        assert(lv.skip(i as int).drop_first() == lv.skip(i + 1));
        let low = lowercase_chars(l);
        if starts_with_chars(&low, &lp) {
            assert(first_line_with(lv.skip(i as int), key@.push(':')) == Some(l@));
            let n = prefix.len();
            let v: Vec<char> = if n <= l.len() {
                let tail = slice_chars(l, n, l.len());
                assert(tail@ == l@.skip(n as int));
                trim_chars(&tail)
            } else {
                Vec::new()
            };
            return Some(string_of(&v));
        }
        i = i + 1;
    }
    None
}

// ─────────────────────────────────────────────────────────────
//  The stanza of an installed package
// ─────────────────────────────────────────────────────────────

/// `label` followed by the value and a newline, or nothing when there is no value.
pub open spec fn opt_line(label: Seq<char>, v: Option<Seq<char>>) -> Seq<char> {
    match v {
        Some(x) => label + x + "\n"@,
        None => Seq::empty(),
    }
}

pub open spec fn opt_str(o: Option<&str>) -> Option<Seq<char>> {
    match o {
        Some(s) => Some(s@),
        None => None,
    }
}

/// The status stanza of an installed package; the description defaults to the name.
pub open spec fn status_block(
    name: Seq<char>,
    version: Seq<char>,
    arch: Seq<char>,
    size_kb: nat,
    depends: Option<Seq<char>>,
    recommended: Option<Seq<char>>,
    section: Option<Seq<char>>,
    maintainer: Option<Seq<char>>,
    description: Option<Seq<char>>,
) -> Seq<char> {
    "Package: "@ + name + "\n"@ + "Status: install ok installed\n"@ + opt_line("Section: "@, section)
        + opt_line("Maintainer: "@, maintainer) + "Architecture: "@ + arch + "\n"@ + "Version: "@ + version + "\n"@
        + opt_line("Depends: "@, depends) + opt_line("Recommends: "@, recommended) + "Installed-Size: "@
        + decimal(size_kb) + "\n"@ + "Description: "@ + match description {
        Some(d) => d,
        None => name,
    } + "\n"@
}

fn push_opt_line(v: &mut Vec<char>, label: &str, o: Option<&str>)
    ensures
        final(v)@ == old(v)@ + opt_line(label@, opt_str(o)),
{
    match o {
        Some(x) => {
            extend_str(v, label);
            extend_str(v, x);
            extend_str(v, "\n");
        },
        None => {
            assert(old(v)@ + Seq::<char>::empty() == old(v)@);
        },
    }
}

/// The status stanza written for a package installed by this program.
pub fn build_status_block(
    name: &str,
    version: &str,
    arch: &str,
    size_kb: u64,
    depends: Option<&str>,
    recommended: Option<&str>,
    section: Option<&str>,
    maintainer: Option<&str>,
    description: Option<&str>,
) -> (r: String)
    ensures
        r@ == status_block(name@, version@, arch@, size_kb as nat, opt_str(depends), opt_str(recommended),
            opt_str(section), opt_str(maintainer), opt_str(description)),
{
    let mut s: Vec<char> = Vec::new();
    extend_str(&mut s, "Package: ");
    extend_str(&mut s, name);
    extend_str(&mut s, "\n");
    extend_str(&mut s, "Status: install ok installed\n");
    push_opt_line(&mut s, "Section: ", section);
    push_opt_line(&mut s, "Maintainer: ", maintainer);
    extend_str(&mut s, "Architecture: ");
    extend_str(&mut s, arch);
    extend_str(&mut s, "\n");
    extend_str(&mut s, "Version: ");
    extend_str(&mut s, version);
    extend_str(&mut s, "\n");
    push_opt_line(&mut s, "Depends: ", depends);
    push_opt_line(&mut s, "Recommends: ", recommended);
    extend_str(&mut s, "Installed-Size: ");
    let d = decimal_of(size_kb);
    extend_chars(&mut s, &d);
    extend_str(&mut s, "\n");
    extend_str(&mut s, "Description: ");
    match description {
        Some(x) => extend_str(&mut s, x),
        None => extend_str(&mut s, name),
    }
    extend_str(&mut s, "\n");
    proof {
        assert(s@ =~= status_block(name@, version@, arch@, size_kb as nat, opt_str(depends), opt_str(recommended),
            opt_str(section), opt_str(maintainer), opt_str(description)));
    }
    string_of(&s)
}


// ─────────────────────────────────────────────────────────────
//  The status file
// ─────────────────────────────────────────────────────────────

/// The stanzas that are not blank, in order.
pub open spec fn nonblank(bs: Seq<Seq<char>>) -> Seq<Seq<char>>
    decreases bs.len(),
{
    if bs.len() == 0 {
        Seq::empty()
    } else if trim(bs.last()).len() == 0 {
        nonblank(bs.drop_last())
    } else {
        nonblank(bs.drop_last()).push(bs.last())
    }
}

/// The stanzas of a status file: its text split at blank lines (`\n\n`), blank pieces
/// dropped.
pub open spec fn status_blocks(content: Seq<char>) -> Seq<Seq<char>> {
    nonblank(split_str(content, "\n\n"@))
}

/// A `Package:` line naming `name`.
pub open spec fn line_names(l: Seq<char>, name: Seq<char>) -> bool {
    starts_with(l, "Package:"@) && trim(l.skip(8)) == name
}

/// A stanza with a `Package:` line naming `name`.
pub open spec fn block_names(b: Seq<char>, name: Seq<char>) -> bool {
    exists|j: int| 0 <= j < lines(b).len() && #[trigger] line_names(lines(b)[j], name)
}

/// The index of the first stanza naming `name`.
pub open spec fn first_named(bs: Seq<Seq<char>>, name: Seq<char>) -> Option<int>
    decreases bs.len(),
{
    if bs.len() == 0 {
        None
    } else {
        match first_named(bs.drop_last(), name) {
            Some(i) => Some(i),
            None => if block_names(bs.last(), name) {
                Some(bs.len() - 1)
            } else {
                None
            },
        }
    }
}

/// The status file after recording `block` for `name`: it replaces the first stanza naming
/// the package, or is appended; stanzas are joined by a blank line and the file ends with
/// one.
pub open spec fn status_with(content: Seq<char>, name: Seq<char>, block: Seq<char>) -> Seq<char> {
    let bs = status_blocks(content);
    let nb = match first_named(bs, name) {
        Some(i) => bs.update(i, block),
        None => bs.push(block),
    };
    join(nb, "\n\n"@) + "\n\n"@
}

fn status_blocks_of(content: &str) -> (r: Vec<Vec<char>>)
    ensures
        char_views(r@) == status_blocks(content@),
{
    proof {
        reveal_strlit("\n\n");
    }
    let parts = split_on_str(&chars_of(content), "\n\n");
    let ghost pv = split_str(content@, "\n\n"@);
    let mut out: Vec<Vec<char>> = Vec::new();
    let mut i: usize = 0;
    while i < parts.len()
        invariant
            i <= parts@.len(),
            parts@.len() == pv.len(),
            forall|j: int| 0 <= j < parts@.len() ==> (#[trigger] parts@[j])@ == pv[j],
            char_views(out@) == nonblank(pv.take(i as int)),
        decreases parts@.len() - i,
    {
        proof {
            assert(pv.take(i + 1).drop_last() == pv.take(i as int));
            assert(pv.take(i + 1).last() == pv[i as int]);
        }
        let t = trim_chars(&parts[i]);
        if t.len() > 0 {
            let ghost before = out@;
            out.push(slice_chars(&parts[i], 0, parts[i].len()));
            proof {
                assert(parts@[i as int]@.subrange(0, parts@[i as int]@.len() as int) == parts@[i as int]@);
                assert(char_views(out@) =~= char_views(before).push(pv[i as int]));
            }
        }
        i = i + 1;
    }
    assert(pv.take(pv.len() as int) == pv);
    out
}

fn block_names_pkg(b: &[char], name: &[char]) -> (r: bool)
    ensures
        r == block_names(b@, name@),
{
    proof {
        reveal_strlit("Package:");
    }
    let ls = lines_of(b);
    let ghost lv = lines(b@);
    let mut i: usize = 0;
    while i < ls.len()
        invariant
            i <= ls@.len(),
            lv == lines(b@),
            ls@.len() == lv.len(),
            forall|j: int| 0 <= j < ls@.len() ==> (#[trigger] ls@[j])@ == lv[j],
            forall|j: int| 0 <= j < i ==> !#[trigger] line_names(lv[j], name@),
        decreases ls@.len() - i,
    {
        let l = &ls[i];
        proof {
            reveal_strlit("Package:");
        }
        if starts_with_str(l, "Package:") {
            let tail = slice_chars(l, 8, l.len());
            assert(tail@ == l@.skip(8));
            let t = trim_chars(&tail);
            if chars_eq(&t, name) {
                assert(line_names(lv[i as int], name@));
                return true;
            }
        }
        i = i + 1;
    }
    false
}

fn join_blocks(bs: &Vec<Vec<char>>) -> (r: String)
    ensures
        r@ == join(char_views(bs@), "\n\n"@) + "\n\n"@,
{
    let mut j = join_chars(bs, "\n\n");
    assert(bs@.map_values(|p: Vec<char>| p@) =~= char_views(bs@));
    extend_str(&mut j, "\n\n");
    string_of(&j)
}

/// The status file after recording the stanza `block` for the package `name`.
pub fn upsert_status(current: &str, name: &str, block: &str) -> (r: String)
    ensures
        r@ == status_with(current@, name@, block@),
{
    let mut bs = status_blocks_of(current);
    let ghost bv = status_blocks(current@);
    let nc = chars_of(name);
    let mut i: usize = 0;
    while i < bs.len()
        invariant
            i <= bs@.len(),
            char_views(bs@) == bv,
            bv == status_blocks(current@),
            nc@ == name@,
            first_named(bv.take(i as int), name@) is None,
        decreases bs@.len() - i,
    {
        proof {
            assert(bv.take(i + 1).drop_last() == bv.take(i as int));
            assert(bv.take(i + 1).last() == bv[i as int]);
            assert(bv[i as int] == bs@[i as int]@);
        }
        if block_names_pkg(&bs[i], &nc) {
            proof {
                lemma_first_named_prefix(bv, name@, i as int);
            }
            let ghost before = bs@;
            bs.set(i, chars_of(block));
            assert(char_views(bs@) =~= bv.update(i as int, block@));
            return join_blocks(&bs);
        }
        i = i + 1;
    }
    assert(bv.take(bv.len() as int) == bv);
    let ghost before = bs@;
    bs.push(chars_of(block));
    assert(char_views(bs@) =~= bv.push(block@));
    join_blocks(&bs)
}

proof fn lemma_first_named_prefix(bs: Seq<Seq<char>>, name: Seq<char>, i: int)
    requires
        0 <= i < bs.len(),
        first_named(bs.take(i), name) is None,
        block_names(bs[i], name),
    ensures
        first_named(bs, name) == Some(i),
    decreases bs.len(),
{
    if bs.len() > i + 1 {
        assert(bs.drop_last().take(i) == bs.take(i));
        assert(bs.drop_last()[i] == bs[i]);
        lemma_first_named_prefix(bs.drop_last(), name, i);
    } else {
        assert(bs.drop_last() == bs.take(i));
    }
}

/// A line of a removed package's stanza: its `Status:` line says `deinstall ok
/// config-files`.
pub open spec fn deinstall_line(l: Seq<char>) -> Seq<char> {
    if starts_with(l, "Status:"@) {
        "Status: deinstall ok config-files"@
    } else {
        l
    }
}

pub open spec fn deinstall_lines(ls: Seq<Seq<char>>) -> Seq<Seq<char>>
    decreases ls.len(),
{
    if ls.len() == 0 {
        Seq::empty()
    } else {
        deinstall_lines(ls.drop_last()).push(deinstall_line(ls.last()))
    }
}

/// A stanza after its package `name` was removed: the stanzas naming it get the
/// `deinstall` status, line by line joined with `\n`; others stay as they are.
pub open spec fn deinstalled_block(b: Seq<char>, name: Seq<char>) -> Seq<char> {
    if block_names(b, name) {
        join(deinstall_lines(lines(b)), "\n"@)
    } else {
        b
    }
}

pub open spec fn deinstalled_blocks(bs: Seq<Seq<char>>, name: Seq<char>) -> Seq<Seq<char>>
    decreases bs.len(),
{
    if bs.len() == 0 {
        Seq::empty()
    } else {
        deinstalled_blocks(bs.drop_last(), name).push(deinstalled_block(bs.last(), name))
    }
}

/// The status file after removing `name`: its stanzas are marked `deinstall ok
/// config-files` rather than dropped.
pub open spec fn status_without(content: Seq<char>, name: Seq<char>) -> Seq<char> {
    join(deinstalled_blocks(status_blocks(content), name), "\n\n"@) + "\n\n"@
}

fn deinstall_block(b: &Vec<char>) -> (r: Vec<char>)
    ensures
        r@ == join(deinstall_lines(lines(b@)), "\n"@),
{
    proof {
        reveal_strlit("Status:");
    }
    let ls = lines_of(b);
    let ghost lv = lines(b@);
    let mut out: Vec<Vec<char>> = Vec::new();
    let mut i: usize = 0;
    while i < ls.len()
        invariant
            i <= ls@.len(),
            ls@.len() == lv.len(),
            forall|j: int| 0 <= j < ls@.len() ==> (#[trigger] ls@[j])@ == lv[j],
            char_views(out@) == deinstall_lines(lv.take(i as int)),
        decreases ls@.len() - i,
    {
        proof {
            assert(lv.take(i + 1).drop_last() == lv.take(i as int));
            assert(lv.take(i + 1).last() == lv[i as int]);
        }
        let l = &ls[i];
        proof {
            reveal_strlit("Status:");
        }
        let nl: Vec<char> = if starts_with_str(l, "Status:") {
            chars_of("Status: deinstall ok config-files")
        } else {
            slice_chars(l, 0, l.len())
        };
        assert(l@.subrange(0, l@.len() as int) == l@);
        let ghost before = out@;
        out.push(nl);
        assert(char_views(out@) =~= char_views(before).push(deinstall_line(lv[i as int])));
        i = i + 1;
    }
    assert(lv.take(lv.len() as int) == lv);
    let r = join_chars(&out, "\n");
    assert(out@.map_values(|p: Vec<char>| p@) =~= char_views(out@));
    r
}

/// The status file after removing the package `name`.
pub fn mark_deinstalled(current: &str, name: &str) -> (r: String)
    ensures
        r@ == status_without(current@, name@),
{
    let bs = status_blocks_of(current);
    let ghost bv = status_blocks(current@);
    let nc = chars_of(name);
    let mut out: Vec<Vec<char>> = Vec::new();
    let mut i: usize = 0;
    while i < bs.len()
        invariant
            i <= bs@.len(),
            char_views(bs@) == bv,
            nc@ == name@,
            char_views(out@) == deinstalled_blocks(bv.take(i as int), name@),
        decreases bs@.len() - i,
    {
        proof {
            assert(bv.take(i + 1).drop_last() == bv.take(i as int));
            assert(bv.take(i + 1).last() == bv[i as int]);
            assert(bv[i as int] == bs@[i as int]@);
        }
        let nb: Vec<char> = if block_names_pkg(&bs[i], &nc) {
            deinstall_block(&bs[i])
        } else {
            slice_chars(&bs[i], 0, bs[i].len())
        };
        assert(bs@[i as int]@.subrange(0, bs@[i as int]@.len() as int) == bs@[i as int]@);
        let ghost before = out@;
        out.push(nb);
        assert(char_views(out@) =~= char_views(before).push(deinstalled_block(bv[i as int], name@)));
        i = i + 1;
    }
    assert(bv.take(bv.len() as int) == bv);
    join_blocks(&out)
}

/// The packages a status file says are installed (`Status: install ok installed`), as
/// name and version, in order; stanzas without both are left out.
pub open spec fn installed_pairs(bs: Seq<Seq<char>>) -> Seq<(Seq<char>, Seq<char>)>
    decreases bs.len(),
{
    if bs.len() == 0 {
        Seq::empty()
    } else {
        let rest = installed_pairs(bs.drop_last());
        let b = trim(bs.last());
        let status = match stanza_field(b, "Status"@) {
            Some(v) => v,
            None => Seq::empty(),
        };
        if b.len() == 0 || status != "install ok installed"@ {
            rest
        } else {
            match (stanza_field(b, "Package"@), stanza_field(b, "Version"@)) {
                (Some(n), Some(v)) => rest.push((n, v)),
                _ => rest,
            }
        }
    }
}

pub open spec fn pairs_view(v: Seq<(String, String)>) -> Seq<(Seq<char>, Seq<char>)> {
    v.map_values(|p: (String, String)| (p.0@, p.1@))
}

/// The installed packages of a status file, as name and version, in order.
pub fn dpkg_installed(content: &str) -> (r: Vec<(String, String)>)
    ensures
        pairs_view(r@) == installed_pairs(split_str(content@, "\n\n"@)),
{
    proof {
        reveal_strlit("\n\n");
    }
    let parts = split_on_str(&chars_of(content), "\n\n");
    let ghost pv = split_str(content@, "\n\n"@);
    let mut out: Vec<(String, String)> = Vec::new();
    let mut i: usize = 0;
    while i < parts.len()
        invariant
            i <= parts@.len(),
            parts@.len() == pv.len(),
            forall|j: int| 0 <= j < parts@.len() ==> (#[trigger] parts@[j])@ == pv[j],
            pairs_view(out@) == installed_pairs(pv.take(i as int)),
        decreases parts@.len() - i,
    {
        proof {
            assert(pv.take(i + 1).drop_last() == pv.take(i as int));
            assert(pv.take(i + 1).last() == pv[i as int]);
        }
        let tc = trim_chars(&parts[i]);
        let t = string_of(&tc);
        if tc.len() > 0 {
            let status: Vec<char> = match get_field(t.as_str(), "Status") {
                Some(v) => chars_of(v.as_str()),
                None => Vec::new(),
            };
            if chars_eq_str(&status, "install ok installed") {
                match (get_field(t.as_str(), "Package"), get_field(t.as_str(), "Version")) {
                    (Some(n), Some(v)) => {
                        let ghost before = out@;
                        out.push((n, v));
                        assert(pairs_view(out@) =~= pairs_view(before).push((n@, v@)));
                    },
                    _ => {},
                }
            }
        }
        i = i + 1;
    }
    assert(pv.take(pv.len() as int) == pv);
    out
}


// ─────────────────────────────────────────────────────────────
//  The `.list` file of a package
// ─────────────────────────────────────────────────────────────

/// What `std::path::Path::parent` gives for a path, as text.
pub uninterp spec fn path_parent(p: Seq<char>) -> Option<Seq<char>>;

/// The parent of a path: calls `std::path::Path::parent` and converts the result to text.
/// Its contract names the result `path_parent` of the path and says nothing more.
#[verifier::external_body]
pub(crate) fn parent_of(p: &str) -> (r: Option<String>)
    ensures
        match r {
            Some(s) => path_parent(p@) == Some(s@),
            None => path_parent(p@) is None,
        },
{
    match std::path::Path::new(p).parent() {
        Some(q) => Some(q.to_string_lossy().to_string()),
        None => None,
    }
}

/// The directory a file's `.list` entry adds: its parent, unless that is empty or `/`.
pub open spec fn listed_dir(f: Seq<char>) -> Option<Seq<char>> {
    match path_parent(f) {
        Some(d) => if d.len() > 0 && d != "/"@ {
            Some(d)
        } else {
            None
        },
        None => None,
    }
}

/// `ds` holds, strictly sorted, the directories the files add.
pub open spec fn dir_listing(files: Seq<Seq<char>>, ds: Seq<Seq<char>>) -> bool {
    &&& forall|i: int, j: int| 0 <= i < j < ds.len() ==> order_lex(ds[i], ds[j]) < 0
    &&& forall|x: Seq<char>| #[trigger] ds.contains(x) <==> exists|i: int| 0 <= i < files.len() && #[trigger] listed_dir(files[i]) == Some(x)
}

/// Each text followed by a newline.
pub open spec fn lines_text(v: Seq<Seq<char>>) -> Seq<char>
    decreases v.len(),
{
    if v.len() == 0 {
        Seq::empty()
    } else {
        lines_text(v.drop_last()) + v.last() + "\n"@
    }
}

fn insert_dir(v: &mut Vec<Vec<char>>, x: Vec<char>)
    requires
        forall|i: int, j: int| 0 <= i < j < old(v)@.len() ==> order_lex(old(v)@[i]@, old(v)@[j]@) < 0,
    ensures
        forall|i: int, j: int| 0 <= i < j < final(v)@.len() ==> order_lex(final(v)@[i]@, final(v)@[j]@) < 0,
        forall|y: Seq<char>| #[trigger] char_views(final(v)@).contains(y) <==> (char_views(old(v)@).contains(y) || y == x@),
{
    let ghost old_v = v@;
    let mut k: usize = 0;
    while k < v.len() && order_lex_chars(&v[k], &x) < 0
        invariant
            k <= v@.len(),
            v@ == old_v,
            forall|j: int| 0 <= j < k ==> order_lex(#[trigger] v@[j]@, x@) < 0,
        decreases v@.len() - k,
    {
        k = k + 1;
    }
    if k < v.len() && chars_eq(&v[k], &x) {
        proof {
            assert(char_views(v@)[k as int] == x@);
        }
        return;
    }
    proof {
        if k < old_v.len() {
            lemma_lex_antisym(old_v[k as int]@, x@);
        }
    }
    v.insert(k, x);
    proof {
        assert(v@ == old_v.insert(k as int, x));
        assert forall|a: int, b: int| 0 <= a < b < v@.len() implies order_lex(v@[a]@, v@[b]@) < 0 by {
            if b == k {
                assert(v@[a] == old_v[a]);
            } else if a == k {
                assert(v@[b] == old_v[b - 1]);
                if b - 1 > k {
                    lemma_lex_lt_trans(x@, old_v[k as int]@, old_v[b - 1]@);
                }
            } else if a > k {
                assert(v@[a] == old_v[a - 1] && v@[b] == old_v[b - 1]);
            } else if b > k {
                assert(v@[a] == old_v[a] && v@[b] == old_v[b - 1]);
            } else {
                assert(v@[a] == old_v[a] && v@[b] == old_v[b]);
            }
        }
        assert forall|y: Seq<char>| #[trigger] char_views(v@).contains(y) <==> (char_views(old_v).contains(y) || y == x@) by {
            if char_views(v@).contains(y) {
                let i = choose|i: int| 0 <= i < char_views(v@).len() && char_views(v@)[i] == y;
                if i < k {
                    assert(char_views(old_v)[i] == y);
                } else if i > k {
                    assert(char_views(old_v)[i - 1] == y);
                }
            }
            if char_views(old_v).contains(y) {
                let i = choose|i: int| 0 <= i < char_views(old_v).len() && char_views(old_v)[i] == y;
                if i < k {
                    assert(char_views(v@)[i] == y);
                } else {
                    assert(char_views(v@)[i + 1] == y);
                }
            }
            if y == x@ {
                assert(char_views(v@)[k as int] == y);
            }
        }
    }
}

/// The text of a package's `.list` file: the directories its files add, sorted, one per
/// line, then its files that are not empty, one per line.
pub fn dpkg_list_content(files: &[String]) -> (r: String)
    ensures
        exists|ds: Seq<Seq<char>>| dir_listing(names_of(files@), ds)
            && r@ == lines_text(ds) + lines_text(nonempty(names_of(files@))),
{
    let ghost fv = names_of(files@);
    let mut dirs: Vec<Vec<char>> = Vec::new();
    let mut body: Vec<char> = Vec::new();
    let mut i: usize = 0;
    while i < files.len()
        invariant
            i <= files@.len(),
            fv == names_of(files@),
            dir_listing(fv.take(i as int), char_views(dirs@)),
            body@ == lines_text(nonempty(fv.take(i as int))),
        decreases files@.len() - i,
    {
        proof {
            assert(fv.take(i + 1).drop_last() == fv.take(i as int));
            assert(fv.take(i + 1).last() == fv[i as int]);
            assert(fv[i as int] == files@[i as int]@);
        }
        let f = &files[i];
        let fc = chars_of(f.as_str());
        proof {
            reveal_strlit("\n");
        }
        if fc.len() > 0 {
            extend_chars(&mut body, &fc);
            body.push('\n');
            let ghost ne = nonempty(fv.take(i as int));
            assert(nonempty(fv.take(i + 1)) == ne.push(fv[i as int]));
            assert(ne.push(fv[i as int]).drop_last() == ne);
            assert(lines_text(ne.push(fv[i as int])) == lines_text(ne) + fv[i as int] + "\n"@);
            assert(body@ =~= lines_text(nonempty(fv.take(i + 1))));
        }
        let ghost old_dirs = char_views(dirs@);
        let mut added = false;
        match parent_of(f.as_str()) {
            Some(d) => {
                let dc = chars_of(d.as_str());
                if dc.len() > 0 && !chars_eq_str(&dc, "/") {
                    proof {
                        assert forall|a: int, b: int| 0 <= a < b < dirs@.len() implies order_lex(dirs@[a]@, dirs@[b]@) < 0 by {
                            assert(char_views(dirs@)[a] == dirs@[a]@ && char_views(dirs@)[b] == dirs@[b]@);
                        }
                    }
                    insert_dir(&mut dirs, dc);
                    proof {
                        let nv = char_views(dirs@);
                        assert forall|a: int, b: int| 0 <= a < b < nv.len() implies order_lex(nv[a], nv[b]) < 0 by {
                            assert(nv[a] == dirs@[a]@ && nv[b] == dirs@[b]@);
                        }
                    }
                    added = true;
                }
            },
            None => {},
        }
        proof {
            let nv = char_views(dirs@);
            let ft = fv.take(i + 1);
            let fi = fv.take(i as int);
            assert(ft[i as int] == fv[i as int]);
            assert forall|x: Seq<char>| #[trigger] nv.contains(x) <==> exists|k: int| 0 <= k < ft.len() && #[trigger] listed_dir(ft[k]) == Some(x) by {
                if nv.contains(x) {
                    if old_dirs.contains(x) {
                        let k = choose|k: int| 0 <= k < fi.len() && #[trigger] listed_dir(fi[k]) == Some(x);
                        assert(ft[k] == fi[k]);
                    } else {
                        assert(listed_dir(ft[i as int]) == Some(x));
                    }
                }
                if exists|k: int| 0 <= k < ft.len() && #[trigger] listed_dir(ft[k]) == Some(x) {
                    let k = choose|k: int| 0 <= k < ft.len() && #[trigger] listed_dir(ft[k]) == Some(x);
                    if k < i {
                        assert(fi[k] == ft[k]);
                        assert(old_dirs.contains(x));
                    }
                }
            }
        }
        i = i + 1;
    }
    assert(fv.take(fv.len() as int) == fv);
    let mut out: Vec<char> = Vec::new();
    let mut k: usize = 0;
    while k < dirs.len()
        invariant
            k <= dirs@.len(),
            out@ == lines_text(char_views(dirs@).take(k as int)),
        decreases dirs@.len() - k,
    {
        proof {
            assert(char_views(dirs@).take(k + 1).drop_last() == char_views(dirs@).take(k as int));
            assert(char_views(dirs@).take(k + 1).last() == dirs@[k as int]@);
        }
        proof {
            reveal_strlit("\n");
        }
        extend_chars(&mut out, &dirs[k]);
        out.push('\n');
        assert(out@ =~= lines_text(char_views(dirs@).take(k + 1)));
        k = k + 1;
    }
    assert(char_views(dirs@).take(dirs@.len() as int) == char_views(dirs@));
    extend_chars(&mut out, &body);
    string_of(&out)
}

} // verus!
