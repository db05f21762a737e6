//! Repairs of `/etc/alternatives` links that a package's own scripts did not make: which
//! link is broken, which files may serve it, and when the shared library cache needs a
//! refresh.
use vstd::prelude::*;
use crate::dpkg_status::{parent_of, path_parent};
use crate::fs_install::is_dot;
use crate::package::ov;
use crate::text::{
    chars_eq, chars_of, contains_chars, contains_sub, extend_str, join_path, path_join,
    split_char, split_chars, starts_with, starts_with_chars, starts_with_str, string_of,
};

verus! {

// ─────────────────────────────────────────────────────────────
//  File names
// ─────────────────────────────────────────────────────────────

/// The last segment that names something, unless it is `..`.
pub open spec fn last_named(segs: Seq<Seq<char>>) -> Option<Seq<char>>
    decreases segs.len(),
{
    if segs.len() == 0 {
        None
    } else if segs.last().len() == 0 || is_dot(segs.last()) {
        last_named(segs.drop_last())
    } else if segs.last() == seq!['.', '.'] {
        None
    } else {
        Some(segs.last())
    }
}

/// The file name of a path (`Path::file_name` on Unix): its last component, where that
/// is a name.
pub open spec fn file_name(s: Seq<char>) -> Option<Seq<char>> {
    last_named(split_char(s, '/'))
}

/// The file name of a path.
pub fn file_name_of(path: &str) -> (r: Option<String>)
    ensures
        ov(r) == file_name(path@),
{
    let c = chars_of(path);
    let segs = split_chars(&c, '/');
    let ghost all = split_char(c@, '/');
    let mut k: usize = segs.len();
    assert(all.take(all.len() as int) == all);
    while k > 0
        invariant
            k <= segs@.len(),
            all == split_char(c@, '/'),
            c@ == path@,
            segs@.len() == all.len(),
            forall|m: int| 0 <= m < segs@.len() ==> (#[trigger] segs@[m])@ == all[m],
            last_named(all) == last_named(all.take(k as int)),
        decreases k,
    {
        let s = &segs[k - 1];
        assert(s@ == all[k - 1]);
        assert(all.take(k as int).last() == all[k - 1]);
        assert(all.take(k as int).drop_last() == all.take(k - 1));
        if s.len() == 0 || (s.len() == 1 && s[0] == '.') {
            k = k - 1;
        } else if s.len() == 2 && s[0] == '.' && s[1] == '.' {
            assert(s@ == seq!['.', '.']);
            return None;
        } else {
            assert(s@ != seq!['.', '.']);
            return Some(string_of(s));
        }
    }
    assert(all.take(0) == Seq::<Seq<char>>::empty());
    None
}

// ─────────────────────────────────────────────────────────────
//  Broken alternatives
// ─────────────────────────────────────────────────────────────

/// Where the managed links of alternatives live.
pub open spec fn alternatives_prefix() -> Seq<char> {
    "/etc/alternatives/"@
}

/// The alternative a link points to: the name of its target, where the target lies under
/// `/etc/alternatives/`.
pub open spec fn alternative_of(target: Seq<char>) -> Option<Seq<char>> {
    if starts_with(target, alternatives_prefix()) {
        file_name(target)
    } else {
        None
    }
}

/// The name of the alternative that a link's target stands for, if it is one.
pub fn alternative_name(target: &str) -> (r: Option<String>)
    ensures
        ov(r) == alternative_of(target@),
{
    let c = chars_of(target);
    if starts_with_str(&c, "/etc/alternatives/") {
        file_name_of(target)
    } else {
        None
    }
}

/// The suffixes tried after an alternative's name for a file that may serve it.
pub open spec fn candidate_suffix(i: int) -> Seq<char> {
    if i == 0 {
        ".basic"@
    } else if i == 1 {
        ".tiny"@
    } else if i == 2 {
        ".nox"@
    } else if i == 3 {
        ".gtk"@
    } else if i == 4 {
        ".gnome"@
    } else {
        "editor"@
    }
}

/// The files that may serve an alternative, tried in order: the name with each suffix in
/// the link's directory, then `/usr/lib/name/name`.
pub open spec fn candidates_ok(dir: Seq<char>, alt: Seq<char>, r: Seq<String>) -> bool {
    &&& r.len() == 7
    &&& forall|i: int| 0 <= i < 6 ==> (#[trigger] r[i])@ == path_join(dir, alt + candidate_suffix(i))
    &&& r[6]@ == "/usr/lib/"@ + alt + seq!['/'] + alt
}

/// The files that may serve the alternative `alt` of a link at `link`, in the order they
/// are tried; `None` where the link has no parent directory.
pub fn alternative_candidates(link: &str, alt: &str) -> (r: Option<Vec<String>>)
    ensures
        match r {
            Some(v) => path_parent(link@) is Some && candidates_ok(path_parent(link@)->0, alt@, v@),
            None => path_parent(link@) is None,
        },
{
    let dir = match parent_of(link) {
        Some(d) => d,
        None => return None,
    };
    let dc = chars_of(dir.as_str());
    let mut out: Vec<String> = Vec::new();
    let mut i: usize = 0;
    while i < 6
        invariant
            i <= 6,
            out@.len() == i,
            dc@ == dir@,
            forall|k: int| 0 <= k < i ==> (#[trigger] out@[k])@ == path_join(dir@, alt@ + candidate_suffix(k)),
        decreases 6 - i,
    {
        let suffix: &str = if i == 0 {
            ".basic"
        } else if i == 1 {
            ".tiny"
        } else if i == 2 {
            ".nox"
        } else if i == 3 {
            ".gtk"
        } else if i == 4 {
            ".gnome"
        } else {
            "editor"
        };
        assert(suffix@ == candidate_suffix(i as int));
        let mut name: Vec<char> = chars_of(alt);
        extend_str(&mut name, suffix);
        let p = join_path(&dc, &name);
        out.push(string_of(&p));
        i = i + 1;
    }
    let mut last: Vec<char> = chars_of("/usr/lib/");
    extend_str(&mut last, alt);
    last.push('/');
    extend_str(&mut last, alt);
    let ghost before = out@;
    out.push(string_of(&last));
    assert(out@[6]@ == "/usr/lib/"@ + alt@ + seq!['/'] + alt@);
    assert forall|k: int| 0 <= k < 6 implies (#[trigger] out@[k])@ == path_join(dir@, alt@ + candidate_suffix(k)) by {
        assert(out@[k] == before[k]);
    }
    Some(out)
}

/// Whether an installed file of the name `n` may serve the alternative `alt` when no
/// usual candidate exists: `alt.basic`, `alt.tiny`, or another name that starts with
/// `alt`.
pub open spec fn fallback_fits(n: Seq<char>, alt: Seq<char>) -> bool {
    n == alt + ".basic"@ || n == alt + ".tiny"@ || (n != alt && starts_with(n, alt))
}

/// Whether the file name `n` may serve the alternative `alt` as a last resort.
pub fn fallback_matches(n: &str, alt: &str) -> (r: bool)
    ensures
        r == fallback_fits(n@, alt@),
{
    let nc = chars_of(n);
    let ac = chars_of(alt);
    let mut basic: Vec<char> = chars_of(alt);
    extend_str(&mut basic, ".basic");
    let mut tiny: Vec<char> = chars_of(alt);
    extend_str(&mut tiny, ".tiny");
    chars_eq(&nc, &basic) || chars_eq(&nc, &tiny) || (!chars_eq(&nc, &ac) && starts_with_chars(&nc, &ac))
}

/// Whether the file at `f` may serve the alternative as a last resort.
pub open spec fn fallback_file(f: Seq<char>, alt: Seq<char>) -> bool {
    match file_name(f) {
        Some(n) => fallback_fits(n, alt),
        None => false,
    }
}

/// The first installed file that may serve the alternative `alt` as a last resort.
pub fn fallback_choice(files: &[String], alt: &str) -> (r: Option<usize>)
    ensures
        match r {
            Some(i) => i < files@.len() && fallback_file(files@[i as int]@, alt@)
                && forall|j: int| 0 <= j < i ==> !fallback_file(#[trigger] files@[j]@, alt@),
            None => forall|j: int| 0 <= j < files@.len() ==> !fallback_file(#[trigger] files@[j]@, alt@),
        },
{
    let mut i: usize = 0;
    while i < files.len()
        invariant
            i <= files@.len(),
            forall|j: int| 0 <= j < i ==> !fallback_file(#[trigger] files@[j]@, alt@),
        decreases files.len() - i,
    {
        match file_name_of(files[i].as_str()) {
            Some(n) => {
                if fallback_matches(n.as_str(), alt) {
                    return Some(i);
                }
            },
            None => {},
        }
        i = i + 1;
    }
    None
}

// ─────────────────────────────────────────────────────────────
//  Shared libraries
// ─────────────────────────────────────────────────────────────

/// Whether a file is a shared library in a library directory.
pub open spec fn is_shared_lib(f: Seq<char>) -> bool {
    (contains_sub(f, "/lib/"@) || contains_sub(f, "/lib64/"@)) && contains_sub(f, ".so"@)
}

/// Whether the shared library cache needs a refresh after installing the files: one of
/// them lies under a `/lib/` or `/lib64/` directory and has `.so` in its path.
pub fn needs_ldconfig(files: &[String]) -> (r: bool)
    ensures
        r == exists|i: int| 0 <= i < files@.len() && is_shared_lib(#[trigger] files@[i]@),
{
    let lib = chars_of("/lib/");
    let lib64 = chars_of("/lib64/");
    let so = chars_of(".so");
    let mut i: usize = 0;
    while i < files.len()
        invariant
            i <= files@.len(),
            lib@ == "/lib/"@,
            lib64@ == "/lib64/"@,
            so@ == ".so"@,
            forall|j: int| 0 <= j < i ==> !is_shared_lib(#[trigger] files@[j]@),
        decreases files.len() - i,
    {
        let f = chars_of(files[i].as_str());
        if (contains_chars(&f, &lib) || contains_chars(&f, &lib64)) && contains_chars(&f, &so) {
            return true;
        }
        i = i + 1;
    }
    false
}

} // verus!
