//! Package metadata: parsing of `Packages` / `status` stanzas and of dependency fields.
use vstd::prelude::*;
use crate::text::{
    chars_eq_str, chars_of, find_char, find_char_in, join, join_chars, lemma_find_char, lines,
    lines_of, lowercase, lowercase_chars, parse_u64, parse_unsigned, slice_chars, split_char,
    split_chars, split_on_str, split_str, starts_with, starts_with_str, strip_end, strip_end_chars,
    strip_start, strip_start_chars, string_of, trim, trim_chars, trim_start, trim_start_chars,
    CharClass,
};
pub use crate::version::{version_cmp, version_satisfies, VersionOp};

verus! {

// ─────────────────────────────────────────────────────────────
//  Package
// ─────────────────────────────────────────────────────────────

/// One package as an index or a status file describes it.
#[derive(Debug)]
pub struct Package {
    pub name: String,
    pub version: String,
    pub architecture: String,
    pub description_short: Option<String>,
    pub description_long: Option<String>,
    pub section: Option<String>,
    pub priority: Option<String>,
    pub maintainer: Option<String>,
    /// Installed-Size in kB
    pub installed_size_kb: Option<u64>,
    /// Size of .deb on disk (bytes)
    pub download_size: Option<u64>,
    /// Relative path in repository (e.g. pool/main/v/vim/vim_9.0.deb)
    pub filename: Option<String>,
    /// SHA256 of the .deb
    pub sha256: Option<String>,
    pub md5sum: Option<String>,
    pub depends: Option<String>,
    pub pre_depends: Option<String>,
    pub recommends: Option<String>,
    pub suggests: Option<String>,
    pub conflicts: Option<String>,
    pub replaces: Option<String>,
    pub breaks: Option<String>,
    pub provides: Option<String>,
    pub homepage: Option<String>,
    pub source: Option<String>,
    /// Base URI of the repository this came from (filled by cache loader)
    pub repo_base_uri: Option<String>,
}

/// The characters of an optional string.
pub open spec fn ov(o: Option<String>) -> Option<Seq<char>> {
    match o {
        Some(s) => Some(s@),
        None => None,
    }
}

/// A copy of an optional string.
pub fn clone_opt(o: &Option<String>) -> (r: Option<String>)
    ensures
        r == *o,
{
    match o {
        Some(s) => Some(s.clone()),
        None => None,
    }
}

/// An optional string from optional characters.
pub fn opt_string(o: &Option<Vec<char>>) -> (r: Option<String>)
    ensures
        ov(r) == match o {
            Some(v) => Some(v@),
            None => None,
        },
{
    match o {
        Some(v) => Some(string_of(v)),
        None => None,
    }
}

impl Package {
    /// A copy of the package.
    pub fn duplicate(&self) -> (r: Package)
        ensures
            r == *self,
    {
        Package {
            name: self.name.clone(),
            version: self.version.clone(),
            architecture: self.architecture.clone(),
            description_short: clone_opt(&self.description_short),
            description_long: clone_opt(&self.description_long),
            section: clone_opt(&self.section),
            priority: clone_opt(&self.priority),
            maintainer: clone_opt(&self.maintainer),
            installed_size_kb: self.installed_size_kb,
            download_size: self.download_size,
            filename: clone_opt(&self.filename),
            sha256: clone_opt(&self.sha256),
            md5sum: clone_opt(&self.md5sum),
            depends: clone_opt(&self.depends),
            pre_depends: clone_opt(&self.pre_depends),
            recommends: clone_opt(&self.recommends),
            suggests: clone_opt(&self.suggests),
            conflicts: clone_opt(&self.conflicts),
            replaces: clone_opt(&self.replaces),
            breaks: clone_opt(&self.breaks),
            provides: clone_opt(&self.provides),
            homepage: clone_opt(&self.homepage),
            source: clone_opt(&self.source),
            repo_base_uri: clone_opt(&self.repo_base_uri),
        }
    }
}

impl Default for Package {
    fn default() -> (r: Package)
        ensures
            r.name@ == Seq::<char>::empty(),
            r.version@ == Seq::<char>::empty(),
            r.architecture@ == Seq::<char>::empty(),
            r.description_short is None && r.description_long is None && r.section is None,
            r.priority is None && r.maintainer is None && r.installed_size_kb is None,
            r.download_size is None && r.filename is None && r.sha256 is None,
            r.md5sum is None && r.depends is None && r.pre_depends is None,
            r.recommends is None && r.suggests is None && r.conflicts is None,
            r.replaces is None && r.breaks is None && r.provides is None,
            r.homepage is None && r.source is None && r.repo_base_uri is None,
    {
        Package {
            name: String::new(),
            version: String::new(),
            architecture: String::new(),
            description_short: None,
            description_long: None,
            section: None,
            priority: None,
            maintainer: None,
            installed_size_kb: None,
            download_size: None,
            filename: None,
            sha256: None,
            md5sum: None,
            depends: None,
            pre_depends: None,
            recommends: None,
            suggests: None,
            conflicts: None,
            replaces: None,
            breaks: None,
            provides: None,
            homepage: None,
            source: None,
            repo_base_uri: None,
        }
    }
}

// ─────────────────────────────────────────────────────────────
//  Stanza fields: specification
// ─────────────────────────────────────────────────────────────

/// Parser state while reading a stanza: the current field's name and value, and the
/// fields already completed as (lowercased name, value).
pub type FieldState = (Seq<char>, Seq<char>, Seq<(Seq<char>, Seq<char>)>);

/// Reads one line of a stanza: an indented line continues the current field, a line with
/// a `:` starts a new one, any other line is ignored.
pub open spec fn field_step(st: FieldState, line: Seq<char>) -> FieldState {
    let (key, val, fields) = st;
    if line.len() > 0 && (line[0] == ' ' || line[0] == '\t') {
        if key.len() > 0 {
            (key, val.push('\n') + trim_start(line), fields)
        } else {
            st
        }
    } else {
        match find_char(line, ':') {
            Some(i) => (
                trim(line.take(i)),
                trim(line.skip(i + 1)),
                if key.len() > 0 {
                    fields.push((lowercase(key), trim(val)))
                } else {
                    fields
                },
            ),
            None => st,
        }
    }
}

pub open spec fn fold_fields(st: FieldState, ls: Seq<Seq<char>>) -> FieldState
    decreases ls.len(),
{
    if ls.len() == 0 {
        st
    } else {
        fold_fields(field_step(st, ls[0]), ls.drop_first())
    }
}

/// The fields of a stanza, in order, as (lowercased name, value).
pub open spec fn block_fields(block: Seq<char>) -> Seq<(Seq<char>, Seq<char>)> {
    let (key, val, fields) = fold_fields((Seq::empty(), Seq::empty(), Seq::empty()), lines(block));
    if key.len() > 0 {
        fields.push((lowercase(key), trim(val)))
    } else {
        fields
    }
}

/// The value of the last field named `k` (a later field replaces an earlier one).
pub open spec fn field_value(fields: Seq<(Seq<char>, Seq<char>)>, k: Seq<char>) -> Option<Seq<char>>
    decreases fields.len(),
{
    if fields.len() == 0 {
        None
    } else if fields.last().0 == k {
        Some(fields.last().1)
    } else {
        field_value(fields.drop_last(), k)
    }
}

/// The first line of a description, trimmed, where it is not empty.
pub open spec fn desc_short(s: Seq<char>) -> Option<Seq<char>> {
    let ls = lines(s);
    if ls.len() == 0 || trim(ls[0]).len() == 0 {
        None
    } else {
        Some(trim(ls[0]))
    }
}

/// The lines of a description after the first, joined with newlines, where they are
/// not all blank.
pub open spec fn desc_long(s: Seq<char>) -> Option<Seq<char>> {
    let ls = lines(s);
    let rest = if ls.len() == 0 {
        Seq::empty()
    } else {
        ls.drop_first()
    };
    let j = join(rest, seq!['\n']);
    if trim(j).len() == 0 {
        None
    } else {
        Some(j)
    }
}

/// A size field parsed as a `u64`, absent where it does not parse.
pub open spec fn size_field(o: Option<Seq<char>>) -> Option<u64> {
    match o {
        Some(v) => match parse_unsigned(v, u64::MAX as int) {
            Some(n) => Some(n as u64),
            None => None,
        },
        None => None,
    }
}

/// `p` is the package that the fields describe.
pub open spec fn package_from_fields(p: Package, f: Seq<(Seq<char>, Seq<char>)>) -> bool {
    let desc = field_value(f, "description"@);
    &&& field_value(f, "package"@) == Some(p.name@)
    &&& field_value(f, "version"@) == Some(p.version@)
    &&& p.architecture@ == (match field_value(f, "architecture"@) {
        Some(a) => a,
        None => "all"@,
    })
    &&& ov(p.description_short) == (match desc {
        Some(d) => desc_short(d),
        None => None,
    })
    &&& ov(p.description_long) == (match desc {
        Some(d) => desc_long(d),
        None => None,
    })
    &&& ov(p.section) == field_value(f, "section"@)
    &&& ov(p.priority) == field_value(f, "priority"@)
    &&& ov(p.maintainer) == field_value(f, "maintainer"@)
    &&& p.installed_size_kb == size_field(field_value(f, "installed-size"@))
    &&& p.download_size == size_field(field_value(f, "size"@))
    &&& ov(p.filename) == field_value(f, "filename"@)
    &&& ov(p.sha256) == field_value(f, "sha256"@)
    &&& ov(p.md5sum) == field_value(f, "md5sum"@)
    &&& ov(p.depends) == field_value(f, "depends"@)
    &&& ov(p.pre_depends) == field_value(f, "pre-depends"@)
    &&& ov(p.recommends) == field_value(f, "recommends"@)
    &&& ov(p.suggests) == field_value(f, "suggests"@)
    &&& ov(p.conflicts) == field_value(f, "conflicts"@)
    &&& ov(p.replaces) == field_value(f, "replaces"@)
    &&& ov(p.breaks) == field_value(f, "breaks"@)
    &&& ov(p.provides) == field_value(f, "provides"@)
    &&& ov(p.homepage) == field_value(f, "homepage"@)
    &&& ov(p.source) == field_value(f, "source"@)
    &&& p.repo_base_uri is None
}

/// A stanza describes a package: it names one and gives its version.
pub open spec fn block_parses(block: Seq<char>) -> bool {
    field_value(block_fields(block), "package"@) is Some && field_value(block_fields(block), "version"@) is Some
}

/// The stanzas of an index that hold a package, trimmed, in order.
pub open spec fn package_blocks(blocks: Seq<Seq<char>>) -> Seq<Seq<char>>
    decreases blocks.len(),
{
    if blocks.len() == 0 {
        Seq::empty()
    } else {
        let prev = package_blocks(blocks.drop_last());
        let t = trim(blocks.last());
        if t.len() > 0 && block_parses(t) {
            prev.push(t)
        } else {
            prev
        }
    }
}

// ─────────────────────────────────────────────────────────────
//  Stanza fields: implementation
// ─────────────────────────────────────────────────────────────

/// The value of the last field named `k`.
fn lookup_field(fields: &Vec<(Vec<char>, Vec<char>)>, k: &str) -> (r: Option<Vec<char>>)
    ensures
        match r {
            Some(v) => field_value(fields@.map_values(|e: (Vec<char>, Vec<char>)| (e.0@, e.1@)), k@) == Some(v@),
            None => field_value(fields@.map_values(|e: (Vec<char>, Vec<char>)| (e.0@, e.1@)), k@) is None,
        },
{
    let ghost fv = fields@.map_values(|e: (Vec<char>, Vec<char>)| (e.0@, e.1@));
    let mut i: usize = fields.len();
    assert(fv.take(fields.len() as int) == fv);
    while i > 0
        invariant
            i <= fields.len(),
            fv == fields@.map_values(|e: (Vec<char>, Vec<char>)| (e.0@, e.1@)),
            field_value(fv, k@) == field_value(fv.take(i as int), k@),
        decreases i,
    {
        assert(fv.take(i as int).last() == fv[i - 1]);
        assert(fv.take(i as int).drop_last() == fv.take(i - 1));
        if chars_eq_str(&fields[i - 1].0, k) {
            return Some(slice_chars(&fields[i - 1].1, 0, fields[i - 1].1.len()));
        }
        i = i - 1;
    }
    None
}

fn size_of_field(o: &Option<Vec<char>>) -> (r: Option<u64>)
    ensures
        r == size_field(match o {
            Some(v) => Some(v@),
            None => None,
        }),
{
    match o {
        Some(v) => parse_u64(v),
        None => None,
    }
}

/// Splits a description into its summary line and the rest.
pub fn split_description(raw: Option<String>) -> (r: (Option<String>, Option<String>))
    ensures
        ov(r.0) == match ov(raw) {
            Some(d) => desc_short(d),
            None => None,
        },
        ov(r.1) == match ov(raw) {
            Some(d) => desc_long(d),
            None => None,
        },
{
    match raw {
        None => (None, None),
        Some(s) => {
            let sc = chars_of(s.as_str());
            let ls = lines_of(&sc);
            let short = if ls.len() == 0 {
                None
            } else {
                let t = trim_chars(&ls[0]);
                if t.len() == 0 {
                    None
                } else {
                    Some(string_of(&t))
                }
            };
            let mut rest: Vec<Vec<char>> = Vec::new();
            let mut i: usize = 1;
            while i < ls.len()
                invariant
                    1 <= i <= ls.len() || ls.len() == 0,
                    rest@.len() == if ls.len() == 0 { 0 } else { i - 1 },
                    forall|k: int| 0 <= k < rest@.len() ==> (#[trigger] rest@[k])@ == lines(sc@)[k + 1],
                    ls@.len() == lines(sc@).len(),
                    forall|k: int| 0 <= k < ls@.len() ==> (#[trigger] ls@[k])@ == lines(sc@)[k],
                decreases ls.len() - i,
            {
                rest.push(slice_chars(&ls[i], 0, ls[i].len()));
                i = i + 1;
            }
            let joined = join_chars(&rest, "\n");
            proof {
                let lsv = lines(sc@);
                let rv = if lsv.len() == 0 { Seq::<Seq<char>>::empty() } else { lsv.drop_first() };
                assert(rest@.map_values(|p: Vec<char>| p@) == rv);
                reveal_strlit("\n");
                assert("\n"@ == seq!['\n']);
            }
            let jt = trim_chars(&joined);
            let long = if jt.len() == 0 {
                None
            } else {
                Some(string_of(&joined))
            };
            (short, long)
        },
    }
}

/// Reads the lines of a stanza into its fields.
fn read_fields(block: &[char]) -> (r: Vec<(Vec<char>, Vec<char>)>)
    ensures
        r@.map_values(|e: (Vec<char>, Vec<char>)| (e.0@, e.1@)) == block_fields(block@),
{
    let ls = lines_of(block);
    let ghost lsv = lines(block@);
    assert(ls@.map_values(|l: Vec<char>| l@) == lsv);
    let mut key: Vec<char> = Vec::new();
    let mut val: Vec<char> = Vec::new();
    let mut fields: Vec<(Vec<char>, Vec<char>)> = Vec::new();
    let mut i: usize = 0;
    assert(lsv.skip(0) == lsv);
    assert(key@ == Seq::<char>::empty() && val@ == Seq::<char>::empty());
    assert(fields@.map_values(|e: (Vec<char>, Vec<char>)| (e.0@, e.1@)) == Seq::<(Seq<char>, Seq<char>)>::empty());
    while i < ls.len()
        invariant
            i <= ls.len(),
            lsv.len() == ls@.len(),
            forall|k: int| 0 <= k < ls@.len() ==> (#[trigger] ls@[k])@ == lsv[k],
            fold_fields((Seq::empty(), Seq::empty(), Seq::empty()), lsv) == fold_fields(
                (key@, val@, fields@.map_values(|e: (Vec<char>, Vec<char>)| (e.0@, e.1@))),
                lsv.skip(i as int),
            ),
        decreases ls.len() - i,
    {
        let line = &ls[i];
        assert(lsv.skip(i as int)[0] == line@);
        assert(lsv.skip(i as int).drop_first() == lsv.skip(i + 1));
        let ghost fv0 = fields@.map_values(|e: (Vec<char>, Vec<char>)| (e.0@, e.1@));
        if line.len() > 0 && (line[0] == ' ' || line[0] == '\t') {
            if key.len() > 0 {
                val.push('\n');
                let t = trim_start_chars(line);
                crate::text::extend_chars(&mut val, &t);
            }
        } else {
            match find_char_in(line, ':') {
                Some(idx) => {
                    proof {
                        lemma_find_char(line@, ':');
                    }
                    if key.len() > 0 {
                        let lk = lowercase_chars(&key);
                        let tv = trim_chars(&val);
                        fields.push((lk, tv));
                        assert(fields@.map_values(|e: (Vec<char>, Vec<char>)| (e.0@, e.1@)) == fv0.push(
                            (lowercase(key@), trim(val@)),
                        ));
                    }
                    let head = slice_chars(line, 0, idx);
                    let tail = slice_chars(line, idx + 1, line.len());
                    assert(head@ == line@.take(idx as int));
                    assert(tail@ == line@.skip(idx + 1));
                    key = trim_chars(&head);
                    val = trim_chars(&tail);
                },
                None => {},
            }
        }
        i = i + 1;
    }
    let ghost fv1 = fields@.map_values(|e: (Vec<char>, Vec<char>)| (e.0@, e.1@));
    if key.len() > 0 {
        let lk = lowercase_chars(&key);
        let tv = trim_chars(&val);
        fields.push((lk, tv));
        assert(fields@.map_values(|e: (Vec<char>, Vec<char>)| (e.0@, e.1@)) == fv1.push(
            (lowercase(key@), trim(val@)),
        ));
    }
    fields
}

impl Package {
    /// Parses a full `Packages` or `status` file into its packages: the stanzas between
    /// blank lines that name a package and give its version.
    pub fn parse_index(content: &str) -> (r: Vec<Package>)
        ensures
            r@.len() == package_blocks(split_str(content@, "\n\n"@)).len(),
            forall|i: int|
                0 <= i < r@.len() ==> package_from_fields(
                    #[trigger] r@[i],
                    block_fields(package_blocks(split_str(content@, "\n\n"@))[i]),
                ),
    {
        let cc = chars_of(content);
        proof {
            reveal_strlit("\n\n");
        }
        let blocks = split_on_str(&cc, "\n\n");
        let ghost bv = split_str(content@, "\n\n"@);
        let mut out: Vec<Package> = Vec::new();
        let mut i: usize = 0;
        while i < blocks.len()
            invariant
                i <= blocks.len(),
                bv.len() == blocks@.len(),
                forall|k: int| 0 <= k < blocks@.len() ==> (#[trigger] blocks@[k])@ == bv[k],
                out@.len() == package_blocks(bv.take(i as int)).len(),
                forall|k: int|
                    0 <= k < out@.len() ==> package_from_fields(
                        #[trigger] out@[k],
                        block_fields(package_blocks(bv.take(i as int))[k]),
                    ),
            decreases blocks.len() - i,
        {
            assert(bv.take(i + 1).drop_last() == bv.take(i as int));
            assert(bv.take(i + 1).last() == blocks@[i as int]@);
            let b = trim_chars(&blocks[i]);
            if b.len() > 0 {
                let bs = string_of(&b);
                match Package::parse_block(bs.as_str()) {
                    Some(p) => {
                        out.push(p);
                    },
                    None => {},
                }
            }
            i = i + 1;
        }
        assert(bv.take(blocks.len() as int) == bv);
        out
    }

    /// Parses one stanza. `None` where it lacks a `Package` or a `Version` field.
    pub fn parse_block(block: &str) -> (r: Option<Package>)
        ensures
            r is Some <==> block_parses(block@),
            match r {
                Some(p) => package_from_fields(p, block_fields(block@)),
                None => true,
            },
            r matches Some(p) ==> {
                &&& field_value(block_fields(block@), "package"@) == Some(p.name@)
                &&& field_value(block_fields(block@), "version"@) == Some(p.version@)
                &&& ov(p.section) == field_value(block_fields(block@), "section"@)
                &&& ov(p.priority) == field_value(block_fields(block@), "priority"@)
                &&& ov(p.maintainer) == field_value(block_fields(block@), "maintainer"@)
                &&& p.installed_size_kb == size_field(field_value(block_fields(block@), "installed-size"@))
                &&& p.download_size == size_field(field_value(block_fields(block@), "size"@))
                &&& ov(p.filename) == field_value(block_fields(block@), "filename"@)
                &&& ov(p.sha256) == field_value(block_fields(block@), "sha256"@)
                &&& ov(p.md5sum) == field_value(block_fields(block@), "md5sum"@)
                &&& ov(p.depends) == field_value(block_fields(block@), "depends"@)
                &&& ov(p.pre_depends) == field_value(block_fields(block@), "pre-depends"@)
                &&& ov(p.recommends) == field_value(block_fields(block@), "recommends"@)
                &&& ov(p.suggests) == field_value(block_fields(block@), "suggests"@)
                &&& ov(p.conflicts) == field_value(block_fields(block@), "conflicts"@)
                &&& ov(p.replaces) == field_value(block_fields(block@), "replaces"@)
                &&& ov(p.breaks) == field_value(block_fields(block@), "breaks"@)
                &&& ov(p.provides) == field_value(block_fields(block@), "provides"@)
                &&& ov(p.homepage) == field_value(block_fields(block@), "homepage"@)
                &&& ov(p.source) == field_value(block_fields(block@), "source"@)
            },
    {
        let bc = chars_of(block);
        let fields = read_fields(&bc);
        let name = match lookup_field(&fields, "package") {
            Some(v) => v,
            None => return None,
        };
        let version = match lookup_field(&fields, "version") {
            Some(v) => v,
            None => return None,
        };
        let arch = match lookup_field(&fields, "architecture") {
            Some(v) => string_of(&v),
            None => String::from_str("all"),
        };
        let desc = opt_string(&lookup_field(&fields, "description"));
        let (desc_short, desc_long) = split_description(desc);
        let installed = lookup_field(&fields, "installed-size");
        let size = lookup_field(&fields, "size");
        Some(Package {
            name: string_of(&name),
            version: string_of(&version),
            architecture: arch,
            description_short: desc_short,
            description_long: desc_long,
            section: opt_string(&lookup_field(&fields, "section")),
            priority: opt_string(&lookup_field(&fields, "priority")),
            maintainer: opt_string(&lookup_field(&fields, "maintainer")),
            installed_size_kb: size_of_field(&installed),
            download_size: size_of_field(&size),
            filename: opt_string(&lookup_field(&fields, "filename")),
            sha256: opt_string(&lookup_field(&fields, "sha256")),
            md5sum: opt_string(&lookup_field(&fields, "md5sum")),
            depends: opt_string(&lookup_field(&fields, "depends")),
            pre_depends: opt_string(&lookup_field(&fields, "pre-depends")),
            recommends: opt_string(&lookup_field(&fields, "recommends")),
            suggests: opt_string(&lookup_field(&fields, "suggests")),
            conflicts: opt_string(&lookup_field(&fields, "conflicts")),
            replaces: opt_string(&lookup_field(&fields, "replaces")),
            breaks: opt_string(&lookup_field(&fields, "breaks")),
            provides: opt_string(&lookup_field(&fields, "provides")),
            homepage: opt_string(&lookup_field(&fields, "homepage")),
            source: opt_string(&lookup_field(&fields, "source")),
            repo_base_uri: None,
        })
    }
}


// ─────────────────────────────────────────────────────────────
//  Dependency fields
// ─────────────────────────────────────────────────────────────

/// One clause of a dependency field: one or more alternatives, any of which will do.
#[derive(Debug)]
pub struct DepGroup {
    /// One or more alternatives (OR)
    pub alternatives: Vec<SingleDep>,
}

/// One alternative of a dependency clause.
#[derive(Debug)]
pub struct SingleDep {
    pub name: String,
    pub constraint: Option<VersionConstraint>,
    /// e.g. ":amd64"
    pub arch_qual: Option<String>,
}

/// A version constraint such as `(>= 1.2)`.
#[derive(Debug)]
pub struct VersionConstraint {
    pub op: VersionOp,
    pub version: String,
}

/// What a dependency alternative says, as plain values.
pub struct DepSpec {
    pub name: Seq<char>,
    pub constraint: Option<(VersionOp, Seq<char>)>,
    pub arch_qual: Option<Seq<char>>,
}

pub open spec fn constraint_view(c: Option<VersionConstraint>) -> Option<(VersionOp, Seq<char>)> {
    match c {
        Some(vc) => Some((vc.op, vc.version@)),
        None => None,
    }
}

pub open spec fn dep_view(d: SingleDep) -> DepSpec {
    DepSpec { name: d.name@, constraint: constraint_view(d.constraint), arch_qual: ov(d.arch_qual) }
}

pub open spec fn group_view(g: DepGroup) -> Seq<DepSpec> {
    g.alternatives@.map_values(|d: SingleDep| dep_view(d))
}

pub open spec fn groups_view(gs: Seq<DepGroup>) -> Seq<Seq<DepSpec>> {
    gs.map_values(|g: DepGroup| group_view(g))
}

/// A name and its architecture qualifier: the qualifier starts at the first `:` and
/// keeps it; the name is what comes before, trimmed.
pub open spec fn arch_split(s: Seq<char>) -> (Seq<char>, Option<Seq<char>>) {
    match find_char(s, ':') {
        Some(c) => (trim(s.take(c)), Some(s.skip(c))),
        None => (trim(s), None),
    }
}

/// A constraint such as `>= 1.2`: the operator and the trimmed version after it.
pub open spec fn constraint_of(s: Seq<char>) -> Option<(VersionOp, Seq<char>)> {
    if starts_with(s, ">="@) {
        Some((VersionOp::Ge, trim(s.skip(2))))
    } else if starts_with(s, "<="@) {
        Some((VersionOp::Le, trim(s.skip(2))))
    } else if starts_with(s, ">>"@) {
        Some((VersionOp::Gt, trim(s.skip(2))))
    } else if starts_with(s, "<<"@) {
        Some((VersionOp::Lt, trim(s.skip(2))))
    } else if s.len() > 0 && s[0] == '=' {
        Some((VersionOp::Eq, trim(s.skip(1))))
    } else {
        None
    }
}

/// One alternative such as `libfoo:any (>= 1.2)`.
pub open spec fn single_dep_of(s0: Seq<char>) -> Option<DepSpec> {
    let s = trim(s0);
    if s.len() == 0 {
        None
    } else {
        match find_char(s, '(') {
            Some(p) => {
                let (name, aq) = arch_split(trim(s.take(p)));
                let inner = trim(
                    strip_end(strip_start(s.skip(p), CharClass::Exactly('(')), CharClass::Exactly(')')),
                );
                Some(DepSpec { name, constraint: constraint_of(inner), arch_qual: aq })
            },
            None => {
                let (name, aq) = arch_split(s);
                Some(DepSpec { name, constraint: None, arch_qual: aq })
            },
        }
    }
}

/// The alternatives that parse among the given pieces, in order.
pub open spec fn alternatives_of(parts: Seq<Seq<char>>) -> Seq<DepSpec>
    decreases parts.len(),
{
    if parts.len() == 0 {
        Seq::empty()
    } else {
        let prev = alternatives_of(parts.drop_last());
        match single_dep_of(trim(parts.last())) {
            Some(d) => prev.push(d),
            None => prev,
        }
    }
}

/// The clauses of a dependency field: the comma-separated chunks that are not blank,
/// each split at `|` into alternatives, a chunk without any alternative left out.
pub open spec fn dep_groups_of(chunks: Seq<Seq<char>>) -> Seq<Seq<DepSpec>>
    decreases chunks.len(),
{
    if chunks.len() == 0 {
        Seq::empty()
    } else {
        let prev = dep_groups_of(chunks.drop_last());
        let c = trim(chunks.last());
        let alts = alternatives_of(split_char(c, '|'));
        if c.len() == 0 || alts.len() == 0 {
            prev
        } else {
            prev.push(alts)
        }
    }
}

/// The clauses of a dependency field such as `libfoo (>= 1.2), libbar | libbaz (<< 2.0)`.
pub open spec fn dep_field(s: Seq<char>) -> Seq<Seq<DepSpec>> {
    dep_groups_of(split_char(s, ','))
}

fn split_arch_qual(s: &[char]) -> (r: (String, Option<String>))
    ensures
        r.0@ == arch_split(s@).0,
        ov(r.1) == arch_split(s@).1,
{
    match find_char_in(s, ':') {
        Some(colon) => {
            proof {
                lemma_find_char(s@, ':');
            }
            let head = slice_chars(s, 0, colon);
            let tail = slice_chars(s, colon, s.len());
            assert(head@ == s@.take(colon as int));
            assert(tail@ == s@.skip(colon as int));
            (string_of(&trim_chars(&head)), Some(string_of(&tail)))
        },
        None => (string_of(&trim_chars(s)), None),
    }
}

fn parse_constraint(s: &[char]) -> (r: Option<VersionConstraint>)
    ensures
        constraint_view(r) == constraint_of(s@),
{
    let op = if starts_with_str(s, ">=") {
        VersionOp::Ge
    } else if starts_with_str(s, "<=") {
        VersionOp::Le
    } else if starts_with_str(s, ">>") {
        VersionOp::Gt
    } else if starts_with_str(s, "<<") {
        VersionOp::Lt
    } else if s.len() > 0 && s[0] == '=' {
        VersionOp::Eq
    } else {
        return None;
    };
    proof {
        reveal_strlit(">=");
        reveal_strlit("<=");
        reveal_strlit(">>");
        reveal_strlit("<<");
    }
    let skip: usize = match op {
        VersionOp::Eq => 1,
        _ => 2,
    };
    let rest = slice_chars(s, skip, s.len());
    assert(rest@ == s@.skip(skip as int));
    Some(VersionConstraint { op, version: string_of(&trim_chars(&rest)) })
}

fn parse_single_dep(s0: &[char]) -> (r: Option<SingleDep>)
    ensures
        match r {
            Some(d) => single_dep_of(s0@) == Some(dep_view(d)),
            None => single_dep_of(s0@) is None,
        },
{
    let s = trim_chars(s0);
    if s.len() == 0 {
        return None;
    }
    match find_char_in(&s, '(') {
        Some(paren) => {
            proof {
                lemma_find_char(s@, '(');
            }
            let raw_name = slice_chars(&s, 0, paren);
            let rest = slice_chars(&s, paren, s.len());
            assert(raw_name@ == s@.take(paren as int));
            assert(rest@ == s@.skip(paren as int));
            let name_part = trim_chars(&raw_name);
            let (name, arch_qual) = split_arch_qual(&name_part);
            let a = strip_start_chars(&rest, &CharClass::Exactly('('));
            let b = strip_end_chars(&a, &CharClass::Exactly(')'));
            let inner = trim_chars(&b);
            let constraint = parse_constraint(&inner);
            Some(SingleDep { name, arch_qual, constraint })
        },
        None => {
            let (name, arch_qual) = split_arch_qual(&s);
            Some(SingleDep { name, arch_qual, constraint: None })
        },
    }
}

/// Parses a dependency field such as `libfoo (>= 1.2), libbar | libbaz (<< 2.0)`.
pub fn parse_dep_field(s: &str) -> (r: Vec<DepGroup>)
    ensures
        groups_view(r@) == dep_field(s@),
{
    let sc = chars_of(s);
    let chunks = split_chars(&sc, ',');
    let ghost cv = split_char(s@, ',');
    let mut out: Vec<DepGroup> = Vec::new();
    let mut i: usize = 0;
    while i < chunks.len()
        invariant
            i <= chunks.len(),
            cv.len() == chunks@.len(),
            forall|k: int| 0 <= k < chunks@.len() ==> (#[trigger] chunks@[k])@ == cv[k],
            groups_view(out@) == dep_groups_of(cv.take(i as int)),
        decreases chunks.len() - i,
    {
        assert(cv.take(i + 1).drop_last() == cv.take(i as int));
        assert(cv.take(i + 1).last() == chunks@[i as int]@);
        let chunk = trim_chars(&chunks[i]);
        if chunk.len() > 0 {
            let parts = split_chars(&chunk, '|');
            let ghost pv = split_char(chunk@, '|');
            let mut alts: Vec<SingleDep> = Vec::new();
            let mut j: usize = 0;
            while j < parts.len()
                invariant
                    j <= parts.len(),
                    pv.len() == parts@.len(),
                    forall|k: int| 0 <= k < parts@.len() ==> (#[trigger] parts@[k])@ == pv[k],
                    alts@.map_values(|d: SingleDep| dep_view(d)) == alternatives_of(pv.take(j as int)),
                decreases parts.len() - j,
            {
                assert(pv.take(j + 1).drop_last() == pv.take(j as int));
                assert(pv.take(j + 1).last() == parts@[j as int]@);
                let alt = trim_chars(&parts[j]);
                let ghost before = alts@.map_values(|d: SingleDep| dep_view(d));
                match parse_single_dep(&alt) {
                    Some(d) => {
                        alts.push(d);
                        assert(alts@.map_values(|d: SingleDep| dep_view(d)) == before.push(dep_view(d)));
                    },
                    None => {},
                }
                j = j + 1;
            }
            assert(pv.take(parts.len() as int) == pv);
            if alts.len() > 0 {
                let ghost before = groups_view(out@);
                let g = DepGroup { alternatives: alts };
                out.push(g);
                assert(groups_view(out@) == before.push(group_view(g)));
            }
        }
        i = i + 1;
    }
    assert(cv.take(chunks.len() as int) == cv);
    out
}


/// The operator of a version constraint means what its text says: with `x` the sign of
/// comparing a version against the one named, `>=` holds when `x >= 0`, `<=` when
/// `x <= 0`, `>>` when `x > 0`, `<<` when `x < 0`, and `=` when `x == 0`; the version
/// named is the rest of the text, trimmed.
pub proof fn law_constraint_operators(r: Seq<char>, x: int)
    requires
        -1 <= x <= 1,
    ensures
        constraint_of(">="@ + r) matches Some((op, w)) && w == trim(r) && (crate::version::op_holds(op, x) <==> x >= 0),
        constraint_of("<="@ + r) matches Some((op, w)) && w == trim(r) && (crate::version::op_holds(op, x) <==> x <= 0),
        constraint_of(">>"@ + r) matches Some((op, w)) && w == trim(r) && (crate::version::op_holds(op, x) <==> x > 0),
        constraint_of("<<"@ + r) matches Some((op, w)) && w == trim(r) && (crate::version::op_holds(op, x) <==> x < 0),
        constraint_of(seq!['='] + r) matches Some((op, w)) && w == trim(r) && (crate::version::op_holds(op, x) <==> x == 0),
{
    reveal_strlit(">=");
    reveal_strlit("<=");
    reveal_strlit(">>");
    reveal_strlit("<<");
    let ge = ">="@ + r;
    let le = "<="@ + r;
    let gt = ">>"@ + r;
    let lt = "<<"@ + r;
    let eq = seq!['='] + r;
    assert(ge.take(2) == ">="@);
    assert(ge.skip(2) == r);
    assert(le.take(2) == "<="@);
    assert(le.skip(2) == r);
    assert(le[0] == '<');
    assert(!starts_with(le, ">="@)) by {
        assert(le.take(2)[0] != ">="@[0]);
    }
    assert(gt.take(2) == ">>"@);
    assert(gt.skip(2) == r);
    assert(!starts_with(gt, ">="@)) by {
        assert(gt.take(2)[1] != ">="@[1]);
    }
    assert(!starts_with(gt, "<="@)) by {
        assert(gt.take(2)[0] != "<="@[0]);
    }
    assert(lt.take(2) == "<<"@);
    assert(lt.skip(2) == r);
    assert(!starts_with(lt, ">="@)) by {
        assert(lt.take(2)[0] != ">="@[0]);
    }
    assert(!starts_with(lt, "<="@)) by {
        assert(lt.take(2)[1] != "<="@[1]);
    }
    assert(!starts_with(lt, ">>"@)) by {
        assert(lt.take(2)[0] != ">>"@[0]);
    }
    assert(eq[0] == '=');
    assert(eq.skip(1) == r);
    assert(!starts_with(eq, ">="@)) by {
        if 2 <= eq.len() {
            assert(eq.take(2)[0] != ">="@[0]);
        }
    }
    assert(!starts_with(eq, "<="@)) by {
        if 2 <= eq.len() {
            assert(eq.take(2)[0] != "<="@[0]);
        }
    }
    assert(!starts_with(eq, ">>"@)) by {
        if 2 <= eq.len() {
            assert(eq.take(2)[0] != ">>"@[0]);
        }
    }
    assert(!starts_with(eq, "<<"@)) by {
        if 2 <= eq.len() {
            assert(eq.take(2)[0] != "<<"@[0]);
        }
    }
}

} // verus!
