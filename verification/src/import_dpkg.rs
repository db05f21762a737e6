//! Taking over what dpkg has installed: the packages of its status file, the file lists of
//! its `.list` files, and their records in the installed-package database.
use vstd::prelude::*;
use crate::db::{InstalledDb, InstallReason, installed_row};
use crate::dpkg_status::{get_field, stanza_field};
use crate::package::{desc_long, desc_short, ov, split_description, Package};
use crate::text::{
    chars_of, chars_eq_str, contains_chars, contains_sub, lines, lines_of, names_of, parse_u64,
    parse_unsigned, split_on_str, split_str, string_of, trim, trim_chars, lemma_names_push,
};

verus! {

/// An optional field's value, or the given default.
pub open spec fn or_default(o: Option<Seq<char>>, d: Seq<char>) -> Seq<char> {
    match o {
        Some(v) => v,
        None => d,
    }
}

/// A stanza of the status file that is taken over: not blank, with a status that says
/// `installed` somewhere, and a `Package` field.
pub open spec fn taken_block(b: Seq<char>) -> bool {
    &&& b.len() > 0
    &&& contains_sub(or_default(stanza_field(b, "Status"@), Seq::empty()), "installed"@)
    &&& stanza_field(b, "Package"@) is Some
}

/// The trimmed stanzas that are taken over, in order.
pub open spec fn taken_blocks(bs: Seq<Seq<char>>) -> Seq<Seq<char>>
    decreases bs.len(),
{
    if bs.len() == 0 {
        Seq::empty()
    } else if taken_block(trim(bs.last())) {
        taken_blocks(bs.drop_last()).push(trim(bs.last()))
    } else {
        taken_blocks(bs.drop_last())
    }
}

/// The package a taken-over stanza describes: its name, version (empty by default),
/// architecture (`all` by default), installed size (0 where missing or not a number),
/// dependencies, section, maintainer and description; nothing else.
pub open spec fn status_package(p: Package, b: Seq<char>) -> bool {
    let desc = stanza_field(b, "Description"@);
    &&& p.name@ == or_default(stanza_field(b, "Package"@), Seq::empty())
    &&& p.version@ == or_default(stanza_field(b, "Version"@), Seq::empty())
    &&& p.architecture@ == or_default(stanza_field(b, "Architecture"@), "all"@)
    &&& p.installed_size_kb == Some(match stanza_field(b, "Installed-Size"@) {
        Some(s) => match parse_unsigned(s, u64::MAX as int) {
            Some(n) => n as u64,
            None => 0u64,
        },
        None => 0u64,
    })
    &&& ov(p.depends) == stanza_field(b, "Depends"@)
    &&& ov(p.recommends) == stanza_field(b, "Recommends"@)
    &&& ov(p.section) == stanza_field(b, "Section"@)
    &&& ov(p.maintainer) == stanza_field(b, "Maintainer"@)
    &&& ov(p.description_short) == match desc {
        Some(d) => desc_short(d),
        None => None,
    }
    &&& ov(p.description_long) == match desc {
        Some(d) => desc_long(d),
        None => None,
    }
    &&& p.priority is None
    &&& p.download_size is None
    &&& p.filename is None
    &&& p.sha256 is None
    &&& p.md5sum is None
    &&& p.pre_depends is None
    &&& p.suggests is None
    &&& p.conflicts is None
    &&& p.replaces is None
    &&& p.breaks is None
    &&& p.provides is None
    &&& p.homepage is None
    &&& p.source is None
    &&& p.repo_base_uri is None
}

fn field_or(block: &str, key: &str, default: &str) -> (r: String)
    ensures
        r@ == or_default(stanza_field(block@, key@), default@),
{
    match get_field(block, key) {
        Some(v) => v,
        None => string_of(&chars_of(default)),
    }
}

/// Reads a stanza taken over from the status file.
fn package_of_block(b: &str) -> (r: Package)
    ensures
        status_package(r, b@),
{
    proof {
        reveal_strlit("");
    }
    let name = field_or(b, "Package", "");
    let version = field_or(b, "Version", "");
    let architecture = field_or(b, "Architecture", "all");
    let size_kb: u64 = match get_field(b, "Installed-Size") {
        Some(s) => match parse_u64(&chars_of(s.as_str())) {
            Some(n) => n,
            None => 0,
        },
        None => 0,
    };
    let description = get_field(b, "Description");
    let (description_short, description_long) = split_description(description);
    let r = Package {
        name,
        version,
        architecture,
        description_short,
        description_long,
        section: get_field(b, "Section"),
        priority: None,
        maintainer: get_field(b, "Maintainer"),
        installed_size_kb: Some(size_kb),
        download_size: None,
        filename: None,
        sha256: None,
        md5sum: None,
        depends: get_field(b, "Depends"),
        pre_depends: None,
        recommends: get_field(b, "Recommends"),
        suggests: None,
        conflicts: None,
        replaces: None,
        breaks: None,
        provides: None,
        homepage: None,
        source: None,
        repo_base_uri: None,
    };
    assert(r.name@ == or_default(stanza_field(b@, "Package"@), Seq::empty()));
    assert(r.architecture@ == or_default(stanza_field(b@, "Architecture"@), "all"@));
    assert(ov(r.depends) == stanza_field(b@, "Depends"@));
    assert(ov(r.description_short) == match stanza_field(b@, "Description"@) {
        Some(d) => desc_short(d),
        None => None,
    });
    assert(r.version@ == or_default(stanza_field(b@, "Version"@), Seq::empty()));
    assert(r.installed_size_kb == Some(match stanza_field(b@, "Installed-Size"@) {
        Some(s) => match parse_unsigned(s, u64::MAX as int) {
            Some(n) => n as u64,
            None => 0u64,
        },
        None => 0u64,
    }));
    assert(ov(r.recommends) == stanza_field(b@, "Recommends"@));
    assert(ov(r.section) == stanza_field(b@, "Section"@));
    assert(ov(r.maintainer) == stanza_field(b@, "Maintainer"@));
    r
}

/// The installed packages of a dpkg status file, in order.
pub fn parse_dpkg_status(content: &str) -> (r: Vec<Package>)
    ensures
        r@.len() == taken_blocks(split_str(content@, "\n\n"@)).len(),
        forall|i: int| 0 <= i < r@.len() ==> status_package(#[trigger] r@[i], taken_blocks(split_str(content@, "\n\n"@))[i]),
{
    proof {
        reveal_strlit("\n\n");
    }
    let parts = split_on_str(&chars_of(content), "\n\n");
    let ghost pv = split_str(content@, "\n\n"@);
    let mut out: Vec<Package> = Vec::new();
    let mut i: usize = 0;
    while i < parts.len()
        invariant
            i <= parts@.len(),
            parts@.len() == pv.len(),
            forall|j: int| 0 <= j < parts@.len() ==> (#[trigger] parts@[j])@ == pv[j],
            out@.len() == taken_blocks(pv.take(i as int)).len(),
            forall|k: int| 0 <= k < out@.len() ==> status_package(#[trigger] out@[k], taken_blocks(pv.take(i as int))[k]),
        decreases parts@.len() - i,
    {
        proof {
            assert(pv.take(i + 1).drop_last() == pv.take(i as int));
            assert(pv.take(i + 1).last() == pv[i as int]);
        }
        let tc = trim_chars(&parts[i]);
        let b = string_of(&tc);
        if tc.len() > 0 {
            let status: Vec<char> = match get_field(b.as_str(), "Status") {
                Some(v) => chars_of(v.as_str()),
                None => Vec::new(),
            };
            if contains_chars(&status, &chars_of("installed")) {
                if get_field(b.as_str(), "Package").is_some() {
                    let p = package_of_block(b.as_str());
                    let ghost before = out@;
                    out.push(p);
                    assert forall|k: int| 0 <= k < out@.len() implies status_package(#[trigger] out@[k], taken_blocks(pv.take(i + 1))[k]) by {
                        if k < before.len() {
                            assert(out@[k] == before[k]);
                        }
                    }
                }
            }
        }
        i = i + 1;
    }
    assert(pv.take(pv.len() as int) == pv);
    out
}

/// The lines of a `.list` file that are not empty.
pub open spec fn listed_files(ls: Seq<Seq<char>>) -> Seq<Seq<char>>
    decreases ls.len(),
{
    if ls.len() == 0 {
        Seq::empty()
    } else if ls.last().len() == 0 {
        listed_files(ls.drop_last())
    } else {
        listed_files(ls.drop_last()).push(ls.last())
    }
}

/// The files a package's `.list` file names: its lines that are not empty.
pub fn list_file_entries(content: &str) -> (r: Vec<String>)
    ensures
        names_of(r@) == listed_files(lines(content@)),
{
    let ls = lines_of(&chars_of(content));
    let ghost lv = lines(content@);
    let mut out: Vec<String> = Vec::new();
    let mut i: usize = 0;
    while i < ls.len()
        invariant
            i <= ls@.len(),
            ls@.len() == lv.len(),
            forall|j: int| 0 <= j < ls@.len() ==> (#[trigger] ls@[j])@ == lv[j],
            names_of(out@) == listed_files(lv.take(i as int)),
        decreases ls@.len() - i,
    {
        proof {
            assert(lv.take(i + 1).drop_last() == lv.take(i as int));
            assert(lv.take(i + 1).last() == lv[i as int]);
        }
        if ls[i].len() > 0 {
            let s = string_of(&ls[i]);
            let ghost before = out@;
            out.push(s);
            proof {
                lemma_names_push(before, s);
            }
        }
        i = i + 1;
    }
    assert(lv.take(lv.len() as int) == lv);
    out
}

/// The first package of that name in the list.
pub open spec fn first_of_name(pkgs: Seq<Package>, i: int) -> bool {
    forall|j: int| 0 <= j < i ==> #[trigger] pkgs[j].name@ != pkgs[i].name@
}

/// How many of the packages an import records: those not installed before and not named
/// earlier in the list.
pub open spec fn fresh_count(db: InstalledDb, pkgs: Seq<Package>) -> nat
    decreases pkgs.len(),
{
    if pkgs.len() == 0 {
        0
    } else {
        let i = pkgs.len() - 1;
        fresh_count(db, pkgs.drop_last()) + if db.lookup(pkgs[i].name@) is None && first_of_name(pkgs, i) {
            1nat
        } else {
            0nat
        }
    }
}

proof fn lemma_first_of_name_take(pkgs: Seq<Package>, i: int, m: int)
    requires
        0 <= i < m <= pkgs.len(),
    ensures
        first_of_name(pkgs.take(m), i) == first_of_name(pkgs, i),
{
    if first_of_name(pkgs, i) {
        assert forall|j: int| 0 <= j < i implies #[trigger] pkgs.take(m)[j].name@ != pkgs.take(m)[i].name@ by {
            assert(pkgs.take(m)[j] == pkgs[j]);
        }
    }
    if first_of_name(pkgs.take(m), i) {
        assert forall|j: int| 0 <= j < i implies #[trigger] pkgs[j].name@ != pkgs[i].name@ by {
            assert(pkgs.take(m)[j] == pkgs[j]);
        }
    }
}

pub open spec fn last_id(db: InstalledDb) -> int {
    if db.entries().len() == 0 {
        0
    } else {
        db.entries().last().id as int
    }
}

/// Records each package that is not installed yet as installed at the user's request,
/// with its file list (`files[i]` for `pkgs[i]`); a package already installed, or named
/// before in the list, is skipped. Returns how many were recorded and how many skipped.
#[verifier::rlimit(40)]
pub fn import_packages(db: &mut InstalledDb, pkgs: &[Package], files: &[Vec<String>], now: &str) -> (r: (usize, usize))
    requires
        old(db).wf(),
        files@.len() == pkgs@.len(),
        last_id(*old(db)) + pkgs@.len() < i64::MAX,
    ensures
        final(db).wf(),
        r.0 + r.1 == pkgs@.len(),
        r.0 == fresh_count(*old(db), pkgs@),
        forall|n: Seq<char>| #[trigger] old(db).lookup(n) is Some ==> final(db).lookup(n) == old(db).lookup(n),
        forall|n: Seq<char>| (forall|i: int| 0 <= i < pkgs@.len() ==> #[trigger] pkgs@[i].name@ != n)
            ==> #[trigger] final(db).lookup(n) == old(db).lookup(n),
        forall|i: int| 0 <= i < pkgs@.len() && old(db).lookup(#[trigger] pkgs@[i].name@) is None && first_of_name(pkgs@, i)
            ==> (final(db).lookup(pkgs@[i].name@) matches Some(row) && installed_row(row, pkgs@[i], InstallReason::User, files@[i]@, now@)),
{
    let ghost db0 = *db;
    let mut imported: usize = 0;
    let mut skipped: usize = 0;
    let mut i: usize = 0;
    while i < pkgs.len()
        invariant
            i <= pkgs@.len(),
            files@.len() == pkgs@.len(),
            db.wf(),
            db0.wf(),
            imported + skipped == i,
            imported == fresh_count(db0, pkgs@.take(i as int)),
            last_id(*db) + (pkgs@.len() - i) < i64::MAX,
            forall|n: Seq<char>| #[trigger] db0.lookup(n) is Some ==> db.lookup(n) == db0.lookup(n),
            forall|n: Seq<char>| (forall|j: int| 0 <= j < i ==> #[trigger] pkgs@[j].name@ != n)
                ==> #[trigger] db.lookup(n) == db0.lookup(n),
            forall|k: int| 0 <= k < i && db0.lookup(#[trigger] pkgs@[k].name@) is None && first_of_name(pkgs@, k)
                ==> (db.lookup(pkgs@[k].name@) matches Some(row) && installed_row(row, pkgs@[k], InstallReason::User, files@[k]@, now@)),
            forall|k: int| 0 <= k < i ==> db.lookup(#[trigger] pkgs@[k].name@) is Some,
        decreases pkgs@.len() - i,
    {
        let p = &pkgs[i];
        proof {
            assert(pkgs@.take(i + 1).drop_last() == pkgs@.take(i as int));
            assert(pkgs@.take(i + 1)[i as int] == pkgs@[i as int]);
            lemma_first_of_name_take(pkgs@, i as int, i + 1);
        }
        if db.is_installed(p.name.as_str()) {
            proof {
                if db0.lookup(p.name@) is None && first_of_name(pkgs@, i as int) {
                    assert forall|j: int| 0 <= j < i implies #[trigger] pkgs@[j].name@ != p.name@ by {}
                    assert(db.lookup(p.name@) == db0.lookup(p.name@));
                }
            }
            skipped = skipped + 1;
        } else {
            proof {
                if db0.lookup(p.name@) is Some {
                    assert(db.lookup(p.name@) == db0.lookup(p.name@));
                }
                assert forall|j: int| 0 <= j < i implies #[trigger] pkgs@[j].name@ != pkgs@[i as int].name@ by {
                    assert(db.lookup(pkgs@[j].name@) is Some);
                }
            }
            let ghost before = *db;
            db.record_install(p, InstallReason::User, files[i].as_slice(), now);
            proof {
                assert forall|k: int| 0 <= k < i + 1 implies db.lookup(#[trigger] pkgs@[k].name@) is Some by {
                    if pkgs@[k].name@ != p.name@ {
                        assert(db.lookup(pkgs@[k].name@) == before.lookup(pkgs@[k].name@));
                    }
                }
            }
            imported = imported + 1;
        }
        i = i + 1;
    }
    assert(pkgs@.take(pkgs@.len() as int) == pkgs@);
    (imported, skipped)
}

} // verus!
