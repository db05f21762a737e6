//! The decisions inside the commands: which packages a filter keeps, what a package is
//! shown as, what undoing or redoing a past operation does, and which files `clean`
//! removes. Reading, downloading, installing and printing are the application's part.
use vstd::prelude::*;
use crate::alternatives::{file_name, file_name_of};
use crate::apt_sources::SourceEntry;
use crate::cache::PackageCache;
use crate::db::{HistoryEntry, InstallReason, InstalledDb, InstalledPackage};
use crate::package::{clone_opt, ov, Package};
use crate::text::{
    chars_eq, chars_of, contains_chars, contains_sub, extend_str, last_segment, last_segment_of,
    lowercase, lowercase_chars, rfind_char, rfind_char_in, lemma_rfind_char, slice_chars,
    string_of, strip_end, strip_end_chars, to_lowercase, CharClass,
};
use crate::version::{version_order, version_sign};

verus! {

// ─────────────────────────────────────────────────────────────
//  Labels
// ─────────────────────────────────────────────────────────────

/// How a package is named in the steps of a transaction: `name-version.arch`.
pub open spec fn label_of(name: Seq<char>, version: Seq<char>, arch: Seq<char>) -> Seq<char> {
    name + seq!['-'] + version + seq!['.'] + arch
}

pub fn package_label(name: &str, version: &str, arch: &str) -> (r: String)
    ensures
        r@ == label_of(name@, version@, arch@),
{
    let mut v: Vec<char> = chars_of(name);
    v.push('-');
    extend_str(&mut v, version);
    v.push('.');
    extend_str(&mut v, arch);
    string_of(&v)
}

/// The repository column of `list`: the last segment of the base URI without its
/// trailing `/`s, empty without a URI.
pub open spec fn list_repo(p: Package) -> Seq<char> {
    last_segment(strip_end(match ov(p.repo_base_uri) {
        Some(u) => u,
        None => Seq::empty(),
    }, CharClass::Exactly('/')))
}

pub fn list_repo_label(p: &Package) -> (r: String)
    ensures
        r@ == list_repo(*p),
{
    let u: Vec<char> = match &p.repo_base_uri {
        Some(u) => chars_of(u.as_str()),
        None => Vec::new(),
    };
    let t = strip_end_chars(&u, &CharClass::Exactly('/'));
    string_of(&last_segment_of(&t))
}

/// The line of `check-update` for one upgrade: `  name-old -> new`.
pub fn update_line(name: &str, old_version: &str, new_version: &str) -> (r: String)
    ensures
        r@ == seq![' ', ' '] + name@ + seq!['-'] + old_version@ + " -> "@ + new_version@,
{
    let mut v: Vec<char> = Vec::new();
    v.push(' ');
    v.push(' ');
    extend_str(&mut v, name);
    v.push('-');
    extend_str(&mut v, old_version);
    extend_str(&mut v, " -> ");
    extend_str(&mut v, new_version);
    string_of(&v)
}

// ─────────────────────────────────────────────────────────────
//  Install reasons and upgrade filters
// ─────────────────────────────────────────────────────────────

/// A package installed by a transaction was asked for by the user when its name is one of
/// the names given, an architecture qualifier (`vim:amd64`) left out; otherwise it came in
/// as a dependency.
pub open spec fn reason_for(names: Seq<String>, pkg_name: Seq<char>) -> InstallReason {
    if exists|i: int| 0 <= i < names.len() && crate::solver::base_name((#[trigger] names[i])@) == pkg_name {
        InstallReason::User
    } else {
        InstallReason::Dependency
    }
}

pub fn install_reason(names: &[String], pkg_name: &str) -> (r: InstallReason)
    ensures
        r == reason_for(names@, pkg_name@),
{
    let pc = chars_of(pkg_name);
    let mut i: usize = 0;
    while i < names.len()
        invariant
            i <= names@.len(),
            pc@ == pkg_name@,
            forall|j: int| 0 <= j < i ==> crate::solver::base_name((#[trigger] names@[j])@) != pkg_name@,
        decreases names.len() - i,
    {
        let base = crate::solver::base_name_of(names[i].as_str());
        if chars_eq(&chars_of(base.as_str()), &pc) {
            return InstallReason::User;
        }
        i = i + 1;
    }
    InstallReason::Dependency
}

/// The packages of `pkgs`, in order, that `keep` holds of.
pub open spec fn kept(pkgs: Seq<Package>, keep: spec_fn(Package) -> bool) -> Seq<Package>
    decreases pkgs.len(),
{
    if pkgs.len() == 0 {
        Seq::empty()
    } else if keep(pkgs.last()) {
        kept(pkgs.drop_last(), keep).push(pkgs.last())
    } else {
        kept(pkgs.drop_last(), keep)
    }
}

/// Whether a package is the one `upgrade --only` names.
pub open spec fn named(name: Seq<char>) -> spec_fn(Package) -> bool {
    |p: Package| p.name@ == name
}

/// The upgrades of the package named `name` only.
pub fn only_upgrade(upgrades: Vec<Package>, name: &str) -> (r: Vec<Package>)
    ensures
        r@ == kept(upgrades@, named(name@)),
{
    let nc = chars_of(name);
    let mut out: Vec<Package> = Vec::new();
    let mut i: usize = 0;
    assert(upgrades@.take(0) == Seq::<Package>::empty());
    while i < upgrades.len()
        invariant
            i <= upgrades@.len(),
            nc@ == name@,
            out@ == kept(upgrades@.take(i as int), named(name@)),
        decreases upgrades.len() - i,
    {
        assert(upgrades@.take(i + 1).drop_last() == upgrades@.take(i as int));
        assert(upgrades@.take(i + 1).last() == upgrades@[i as int]);
        if chars_eq(&chars_of(upgrades[i].name.as_str()), &nc) {
            out.push(upgrades[i].duplicate());
        }
        i = i + 1;
    }
    assert(upgrades@.take(upgrades@.len() as int) == upgrades@);
    out
}

/// The base URIs of the repositories whose suite mentions `security`.
pub open spec fn security_uri_of(e: SourceEntry) -> bool {
    contains_sub(e.suite@, "security"@)
}

/// Whether a package comes from one of the repositories whose base URIs are `uris`: its
/// base URI contains one of them.
pub open spec fn from_any(uris: Seq<String>) -> spec_fn(Package) -> bool {
    |p: Package| match ov(p.repo_base_uri) {
        Some(u) => exists|k: int| 0 <= k < uris.len() && contains_sub(u, (#[trigger] uris[k])@),
        None => false,
    }
}

/// Whether `u` is the base URI of one of the first `n` entries whose suite mentions
/// `security`.
pub open spec fn security_uri_in(entries: Seq<SourceEntry>, n: int, u: Seq<char>) -> bool {
    exists|j: int| 0 <= j < n && j < entries.len() && security_uri_of(#[trigger] entries[j]) && entries[j].uri@ == u
}

proof fn lemma_security_uri_grows(entries: Seq<SourceEntry>, n: int, u: Seq<char>)
    requires
        security_uri_in(entries, n, u),
    ensures
        security_uri_in(entries, n + 1, u),
{
    let j = choose|j: int| 0 <= j < n && j < entries.len() && security_uri_of(#[trigger] entries[j]) && entries[j].uri@ == u;
    assert(security_uri_of(entries[j]));
}

/// The base URIs of the security repositories among the entries, in order.
pub fn security_uris(entries: &[SourceEntry]) -> (r: Vec<String>)
    ensures
        forall|k: int| 0 <= k < r@.len() ==> security_uri_in(entries@, entries@.len() as int, #[trigger] r@[k]@),
        forall|i: int| 0 <= i < entries@.len() && security_uri_of(#[trigger] entries@[i]) ==> exists|k: int| 0 <= k < r@.len() && (#[trigger] r@[k])@ == entries@[i].uri@,
{
    let sec = chars_of("security");
    let mut out: Vec<String> = Vec::new();
    let mut i: usize = 0;
    while i < entries.len()
        invariant
            i <= entries@.len(),
            sec@ == "security"@,
            forall|k: int| 0 <= k < out@.len() ==> security_uri_in(entries@, i as int, #[trigger] out@[k]@),
            forall|j: int| 0 <= j < i && security_uri_of(#[trigger] entries@[j]) ==> exists|k: int| 0 <= k < out@.len() && (#[trigger] out@[k])@ == entries@[j].uri@,
        decreases entries.len() - i,
    {
        let ghost before = out@;
        assert forall|k: int| 0 <= k < before.len() implies security_uri_in(entries@, i + 1, #[trigger] before[k]@) by {
            lemma_security_uri_grows(entries@, i as int, before[k]@);
        }
        if contains_chars(&chars_of(entries[i].suite.as_str()), &sec) {
            out.push(entries[i].uri.clone());
            assert(out@[before.len() as int]@ == entries@[i as int].uri@);
            assert forall|k: int| 0 <= k < out@.len() implies security_uri_in(entries@, i + 1, #[trigger] out@[k]@) by {
                if k < before.len() {
                    assert(out@[k] == before[k]);
                } else {
                    assert(security_uri_of(entries@[i as int]));
                }
            }
            assert forall|j: int| 0 <= j < i + 1 && security_uri_of(#[trigger] entries@[j]) implies exists|k: int| 0 <= k < out@.len() && (#[trigger] out@[k])@ == entries@[j].uri@ by {
                if j < i {
                    let k = choose|k: int| 0 <= k < before.len() && (#[trigger] before[k])@ == entries@[j].uri@;
                    assert(out@[k] == before[k]);
                } else {
                    assert(out@[before.len() as int]@ == entries@[j].uri@);
                }
            }
        }
        i = i + 1;
    }
    out
}

fn contains_any(u: &Vec<char>, uris: &Vec<String>) -> (r: bool)
    ensures
        r == exists|k: int| 0 <= k < uris@.len() && contains_sub(u@, (#[trigger] uris@[k])@),
{
    let mut k: usize = 0;
    while k < uris.len()
        invariant
            k <= uris@.len(),
            forall|m: int| 0 <= m < k ==> !contains_sub(u@, (#[trigger] uris@[m])@),
        decreases uris.len() - k,
    {
        if contains_chars(u, &chars_of(uris[k].as_str())) {
            return true;
        }
        k = k + 1;
    }
    false
}

/// The upgrades that come from one of the repositories `uris`.
pub fn security_upgrades(upgrades: Vec<Package>, uris: &Vec<String>) -> (r: Vec<Package>)
    ensures
        r@ == kept(upgrades@, from_any(uris@)),
{
    let mut out: Vec<Package> = Vec::new();
    let mut i: usize = 0;
    assert(upgrades@.take(0) == Seq::<Package>::empty());
    while i < upgrades.len()
        invariant
            i <= upgrades@.len(),
            out@ == kept(upgrades@.take(i as int), from_any(uris@)),
        decreases upgrades.len() - i,
    {
        assert(upgrades@.take(i + 1).drop_last() == upgrades@.take(i as int));
        assert(upgrades@.take(i + 1).last() == upgrades@[i as int]);
        let keep = match &upgrades[i].repo_base_uri {
            Some(u) => contains_any(&chars_of(u.as_str()), uris),
            None => false,
        };
        if keep {
            out.push(upgrades[i].duplicate());
        }
        i = i + 1;
    }
    assert(upgrades@.take(upgrades@.len() as int) == upgrades@);
    out
}

// ─────────────────────────────────────────────────────────────
//  Search filters
// ─────────────────────────────────────────────────────────────

/// The options of `search` beyond the query.
pub struct SearchFilter {
    /// Installed packages only.
    pub installed: bool,
    /// Packages whose base URI contains this text.
    pub repo: Option<String>,
    /// Packages of this section.
    pub section: Option<String>,
    /// Packages whose name is the query, letter case aside.
    pub exact: bool,
    /// Packages whose Provides field or file name contains this text.
    pub provides: Option<String>,
}

/// Whether `search` keeps a match.
pub open spec fn search_keeps(p: Package, query: Seq<char>, f: SearchFilter, installed: bool) -> bool {
    &&& f.installed ==> installed
    &&& match f.repo {
        Some(r) => contains_sub(match ov(p.repo_base_uri) {
            Some(u) => u,
            None => Seq::empty(),
        }, r@),
        None => true,
    }
    &&& match f.section {
        Some(s) => ov(p.section) == Some(s@),
        None => true,
    }
    &&& f.exact ==> lowercase(p.name@) == lowercase(query)
    &&& match f.provides {
        Some(t) => (match ov(p.provides) {
            Some(v) => contains_sub(v, t@),
            None => false,
        }) || (match ov(p.filename) {
            Some(v) => contains_sub(v, t@),
            None => false,
        }),
        None => true,
    }
}

/// `out` is the matches that the search options keep, in their order: `m` gives for each
/// the position it had among the matches.
pub open spec fn kept_matches(m: Seq<int>, out: Seq<&Package>, results: Seq<&Package>, installed: Seq<bool>, query: Seq<char>, f: SearchFilter) -> bool {
    &&& m.len() == out.len()
    &&& forall|k: int| 0 <= k < m.len() ==> 0 <= #[trigger] m[k] < results.len() && out[k] == results[m[k]]
        && search_keeps(*results[m[k]], query, f, installed[m[k]])
    &&& forall|a: int, b: int| 0 <= a < b < m.len() ==> m[a] < m[b]
    &&& forall|i: int| 0 <= i < results.len() && search_keeps(*results[i], query, f, installed[i]) ==> m.contains(i)
}

/// The matches of a search that its options keep, in order; `installed` tells for each
/// whether it is installed.
pub fn filter_search<'a>(results: Vec<&'a Package>, installed: &Vec<bool>, query: &str, f: &SearchFilter) -> (r: Vec<&'a Package>)
    requires
        installed@.len() == results@.len(),
    ensures
        exists|m: Seq<int>| #[trigger] kept_matches(m, r@, results@, installed@, query@, *f),
{
    let q = to_lowercase(query);
    let qc = chars_of(q.as_str());
    let mut out: Vec<&'a Package> = Vec::new();
    let ghost mut m: Seq<int> = Seq::empty();
    let mut i: usize = 0;
    while i < results.len()
        invariant
            i <= results@.len(),
            installed@.len() == results@.len(),
            qc@ == lowercase(query@),
            m.len() == out@.len(),
            forall|k: int| 0 <= k < m.len() ==> 0 <= #[trigger] m[k] < i && out@[k] == results@[m[k]] && search_keeps(*results@[m[k]], query@, *f, installed@[m[k]]),
            forall|a: int, b: int| 0 <= a < b < m.len() ==> m[a] < m[b],
            forall|j: int| 0 <= j < i && search_keeps(*results@[j], query@, *f, installed@[j]) ==> m.contains(j),
        decreases results.len() - i,
    {
        let p = results[i];
        let mut keep = true;
        if f.installed && !installed[i] {
            keep = false;
        }
        match &f.repo {
            Some(r) => {
                let u: Vec<char> = match &p.repo_base_uri {
                    Some(u) => chars_of(u.as_str()),
                    None => Vec::new(),
                };
                if !contains_chars(&u, &chars_of(r.as_str())) {
                    keep = false;
                }
            },
            None => {},
        }
        match &f.section {
            Some(s) => {
                let same = match &p.section {
                    Some(ps) => chars_eq(&chars_of(ps.as_str()), &chars_of(s.as_str())),
                    None => false,
                };
                if !same {
                    keep = false;
                }
            },
            None => {},
        }
        if f.exact {
            let nl = to_lowercase(p.name.as_str());
            if !chars_eq(&chars_of(nl.as_str()), &qc) {
                keep = false;
            }
        }
        match &f.provides {
            Some(t) => {
                let tc = chars_of(t.as_str());
                let a = match &p.provides {
                    Some(v) => contains_chars(&chars_of(v.as_str()), &tc),
                    None => false,
                };
                let b = match &p.filename {
                    Some(v) => contains_chars(&chars_of(v.as_str()), &tc),
                    None => false,
                };
                if !(a || b) {
                    keep = false;
                }
            },
            None => {},
        }
        assert(keep == search_keeps(*results@[i as int], query@, *f, installed@[i as int]));
        let ghost m0 = m;
        if keep {
            proof {
                m = m.push(i as int);
                assert(m[m.len() - 1] == i);
            }
            out.push(p);
        }
        proof {
            assert forall|j: int| 0 <= j < i + 1 && search_keeps(*results@[j], query@, *f, installed@[j]) implies m.contains(j) by {
                if j == i {
                    assert(m[m.len() - 1] == j);
                } else {
                    assert(m0.contains(j));
                    let x = choose|x: int| 0 <= x < m0.len() && m0[x] == j;
                    assert(m[x] == m0[x]);
                }
            }
        }
        i = i + 1;
    }
    assert(kept_matches(m, out@, results@, installed@, query@, *f));
    out
}

// ─────────────────────────────────────────────────────────────
//  Upgradeable packages
// ─────────────────────────────────────────────────────────────

/// The newer version the cache offers for an installed package, if it offers one.
pub open spec fn newer_offer(cache: PackageCache, inst: InstalledPackage) -> Option<Package> {
    match cache.lookup(inst.name@) {
        Some(a) => if version_order(a.version@, inst.version@) == 1 {
            Some(a)
        } else {
            None
        },
        None => None,
    }
}

/// The package the cache offers to upgrade an installed one to, if it is newer.
pub fn available_upgrade(cache: &PackageCache, inst: &InstalledPackage) -> (r: Option<Package>)
    requires
        cache.wf(),
    ensures
        r == newer_offer(*cache, *inst),
{
    match cache.get(inst.name.as_str()) {
        Some(a) => {
            if version_sign(a.version.as_str(), inst.version.as_str()) == 1 {
                Some(a.duplicate())
            } else {
                None
            }
        },
        None => None,
    }
}

// ─────────────────────────────────────────────────────────────
//  Package information
// ─────────────────────────────────────────────────────────────

/// What an installed record says as a package: its name, version, architecture, section,
/// maintainer, summary, size and dependencies; nothing else.
pub open spec fn as_package(inst: InstalledPackage, p: Package) -> bool {
    &&& p.name == inst.name
    &&& p.version == inst.version
    &&& p.architecture == inst.architecture
    &&& p.description_short == inst.description_short
    &&& p.section == inst.section
    &&& p.maintainer == inst.maintainer
    &&& p.installed_size_kb == Some(inst.installed_size_kb)
    &&& p.depends == inst.depends
    &&& p.recommends == inst.recommends
    &&& p.description_long is None && p.priority is None && p.download_size is None
    &&& p.filename is None && p.sha256 is None && p.md5sum is None && p.pre_depends is None
    &&& p.suggests is None && p.conflicts is None && p.replaces is None && p.breaks is None
    &&& p.provides is None && p.homepage is None && p.source is None && p.repo_base_uri is None
}

/// An installed record as a package.
pub fn package_from_installed(inst: InstalledPackage) -> (r: Package)
    ensures
        as_package(inst, r),
{
    let mut p = Package::default();
    p.name = inst.name;
    p.version = inst.version;
    p.architecture = inst.architecture;
    p.description_short = inst.description_short;
    p.section = inst.section;
    p.maintainer = inst.maintainer;
    p.installed_size_kb = Some(inst.installed_size_kb);
    p.depends = inst.depends;
    p.recommends = inst.recommends;
    p
}

/// The package `info` shows for a name: the cache's, else the installed record's.
pub fn info_package(cache: &PackageCache, db: &InstalledDb, name: &str) -> (r: Option<Package>)
    requires
        cache.wf(),
        db.wf(),
    ensures
        match cache.lookup(name@) {
            Some(p) => r == Some(p),
            None => match db.lookup(name@) {
                Some(inst) => r is Some && as_package(inst, r->0),
                None => r is None,
            },
        },
{
    match cache.get(name) {
        Some(p) => Some(p.duplicate()),
        None => match db.get(name) {
            Some(inst) => Some(package_from_installed(inst)),
            None => None,
        },
    }
}

/// The message when `info` finds no package of the name.
pub fn no_package_message(name: &str) -> (r: String)
    ensures
        r@ == "No package named '"@ + name@ + "' found.\n  Hint: try `lpm search "@ + name@ + seq!['`'],
{
    let mut v: Vec<char> = chars_of("No package named '");
    extend_str(&mut v, name);
    extend_str(&mut v, "' found.\n  Hint: try `lpm search ");
    extend_str(&mut v, name);
    v.push('`');
    string_of(&v)
}

// ─────────────────────────────────────────────────────────────
//  Files
// ─────────────────────────────────────────────────────────────

/// Whether an index file name names a package whose archive file name contains `file`.
pub open spec fn provides_file(p: Package, file: Seq<char>) -> bool {
    match ov(p.filename) {
        Some(f) => contains_sub(f, file),
        None => false,
    }
}

/// Whether a package's archive path in its repository contains `file`.
pub fn archive_mentions(p: &Package, file: &str) -> (r: bool)
    ensures
        r == provides_file(*p, file@),
{
    match &p.filename {
        Some(f) => contains_chars(&chars_of(f.as_str()), &chars_of(file)),
        None => false,
    }
}

/// Whether an installed package's list of files (one text, `;`-separated) contains
/// `file`.
pub fn installed_mentions(inst: &InstalledPackage, file: &str) -> (r: bool)
    ensures
        r == contains_sub(inst.files@, file@),
{
    contains_chars(&chars_of(inst.files.as_str()), &chars_of(file))
}

/// The extension of a file name (`Path::extension`): what follows its last `.`, unless
/// that dot begins the name.
pub open spec fn extension(name: Seq<char>) -> Option<Seq<char>> {
    match rfind_char(name, '.') {
        Some(i) => if i == 0 {
            None
        } else {
            Some(name.skip(i + 1))
        },
        None => None,
    }
}

/// Whether `clean` removes a file of the download directory: its extension is `deb` or
/// `part`.
pub open spec fn cleaned(path: Seq<char>) -> bool {
    match file_name(path) {
        Some(n) => extension(n) == Some("deb"@) || extension(n) == Some("part"@),
        None => false,
    }
}

pub fn is_cache_file(path: &str) -> (r: bool)
    ensures
        r == cleaned(path@),
{
    match file_name_of(path) {
        Some(n) => {
            let c = chars_of(n.as_str());
            proof {
                lemma_rfind_char(c@, '.');
            }
            match rfind_char_in(&c, '.') {
                Some(i) => {
                    assert(rfind_char(c@, '.') == Some(i as int));
                    let n = c.len();
                    assert(i < n);
                    if i == 0 {
                        false
                    } else {
                        let e = slice_chars(&c, i + 1, n);
                        assert(e@ == c@.skip(i + 1));
                        chars_eq(&e, &chars_of("deb")) || chars_eq(&e, &chars_of("part"))
                    }
                },
                None => false,
            }
        },
        None => false,
    }
}

// ─────────────────────────────────────────────────────────────
//  Undo and redo
// ─────────────────────────────────────────────────────────────

/// What undoing or redoing a past operation does.
pub enum HistoryStep {
    /// Remove the installed package of this name.
    Remove(String),
    /// Install the newest version of this package from the cache.
    Install(String),
    /// Install this exact version of the package from the cache.
    InstallVersion(String, String),
    /// Upgrade the package to this exact version, from the version it had before.
    UpgradeTo(String, String, Option<String>),
}

/// Why a past operation cannot be undone or redone.
pub enum HistoryError {
    /// An upgrade without the version it came from.
    NoOldVersion,
    /// An upgrade without the version it went to.
    NoNewVersion,
    /// An operation that is not install, remove or upgrade.
    Unsupported(String),
}

/// What undoing an entry does: an install is removed, a removal reinstalled, an upgrade
/// taken back to the version before.
pub open spec fn undo_of(e: HistoryEntry, r: Result<HistoryStep, HistoryError>) -> bool {
    if e.action@ == "install"@ {
        r matches Ok(HistoryStep::Remove(n)) && n@ == e.package@
    } else if e.action@ == "remove"@ {
        r matches Ok(HistoryStep::Install(n)) && n@ == e.package@
    } else if e.action@ == "upgrade"@ {
        match e.old_ver {
            Some(v) => r matches Ok(HistoryStep::InstallVersion(n, w)) && n@ == e.package@ && w@ == v@,
            None => r matches Err(HistoryError::NoOldVersion),
        }
    } else {
        r matches Err(HistoryError::Unsupported(a)) && a@ == e.action@
    }
}

/// What redoing an entry does: an install is installed again, a removal removed again,
/// an upgrade made again to the version it went to.
pub open spec fn redo_of(e: HistoryEntry, r: Result<HistoryStep, HistoryError>) -> bool {
    if e.action@ == "install"@ {
        r matches Ok(HistoryStep::Install(n)) && n@ == e.package@
    } else if e.action@ == "remove"@ {
        r matches Ok(HistoryStep::Remove(n)) && n@ == e.package@
    } else if e.action@ == "upgrade"@ {
        match e.new_ver {
            Some(v) => r matches Ok(HistoryStep::UpgradeTo(n, w, o)) && n@ == e.package@ && w@ == v@ && o == e.old_ver,
            None => r matches Err(HistoryError::NoNewVersion),
        }
    } else {
        r matches Err(HistoryError::Unsupported(a)) && a@ == e.action@
    }
}

pub fn undo_step(e: &HistoryEntry) -> (r: Result<HistoryStep, HistoryError>)
    ensures
        undo_of(*e, r),
{
    let a = chars_of(e.action.as_str());
    if chars_eq(&a, &chars_of("install")) {
        Ok(HistoryStep::Remove(e.package.clone()))
    } else if chars_eq(&a, &chars_of("remove")) {
        Ok(HistoryStep::Install(e.package.clone()))
    } else if chars_eq(&a, &chars_of("upgrade")) {
        match &e.old_ver {
            Some(v) => Ok(HistoryStep::InstallVersion(e.package.clone(), v.clone())),
            None => Err(HistoryError::NoOldVersion),
        }
    } else {
        Err(HistoryError::Unsupported(e.action.clone()))
    }
}

pub fn redo_step(e: &HistoryEntry) -> (r: Result<HistoryStep, HistoryError>)
    ensures
        redo_of(*e, r),
{
    let a = chars_of(e.action.as_str());
    if chars_eq(&a, &chars_of("install")) {
        Ok(HistoryStep::Install(e.package.clone()))
    } else if chars_eq(&a, &chars_of("remove")) {
        Ok(HistoryStep::Remove(e.package.clone()))
    } else if chars_eq(&a, &chars_of("upgrade")) {
        match &e.new_ver {
            Some(v) => Ok(HistoryStep::UpgradeTo(e.package.clone(), v.clone(), clone_opt(&e.old_ver))),
            None => Err(HistoryError::NoNewVersion),
        }
    } else {
        Err(HistoryError::Unsupported(e.action.clone()))
    }
}

impl HistoryError {
    /// The message for the error; `undo` tells which command met it.
    pub fn message(&self, undo: bool) -> (r: String)
        ensures
            r@ == match self {
                HistoryError::NoOldVersion => "No old version for upgrade"@,
                HistoryError::NoNewVersion => "No new version for upgrade"@,
                HistoryError::Unsupported(a) => (if undo {
                    "Unsupported action for undo: "@
                } else {
                    "Unsupported action for redo: "@
                }) + a@,
            },
    {
        match self {
            HistoryError::NoOldVersion => String::from_str("No old version for upgrade"),
            HistoryError::NoNewVersion => String::from_str("No new version for upgrade"),
            HistoryError::Unsupported(a) => {
                let mut v: Vec<char> = if undo {
                    chars_of("Unsupported action for undo: ")
                } else {
                    chars_of("Unsupported action for redo: ")
                };
                extend_str(&mut v, a.as_str());
                string_of(&v)
            },
        }
    }
}

} // verus!
