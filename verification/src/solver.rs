//! Turning requests (install, remove, upgrade, autoremove) into a transaction plan.
use vstd::prelude::*;
use vstd::arithmetic::div_mod::lemma_add_mod_noop;
use crate::cache::PackageCache;
use crate::db::{InstalledDb, InstalledPackage, InstallReason, nonempty, split_files, user_rows};
use crate::package::{ov, parse_dep_field, DepGroup, DepSpec, Package, dep_field, group_view, groups_view};
use crate::text::{lemma_names_push, lemma_push_contains, names_of, chars_eq, chars_eq_str, chars_of, extend_str, find_char, find_char_in, lemma_find_char, slice_chars, split_char, string_of};
use crate::version::{lemma_lex_antisym, lemma_lex_lt_trans, lemma_lex_trans, op_holds, order_lex, order_lex_chars, version_order, version_satisfies, version_sign};

verus! {

// ─────────────────────────────────────────────────────────────
//  Byte counts
// ─────────────────────────────────────────────────────────────

/// One more than the largest `u64`: byte counts are kept modulo this.
pub open spec fn word() -> int {
    0x1_0000_0000_0000_0000
}

/// An optional size, with a missing one counting as zero.
pub open spec fn size_or_zero(o: Option<u64>) -> int {
    match o {
        Some(v) => v as int,
        None => 0,
    }
}

/// Bytes to download for the packages.
pub open spec fn download_total(s: Seq<Package>) -> int
    decreases s.len(),
{
    if s.len() == 0 {
        0
    } else {
        download_total(s.drop_last()) + size_or_zero(s.last().download_size)
    }
}

/// Bytes the packages take once unpacked (their installed size in KiB, times 1024).
pub open spec fn unpacked_total(s: Seq<Package>) -> int
    decreases s.len(),
{
    if s.len() == 0 {
        0
    } else {
        unpacked_total(s.drop_last()) + size_or_zero(s.last().installed_size_kb) * 1024
    }
}

/// Bytes the installed packages free when removed.
pub open spec fn freed_total(s: Seq<InstalledPackage>) -> int
    decreases s.len(),
{
    if s.len() == 0 {
        0
    } else {
        freed_total(s.drop_last()) + s.last().installed_size_kb * 1024
    }
}

proof fn lemma_totals_nonneg(s: Seq<Package>, t: Seq<InstalledPackage>)
    ensures
        download_total(s) >= 0,
        unpacked_total(s) >= 0,
        freed_total(t) >= 0,
    decreases s.len() + t.len(),
{
    if s.len() > 0 {
        lemma_totals_nonneg(s.drop_last(), t);
    } else if t.len() > 0 {
        lemma_totals_nonneg(s, t.drop_last());
    }
}

pub(crate) fn add_wrapping(acc: u64, x: u64) -> (r: u64)
    ensures
        r == (acc + x) % word(),
{
    let r = acc.wrapping_add(x);
    assert(r == (acc + x) % word()) by (nonlinear_arith)
        requires
            r == (if acc + x > u64::MAX { acc + x - word() } else { acc + x }),
            acc <= u64::MAX,
            x <= u64::MAX,
            word() == u64::MAX + 1,
    ;
    r
}

fn kib_to_bytes(kb: u64) -> (r: u64)
    ensures
        r == (kb * 1024) % word(),
{
    kb.wrapping_mul(1024)
}

proof fn lemma_wrap_step(t: int, acc: int, x: int, xw: int)
    requires
        acc == t % word(),
        xw == x % word(),
    ensures
        (acc + xw) % word() == (t + x) % word(),
{
    lemma_add_mod_noop(t, x, word());
}

/// Bytes to download for the packages, modulo `word()`.
pub fn download_bytes_of(s: &Vec<Package>) -> (r: u64)
    ensures
        r == download_total(s@) % word(),
{
    let mut acc: u64 = 0;
    let mut i: usize = 0;
    while i < s.len()
        invariant
            i <= s@.len(),
            acc == download_total(s@.take(i as int)) % word(),
        decreases s@.len() - i,
    {
        let x: u64 = match s[i].download_size {
            Some(v) => v,
            None => 0,
        };
        proof {
            assert(s@.take(i + 1).drop_last() == s@.take(i as int));
            lemma_wrap_step(download_total(s@.take(i as int)), acc as int, x as int, x as int);
        }
        acc = add_wrapping(acc, x);
        i = i + 1;
    }
    assert(s@.take(s@.len() as int) == s@);
    acc
}

/// Bytes the packages take once unpacked, modulo `word()`.
pub(crate) fn unpacked_bytes_of(s: &Vec<Package>) -> (r: u64)
    ensures
        r == unpacked_total(s@) % word(),
{
    let mut acc: u64 = 0;
    let mut i: usize = 0;
    while i < s.len()
        invariant
            i <= s@.len(),
            acc == unpacked_total(s@.take(i as int)) % word(),
        decreases s@.len() - i,
    {
        let kb: u64 = match s[i].installed_size_kb {
            Some(v) => v,
            None => 0,
        };
        let x = kib_to_bytes(kb);
        proof {
            assert(s@.take(i + 1).drop_last() == s@.take(i as int));
            lemma_wrap_step(unpacked_total(s@.take(i as int)), acc as int, kb * 1024, x as int);
        }
        acc = add_wrapping(acc, x);
        i = i + 1;
    }
    assert(s@.take(s@.len() as int) == s@);
    acc
}

/// Bytes the records free, modulo `word()`.
fn freed_bytes_of(s: &Vec<InstalledPackage>) -> (r: u64)
    ensures
        r == freed_total(s@) % word(),
{
    let mut acc: u64 = 0;
    let mut i: usize = 0;
    while i < s.len()
        invariant
            i <= s@.len(),
            acc == freed_total(s@.take(i as int)) % word(),
        decreases s@.len() - i,
    {
        let x = kib_to_bytes(s[i].installed_size_kb);
        proof {
            assert(s@.take(i + 1).drop_last() == s@.take(i as int));
            lemma_wrap_step(freed_total(s@.take(i as int)), acc as int, s@[i as int].installed_size_kb * 1024, x as int);
        }
        acc = add_wrapping(acc, x);
        i = i + 1;
    }
    assert(s@.take(s@.len() as int) == s@);
    acc
}

// ─────────────────────────────────────────────────────────────
//  TransactionPlan
// ─────────────────────────────────────────────────────────────

/// What a transaction will do.
#[derive(Debug)]
pub struct TransactionPlan {
    pub to_install: Vec<Package>,
    pub to_upgrade: Vec<Package>,
    pub to_remove: Vec<String>,
    pub to_autoremove: Vec<String>,
    /// For each upgrade, the name and the version installed now.
    pub upgrade_from: Vec<(String, String)>,
    pub download_bytes: u64,
    pub install_bytes: u64,
    pub freed_bytes: u64,
    pub warnings: Vec<String>,
}

impl TransactionPlan {
    /// A plan that does nothing and says nothing.
    pub open spec fn is_blank(&self) -> bool {
        &&& self.to_install@.len() == 0
        &&& self.to_upgrade@.len() == 0
        &&& self.to_remove@.len() == 0
        &&& self.to_autoremove@.len() == 0
        &&& self.upgrade_from@.len() == 0
        &&& self.download_bytes == 0
        &&& self.install_bytes == 0
        &&& self.freed_bytes == 0
        &&& self.warnings@.len() == 0
    }

    /// Whether the plan installs, upgrades and removes nothing.
    pub fn is_empty(&self) -> (r: bool)
        ensures
            r == (self.to_install@.len() == 0 && self.to_upgrade@.len() == 0
                && self.to_remove@.len() == 0 && self.to_autoremove@.len() == 0),
    {
        self.to_install.len() == 0 && self.to_upgrade.len() == 0 && self.to_remove.len() == 0
            && self.to_autoremove.len() == 0
    }
}

impl Default for TransactionPlan {
    fn default() -> (r: TransactionPlan)
        ensures
            r.is_blank(),
    {
        TransactionPlan {
            to_install: Vec::new(),
            to_upgrade: Vec::new(),
            to_remove: Vec::new(),
            to_autoremove: Vec::new(),
            upgrade_from: Vec::new(),
            download_bytes: 0,
            install_bytes: 0,
            freed_bytes: 0,
            warnings: Vec::new(),
        }
    }
}

// ─────────────────────────────────────────────────────────────
//  Errors
// ─────────────────────────────────────────────────────────────

/// Why a request cannot be planned.
#[derive(Debug)]
pub enum SolveError {
    /// A requested package is not in the package index.
    NoMatch(String),
    /// A package to remove is not installed.
    NotInstalled(String),
    /// The SAT resolver is not part of this build.
    SatUnavailable,
}

/// The text of an error, as shown to the user.
pub open spec fn error_text(e: SolveError) -> Seq<char> {
    match e {
        SolveError::NoMatch(n) => "No match for package: '"@ + n@
            + "'\n  Hint: run `lpm update` to refresh the package index."@,
        SolveError::NotInstalled(n) => "Package '"@ + n@ + "' is not installed."@,
        SolveError::SatUnavailable => "SAT solver not compiled. Rebuild with --features sat-solver."@,
    }
}

impl SolveError {
    /// The text of the error.
    pub fn message(&self) -> (r: String)
        ensures
            r@ == error_text(*self),
    {
        let mut v: Vec<char> = Vec::new();
        match self {
            SolveError::NoMatch(n) => {
                extend_str(&mut v, "No match for package: '");
                extend_str(&mut v, n.as_str());
                extend_str(&mut v, "'\n  Hint: run `lpm update` to refresh the package index.");
            },
            SolveError::NotInstalled(n) => {
                extend_str(&mut v, "Package '");
                extend_str(&mut v, n.as_str());
                extend_str(&mut v, "' is not installed.");
            },
            SolveError::SatUnavailable => {
                extend_str(&mut v, "SAT solver not compiled. Rebuild with --features sat-solver.");
            },
        }
        proof {
            assert(v@ =~= error_text(*self));
        }
        string_of(&v)
    }
}

// ─────────────────────────────────────────────────────────────
//  Models of the requests that need no search
// ─────────────────────────────────────────────────────────────

/// The records of the named packages, in the order named.
pub open spec fn rows_named(db: InstalledDb, names: Seq<String>) -> Seq<InstalledPackage>
    decreases names.len(),
{
    if names.len() == 0 {
        Seq::empty()
    } else {
        rows_named(db, names.drop_last()).push(db.lookup(names.last()@)->0)
    }
}

/// The index of the first name that is not installed.
pub open spec fn first_not_installed(db: InstalledDb, names: Seq<String>) -> Option<int>
    decreases names.len(),
{
    if names.len() == 0 {
        None
    } else {
        match first_not_installed(db, names.drop_last()) {
            Some(i) => Some(i),
            None => if db.lookup(names.last()@) is None {
                Some(names.len() - 1)
            } else {
                None
            },
        }
    }
}

/// Whether the package index has a newer version of an installed package.
pub open spec fn upgradable(cache: PackageCache, row: InstalledPackage) -> bool {
    match cache.lookup(row.name@) {
        Some(avail) => version_order(avail.version@, row.version@) == 1,
        None => false,
    }
}

/// The installed packages that have a newer version in the index, with that version, in
/// the order of the records.
pub open spec fn upgrades_of(cache: PackageCache, rows: Seq<InstalledPackage>) -> Seq<(InstalledPackage, Package)>
    decreases rows.len(),
{
    if rows.len() == 0 {
        Seq::empty()
    } else if upgradable(cache, rows.last()) {
        upgrades_of(cache, rows.drop_last()).push((rows.last(), cache.lookup(rows.last().name@)->0))
    } else {
        upgrades_of(cache, rows.drop_last())
    }
}


// ─────────────────────────────────────────────────────────────
//  Reachability
// ─────────────────────────────────────────────────────────────

/// A walk from one of `start` along `next`: each name is among the successors of the one
/// before it.
pub open spec fn is_walk(start: Seq<Seq<char>>, next: spec_fn(Seq<char>) -> Seq<Seq<char>>, p: Seq<Seq<char>>) -> bool {
    &&& p.len() > 0
    &&& start.contains(p[0])
    &&& forall|i: int| #![trigger next(p[i])] 0 <= i < p.len() - 1 ==> next(p[i]).contains(p[i + 1])
}

/// `n` can be reached from one of `start` along `next`.
pub open spec fn reaches(start: Seq<Seq<char>>, next: spec_fn(Seq<char>) -> Seq<Seq<char>>, n: Seq<char>) -> bool {
    exists|p: Seq<Seq<char>>| #[trigger] is_walk(start, next, p) && p.last() == n
}

proof fn lemma_reach_start(start: Seq<Seq<char>>, next: spec_fn(Seq<char>) -> Seq<Seq<char>>, n: Seq<char>)
    requires
        start.contains(n),
    ensures
        reaches(start, next, n),
{
    let p = seq![n];
    assert(is_walk(start, next, p));
}

proof fn lemma_reach_step(start: Seq<Seq<char>>, next: spec_fn(Seq<char>) -> Seq<Seq<char>>, n: Seq<char>, m: Seq<char>)
    requires
        reaches(start, next, n),
        next(n).contains(m),
    ensures
        reaches(start, next, m),
{
    let p = choose|p: Seq<Seq<char>>| #[trigger] is_walk(start, next, p) && p.last() == n;
    let q = p.push(m);
    assert forall|i: int| #![trigger next(q[i])] 0 <= i < q.len() - 1 implies next(q[i]).contains(q[i + 1]) by {
        if i < p.len() - 1 {
            assert(q[i] == p[i] && q[i + 1] == p[i + 1]);
        } else {
            assert(q[i] == n && q[i + 1] == m);
        }
    }
    assert(is_walk(start, next, q));
    assert(q.last() == m);
}

proof fn lemma_walk_inside(start: Seq<Seq<char>>, next: spec_fn(Seq<char>) -> Seq<Seq<char>>, s: Seq<Seq<char>>, p: Seq<Seq<char>>, k: int)
    requires
        is_walk(start, next, p),
        0 <= k < p.len(),
        forall|x: Seq<char>| start.contains(x) ==> s.contains(x),
        forall|x: Seq<char>, y: Seq<char>| s.contains(x) && #[trigger] next(x).contains(y) ==> s.contains(y),
    ensures
        s.contains(p[k]),
    decreases k,
{
    if k > 0 {
        lemma_walk_inside(start, next, s, p, k - 1);
        assert(next(p[k - 1]).contains(p[k]));
    }
}

/// A set of names that holds `start` and the successors of each of its names holds every
/// name reachable from `start`.
proof fn lemma_closed_holds_reach(start: Seq<Seq<char>>, next: spec_fn(Seq<char>) -> Seq<Seq<char>>, s: Seq<Seq<char>>, n: Seq<char>)
    requires
        reaches(start, next, n),
        forall|x: Seq<char>| start.contains(x) ==> s.contains(x),
        forall|x: Seq<char>, y: Seq<char>| s.contains(x) && #[trigger] next(x).contains(y) ==> s.contains(y),
    ensures
        s.contains(n),
{
    let p = choose|p: Seq<Seq<char>>| #[trigger] is_walk(start, next, p) && p.last() == n;
    lemma_walk_inside(start, next, s, p, p.len() - 1);
}

/// A sequence without repeats, all of whose items occur in `u`, is no longer than `u`.
proof fn lemma_distinct_within(a: Seq<Seq<char>>, u: Seq<Seq<char>>)
    requires
        a.no_duplicates(),
        forall|x: Seq<char>| a.contains(x) ==> u.contains(x),
    ensures
        a.len() <= u.len(),
{
    a.unique_seq_to_set();
    u.lemma_cardinality_of_set();
    assert(a.to_set().subset_of(u.to_set()));
    vstd::set_lib::lemma_len_subset(a.to_set(), u.to_set());
}

/// The names of a sequence of records.
pub open spec fn row_names(v: Seq<InstalledPackage>) -> Seq<Seq<char>> {
    v.map_values(|r: InstalledPackage| r.name@)
}

fn holds_str(v: &[String], n: &str) -> (r: bool)
    ensures
        r == names_of(v@).contains(n@),
{
    let nc = chars_of(n);
    let mut i: usize = 0;
    while i < v.len()
        invariant
            i <= v@.len(),
            nc@ == n@,
            forall|j: int| 0 <= j < i ==> v@[j]@ != n@,
        decreases v@.len() - i,
    {
        if chars_eq(&chars_of(v[i].as_str()), &nc) {
            assert(names_of(v@)[i as int] == n@);
            return true;
        }
        i = i + 1;
    }
    assert forall|j: int| 0 <= j < names_of(v@).len() implies names_of(v@)[j] != n@ by {
        assert(names_of(v@)[j] == v@[j]@);
    }
    false
}

// ─────────────────────────────────────────────────────────────
//  What autoremove keeps
// ─────────────────────────────────────────────────────────────

/// The first alternative that is installed, in any version.
pub open spec fn first_installed(db: InstalledDb, alts: Seq<DepSpec>) -> Option<DepSpec>
    decreases alts.len(),
{
    if alts.len() == 0 {
        None
    } else if db.lookup(alts[0].name) is Some {
        Some(alts[0])
    } else {
        first_installed(db, alts.drop_first())
    }
}

/// For each clause, the name of its first installed alternative.
pub open spec fn installed_targets(db: InstalledDb, groups: Seq<Seq<DepSpec>>) -> Seq<Seq<char>>
    decreases groups.len(),
{
    if groups.len() == 0 {
        Seq::empty()
    } else {
        let rest = installed_targets(db, groups.drop_last());
        match first_installed(db, groups.last()) {
            Some(d) => rest.push(d.name),
            None => rest,
        }
    }
}

/// The installed packages that an installed package's `Depends` keep.
pub open spec fn kept_by(db: InstalledDb, n: Seq<char>) -> Seq<Seq<char>> {
    match db.lookup(n) {
        Some(row) => match ov(row.depends) {
            Some(s) => installed_targets(db, dep_field(s)),
            None => Seq::empty(),
        },
        None => Seq::empty(),
    }
}

pub open spec fn kept_edges(db: InstalledDb) -> spec_fn(Seq<char>) -> Seq<Seq<char>> {
    |n: Seq<char>| kept_by(db, n)
}

/// The names of the packages the user asked for.
pub open spec fn user_names(db: InstalledDb) -> Seq<Seq<char>> {
    row_names(user_rows(db.rows()))
}

/// Autoremove keeps a package the user asked for, and what a kept package depends on.
pub open spec fn autoremove_keeps(db: InstalledDb, n: Seq<char>) -> bool {
    reaches(user_names(db), kept_edges(db), n)
}

/// The records that autoremove drops, in order.
pub open spec fn unneeded(db: InstalledDb, rows: Seq<InstalledPackage>) -> Seq<InstalledPackage>
    decreases rows.len(),
{
    if rows.len() == 0 {
        Seq::empty()
    } else if autoremove_keeps(db, rows.last().name@) {
        unneeded(db, rows.drop_last())
    } else {
        unneeded(db, rows.drop_last()).push(rows.last())
    }
}

proof fn lemma_first_installed_found(db: InstalledDb, alts: Seq<DepSpec>)
    ensures
        first_installed(db, alts) matches Some(d) ==> db.lookup(d.name) is Some,
    decreases alts.len(),
{
    if alts.len() > 0 {
        lemma_first_installed_found(db, alts.drop_first());
    }
}

proof fn lemma_first_installed_skip(db: InstalledDb, alts: Seq<DepSpec>, k: int)
    requires
        0 <= k <= alts.len(),
        forall|j: int| 0 <= j < k ==> db.lookup(#[trigger] alts[j].name) is None,
    ensures
        first_installed(db, alts) == first_installed(db, alts.skip(k)),
    decreases k,
{
    if k > 0 {
        lemma_first_installed_skip(db, alts, k - 1);
        assert(alts.skip(k - 1).drop_first() == alts.skip(k));
        assert(alts.skip(k - 1)[0] == alts[k - 1]);
    } else {
        assert(alts.skip(0) == alts);
    }
}


// ─────────────────────────────────────────────────────────────
//  What an install plan holds
// ─────────────────────────────────────────────────────────────

/// A package name without its `:arch` qualifier (what comes before the first `:`).
pub open spec fn base_name(s: Seq<char>) -> Seq<char> {
    match find_char(s, ':') {
        Some(i) => s.take(i),
        None => s,
    }
}

/// The names asked for, without their qualifiers.
pub open spec fn requested(names: Seq<String>) -> Seq<Seq<char>> {
    names.map_values(|n: String| base_name(n@))
}

/// The index of the first name that the package index does not know.
pub open spec fn first_unknown(cache: PackageCache, req: Seq<Seq<char>>) -> Option<int>
    decreases req.len(),
{
    if req.len() == 0 {
        None
    } else {
        match first_unknown(cache, req.drop_last()) {
            Some(i) => Some(i),
            None => if cache.lookup(req.last()) is None {
                Some(req.len() - 1)
            } else {
                None
            },
        }
    }
}

/// An alternative installed in a version that meets its constraint, if it has one.
pub open spec fn satisfied_by(db: InstalledDb, d: DepSpec) -> bool {
    match db.lookup(d.name) {
        Some(inst) => match d.constraint {
            Some((op, v)) => op_holds(op, version_order(inst.version@, v)),
            None => true,
        },
        None => false,
    }
}

/// The first alternative that the installed packages satisfy.
pub open spec fn first_satisfied(db: InstalledDb, alts: Seq<DepSpec>) -> Option<DepSpec>
    decreases alts.len(),
{
    if alts.len() == 0 {
        None
    } else if satisfied_by(db, alts[0]) {
        Some(alts[0])
    } else {
        first_satisfied(db, alts.drop_first())
    }
}

/// The first alternative that the package index knows.
pub open spec fn first_known(cache: PackageCache, alts: Seq<DepSpec>) -> Option<DepSpec>
    decreases alts.len(),
{
    if alts.len() == 0 {
        None
    } else if cache.lookup(alts[0].name) is Some {
        Some(alts[0])
    } else {
        first_known(cache, alts.drop_first())
    }
}

/// The alternative a clause is met with: an installed one that satisfies it, or else the
/// first one the index knows.
pub open spec fn chosen_alt(cache: PackageCache, db: InstalledDb, alts: Seq<DepSpec>) -> Option<DepSpec> {
    match first_satisfied(db, alts) {
        Some(d) => Some(d),
        None => first_known(cache, alts),
    }
}

/// For each clause, the base name of the alternative it is met with.
pub open spec fn chosen_targets(cache: PackageCache, db: InstalledDb, groups: Seq<Seq<DepSpec>>) -> Seq<Seq<char>>
    decreases groups.len(),
{
    if groups.len() == 0 {
        Seq::empty()
    } else {
        let rest = chosen_targets(cache, db, groups.drop_last());
        match chosen_alt(cache, db, groups.last()) {
            Some(d) => rest.push(base_name(d.name)),
            None => rest,
        }
    }
}

/// The names a dependency field leads to.
pub open spec fn field_targets(cache: PackageCache, db: InstalledDb, f: Option<String>) -> Seq<Seq<char>> {
    match ov(f) {
        Some(s) => chosen_targets(cache, db, dep_field(s)),
        None => Seq::empty(),
    }
}

/// The names a package's `Pre-Depends`, `Depends` and, unless they are off, `Recommends`
/// lead to, in that order.
pub open spec fn dep_targets(cache: PackageCache, db: InstalledDb, p: Package, no_rec: bool) -> Seq<Seq<char>> {
    field_targets(cache, db, p.pre_depends) + field_targets(cache, db, p.depends) + if no_rec {
        Seq::empty()
    } else {
        field_targets(cache, db, p.recommends)
    }
}

/// A package of priority `required`, `important` or `standard`.
pub open spec fn is_system(p: Package) -> bool {
    match ov(p.priority) {
        Some(s) => s == "required"@ || s == "important"@ || s == "standard"@,
        None => false,
    }
}

/// What an install does with a name it meets.
#[derive(PartialEq, Eq, Structural, Clone, Copy, Debug)]
pub enum Outcome {
    /// Nothing: installed already, or a system package that was not asked for.
    Skip,
    /// A warning: the index does not know it.
    Missing,
    Install,
    Upgrade,
}

/// What an install does with the name `n`. A name asked for is upgraded when the index has
/// a newer version than the installed one, and installed again when its files are
/// `absent`; a name only depended on is installed when it is not installed yet.
pub open spec fn outcome(cache: PackageCache, db: InstalledDb, req: Seq<Seq<char>>, absent: Seq<Seq<char>>, n: Seq<char>) -> Outcome {
    match cache.lookup(n) {
        None => Outcome::Missing,
        Some(avail) => if !req.contains(n) && is_system(avail) {
            Outcome::Skip
        } else {
            match db.lookup(n) {
                Some(inst) => if !req.contains(n) {
                    Outcome::Skip
                } else if version_order(avail.version@, inst.version@) == 1 {
                    Outcome::Upgrade
                } else if absent.contains(n) {
                    Outcome::Install
                } else {
                    Outcome::Skip
                },
                None => Outcome::Install,
            }
        },
    }
}

/// Whether the dependencies of `n` are followed, and if so whether `Recommends` are off:
/// those of what is installed or upgraded, with the caller's setting, and those of a system
/// package not asked for and not installed, without `Recommends`.
pub open spec fn follow(cache: PackageCache, db: InstalledDb, req: Seq<Seq<char>>, absent: Seq<Seq<char>>, no_rec: bool, n: Seq<char>) -> Option<bool> {
    match cache.lookup(n) {
        None => None,
        Some(avail) => if !req.contains(n) && is_system(avail) {
            if db.lookup(n) is None {
                Some(true)
            } else {
                None
            }
        } else {
            match outcome(cache, db, req, absent, n) {
                Outcome::Install => Some(no_rec),
                Outcome::Upgrade => Some(no_rec),
                _ => None,
            }
        },
    }
}

/// The names an install moves on to from `n`.
pub open spec fn install_next(cache: PackageCache, db: InstalledDb, req: Seq<Seq<char>>, absent: Seq<Seq<char>>, no_rec: bool) -> spec_fn(Seq<char>) -> Seq<Seq<char>> {
    |n: Seq<char>| match follow(cache, db, req, absent, no_rec, n) {
        Some(f) => dep_targets(cache, db, cache.lookup(n)->0, f),
        None => Seq::empty(),
    }
}

/// The warning for a dependency the index does not know.
pub open spec fn warning_text(n: Seq<char>) -> Seq<char> {
    "dependency '"@ + n + "' not found in package index \u{2014} skipped"@
}

/// `w` is the warning for a name the install reaches and the index does not know.
pub open spec fn warns_of(cache: PackageCache, db: InstalledDb, req: Seq<Seq<char>>, absent: Seq<Seq<char>>, no_rec: bool, w: Seq<char>) -> bool {
    exists|n: Seq<char>| #[trigger] reaches(req, install_next(cache, db, req, absent, no_rec), n)
        && outcome(cache, db, req, absent, n) == Outcome::Missing && w == warning_text(n)
}

/// `w` is the warning for one of `names` that the index does not know.
spec fn warns_of_met(cache: PackageCache, db: InstalledDb, req: Seq<Seq<char>>, absent: Seq<Seq<char>>, names: Seq<Seq<char>>, w: Seq<char>) -> bool {
    exists|n: Seq<char>| #[trigger] names.contains(n) && outcome(cache, db, req, absent, n) == Outcome::Missing && w == warning_text(n)
}

/// Strictly increasing names.
pub open spec fn sorted_by_name(s: Seq<Package>) -> bool {
    forall|i: int, j: int| 0 <= i < j < s.len() ==> order_lex(s[i].name@, s[j].name@) < 0
}

/// `v` holds, sorted by name, the index's package for each name `n` that `keep(n)` holds.
pub open spec fn lists_packages(cache: PackageCache, v: Seq<Package>, keep: spec_fn(Seq<char>) -> bool) -> bool {
    &&& sorted_by_name(v)
    &&& forall|i: int| 0 <= i < v.len() ==> cache.lookup(#[trigger] v[i].name@) == Some(v[i]) && keep(v[i].name@)
    &&& forall|n: Seq<char>| #[trigger] keep(n) ==> exists|i: int| 0 <= i < v.len() && v[i].name@ == n
}

/// What a successful install plan holds, for the names asked for, the `Recommends` setting,
/// and the names asked for whose files are gone.
pub open spec fn install_plan_ok(cache: PackageCache, db: InstalledDb, names: Seq<String>, no_rec: bool, absent: Seq<Seq<char>>, plan: TransactionPlan) -> bool {
    let req = requested(names);
    let next = install_next(cache, db, req, absent, no_rec);
    &&& lists_packages(cache, plan.to_install@, |n: Seq<char>| reaches(req, next, n) && outcome(cache, db, req, absent, n) == Outcome::Install)
    &&& lists_packages(cache, plan.to_upgrade@, |n: Seq<char>| reaches(req, next, n) && outcome(cache, db, req, absent, n) == Outcome::Upgrade)
    &&& plan.upgrade_from@.len() == plan.to_upgrade@.len()
    &&& forall|i: int| 0 <= i < plan.to_upgrade@.len() ==> {
        &&& #[trigger] plan.upgrade_from@[i].0@ == plan.to_upgrade@[i].name@
        &&& plan.upgrade_from@[i].1@ == db.lookup(plan.to_upgrade@[i].name@)->0.version@
    }
    &&& plan.download_bytes == download_total(plan.to_install@ + plan.to_upgrade@) % word()
    &&& plan.install_bytes == unpacked_total(plan.to_install@ + plan.to_upgrade@) % word()
    &&& names_of(plan.warnings@).no_duplicates()
    &&& forall|i: int| 0 <= i < plan.warnings@.len() ==> warns_of(cache, db, req, absent, no_rec, #[trigger] plan.warnings@[i]@)
    &&& forall|n: Seq<char>| reaches(req, next, n) && #[trigger] outcome(cache, db, req, absent, n) == Outcome::Missing
        ==> names_of(plan.warnings@).contains(warning_text(n))
    &&& plan.to_remove@.len() == 0
    &&& plan.to_autoremove@.len() == 0
    &&& plan.freed_bytes == 0
}


// ─────────────────────────────────────────────────────────────
//  Pieces of an install
// ─────────────────────────────────────────────────────────────

/// The name without its `:arch` qualifier.
pub fn base_name_of(s: &str) -> (r: String)
    ensures
        r@ == base_name(s@),
{
    let v = chars_of(s);
    proof {
        lemma_find_char(v@, ':');
    }
    match find_char_in(&v, ':') {
        Some(i) => {
            let head = slice_chars(&v, 0, i);
            assert(head@ == v@.take(i as int));
            string_of(&head)
        },
        None => string_of(&v),
    }
}

proof fn lemma_first_satisfied_skip(db: InstalledDb, alts: Seq<DepSpec>, k: int)
    requires
        0 <= k <= alts.len(),
        forall|j: int| 0 <= j < k ==> !satisfied_by(db, #[trigger] alts[j]),
    ensures
        first_satisfied(db, alts) == first_satisfied(db, alts.skip(k)),
    decreases k,
{
    if k > 0 {
        lemma_first_satisfied_skip(db, alts, k - 1);
        assert(alts.skip(k - 1).drop_first() == alts.skip(k));
        assert(alts.skip(k - 1)[0] == alts[k - 1]);
    } else {
        assert(alts.skip(0) == alts);
    }
}

proof fn lemma_first_known_skip(cache: PackageCache, alts: Seq<DepSpec>, k: int)
    requires
        0 <= k <= alts.len(),
        forall|j: int| 0 <= j < k ==> cache.lookup(#[trigger] alts[j].name) is None,
    ensures
        first_known(cache, alts) == first_known(cache, alts.skip(k)),
    decreases k,
{
    if k > 0 {
        lemma_first_known_skip(cache, alts, k - 1);
        assert(alts.skip(k - 1).drop_first() == alts.skip(k));
        assert(alts.skip(k - 1)[0] == alts[k - 1]);
    } else {
        assert(alts.skip(0) == alts);
    }
}

/// `new` is `old` followed by one not-asked-for entry for each name of `t`.
pub open spec fn appended(old: Seq<(String, bool)>, new: Seq<(String, bool)>, t: Seq<Seq<char>>) -> bool {
    &&& new.len() == old.len() + t.len()
    &&& forall|k: int| 0 <= k < old.len() ==> #[trigger] new[k] == old[k]
    &&& forall|j: int| old.len() <= j < new.len() ==> #[trigger] new[j].0@ == t[j - old.len()] && !new[j].1
}

proof fn lemma_appended_trans(a: Seq<(String, bool)>, b: Seq<(String, bool)>, c: Seq<(String, bool)>, t1: Seq<Seq<char>>, t2: Seq<Seq<char>>)
    requires
        appended(a, b, t1),
        appended(b, c, t2),
    ensures
        appended(a, c, t1 + t2),
{
    assert forall|j: int| a.len() <= j < c.len() implies #[trigger] c[j].0@ == (t1 + t2)[j - a.len()] && !c[j].1 by {
        if j < b.len() {
            assert(c[j] == b[j]);
            assert(b[j].0@ == t1[j - a.len()]);
            assert((t1 + t2)[j - a.len()] == t1[j - a.len()]);
        } else {
            assert(c[j].0@ == t2[j - b.len()]);
            assert((t1 + t2)[j - a.len()] == t2[j - b.len()]);
        }
    }
}

/// Inserts a package into a vector sorted by name that does not hold its name yet.
fn insert_by_name(v: &mut Vec<Package>, p: Package)
    requires
        sorted_by_name(old(v)@),
        forall|i: int| 0 <= i < old(v)@.len() ==> #[trigger] old(v)@[i].name@ != p.name@,
    ensures
        sorted_by_name(final(v)@),
        final(v)@.len() == old(v)@.len() + 1,
        final(v)@.contains(p),
        forall|i: int| 0 <= i < final(v)@.len() ==> #[trigger] final(v)@[i] == p || old(v)@.contains(final(v)@[i]),
        forall|i: int| 0 <= i < old(v)@.len() ==> final(v)@.contains(#[trigger] old(v)@[i]),
{
    let pn = chars_of(p.name.as_str());
    let mut k: usize = 0;
    while k < v.len() && order_lex_chars(&chars_of(v[k].name.as_str()), &pn) < 0
        invariant
            k <= v@.len(),
            pn@ == p.name@,
            forall|j: int| 0 <= j < k ==> order_lex(#[trigger] v@[j].name@, p.name@) < 0,
        decreases v@.len() - k,
    {
        k = k + 1;
    }
    let ghost old_v = v@;
    proof {
        if k < old_v.len() {
            lemma_lex_antisym(old_v[k as int].name@, p.name@);
            assert(order_lex(p.name@, old_v[k as int].name@) < 0);
        }
    }
    v.insert(k, p);
    proof {
        assert(v@ == old_v.insert(k as int, p));
        assert forall|a: int, b: int| 0 <= a < b < v@.len() implies order_lex(v@[a].name@, v@[b].name@) < 0 by {
            if b == k {
                assert(v@[a] == old_v[a]);
            } else if a == k {
                assert(v@[b] == old_v[b - 1]);
                if b - 1 > k {
                    lemma_lex_lt_trans(p.name@, old_v[k as int].name@, old_v[b - 1].name@);
                }
            } else if a > k {
                assert(v@[a] == old_v[a - 1] && v@[b] == old_v[b - 1]);
            } else if b > k {
                assert(v@[a] == old_v[a] && v@[b] == old_v[b - 1]);
            } else {
                assert(v@[a] == old_v[a] && v@[b] == old_v[b]);
            }
        }
        assert(v@[k as int] == p);
        assert forall|i: int| 0 <= i < v@.len() implies #[trigger] v@[i] == p || old_v.contains(v@[i]) by {
            if i < k {
                assert(v@[i] == old_v[i]);
            } else if i > k {
                assert(v@[i] == old_v[i - 1]);
            }
        }
        assert forall|i: int| 0 <= i < old_v.len() implies v@.contains(#[trigger] old_v[i]) by {
            if i < k {
                assert(v@[i] == old_v[i]);
            } else {
                assert(v@[i + 1] == old_v[i]);
            }
        }
    }
}


proof fn lemma_first_satisfied_found(db: InstalledDb, alts: Seq<DepSpec>)
    ensures
        first_satisfied(db, alts) matches Some(d) ==> satisfied_by(db, d),
    decreases alts.len(),
{
    if alts.len() > 0 {
        lemma_first_satisfied_found(db, alts.drop_first());
    }
}

proof fn lemma_first_known_found(cache: PackageCache, alts: Seq<DepSpec>)
    ensures
        first_known(cache, alts) matches Some(d) ==> cache.lookup(d.name) is Some,
    decreases alts.len(),
{
    if alts.len() > 0 {
        lemma_first_known_found(cache, alts.drop_first());
    }
}

/// The base names of a sequence of names.
pub open spec fn bases(v: Seq<Seq<char>>) -> Seq<Seq<char>> {
    v.map_values(|n: Seq<char>| base_name(n))
}

/// The names of a sequence of packages.
pub open spec fn pkg_names(v: Seq<Package>) -> Seq<Seq<char>> {
    v.map_values(|p: Package| p.name@)
}

/// Every name an install can move on to: the base names of the installed packages and of
/// the packages in the index.
pub open spec fn dep_universe(cache: PackageCache, db: InstalledDb) -> Seq<Seq<char>> {
    bases(row_names(db.rows())) + bases(pkg_names(cache.newest()))
}

proof fn lemma_concat_contains(a: Seq<Seq<char>>, b: Seq<Seq<char>>, x: Seq<char>)
    ensures
        (a + b).contains(x) <==> (a.contains(x) || b.contains(x)),
{
    if (a + b).contains(x) {
        let j = choose|j: int| 0 <= j < (a + b).len() && (a + b)[j] == x;
        if j < a.len() {
            assert(a[j] == x);
        } else {
            assert(b[j - a.len()] == x);
        }
    }
    if a.contains(x) {
        let j = choose|j: int| 0 <= j < a.len() && a[j] == x;
        assert((a + b)[j] == x);
    }
    if b.contains(x) {
        let j = choose|j: int| 0 <= j < b.len() && b[j] == x;
        assert((a + b)[a.len() + j] == x);
    }
}

proof fn lemma_chosen_in_universe(cache: PackageCache, db: InstalledDb, groups: Seq<Seq<DepSpec>>)
    requires
        cache.wf(),
        db.wf(),
    ensures
        forall|t: Seq<char>| #[trigger] chosen_targets(cache, db, groups).contains(t) ==> dep_universe(cache, db).contains(t),
    decreases groups.len(),
{
    if groups.len() > 0 {
        lemma_chosen_in_universe(cache, db, groups.drop_last());
        let rest = chosen_targets(cache, db, groups.drop_last());
        match chosen_alt(cache, db, groups.last()) {
            Some(d) => {
                lemma_push_contains(rest, base_name(d.name));
                let u1 = bases(row_names(db.rows()));
                let u2 = bases(pkg_names(cache.newest()));
                lemma_concat_contains(u1, u2, base_name(d.name));
                lemma_first_satisfied_found(db, groups.last());
                lemma_first_known_found(cache, groups.last());
                if first_satisfied(db, groups.last()) is Some {
                    db.lemma_rows();
                    let row = db.lookup(d.name)->0;
                    let i = choose|i: int| 0 <= i < db.rows().len() && db.rows()[i] == row;
                    assert(u1[i] == base_name(d.name));
                } else {
                    cache.lemma_newest();
                    let pk = cache.lookup(d.name)->0;
                    let i = choose|i: int| 0 <= i < cache.newest().len() && cache.newest()[i] == pk;
                    assert(u2[i] == base_name(d.name));
                }
            },
            None => {},
        }
    }
}

proof fn lemma_targets_in_universe(cache: PackageCache, db: InstalledDb, p: Package, no_rec: bool)
    requires
        cache.wf(),
        db.wf(),
    ensures
        forall|t: Seq<char>| #[trigger] dep_targets(cache, db, p, no_rec).contains(t) ==> dep_universe(cache, db).contains(t),
{
    let a = field_targets(cache, db, p.pre_depends);
    let b = field_targets(cache, db, p.depends);
    let c = if no_rec { Seq::<Seq<char>>::empty() } else { field_targets(cache, db, p.recommends) };
    match ov(p.pre_depends) { Some(x) => lemma_chosen_in_universe(cache, db, dep_field(x)), None => {} }
    match ov(p.depends) { Some(x) => lemma_chosen_in_universe(cache, db, dep_field(x)), None => {} }
    match ov(p.recommends) { Some(x) => lemma_chosen_in_universe(cache, db, dep_field(x)), None => {} }
    assert forall|t: Seq<char>| #[trigger] dep_targets(cache, db, p, no_rec).contains(t) implies dep_universe(cache, db).contains(t) by {
        lemma_concat_contains(a + b, c, t);
        lemma_concat_contains(a, b, t);
    }
}

pub(crate) proof fn lemma_totals_concat(a: Seq<Package>, b: Seq<Package>)
    ensures
        download_total(a + b) == download_total(a) + download_total(b),
        unpacked_total(a + b) == unpacked_total(a) + unpacked_total(b),
    decreases b.len(),
{
    if b.len() == 0 {
        assert(a + b == a);
    } else {
        lemma_totals_concat(a, b.drop_last());
        assert((a + b).drop_last() == a + b.drop_last());
        assert((a + b).last() == b.last());
    }
}

/// The warning for a dependency the index does not know.
fn warning_string(n: &String) -> (r: String)
    ensures
        r@ == warning_text(n@),
{
    let mut v: Vec<char> = Vec::new();
    extend_str(&mut v, "dependency '");
    extend_str(&mut v, n.as_str());
    extend_str(&mut v, "' not found in package index \u{2014} skipped");
    assert(v@ =~= warning_text(n@));
    string_of(&v)
}

fn is_system_pkg(p: &Package) -> (r: bool)
    ensures
        r == is_system(*p),
{
    match &p.priority {
        Some(s) => {
            let c = chars_of(s.as_str());
            chars_eq_str(&c, "required") || chars_eq_str(&c, "important") || chars_eq_str(&c, "standard")
        },
        None => false,
    }
}

/// `v` is `old` with `p` inserted, sorted by name.
pub open spec fn inserted(old: Seq<Package>, v: Seq<Package>, p: Package) -> bool {
    &&& sorted_by_name(v)
    &&& v.len() == old.len() + 1
    &&& v.contains(p)
    &&& forall|i: int| 0 <= i < v.len() ==> #[trigger] v[i] == p || old.contains(v[i])
    &&& forall|i: int| 0 <= i < old.len() ==> v.contains(#[trigger] old[i])
}


/// What holds of the queue of a breadth-first install after its first `head` entries were
/// handled, and of the names met so far (`seen`).
spec fn queue_inv(
    cache: PackageCache,
    db: InstalledDb,
    req: Seq<Seq<char>>,
    ab: Seq<Seq<char>>,
    no_rec: bool,
    univ: Seq<Seq<char>>,
    queue: Seq<(String, bool)>,
    head: int,
    seen: Seq<String>,
) -> bool {
    let next = install_next(cache, db, req, ab, no_rec);
    &&& queue.len() >= req.len()
    &&& forall|j: int| 0 <= j < req.len() ==> #[trigger] queue[j].0@ == req[j] && queue[j].1
    &&& forall|j: int| req.len() <= j < queue.len() ==> !(#[trigger] queue[j]).1
    &&& 0 <= head <= queue.len()
    &&& forall|j: int| 0 <= j < head ==> names_of(seen).contains(#[trigger] queue[j].0@)
    &&& forall|j: int| 0 <= j < queue.len() ==> univ.contains(#[trigger] queue[j].0@) && reaches(req, next, queue[j].0@)
    &&& names_of(seen).no_duplicates()
    &&& seen.len() <= univ.len()
    &&& forall|x: Seq<char>| #[trigger] names_of(seen).contains(x) ==> univ.contains(x) && reaches(req, next, x)
    &&& forall|x: Seq<char>, y: Seq<char>| names_of(seen).contains(x) && #[trigger] next(x).contains(y)
        ==> names_of(seen).contains(y) || exists|j: int| head <= j < queue.len() && #[trigger] queue[j].0@ == y
}

/// What an install has planned for the names met so far.
spec fn out_inv(
    cache: PackageCache,
    db: InstalledDb,
    req: Seq<Seq<char>>,
    ab: Seq<Seq<char>>,
    seen: Seq<String>,
    ti: Seq<Package>,
    tu: Seq<Package>,
    w: Seq<String>,
) -> bool {
    &&& sorted_by_name(ti)
    &&& forall|k: int| 0 <= k < ti.len() ==> cache.lookup(#[trigger] ti[k].name@) == Some(ti[k])
        && names_of(seen).contains(ti[k].name@) && outcome(cache, db, req, ab, ti[k].name@) == Outcome::Install
    &&& forall|x: Seq<char>| names_of(seen).contains(x) && #[trigger] outcome(cache, db, req, ab, x) == Outcome::Install
        ==> exists|k: int| 0 <= k < ti.len() && ti[k].name@ == x
    &&& sorted_by_name(tu)
    &&& forall|k: int| 0 <= k < tu.len() ==> cache.lookup(#[trigger] tu[k].name@) == Some(tu[k])
        && names_of(seen).contains(tu[k].name@) && outcome(cache, db, req, ab, tu[k].name@) == Outcome::Upgrade
    &&& forall|x: Seq<char>| names_of(seen).contains(x) && #[trigger] outcome(cache, db, req, ab, x) == Outcome::Upgrade
        ==> exists|k: int| 0 <= k < tu.len() && tu[k].name@ == x
    &&& names_of(w).no_duplicates()
    &&& forall|k: int| 0 <= k < w.len() ==> warns_of_met(cache, db, req, ab, names_of(seen), #[trigger] w[k]@)
    &&& forall|x: Seq<char>| names_of(seen).contains(x) && #[trigger] outcome(cache, db, req, ab, x) == Outcome::Missing
        ==> names_of(w).contains(warning_text(x))
}

proof fn lemma_warning_text_injective(a: Seq<char>, b: Seq<char>)
    requires
        warning_text(a) == warning_text(b),
    ensures
        a == b,
{
    let pre = "dependency '"@;
    let post = "' not found in package index \u{2014} skipped"@;
    assert(warning_text(a).len() == pre.len() + a.len() + post.len());
    assert(warning_text(a).subrange(pre.len() as int, (pre.len() + a.len()) as int) == a);
    assert(warning_text(b).subrange(pre.len() as int, (pre.len() + b.len()) as int) == b);
}

proof fn lemma_queue_skip(
    cache: PackageCache,
    db: InstalledDb,
    req: Seq<Seq<char>>,
    ab: Seq<Seq<char>>,
    no_rec: bool,
    univ: Seq<Seq<char>>,
    queue: Seq<(String, bool)>,
    head: int,
    seen: Seq<String>,
)
    requires
        queue_inv(cache, db, req, ab, no_rec, univ, queue, head, seen),
        head < queue.len(),
        names_of(seen).contains(queue[head].0@),
    ensures
        queue_inv(cache, db, req, ab, no_rec, univ, queue, head + 1, seen),
{
    let next = install_next(cache, db, req, ab, no_rec);
    assert forall|x: Seq<char>, y: Seq<char>| names_of(seen).contains(x) && #[trigger] next(x).contains(y)
        implies names_of(seen).contains(y) || exists|j: int| head + 1 <= j < queue.len() && #[trigger] queue[j].0@ == y by {
        if !names_of(seen).contains(y) {
            let j = choose|j: int| head <= j < queue.len() && #[trigger] queue[j].0@ == y;
            assert(j != head);
        }
    }
}

proof fn lemma_queue_visit(
    cache: PackageCache,
    db: InstalledDb,
    req: Seq<Seq<char>>,
    ab: Seq<Seq<char>>,
    no_rec: bool,
    univ: Seq<Seq<char>>,
    q0: Seq<(String, bool)>,
    q1: Seq<(String, bool)>,
    head: int,
    s0: Seq<String>,
    name: String,
)
    requires
        cache.wf(),
        db.wf(),
        univ == req + dep_universe(cache, db),
        queue_inv(cache, db, req, ab, no_rec, univ, q0, head, s0),
        head < q0.len(),
        q0[head].0@ == name@,
        !names_of(s0).contains(name@),
        appended(q0, q1, install_next(cache, db, req, ab, no_rec)(name@)),
    ensures
        queue_inv(cache, db, req, ab, no_rec, univ, q1, head + 1, s0.push(name)),
{
    let next = install_next(cache, db, req, ab, no_rec);
    let s1 = s0.push(name);
    let t = next(name@);
    lemma_names_push(s0, name);
    assert(reaches(req, next, name@) && univ.contains(name@));
    assert forall|x: Seq<char>| #[trigger] t.contains(x) implies univ.contains(x) && reaches(req, next, x) by {
        lemma_reach_step(req, next, name@, x);
        match follow(cache, db, req, ab, no_rec, name@) {
            Some(f) => {
                lemma_targets_in_universe(cache, db, cache.lookup(name@)->0, f);
            },
            None => {},
        }
        lemma_concat_contains(req, dep_universe(cache, db), x);
    }
    assert forall|j: int| 0 <= j < q1.len() implies univ.contains(#[trigger] q1[j].0@) && reaches(req, next, q1[j].0@) by {
        if j < q0.len() {
            assert(q1[j] == q0[j]);
        } else {
            assert(q1[j].0@ == t[j - q0.len()]);
            assert(t.contains(q1[j].0@));
        }
    }
    assert forall|j: int| 0 <= j < head + 1 implies names_of(s1).contains(#[trigger] q1[j].0@) by {
        assert(q1[j] == q0[j]);
    }
    assert forall|j: int| 0 <= j < req.len() implies #[trigger] q1[j].0@ == req[j] && q1[j].1 by {
        assert(q1[j] == q0[j]);
    }
    assert forall|j: int| req.len() <= j < q1.len() implies !(#[trigger] q1[j]).1 by {
        if j < q0.len() {
            assert(q1[j] == q0[j]);
        } else {
            assert(q1[j].0@ == t[j - q0.len()]);
        }
    }
    assert forall|x: Seq<char>| #[trigger] names_of(s1).contains(x) implies univ.contains(x) && reaches(req, next, x) by {
        if x != name@ {
            assert(names_of(s0).contains(x));
        }
    }
    lemma_distinct_within(names_of(s1), univ);
    assert forall|x: Seq<char>, y: Seq<char>| names_of(s1).contains(x) && #[trigger] next(x).contains(y)
        implies names_of(s1).contains(y) || exists|j: int| head + 1 <= j < q1.len() && #[trigger] q1[j].0@ == y by {
        if x == name@ {
            let k = choose|k: int| 0 <= k < t.len() && t[k] == y;
            assert(q1[q0.len() + k].0@ == y);
        } else {
            assert(names_of(s0).contains(x));
            if !names_of(s0).contains(y) {
                let j = choose|j: int| head <= j < q0.len() && #[trigger] q0[j].0@ == y;
                if j > head {
                    assert(q1[j] == q0[j]);
                }
            }
        }
    }
}

proof fn lemma_out_visit(
    cache: PackageCache,
    db: InstalledDb,
    req: Seq<Seq<char>>,
    ab: Seq<Seq<char>>,
    s0: Seq<String>,
    name: String,
    ti0: Seq<Package>,
    ti1: Seq<Package>,
    tu0: Seq<Package>,
    tu1: Seq<Package>,
    w0: Seq<String>,
    w1: Seq<String>,
)
    requires
        cache.wf(),
        out_inv(cache, db, req, ab, s0, ti0, tu0, w0),
        !names_of(s0).contains(name@),
        ({
            let oc = outcome(cache, db, req, ab, name@);
            &&& if oc == Outcome::Install {
                inserted(ti0, ti1, cache.lookup(name@)->0)
            } else {
                ti1 == ti0
            }
            &&& if oc == Outcome::Upgrade {
                inserted(tu0, tu1, cache.lookup(name@)->0)
            } else {
                tu1 == tu0
            }
            &&& if oc == Outcome::Missing {
                w1.len() == w0.len() + 1 && w1.drop_last() == w0 && w1.last()@ == warning_text(name@)
            } else {
                w1 == w0
            }
        }),
    ensures
        out_inv(cache, db, req, ab, s0.push(name), ti1, tu1, w1),
{
    let s1 = s0.push(name);
    let oc = outcome(cache, db, req, ab, name@);
    lemma_names_push(s0, name);
    cache.lemma_newest();
    assert forall|k: int| 0 <= k < ti1.len() implies cache.lookup(#[trigger] ti1[k].name@) == Some(ti1[k])
        && names_of(s1).contains(ti1[k].name@) && outcome(cache, db, req, ab, ti1[k].name@) == Outcome::Install by {
        if oc == Outcome::Install && ti1[k] != cache.lookup(name@)->0 {
            let j = choose|j: int| 0 <= j < ti0.len() && ti0[j] == ti1[k];
            assert(cache.lookup(ti0[j].name@) == Some(ti0[j]));
        } else if oc != Outcome::Install {
            assert(ti1[k] == ti0[k]);
        }
    }
    assert forall|x: Seq<char>| names_of(s1).contains(x) && #[trigger] outcome(cache, db, req, ab, x) == Outcome::Install
        implies exists|k: int| 0 <= k < ti1.len() && ti1[k].name@ == x by {
        if x == name@ {
            let k = choose|k: int| 0 <= k < ti1.len() && ti1[k] == cache.lookup(name@)->0;
            assert(ti1[k].name@ == x);
        } else {
            assert(names_of(s0).contains(x));
            let k = choose|k: int| 0 <= k < ti0.len() && ti0[k].name@ == x;
            if oc == Outcome::Install {
                assert(ti1.contains(ti0[k]));
                let k2 = choose|k2: int| 0 <= k2 < ti1.len() && ti1[k2] == ti0[k];
                assert(ti1[k2].name@ == x);
            } else {
                assert(ti1[k].name@ == x);
            }
        }
    }
    assert forall|k: int| 0 <= k < tu1.len() implies cache.lookup(#[trigger] tu1[k].name@) == Some(tu1[k])
        && names_of(s1).contains(tu1[k].name@) && outcome(cache, db, req, ab, tu1[k].name@) == Outcome::Upgrade by {
        if oc == Outcome::Upgrade && tu1[k] != cache.lookup(name@)->0 {
            let j = choose|j: int| 0 <= j < tu0.len() && tu0[j] == tu1[k];
            assert(cache.lookup(tu0[j].name@) == Some(tu0[j]));
        } else if oc != Outcome::Upgrade {
            assert(tu1[k] == tu0[k]);
        }
    }
    assert forall|x: Seq<char>| names_of(s1).contains(x) && #[trigger] outcome(cache, db, req, ab, x) == Outcome::Upgrade
        implies exists|k: int| 0 <= k < tu1.len() && tu1[k].name@ == x by {
        if x == name@ {
            let k = choose|k: int| 0 <= k < tu1.len() && tu1[k] == cache.lookup(name@)->0;
            assert(tu1[k].name@ == x);
        } else {
            assert(names_of(s0).contains(x));
            let k = choose|k: int| 0 <= k < tu0.len() && tu0[k].name@ == x;
            if oc == Outcome::Upgrade {
                assert(tu1.contains(tu0[k]));
                let k2 = choose|k2: int| 0 <= k2 < tu1.len() && tu1[k2] == tu0[k];
                assert(tu1[k2].name@ == x);
            } else {
                assert(tu1[k].name@ == x);
            }
        }
    }
    if oc == Outcome::Missing {
        assert(w1 == w0.push(w1.last()));
        lemma_names_push(w0, w1.last());
        assert(!names_of(w0).contains(warning_text(name@))) by {
            if names_of(w0).contains(warning_text(name@)) {
                let k = choose|k: int| 0 <= k < names_of(w0).len() && names_of(w0)[k] == warning_text(name@);
                assert(w0[k]@ == warning_text(name@));
                assert(warns_of_met(cache, db, req, ab, names_of(s0), w0[k]@));
                let n = choose|n: Seq<char>| #[trigger] names_of(s0).contains(n)
                    && outcome(cache, db, req, ab, n) == Outcome::Missing && w0[k]@ == warning_text(n);
                lemma_warning_text_injective(n, name@);
            }
        }
        assert forall|k: int| 0 <= k < w1.len() implies warns_of_met(cache, db, req, ab, names_of(s1), #[trigger] w1[k]@) by {
            if k < w0.len() {
                assert(w1[k] == w0[k]);
                assert(warns_of_met(cache, db, req, ab, names_of(s0), w0[k]@));
                let n = choose|n: Seq<char>| #[trigger] names_of(s0).contains(n)
                    && outcome(cache, db, req, ab, n) == Outcome::Missing && w0[k]@ == warning_text(n);
                assert(names_of(s1).contains(n));
            } else {
                assert(names_of(s1).contains(name@));
            }
        }
    } else {
        assert forall|k: int| 0 <= k < w1.len() implies warns_of_met(cache, db, req, ab, names_of(s1), #[trigger] w1[k]@) by {
            assert(warns_of_met(cache, db, req, ab, names_of(s0), w0[k]@));
            let n = choose|n: Seq<char>| #[trigger] names_of(s0).contains(n)
                && outcome(cache, db, req, ab, n) == Outcome::Missing && w0[k]@ == warning_text(n);
            assert(names_of(s1).contains(n));
        }
    }
    assert forall|x: Seq<char>| names_of(s1).contains(x) && #[trigger] outcome(cache, db, req, ab, x) == Outcome::Missing
        implies names_of(w1).contains(warning_text(x)) by {
        if x != name@ {
            assert(names_of(s0).contains(x));
            assert(names_of(w0).contains(warning_text(x)));
        }
    }
}


// ─────────────────────────────────────────────────────────────
//  Files on disk
// ─────────────────────────────────────────────────────────────

/// Whether something exists at the path, as `std::path::Path::exists` answers: it depends on
/// the disk, so nothing is stated of the answer.
#[verifier::external_body]
fn path_exists(path: &str) -> (r: bool) {
    std::path::Path::new(path).exists()
}

/// A record lists files on disk.
pub open spec fn has_files(row: InstalledPackage) -> bool {
    nonempty(split_char(row.files@, ';')).len() > 0
}

/// The first file a record lists, if it lists any.
pub open spec fn first_file(row: InstalledPackage) -> Option<Seq<char>> {
    if has_files(row) {
        Some(nonempty(split_char(row.files@, ';'))[0])
    } else {
        None
    }
}

/// The first non-empty piece of a record's `;`-separated file list: the path whose
/// presence on disk decides whether the package is still there.
pub fn first_recorded_file(inst: &InstalledPackage) -> (r: Option<String>)
    ensures
        match r {
            Some(f) => first_file(*inst) == Some(f@),
            None => first_file(*inst) is None,
        },
{
    let files = split_files(&inst.files);
    assert(files@.map_values(|f: String| f@).len() == files@.len());
    if files.len() == 0 {
        None
    } else {
        assert(files@.map_values(|f: String| f@)[0] == files@[0]@);
        Some(files[0].clone())
    }
}

/// Whether the package's first recorded file is still on disk; a package with no recorded
/// files counts as present. Only the path handed to the disk check is fixed: its answer
/// depends on the disk.
pub fn package_physically_present(inst: &InstalledPackage) -> (r: bool)
    ensures
        !has_files(*inst) ==> r,
{
    match first_recorded_file(inst) {
        None => true,
        Some(f) => path_exists(f.as_str()),
    }
}

/// The names whose files an install may treat as gone: names asked for that are installed
/// and list files.
pub open spec fn may_be_absent(db: InstalledDb, req: Seq<Seq<char>>, absent: Seq<Seq<char>>) -> bool {
    forall|x: Seq<char>| #[trigger] absent.contains(x) ==> req.contains(x) && db.lookup(x) is Some && has_files(db.lookup(x)->0)
}

/// The names an install may treat as gone: names asked for that are installed, list
/// files, and whose installed version is not older than the index's (an older one is
/// upgraded, whatever the disk holds).
pub open spec fn may_be_reinstalled(cache: PackageCache, db: InstalledDb, req: Seq<Seq<char>>, absent: Seq<Seq<char>>) -> bool {
    &&& may_be_absent(db, req, absent)
    &&& forall|x: Seq<char>| #[trigger] absent.contains(x) ==> cache.lookup(x) is Some
        && version_order(cache.lookup(x)->0.version@, db.lookup(x)->0.version@) != 1
}

// ─────────────────────────────────────────────────────────────
//  Solver
// ─────────────────────────────────────────────────────────────

/// Plans transactions against a package index and the installed packages.
pub struct Solver<'a> {
    pub cache: &'a PackageCache,
    pub db: &'a InstalledDb,
}

impl<'a> Solver<'a> {
    /// Both tables are well formed.
    pub open spec fn ready(&self) -> bool {
        self.cache.wf() && self.db.wf()
    }

    pub fn new(cache: &'a PackageCache, db: &'a InstalledDb) -> (r: Solver<'a>)
        ensures
            r.cache == cache,
            r.db == db,
    {
        Solver { cache, db }
    }

    /// Plans the removal of the named packages: all of them must be installed.
    pub fn resolve_remove(&self, names: &[String]) -> (r: Result<TransactionPlan, SolveError>)
        requires
            self.ready(),
        ensures
            match r {
                Ok(plan) => {
                    &&& first_not_installed(*self.db, names@) is None
                    &&& plan.to_remove@ == names@
                    &&& plan.freed_bytes == freed_total(rows_named(*self.db, names@)) % word()
                    &&& plan.to_install@.len() == 0
                    &&& plan.to_upgrade@.len() == 0
                    &&& plan.to_autoremove@.len() == 0
                    &&& plan.upgrade_from@.len() == 0
                    &&& plan.download_bytes == 0
                    &&& plan.install_bytes == 0
                    &&& plan.warnings@.len() == 0
                },
                Err(e) => match first_not_installed(*self.db, names@) {
                    Some(i) => e matches SolveError::NotInstalled(n) && n@ == names@[i]@,
                    None => false,
                },
            },
    {
        let mut rows: Vec<InstalledPackage> = Vec::new();
        let mut listed: Vec<String> = Vec::new();
        let mut i: usize = 0;
        while i < names.len()
            invariant
                i <= names@.len(),
                self.ready(),
                first_not_installed(*self.db, names@.take(i as int)) is None,
                rows@ == rows_named(*self.db, names@.take(i as int)),
                listed@ == names@.take(i as int),
            decreases names@.len() - i,
        {
            proof {
                assert(names@.take(i + 1).drop_last() == names@.take(i as int));
                assert(names@.take(i + 1).last() == names@[i as int]);
            }
            match self.db.get(names[i].as_str()) {
                Some(inst) => {
                    rows.push(inst);
                    listed.push(names[i].clone());
                },
                None => {
                    proof {
                        lemma_first_not_installed_prefix(*self.db, names@, i as int + 1);
                    }
                    return Err(SolveError::NotInstalled(names[i].clone()));
                },
            }
            i = i + 1;
        }
        assert(names@.take(names@.len() as int) == names@);
        let freed = freed_bytes_of(&rows);
        Ok(TransactionPlan {
            to_install: Vec::new(),
            to_upgrade: Vec::new(),
            to_remove: listed,
            to_autoremove: Vec::new(),
            upgrade_from: Vec::new(),
            download_bytes: 0,
            install_bytes: 0,
            freed_bytes: freed,
            warnings: Vec::new(),
        })
    }

    /// The index of the first alternative of the clause that the installed packages satisfy.
    fn first_satisfied_index(&self, g: &DepGroup) -> (r: Option<usize>)
        requires
            self.ready(),
        ensures
            match r {
                Some(k) => k < g.alternatives@.len() && first_satisfied(*self.db, group_view(*g)) == Some(group_view(*g)[k as int]),
                None => first_satisfied(*self.db, group_view(*g)) is None,
            },
    {
        let ghost gv = group_view(*g);
        let mut k: usize = 0;
        while k < g.alternatives.len()
            invariant
                k <= g.alternatives@.len(),
                self.ready(),
                gv == group_view(*g),
                gv.len() == g.alternatives@.len(),
                forall|j: int| 0 <= j < k ==> !satisfied_by(*self.db, #[trigger] gv[j]),
            decreases g.alternatives@.len() - k,
        {
            let alt = &g.alternatives[k];
            assert(gv[k as int] == crate::package::dep_view(*alt));
            let ok = match self.db.find(alt.name.as_str()) {
                Some(inst) => match &alt.constraint {
                    Some(c) => version_satisfies(inst.version.as_str(), &c.op, c.version.as_str()),
                    None => true,
                },
                None => false,
            };
            if ok {
                proof {
                    lemma_first_satisfied_skip(*self.db, gv, k as int);
                    assert(gv.skip(k as int)[0] == gv[k as int]);
                }
                return Some(k);
            }
            k = k + 1;
        }
        proof {
            lemma_first_satisfied_skip(*self.db, gv, k as int);
            assert(gv.skip(k as int).len() == 0);
        }
        None
    }

    /// The index of the first alternative of the clause that the package index knows.
    fn first_known_index(&self, g: &DepGroup) -> (r: Option<usize>)
        requires
            self.ready(),
        ensures
            match r {
                Some(k) => k < g.alternatives@.len() && first_known(*self.cache, group_view(*g)) == Some(group_view(*g)[k as int]),
                None => first_known(*self.cache, group_view(*g)) is None,
            },
    {
        let ghost gv = group_view(*g);
        let mut k: usize = 0;
        while k < g.alternatives.len()
            invariant
                k <= g.alternatives@.len(),
                self.ready(),
                gv == group_view(*g),
                gv.len() == g.alternatives@.len(),
                forall|j: int| 0 <= j < k ==> self.cache.lookup(#[trigger] gv[j].name) is None,
            decreases g.alternatives@.len() - k,
        {
            assert(gv[k as int].name == g.alternatives@[k as int].name@);
            if self.cache.get(g.alternatives[k].name.as_str()).is_some() {
                proof {
                    lemma_first_known_skip(*self.cache, gv, k as int);
                    assert(gv.skip(k as int)[0] == gv[k as int]);
                }
                return Some(k);
            }
            k = k + 1;
        }
        proof {
            lemma_first_known_skip(*self.cache, gv, k as int);
            assert(gv.skip(k as int).len() == 0);
        }
        None
    }

    /// Appends to the queue, not asked for, the base name of the alternative each clause is
    /// met with.
    fn push_targets(&self, groups: &Vec<DepGroup>, queue: &mut Vec<(String, bool)>)
        requires
            self.ready(),
        ensures
            appended(old(queue)@, final(queue)@, chosen_targets(*self.cache, *self.db, groups_view(groups@))),
    {
        let ghost gv = groups_view(groups@);
        let ghost start = queue@;
        let mut g: usize = 0;
        while g < groups.len()
            invariant
                g <= groups@.len(),
                self.ready(),
                gv == groups_view(groups@),
                gv.len() == groups@.len(),
                appended(start, queue@, chosen_targets(*self.cache, *self.db, gv.take(g as int))),
            decreases groups@.len() - g,
        {
            proof {
                assert(gv.take(g + 1).drop_last() == gv.take(g as int));
                assert(gv.take(g + 1).last() == gv[g as int]);
                assert(gv[g as int] == group_view(groups@[g as int]));
            }
            let ghost before = chosen_targets(*self.cache, *self.db, gv.take(g as int));
            let pick = match self.first_satisfied_index(&groups[g]) {
                Some(k) => Some(k),
                None => self.first_known_index(&groups[g]),
            };
            match pick {
                Some(k) => {
                    let alt = &groups[g].alternatives[k];
                    assert(group_view(groups@[g as int])[k as int].name == alt.name@);
                    let dep = base_name_of(alt.name.as_str());
                    let ghost old_q = queue@;
                    queue.push((dep, false));
                    proof {
                        let after = before.push(dep@);
                        assert(chosen_targets(*self.cache, *self.db, gv.take(g + 1)) == after);
                        assert forall|j: int| start.len() <= j < queue@.len() implies #[trigger] queue@[j].0@ == after[j - start.len()] && !queue@[j].1 by {
                            if j < old_q.len() {
                                assert(queue@[j] == old_q[j]);
                            }
                        }
                        assert forall|j: int| 0 <= j < start.len() implies #[trigger] queue@[j] == start[j] by {
                            assert(queue@[j] == old_q[j]);
                        }
                    }
                },
                None => {
                    assert(chosen_targets(*self.cache, *self.db, gv.take(g + 1)) == before);
                },
            }
            g = g + 1;
        }
        assert(gv.take(groups@.len() as int) == gv);
    }

    /// Appends to the queue the names a dependency field leads to.
    fn push_field(&self, f: &Option<String>, queue: &mut Vec<(String, bool)>)
        requires
            self.ready(),
        ensures
            appended(old(queue)@, final(queue)@, field_targets(*self.cache, *self.db, *f)),
    {
        match f {
            Some(s) => {
                let groups = parse_dep_field(s.as_str());
                self.push_targets(&groups, queue);
            },
            None => {
                assert(appended(queue@, queue@, Seq::<Seq<char>>::empty()));
            },
        }
    }

    /// Appends to the queue, in order, the names the package's `Pre-Depends`, `Depends`
    /// and, unless they are off, `Recommends` lead to.
    fn enqueue_deps(&self, pkg: &Package, no_recommends: bool, queue: &mut Vec<(String, bool)>)
        requires
            self.ready(),
        ensures
            appended(old(queue)@, final(queue)@, dep_targets(*self.cache, *self.db, *pkg, no_recommends)),
    {
        let ghost q0 = queue@;
        self.push_field(&pkg.pre_depends, queue);
        let ghost q1 = queue@;
        self.push_field(&pkg.depends, queue);
        let ghost q2 = queue@;
        proof {
            lemma_appended_trans(q0, q1, q2, field_targets(*self.cache, *self.db, pkg.pre_depends), field_targets(*self.cache, *self.db, pkg.depends));
        }
        if !no_recommends {
            self.push_field(&pkg.recommends, queue);
            proof {
                lemma_appended_trans(q0, q2, queue@,
                    field_targets(*self.cache, *self.db, pkg.pre_depends) + field_targets(*self.cache, *self.db, pkg.depends),
                    field_targets(*self.cache, *self.db, pkg.recommends));
            }
        } else {
            assert(field_targets(*self.cache, *self.db, pkg.pre_depends) + field_targets(*self.cache, *self.db, pkg.depends)
                + Seq::<Seq<char>>::empty() == field_targets(*self.cache, *self.db, pkg.pre_depends) + field_targets(*self.cache, *self.db, pkg.depends));
        }
    }

    /// Plans installing the named packages and what they depend on. A package asked for
    /// that is installed and not older than the index's is installed again when its first
    /// recorded file is gone from the disk.
    pub fn resolve_install(&self, names: &[String], no_recommends: bool) -> (r: Result<TransactionPlan, SolveError>)
        requires
            self.ready(),
        ensures
            match r {
                Ok(plan) => first_unknown(*self.cache, requested(names@)) is None
                    && exists|absent: Seq<Seq<char>>| may_be_reinstalled(*self.cache, *self.db, requested(names@), absent)
                        && #[trigger] install_plan_ok(*self.cache, *self.db, names@, no_recommends, absent, plan),
                Err(e) => match first_unknown(*self.cache, requested(names@)) {
                    Some(i) => e matches SolveError::NoMatch(n) && n@ == requested(names@)[i],
                    None => false,
                },
            },
    {
        let ghost req = requested(names@);
        let mut absent: Vec<String> = Vec::new();
        let mut i: usize = 0;
        while i < names.len()
            invariant
                i <= names@.len(),
                self.ready(),
                req == requested(names@),
                req.len() == names@.len(),
                may_be_reinstalled(*self.cache, *self.db, req, names_of(absent@)),
            decreases names@.len() - i,
        {
            let n = base_name_of(names[i].as_str());
            assert(req[i as int] == n@);
            match (self.cache.get(n.as_str()), self.db.find(n.as_str())) {
                (Some(avail), Some(inst)) => {
                    if version_sign(avail.version.as_str(), inst.version.as_str()) != 1 && !package_physically_present(inst) {
                        let ghost old_absent = absent@;
                        absent.push(n);
                        proof {
                            lemma_names_push(old_absent, n);
                        }
                    }
                },
                _ => {},
            }
            i = i + 1;
        }
        self.plan_install(names, no_recommends, absent.as_slice())
    }

    /// Plans installing the named packages and what they depend on, given the names asked
    /// for whose files are gone from the disk (`absent`).
    pub fn plan_install(&self, names: &[String], no_recommends: bool, absent: &[String]) -> (r: Result<TransactionPlan, SolveError>)
        requires
            self.ready(),
        ensures
            match r {
                Ok(plan) => first_unknown(*self.cache, requested(names@)) is None
                    && install_plan_ok(*self.cache, *self.db, names@, no_recommends, names_of(absent@), plan),
                Err(e) => match first_unknown(*self.cache, requested(names@)) {
                    Some(i) => e matches SolveError::NoMatch(n) && n@ == requested(names@)[i],
                    None => false,
                },
            },
    {
        let ghost req = requested(names@);
        let ghost ab = names_of(absent@);
        let ghost next = install_next(*self.cache, *self.db, req, ab, no_recommends);
        let mut queue: Vec<(String, bool)> = Vec::new();
        let mut i: usize = 0;
        while i < names.len()
            invariant
                i <= names@.len(),
                self.ready(),
                req == requested(names@),
                req.len() == names@.len(),
                queue@.len() == i,
                forall|j: int| 0 <= j < i ==> #[trigger] queue@[j].0@ == req[j] && queue@[j].1,
                first_unknown(*self.cache, req.take(i as int)) is None,
            decreases names@.len() - i,
        {
            let n = base_name_of(names[i].as_str());
            assert(req[i as int] == n@);
            proof {
                assert(req.take(i + 1).drop_last() == req.take(i as int));
                assert(req.take(i + 1).last() == req[i as int]);
            }
            if self.cache.get(n.as_str()).is_none() {
                proof {
                    lemma_first_unknown_prefix(*self.cache, req, i as int + 1);
                }
                return Err(SolveError::NoMatch(n));
            }
            let ghost qb = queue@;
            queue.push((n, true));
            proof {
                assert forall|j: int| 0 <= j < i + 1 implies #[trigger] queue@[j].0@ == req[j] && queue@[j].1 by {
                    if j < i {
                        assert(queue@[j] == qb[j]);
                    }
                }
            }
            i = i + 1;
        }
        assert(req.take(req.len() as int) == req);
        let ghost univ = req + dep_universe(*self.cache, *self.db);
        let mut seen: Vec<String> = Vec::new();
        let mut to_install: Vec<Package> = Vec::new();
        let mut to_upgrade: Vec<Package> = Vec::new();
        let mut warnings: Vec<String> = Vec::new();
        let mut head: usize = 0;
        proof {
            let next = install_next(*self.cache, *self.db, req, ab, no_recommends);
            assert forall|j: int| 0 <= j < queue@.len() implies univ.contains(#[trigger] queue@[j].0@)
                && reaches(req, next, queue@[j].0@) by {
                assert(univ[j] == req[j]);
                lemma_reach_start(req, next, req[j]);
            }
            assert(names_of(seen@) =~= Seq::<Seq<char>>::empty());
            assert(names_of(warnings@) =~= Seq::<Seq<char>>::empty());
            assert(queue_inv(*self.cache, *self.db, req, ab, no_recommends, univ, queue@, 0, seen@));
            assert(out_inv(*self.cache, *self.db, req, ab, seen@, to_install@, to_upgrade@, warnings@));
        }
        while head < queue.len()
            invariant
                self.ready(),
                req == requested(names@),
                ab == names_of(absent@),
                univ == req + dep_universe(*self.cache, *self.db),
                first_unknown(*self.cache, req) is None,
                head <= queue@.len(),
                queue_inv(*self.cache, *self.db, req, ab, no_recommends, univ, queue@, head as int, seen@),
                out_inv(*self.cache, *self.db, req, ab, seen@, to_install@, to_upgrade@, warnings@),
            decreases univ.len() - seen@.len(), queue@.len() - head,
        {
            self.bfs_step(no_recommends, absent, &mut queue, head, &mut seen, &mut to_install, &mut to_upgrade,
                &mut warnings, Ghost(req), Ghost(univ));
            head = head + 1;
        }
        let plan = self.finish_install(names, no_recommends, absent, &queue, &seen, to_install, to_upgrade, warnings,
            Ghost(req), Ghost(univ));
        Ok(plan)
    }

    /// Takes the next entry off the install queue: a name met before is passed over, a new
    /// one is handled.
    fn bfs_step(
        &self,
        no_recommends: bool,
        absent: &[String],
        queue: &mut Vec<(String, bool)>,
        head: usize,
        seen: &mut Vec<String>,
        to_install: &mut Vec<Package>,
        to_upgrade: &mut Vec<Package>,
        warnings: &mut Vec<String>,
        Ghost(req): Ghost<Seq<Seq<char>>>,
        Ghost(univ): Ghost<Seq<Seq<char>>>,
    )
        requires
            self.ready(),
            univ == req + dep_universe(*self.cache, *self.db),
            head < old(queue)@.len(),
            queue_inv(*self.cache, *self.db, req, names_of(absent@), no_recommends, univ, old(queue)@, head as int, old(seen)@),
            out_inv(*self.cache, *self.db, req, names_of(absent@), old(seen)@, old(to_install)@, old(to_upgrade)@, old(warnings)@),
        ensures
            queue_inv(*self.cache, *self.db, req, names_of(absent@), no_recommends, univ, final(queue)@, head + 1, final(seen)@),
            out_inv(*self.cache, *self.db, req, names_of(absent@), final(seen)@, final(to_install)@, final(to_upgrade)@, final(warnings)@),
            final(seen)@.len() == old(seen)@.len() + 1 || (final(seen)@ == old(seen)@ && final(queue)@ == old(queue)@),
    {
        let ghost ab = names_of(absent@);
        let name = queue[head].0.clone();
        let explicit = queue[head].1;
        if !holds_str(seen.as_slice(), name.as_str()) {
            proof {
                if explicit {
                    assert(head < req.len());
                    assert(req[head as int] == name@);
                } else if req.contains(name@) {
                    let j = choose|j: int| 0 <= j < req.len() && req[j] == name@;
                    assert(queue@[j].0@ == req[j]);
                    assert(names_of(seen@).contains(queue@[j].0@));
                }
                assert forall|i: int| 0 <= i < to_install@.len() implies #[trigger] to_install@[i].name@ != name@ by {
                    assert(names_of(seen@).contains(to_install@[i].name@));
                }
                assert forall|i: int| 0 <= i < to_upgrade@.len() implies #[trigger] to_upgrade@[i].name@ != name@ by {
                    assert(names_of(seen@).contains(to_upgrade@[i].name@));
                }
            }
            let ghost q0 = queue@;
            let ghost s0 = seen@;
            let ghost ti0 = to_install@;
            let ghost tu0 = to_upgrade@;
            let ghost w0 = warnings@;
            seen.push(name.clone());
            self.visit(&name, explicit, no_recommends, absent, queue, to_install, to_upgrade, warnings, Ghost(req));
            proof {
                lemma_queue_visit(*self.cache, *self.db, req, ab, no_recommends, univ, q0, queue@, head as int, s0, name);
                lemma_out_visit(*self.cache, *self.db, req, ab, s0, name, ti0, to_install@, tu0, to_upgrade@, w0, warnings@);
            }
        } else {
            proof {
                lemma_queue_skip(*self.cache, *self.db, req, ab, no_recommends, univ, queue@, head as int, seen@);
            }
        }
    }

    /// Turns the state of a finished breadth-first install into the plan.
    fn finish_install(
        &self,
        names: &[String],
        no_recommends: bool,
        absent: &[String],
        queue: &Vec<(String, bool)>,
        seen: &Vec<String>,
        to_install: Vec<Package>,
        to_upgrade: Vec<Package>,
        warnings: Vec<String>,
        Ghost(req): Ghost<Seq<Seq<char>>>,
        Ghost(univ): Ghost<Seq<Seq<char>>>,
    ) -> (plan: TransactionPlan)
        requires
            self.ready(),
            req == requested(names@),
            queue_inv(*self.cache, *self.db, req, names_of(absent@), no_recommends, univ, queue@, queue@.len() as int, seen@),
            out_inv(*self.cache, *self.db, req, names_of(absent@), seen@, to_install@, to_upgrade@, warnings@),
        ensures
            install_plan_ok(*self.cache, *self.db, names@, no_recommends, names_of(absent@), plan),
    {
        let ghost ab = names_of(absent@);
        let ghost next = install_next(*self.cache, *self.db, req, ab, no_recommends);
        proof {
            assert forall|x: Seq<char>| req.contains(x) implies names_of(seen@).contains(x) by {
                let j = choose|j: int| 0 <= j < req.len() && req[j] == x;
                assert(queue@[j].0@ == req[j]);
            }
            assert forall|x: Seq<char>| reaches(req, next, x) <==> names_of(seen@).contains(x) by {
                if reaches(req, next, x) {
                    lemma_closed_holds_reach(req, next, names_of(seen@), x);
                }
            }
        }
        let mut upgrade_from: Vec<(String, String)> = Vec::new();
        let mut i: usize = 0;
        while i < to_upgrade.len()
            invariant
                i <= to_upgrade@.len(),
                self.ready(),
                out_inv(*self.cache, *self.db, req, ab, seen@, to_install@, to_upgrade@, warnings@),
                upgrade_from@.len() == i,
                forall|k: int| 0 <= k < i ==> {
                    &&& #[trigger] upgrade_from@[k].0@ == to_upgrade@[k].name@
                    &&& upgrade_from@[k].1@ == self.db.lookup(to_upgrade@[k].name@)->0.version@
                },
            decreases to_upgrade@.len() - i,
        {
            assert(outcome(*self.cache, *self.db, req, ab, to_upgrade@[i as int].name@) == Outcome::Upgrade);
            match self.db.find(to_upgrade[i].name.as_str()) {
                Some(inst) => {
                    let ghost before = upgrade_from@;
                    upgrade_from.push((to_upgrade[i].name.clone(), inst.version.clone()));
                    assert forall|k: int| 0 <= k < i + 1 implies {
                        &&& #[trigger] upgrade_from@[k].0@ == to_upgrade@[k].name@
                        &&& upgrade_from@[k].1@ == self.db.lookup(to_upgrade@[k].name@)->0.version@
                    } by {
                        if k < i {
                            assert(upgrade_from@[k] == before[k]);
                        }
                    }
                },
                None => {
                    assert(false);
                },
            }
            i = i + 1;
        }
        let dl_a = download_bytes_of(&to_install);
        let dl_b = download_bytes_of(&to_upgrade);
        let un_a = unpacked_bytes_of(&to_install);
        let un_b = unpacked_bytes_of(&to_upgrade);
        let download_bytes = add_wrapping(dl_a, dl_b);
        let install_bytes = add_wrapping(un_a, un_b);
        proof {
            lemma_totals_concat(to_install@, to_upgrade@);
            lemma_add_mod_noop(download_total(to_install@), download_total(to_upgrade@), word());
            lemma_add_mod_noop(unpacked_total(to_install@), unpacked_total(to_upgrade@), word());
        }
        let plan = TransactionPlan {
            to_install,
            to_upgrade,
            to_remove: Vec::new(),
            to_autoremove: Vec::new(),
            upgrade_from,
            download_bytes,
            install_bytes,
            freed_bytes: 0,
            warnings,
        };
        proof {
            let keep_i = |n: Seq<char>| reaches(req, next, n) && outcome(*self.cache, *self.db, req, ab, n) == Outcome::Install;
            let keep_u = |n: Seq<char>| reaches(req, next, n) && outcome(*self.cache, *self.db, req, ab, n) == Outcome::Upgrade;
            assert(lists_packages(*self.cache, plan.to_install@, keep_i));
            assert(lists_packages(*self.cache, plan.to_upgrade@, keep_u));
            assert forall|k: int| 0 <= k < plan.warnings@.len() implies warns_of(*self.cache, *self.db, req, ab,
                no_recommends, #[trigger] plan.warnings@[k]@) by {
                assert(warns_of_met(*self.cache, *self.db, req, ab, names_of(seen@), plan.warnings@[k]@));
                let n = choose|n: Seq<char>| #[trigger] names_of(seen@).contains(n)
                    && outcome(*self.cache, *self.db, req, ab, n) == Outcome::Missing && plan.warnings@[k]@ == warning_text(n);
                assert(reaches(req, next, n));
            }
        }
        plan
    }

    /// Handles one name an install meets for the first time: warns about it, plans it, and
    /// queues what it leads to.
    fn visit(
        &self,
        name: &String,
        explicit: bool,
        no_recommends: bool,
        absent: &[String],
        queue: &mut Vec<(String, bool)>,
        to_install: &mut Vec<Package>,
        to_upgrade: &mut Vec<Package>,
        warnings: &mut Vec<String>,
        Ghost(req): Ghost<Seq<Seq<char>>>,
    )
        requires
            self.ready(),
            explicit == req.contains(name@),
            sorted_by_name(old(to_install)@),
            sorted_by_name(old(to_upgrade)@),
            forall|i: int| 0 <= i < old(to_install)@.len() ==> #[trigger] old(to_install)@[i].name@ != name@,
            forall|i: int| 0 <= i < old(to_upgrade)@.len() ==> #[trigger] old(to_upgrade)@[i].name@ != name@,
        ensures
            ({
                let ab = names_of(absent@);
                let next = install_next(*self.cache, *self.db, req, ab, no_recommends);
                let oc = outcome(*self.cache, *self.db, req, ab, name@);
                &&& appended(old(queue)@, final(queue)@, next(name@))
                &&& if oc == Outcome::Install {
                    inserted(old(to_install)@, final(to_install)@, self.cache.lookup(name@)->0)
                } else {
                    final(to_install)@ == old(to_install)@
                }
                &&& if oc == Outcome::Upgrade {
                    inserted(old(to_upgrade)@, final(to_upgrade)@, self.cache.lookup(name@)->0)
                } else {
                    final(to_upgrade)@ == old(to_upgrade)@
                }
                &&& if oc == Outcome::Missing {
                    final(warnings)@.len() == old(warnings)@.len() + 1
                        && final(warnings)@.drop_last() == old(warnings)@
                        && final(warnings)@.last()@ == warning_text(name@)
                } else {
                    final(warnings)@ == old(warnings)@
                }
            }),
    {
        let ghost ab = names_of(absent@);
        let ghost next = install_next(*self.cache, *self.db, req, ab, no_recommends);
        proof {
            self.cache.lemma_newest();
        }
        match self.cache.get(name.as_str()) {
            None => {
                let w = warning_string(name);
                let ghost old_w = warnings@;
                warnings.push(w);
                assert(warnings@.drop_last() == old_w);
                assert(appended(queue@, queue@, next(name@)));
            },
            Some(avail) => {
                if !explicit && is_system_pkg(avail) {
                    if !self.db.is_installed(name.as_str()) {
                        self.enqueue_deps(avail, true, queue);
                    } else {
                        assert(appended(queue@, queue@, next(name@)));
                    }
                } else {
                    match self.db.find(name.as_str()) {
                        Some(inst) => {
                            if explicit && version_sign(avail.version.as_str(), inst.version.as_str()) == 1 {
                                self.enqueue_deps(avail, no_recommends, queue);
                                insert_by_name(to_upgrade, avail.duplicate());
                            } else if explicit && holds_str(absent, name.as_str()) {
                                self.enqueue_deps(avail, no_recommends, queue);
                                insert_by_name(to_install, avail.duplicate());
                            } else {
                                assert(appended(queue@, queue@, next(name@)));
                            }
                        },
                        None => {
                            self.enqueue_deps(avail, no_recommends, queue);
                            insert_by_name(to_install, avail.duplicate());
                        },
                    }
                }
            },
        }
    }

    /// The index of the first alternative of the clause that is installed.
    fn first_installed_index(&self, g: &DepGroup) -> (r: Option<usize>)
        requires
            self.ready(),
        ensures
            match r {
                Some(k) => k < g.alternatives@.len() && first_installed(*self.db, group_view(*g)) == Some(group_view(*g)[k as int]),
                None => first_installed(*self.db, group_view(*g)) is None,
            },
    {
        let ghost gv = group_view(*g);
        let mut k: usize = 0;
        while k < g.alternatives.len()
            invariant
                k <= g.alternatives@.len(),
                self.ready(),
                gv == group_view(*g),
                gv.len() == g.alternatives@.len(),
                forall|j: int| 0 <= j < k ==> self.db.lookup(#[trigger] gv[j].name) is None,
            decreases g.alternatives@.len() - k,
        {
            assert(gv[k as int].name == g.alternatives@[k as int].name@);
            if self.db.is_installed(g.alternatives[k].name.as_str()) {
                proof {
                    lemma_first_installed_skip(*self.db, gv, k as int);
                    assert(gv.skip(k as int)[0] == gv[k as int]);
                }
                return Some(k);
            }
            k = k + 1;
        }
        proof {
            lemma_first_installed_skip(*self.db, gv, k as int);
            assert(gv.skip(k as int).len() == 0);
        }
        None
    }

    /// Adds to `needed` what the `Depends` of the installed package `name` keep.
    fn keep_deps_of(&self, name: &String, needed: &mut Vec<String>, Ghost(univ): Ghost<Seq<Seq<char>>>)
        requires
            self.ready(),
            univ == row_names(self.db.rows()),
            names_of(old(needed)@).no_duplicates(),
            forall|x: Seq<char>| names_of(old(needed)@).contains(x) ==> univ.contains(x),
        ensures
            names_of(final(needed)@).no_duplicates(),
            forall|x: Seq<char>| names_of(final(needed)@).contains(x) ==> univ.contains(x),
            final(needed)@.len() >= old(needed)@.len(),
            forall|k: int| 0 <= k < old(needed)@.len() ==> #[trigger] final(needed)@[k] == old(needed)@[k],
            forall|x: Seq<char>| #[trigger] names_of(final(needed)@).contains(x)
                ==> names_of(old(needed)@).contains(x) || kept_by(*self.db, name@).contains(x),
            forall|y: Seq<char>| #[trigger] kept_by(*self.db, name@).contains(y) ==> names_of(final(needed)@).contains(y),
    {
        let ghost start = needed@;
        proof {
            self.db.lemma_rows();
        }
        let deps: Option<String> = match self.db.find(name.as_str()) {
            Some(row) => match &row.depends {
                Some(d) => Some(d.clone()),
                None => None,
            },
            None => None,
        };
        let d = match deps {
            Some(d) => d,
            None => {
                assert(kept_by(*self.db, name@) == Seq::<Seq<char>>::empty());
                return;
            },
        };
        let groups = parse_dep_field(d.as_str());
        let ghost gv = groups_view(groups@);
        assert(kept_by(*self.db, name@) == installed_targets(*self.db, gv));
        let mut g: usize = 0;
        while g < groups.len()
            invariant
                g <= groups@.len(),
                self.ready(),
                gv == groups_view(groups@),
                gv.len() == groups@.len(),
                univ == row_names(self.db.rows()),
                names_of(needed@).no_duplicates(),
                forall|x: Seq<char>| names_of(needed@).contains(x) ==> univ.contains(x),
                needed@.len() >= start.len(),
                forall|k: int| 0 <= k < start.len() ==> #[trigger] needed@[k] == start[k],
                forall|x: Seq<char>| #[trigger] names_of(needed@).contains(x)
                    ==> names_of(start).contains(x) || installed_targets(*self.db, gv.take(g as int)).contains(x),
                forall|y: Seq<char>| #[trigger] installed_targets(*self.db, gv.take(g as int)).contains(y)
                    ==> names_of(needed@).contains(y),
            decreases groups@.len() - g,
        {
            proof {
                assert(gv.take(g + 1).drop_last() == gv.take(g as int));
                assert(gv.take(g + 1).last() == gv[g as int]);
                assert(gv[g as int] == group_view(groups@[g as int]));
            }
            let ghost before = installed_targets(*self.db, gv.take(g as int));
            match self.first_installed_index(&groups[g]) {
                Some(k) => {
                    let alt = &groups[g].alternatives[k];
                    assert(group_view(groups@[g as int])[k as int].name == alt.name@);
                    let ghost after = before.push(alt.name@);
                    assert(installed_targets(*self.db, gv.take(g + 1)) == after);
                    if !holds_str(&needed, alt.name.as_str()) {
                        let ghost old_needed = needed@;
                        proof {
                            self.db.lemma_rows();
                            lemma_first_installed_found(*self.db, gv[g as int]);
                            let row = self.db.lookup(alt.name@)->0;
                            let i = choose|i: int| 0 <= i < self.db.rows().len() && self.db.rows()[i] == row;
                            assert(univ[i] == alt.name@);
                        }
                        needed.push(alt.name.clone());
                        proof {
                            lemma_names_push(old_needed, alt.name);
                            lemma_push_contains(before, alt.name@);
                            assert forall|x: Seq<char>| #[trigger] names_of(needed@).contains(x)
                                implies names_of(start).contains(x) || after.contains(x) by {
                                if x != alt.name@ {
                                    assert(names_of(old_needed).contains(x));
                                }
                            }
                            assert forall|y: Seq<char>| #[trigger] after.contains(y) implies names_of(needed@).contains(y) by {
                                if y != alt.name@ {
                                    assert(before.contains(y));
                                    assert(names_of(old_needed).contains(y));
                                }
                            }
                            assert forall|k2: int| 0 <= k2 < start.len() implies #[trigger] needed@[k2] == start[k2] by {
                                assert(old_needed[k2] == start[k2]);
                            }
                        }
                    } else {
                        proof {
                            lemma_push_contains(before, alt.name@);
                            assert forall|x: Seq<char>| #[trigger] names_of(needed@).contains(x)
                                implies names_of(start).contains(x) || after.contains(x) by {
                                if !names_of(start).contains(x) {
                                    assert(before.contains(x));
                                }
                            }
                            assert forall|y: Seq<char>| #[trigger] after.contains(y) implies names_of(needed@).contains(y) by {
                                if y != alt.name@ {
                                    assert(before.contains(y));
                                }
                            }
                        }
                    }
                },
                None => {
                    assert(installed_targets(*self.db, gv.take(g + 1)) == before);
                },
            }
            g = g + 1;
        }
        assert(gv.take(groups@.len() as int) == gv);
    }

    /// Plans the removal of every installed package that nothing the user asked for needs.
    pub fn resolve_autoremove(&self) -> (r: Result<TransactionPlan, SolveError>)
        requires
            self.ready(),
        ensures
            r matches Ok(plan) && {
                let gone = unneeded(*self.db, self.db.rows());
                &&& plan.to_autoremove@.len() == gone.len()
                &&& forall|i: int| 0 <= i < gone.len() ==> #[trigger] plan.to_autoremove@[i]@ == gone[i].name@
                &&& plan.freed_bytes == freed_total(gone) % word()
                &&& plan.to_install@.len() == 0
                &&& plan.to_upgrade@.len() == 0
                &&& plan.to_remove@.len() == 0
                &&& plan.upgrade_from@.len() == 0
                &&& plan.download_bytes == 0
                &&& plan.install_bytes == 0
                &&& plan.warnings@.len() == 0
            },
    {
        let rows = self.db.list_all();
        let ghost univ = row_names(rows@);
        let ghost start = user_names(*self.db);
        let ghost next = kept_edges(*self.db);
        let mut needed: Vec<String> = Vec::new();
        let mut i: usize = 0;
        while i < rows.len()
            invariant
                i <= rows@.len(),
                self.ready(),
                rows@ == self.db.rows(),
                univ == row_names(rows@),
                names_of(needed@).no_duplicates(),
                forall|x: Seq<char>| names_of(needed@).contains(x) <==> row_names(user_rows(rows@.take(i as int))).contains(x),
                forall|x: Seq<char>| names_of(needed@).contains(x) ==> univ.contains(x),
            decreases rows@.len() - i,
        {
            proof {
                assert(rows@.take(i + 1).drop_last() == rows@.take(i as int));
                assert(rows@.take(i + 1).last() == rows@[i as int]);
                assert(univ[i as int] == rows@[i as int].name@);
            }
            let ghost prev = row_names(user_rows(rows@.take(i as int)));
            proof {
                lemma_push_contains(prev, rows@[i as int].name@);
                assert(row_names(user_rows(rows@.take(i as int)).push(rows@[i as int]))
                    =~= prev.push(rows@[i as int].name@));
            }
            if rows[i].reason == InstallReason::User {
                assert(row_names(user_rows(rows@.take(i + 1))) == prev.push(rows@[i as int].name@));
                if !holds_str(&needed, rows[i].name.as_str()) {
                    let ghost old_needed = needed@;
                    needed.push(rows[i].name.clone());
                    proof {
                        lemma_names_push(old_needed, rows@[i as int].name);
                    }
                }
            } else {
                assert(row_names(user_rows(rows@.take(i + 1))) == prev);
            }
            i = i + 1;
        }
        assert(rows@.take(rows@.len() as int) == rows@);
        let mut head: usize = 0;
        proof {
            lemma_distinct_within(names_of(needed@), univ);
            assert forall|x: Seq<char>| names_of(needed@).contains(x) implies reaches(start, next, x) by {
                lemma_reach_start(start, next, x);
            }
        }
        while head < needed.len()
            invariant
                self.ready(),
                rows@ == self.db.rows(),
                univ == row_names(rows@),
                univ.len() == rows@.len(),
                start == user_names(*self.db),
                next == kept_edges(*self.db),
                head <= needed@.len(),
                needed@.len() <= univ.len(),
                names_of(needed@).no_duplicates(),
                forall|x: Seq<char>| names_of(needed@).contains(x) ==> univ.contains(x),
                forall|x: Seq<char>| start.contains(x) ==> names_of(needed@).contains(x),
                forall|x: Seq<char>| names_of(needed@).contains(x) ==> reaches(start, next, x),
                forall|k: int, y: Seq<char>| 0 <= k < head && #[trigger] kept_by(*self.db, needed@[k]@).contains(y)
                    ==> names_of(needed@).contains(y),
            decreases 2 * univ.len() - needed@.len() - head,
        {
            let name = needed[head].clone();
            let ghost old_needed = needed@;
            proof {
                assert(names_of(needed@)[head as int] == name@);
            }
            self.keep_deps_of(&name, &mut needed, Ghost(univ));
            proof {
                lemma_distinct_within(names_of(needed@), univ);
                assert forall|x: Seq<char>| names_of(needed@).contains(x) implies reaches(start, next, x) by {
                    if !names_of(old_needed).contains(x) {
                        assert(kept_by(*self.db, name@).contains(x));
                        lemma_reach_step(start, next, name@, x);
                    }
                }
                assert forall|k: int, y: Seq<char>| 0 <= k < head + 1 && #[trigger] kept_by(*self.db, needed@[k]@).contains(y)
                    implies names_of(needed@).contains(y) by {
                    assert(needed@[k] == old_needed[k]);
                    if k < head {
                        assert(names_of(old_needed).contains(y));
                        let j = choose|j: int| 0 <= j < names_of(old_needed).len() && names_of(old_needed)[j] == y;
                        assert(names_of(needed@)[j] == y);
                    }
                }
                assert forall|x: Seq<char>| start.contains(x) implies names_of(needed@).contains(x) by {
                    assert(names_of(old_needed).contains(x));
                    let j = choose|j: int| 0 <= j < names_of(old_needed).len() && names_of(old_needed)[j] == x;
                    assert(names_of(needed@)[j] == x);
                }
            }
            head = head + 1;
        }
        proof {
            assert forall|x: Seq<char>, y: Seq<char>| names_of(needed@).contains(x) && #[trigger] next(x).contains(y)
                implies names_of(needed@).contains(y) by {
                let k = choose|k: int| 0 <= k < names_of(needed@).len() && names_of(needed@)[k] == x;
                assert(kept_by(*self.db, needed@[k]@).contains(y));
            }
            assert forall|x: Seq<char>| autoremove_keeps(*self.db, x) implies names_of(needed@).contains(x) by {
                lemma_closed_holds_reach(start, next, names_of(needed@), x);
            }
        }
        let mut gone: Vec<InstalledPackage> = Vec::new();
        let mut names: Vec<String> = Vec::new();
        let mut i: usize = 0;
        while i < rows.len()
            invariant
                i <= rows@.len(),
                self.ready(),
                rows@ == self.db.rows(),
                forall|x: Seq<char>| names_of(needed@).contains(x) <==> autoremove_keeps(*self.db, x),
                gone@ == unneeded(*self.db, rows@.take(i as int)),
                names@.len() == gone@.len(),
                forall|k: int| 0 <= k < gone@.len() ==> #[trigger] names@[k]@ == gone@[k].name@,
            decreases rows@.len() - i,
        {
            proof {
                assert(rows@.take(i + 1).drop_last() == rows@.take(i as int));
                assert(rows@.take(i + 1).last() == rows@[i as int]);
            }
            if !holds_str(&needed, rows[i].name.as_str()) {
                gone.push(rows[i].duplicate());
                names.push(rows[i].name.clone());
            }
            i = i + 1;
        }
        assert(rows@.take(rows@.len() as int) == rows@);
        let freed = freed_bytes_of(&gone);
        Ok(TransactionPlan {
            to_install: Vec::new(),
            to_upgrade: Vec::new(),
            to_remove: Vec::new(),
            to_autoremove: names,
            upgrade_from: Vec::new(),
            download_bytes: 0,
            install_bytes: 0,
            freed_bytes: freed,
            warnings: Vec::new(),
        })
    }

    /// Plans the upgrade of every installed package that has a newer version in the index.
    pub fn resolve_upgrade(&self) -> (r: Result<TransactionPlan, SolveError>)
        requires
            self.ready(),
        ensures
            r matches Ok(plan) && {
                &&& lists_upgrades(plan.to_upgrade@, plan.upgrade_from@, upgrades_of(*self.cache, self.db.rows()))
                &&& plan.download_bytes == download_total(plan.to_upgrade@) % word()
                &&& plan.install_bytes == unpacked_total(plan.to_upgrade@) % word()
                &&& plan.to_install@.len() == 0
                &&& plan.to_remove@.len() == 0
                &&& plan.to_autoremove@.len() == 0
                &&& plan.freed_bytes == 0
                &&& plan.warnings@.len() == 0
            },
    {
        let rows = self.db.list_all();
        let mut to_upgrade: Vec<Package> = Vec::new();
        let mut upgrade_from: Vec<(String, String)> = Vec::new();
        let mut i: usize = 0;
        while i < rows.len()
            invariant
                i <= rows@.len(),
                self.ready(),
                rows@ == self.db.rows(),
                lists_upgrades(to_upgrade@, upgrade_from@, upgrades_of(*self.cache, rows@.take(i as int))),
            decreases rows@.len() - i,
        {
            proof {
                assert(rows@.take(i + 1).drop_last() == rows@.take(i as int));
                assert(rows@.take(i + 1).last() == rows@[i as int]);
            }
            match self.cache.get(rows[i].name.as_str()) {
                Some(avail) => {
                    if version_sign(avail.version.as_str(), rows[i].version.as_str()) == 1 {
                        let ghost ups = upgrades_of(*self.cache, rows@.take(i as int));
                        let p = avail.duplicate();
                        let f = (rows[i].name.clone(), rows[i].version.clone());
                        proof {
                            lemma_lists_upgrades_push(to_upgrade@, upgrade_from@, ups, p, f, (rows@[i as int], *avail));
                        }
                        to_upgrade.push(p);
                        upgrade_from.push(f);
                    } else {
                        assert(!upgradable(*self.cache, rows@[i as int]));
                    }
                },
                None => {
                    assert(!upgradable(*self.cache, rows@[i as int]));
                },
            }
            i = i + 1;
        }
        assert(rows@.take(rows@.len() as int) == rows@);
        let dl = download_bytes_of(&to_upgrade);
        let inst = unpacked_bytes_of(&to_upgrade);
        Ok(TransactionPlan {
            to_install: Vec::new(),
            to_upgrade,
            to_remove: Vec::new(),
            to_autoremove: Vec::new(),
            upgrade_from,
            download_bytes: dl,
            install_bytes: inst,
            freed_bytes: 0,
            warnings: Vec::new(),
        })
    }
}

/// The plan's upgrades are `ups`, in order: the new package, and the name and version now
/// installed.
pub open spec fn lists_upgrades(to_upgrade: Seq<Package>, from: Seq<(String, String)>, ups: Seq<(InstalledPackage, Package)>) -> bool {
    &&& to_upgrade.len() == ups.len()
    &&& from.len() == ups.len()
    &&& forall|k: int| 0 <= k < ups.len() ==> {
        &&& #[trigger] to_upgrade[k] == ups[k].1
        &&& from[k].0@ == ups[k].0.name@
        &&& from[k].1@ == ups[k].0.version@
    }
}

proof fn lemma_lists_upgrades_push(
    tu: Seq<Package>,
    fr: Seq<(String, String)>,
    ups: Seq<(InstalledPackage, Package)>,
    p: Package,
    f: (String, String),
    u: (InstalledPackage, Package),
)
    requires
        lists_upgrades(tu, fr, ups),
        p == u.1,
        f.0@ == u.0.name@,
        f.1@ == u.0.version@,
    ensures
        lists_upgrades(tu.push(p), fr.push(f), ups.push(u)),
{
    assert forall|k: int| 0 <= k < ups.len() + 1 implies {
        &&& #[trigger] tu.push(p)[k] == ups.push(u)[k].1
        &&& fr.push(f)[k].0@ == ups.push(u)[k].0.name@
        &&& fr.push(f)[k].1@ == ups.push(u)[k].0.version@
    } by {
        if k < ups.len() {
            assert(tu.push(p)[k] == tu[k]);
        }
    }
}

proof fn lemma_first_not_installed_prefix(db: InstalledDb, names: Seq<String>, k: int)
    requires
        0 < k <= names.len(),
        first_not_installed(db, names.take(k - 1)) is None,
        db.lookup(names[k - 1]@) is None,
    ensures
        first_not_installed(db, names) == Some(k - 1),
    decreases names.len(),
{
    if names.len() > k {
        assert(names.drop_last().take(k - 1) == names.take(k - 1));
        assert(names.drop_last()[k - 1] == names[k - 1]);
        lemma_first_not_installed_prefix(db, names.drop_last(), k);
    } else {
        assert(names.drop_last() == names.take(k - 1));
    }
}


proof fn lemma_first_unknown_prefix(cache: PackageCache, req: Seq<Seq<char>>, k: int)
    requires
        0 < k <= req.len(),
        first_unknown(cache, req.take(k - 1)) is None,
        cache.lookup(req[k - 1]) is None,
    ensures
        first_unknown(cache, req) == Some(k - 1),
    decreases req.len(),
{
    if req.len() > k {
        assert(req.drop_last().take(k - 1) == req.take(k - 1));
        assert(req.drop_last()[k - 1] == req[k - 1]);
        lemma_first_unknown_prefix(cache, req.drop_last(), k);
    } else {
        assert(req.drop_last() == req.take(k - 1));
    }
}


// ─────────────────────────────────────────────────────────────
//  Laws
// ─────────────────────────────────────────────────────────────

proof fn lemma_field_targets_grow(cache: PackageCache, db: InstalledDb, p: Package, x: Seq<char>)
    ensures
        dep_targets(cache, db, p, true).contains(x) ==> dep_targets(cache, db, p, false).contains(x),
{
    let a = field_targets(cache, db, p.pre_depends) + field_targets(cache, db, p.depends);
    lemma_concat_contains(a, Seq::<Seq<char>>::empty(), x);
    lemma_concat_contains(a, field_targets(cache, db, p.recommends), x);
}

/// Following `Recommends` only adds to an install: every name reached with them off is
/// reached with them on.
pub proof fn law_recommends_only_add(cache: PackageCache, db: InstalledDb, req: Seq<Seq<char>>, absent: Seq<Seq<char>>, n: Seq<char>)
    requires
        reaches(req, install_next(cache, db, req, absent, true), n),
    ensures
        reaches(req, install_next(cache, db, req, absent, false), n),
{
    let off = install_next(cache, db, req, absent, true);
    let on = install_next(cache, db, req, absent, false);
    let p = choose|p: Seq<Seq<char>>| #[trigger] is_walk(req, off, p) && p.last() == n;
    assert forall|i: int| #![trigger on(p[i])] 0 <= i < p.len() - 1 implies on(p[i]).contains(p[i + 1]) by {
        assert(off(p[i]).contains(p[i + 1]));
        match follow(cache, db, req, absent, true, p[i]) {
            Some(f) => {
                lemma_field_targets_grow(cache, db, cache.lookup(p[i])->0, p[i + 1]);
            },
            None => {},
        }
    }
    assert(is_walk(req, on, p));
}

/// Autoremove never removes a package the user asked for.
pub proof fn law_autoremove_keeps_user_packages(db: InstalledDb, i: int)
    requires
        0 <= i < db.rows().len(),
        db.rows()[i].reason == InstallReason::User,
    ensures
        autoremove_keeps(db, db.rows()[i].name@),
{
    lemma_user_rows_hold(db.rows(), i);
    let k = choose|k: int| 0 <= k < user_rows(db.rows()).len() && user_rows(db.rows())[k] == db.rows()[i];
    assert(user_names(db)[k] == db.rows()[i].name@);
    lemma_reach_start(user_names(db), kept_edges(db), db.rows()[i].name@);
}

proof fn lemma_user_rows_hold(v: Seq<InstalledPackage>, i: int)
    requires
        0 <= i < v.len(),
        v[i].reason == InstallReason::User,
    ensures
        user_rows(v).contains(v[i]),
    decreases v.len(),
{
    if i < v.len() - 1 {
        lemma_user_rows_hold(v.drop_last(), i);
        assert(v.drop_last()[i] == v[i]);
        let k = choose|k: int| 0 <= k < user_rows(v.drop_last()).len() && user_rows(v.drop_last())[k] == v[i];
        if v.last().reason == InstallReason::User {
            assert(user_rows(v)[k] == v[i]);
        }
    } else {
        assert(user_rows(v).last() == v[i]);
    }
}

/// Autoremove keeps what a kept package depends on (its first installed alternative).
pub proof fn law_autoremove_keeps_dependencies(db: InstalledDb, n: Seq<char>, m: Seq<char>)
    requires
        autoremove_keeps(db, n),
        kept_by(db, n).contains(m),
    ensures
        autoremove_keeps(db, m),
{
    lemma_reach_step(user_names(db), kept_edges(db), n, m);
}

/// An upgrade plan only lists packages whose index version is newer than the installed one.
pub proof fn law_upgrades_are_newer(cache: PackageCache, rows: Seq<InstalledPackage>, i: int)
    requires
        cache.wf(),
        0 <= i < upgrades_of(cache, rows).len(),
    ensures
        upgrades_of(cache, rows)[i].1.name@ == upgrades_of(cache, rows)[i].0.name@,
        version_order(upgrades_of(cache, rows)[i].1.version@, upgrades_of(cache, rows)[i].0.version@) == 1,
    decreases rows.len(),
{
    let prev = upgrades_of(cache, rows.drop_last());
    if upgradable(cache, rows.last()) && i == prev.len() {
        cache.lemma_newest();
    } else {
        law_upgrades_are_newer(cache, rows.drop_last(), i);
    }
}

/// An install plans a dependency that is already installed for nothing: only what the
/// user named is installed again or upgraded.
pub proof fn law_install_leaves_installed_dependencies(cache: PackageCache, db: InstalledDb, req: Seq<Seq<char>>, absent: Seq<Seq<char>>, n: Seq<char>)
    requires
        !req.contains(n),
        db.lookup(n) is Some,
    ensures
        outcome(cache, db, req, absent, n) != Outcome::Install,
        outcome(cache, db, req, absent, n) != Outcome::Upgrade,
{
}

/// A package the user asks for by name is never reported as missing from the index once
/// planning succeeds.
pub proof fn law_requested_names_are_known(cache: PackageCache, req: Seq<Seq<char>>, i: int)
    requires
        first_unknown(cache, req) is None,
        0 <= i < req.len(),
    ensures
        cache.lookup(req[i]) is Some,
    decreases req.len(),
{
    if i < req.len() - 1 {
        assert(req.drop_last()[i] == req[i]);
        law_requested_names_are_known(cache, req.drop_last(), i);
    }
}

/// Planning with the SAT resolver: this build has none, so every request is refused.
pub fn resolve_with_sat(
    cache: &PackageCache,
    db: &InstalledDb,
    names: &[String],
    no_recommends: bool,
) -> (r: Result<TransactionPlan, SolveError>)
    ensures
        r matches Err(SolveError::SatUnavailable),
{
    Err(SolveError::SatUnavailable)
}


/// For the same names and the same packages whose files are gone, the plan made with
/// `Recommends` holds every package the plan made without them installs or upgrades.
pub proof fn law_recommends_only_add_to_plans(
    cache: PackageCache,
    db: InstalledDb,
    names: Seq<String>,
    absent: Seq<Seq<char>>,
    off: TransactionPlan,
    on: TransactionPlan,
)
    requires
        install_plan_ok(cache, db, names, true, absent, off),
        install_plan_ok(cache, db, names, false, absent, on),
    ensures
        forall|i: int| 0 <= i < off.to_install@.len() ==> on.to_install@.contains(#[trigger] off.to_install@[i]),
        forall|i: int| 0 <= i < off.to_upgrade@.len() ==> on.to_upgrade@.contains(#[trigger] off.to_upgrade@[i]),
{
    let req = requested(names);
    let next_off = install_next(cache, db, req, absent, true);
    let next_on = install_next(cache, db, req, absent, false);
    let keep_on_i = |n: Seq<char>| reaches(req, next_on, n) && outcome(cache, db, req, absent, n) == Outcome::Install;
    let keep_on_u = |n: Seq<char>| reaches(req, next_on, n) && outcome(cache, db, req, absent, n) == Outcome::Upgrade;
    assert forall|i: int| 0 <= i < off.to_install@.len() implies on.to_install@.contains(#[trigger] off.to_install@[i]) by {
        let p = off.to_install@[i];
        assert(cache.lookup(p.name@) == Some(p));
        assert(reaches(req, next_off, p.name@) && outcome(cache, db, req, absent, p.name@) == Outcome::Install);
        law_recommends_only_add(cache, db, req, absent, p.name@);
        assert(keep_on_i(p.name@));
        let j = choose|j: int| 0 <= j < on.to_install@.len() && on.to_install@[j].name@ == p.name@;
        assert(cache.lookup(on.to_install@[j].name@) == Some(on.to_install@[j]));
        assert(on.to_install@[j] == p);
    }
    assert forall|i: int| 0 <= i < off.to_upgrade@.len() implies on.to_upgrade@.contains(#[trigger] off.to_upgrade@[i]) by {
        let p = off.to_upgrade@[i];
        assert(cache.lookup(p.name@) == Some(p));
        assert(reaches(req, next_off, p.name@) && outcome(cache, db, req, absent, p.name@) == Outcome::Upgrade);
        law_recommends_only_add(cache, db, req, absent, p.name@);
        assert(keep_on_u(p.name@));
        let j = choose|j: int| 0 <= j < on.to_upgrade@.len() && on.to_upgrade@[j].name@ == p.name@;
        assert(cache.lookup(on.to_upgrade@[j].name@) == Some(on.to_upgrade@[j]));
        assert(on.to_upgrade@[j] == p);
    }
}


/// A package asked for that is installed, not older than the index's version, and whose
/// files are not gone is neither installed again nor upgraded: the plan touches an up to
/// date package only when its files are missing.
pub proof fn law_up_to_date_package_is_skipped(
    cache: PackageCache,
    db: InstalledDb,
    names: Seq<String>,
    no_rec: bool,
    absent: Seq<Seq<char>>,
    plan: TransactionPlan,
    n: Seq<char>,
)
    requires
        install_plan_ok(cache, db, names, no_rec, absent, plan),
        requested(names).contains(n),
        cache.lookup(n) is Some,
        db.lookup(n) is Some,
        version_order(cache.lookup(n)->0.version@, db.lookup(n)->0.version@) != 1,
        !absent.contains(n),
    ensures
        forall|k: int| 0 <= k < plan.to_install@.len() ==> (#[trigger] plan.to_install@[k]).name@ != n,
        forall|k: int| 0 <= k < plan.to_upgrade@.len() ==> (#[trigger] plan.to_upgrade@[k]).name@ != n,
{
    let req = requested(names);
    assert(outcome(cache, db, req, absent, n) == Outcome::Skip);
}

} // verus!
