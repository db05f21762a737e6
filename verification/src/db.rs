//! The record of installed packages and of past transactions, as plain values.
//! Keeping it on disk is the application's part.
use vstd::prelude::*;
use crate::package::{clone_opt, ov, Package};
use crate::text::{chars_eq, chars_of, join, join_strings, split_char, split_chars, string_of};
use crate::version::{lemma_lex_antisym, lemma_lex_lt_trans, lemma_lex_trans, order_lex, order_lex_chars};

verus! {

// ─────────────────────────────────────────────────────────────
//  InstallReason
// ─────────────────────────────────────────────────────────────

/// Why a package is installed.
#[derive(Debug, Clone, Copy, PartialEq, Eq, Structural)]
pub enum InstallReason {
    /// Explicitly requested by user
    User,
    /// Installed as a dependency
    Dependency,
}

impl InstallReason {
    /// The word stored for the reason: `user` or `dep`.
    pub fn as_str(&self) -> (r: &'static str)
        ensures
            r@ == match self {
                InstallReason::User => "user"@,
                InstallReason::Dependency => "dep"@,
            },
    {
        match self {
            InstallReason::User => "user",
            InstallReason::Dependency => "dep",
        }
    }

    /// The reason a stored word stands for: `dep` is a dependency, anything else the user.
    pub fn from_str(s: &str) -> (r: InstallReason)
        ensures
            r == if s@ == "dep"@ {
                InstallReason::Dependency
            } else {
                InstallReason::User
            },
    {
        let sc = chars_of(s);
        if crate::text::chars_eq_str(&sc, "dep") {
            InstallReason::Dependency
        } else {
            InstallReason::User
        }
    }
}

// ─────────────────────────────────────────────────────────────
//  Records
// ─────────────────────────────────────────────────────────────

/// One installed package.
#[derive(Debug)]
pub struct InstalledPackage {
    pub name: String,
    pub version: String,
    pub architecture: String,
    pub installed_size_kb: u64,
    pub section: Option<String>,
    pub maintainer: Option<String>,
    pub description_short: Option<String>,
    /// When it was installed, in RFC 3339
    pub installed_at: String,
    pub reason: InstallReason,
    /// Semicolon-separated list of installed files
    pub files: String,
    /// Depends string (for future autoremove)
    pub depends: Option<String>,
    pub recommends: Option<String>,
}

impl InstalledPackage {
    /// A copy of the record.
    pub fn duplicate(&self) -> (r: InstalledPackage)
        ensures
            r == *self,
    {
        InstalledPackage {
            name: self.name.clone(),
            version: self.version.clone(),
            architecture: self.architecture.clone(),
            installed_size_kb: self.installed_size_kb,
            section: clone_opt(&self.section),
            maintainer: clone_opt(&self.maintainer),
            description_short: clone_opt(&self.description_short),
            installed_at: self.installed_at.clone(),
            reason: self.reason,
            files: self.files.clone(),
            depends: clone_opt(&self.depends),
            recommends: clone_opt(&self.recommends),
        }
    }
}

/// One past package operation.
#[derive(Debug)]
pub struct HistoryEntry {
    pub id: i64,
    /// install | remove | upgrade
    pub action: String,
    pub package: String,
    pub old_ver: Option<String>,
    pub new_ver: Option<String>,
    /// When it happened, in RFC 3339
    pub timestamp: String,
}

impl HistoryEntry {
    /// A copy of the entry.
    pub fn duplicate(&self) -> (r: HistoryEntry)
        ensures
            r == *self,
    {
        HistoryEntry {
            id: self.id,
            action: self.action.clone(),
            package: self.package.clone(),
            old_ver: clone_opt(&self.old_ver),
            new_ver: clone_opt(&self.new_ver),
            timestamp: self.timestamp.clone(),
        }
    }
}

// ─────────────────────────────────────────────────────────────
//  Model
// ─────────────────────────────────────────────────────────────

/// The record named `n` in `v`.
pub open spec fn find_row(v: Seq<InstalledPackage>, n: Seq<char>) -> Option<InstalledPackage>
    decreases v.len(),
{
    if v.len() == 0 {
        None
    } else if v.last().name@ == n {
        Some(v.last())
    } else {
        find_row(v.drop_last(), n)
    }
}

/// The records of packages that the user asked for, in order.
pub open spec fn user_rows(v: Seq<InstalledPackage>) -> Seq<InstalledPackage>
    decreases v.len(),
{
    if v.len() == 0 {
        Seq::empty()
    } else if v.last().reason == InstallReason::User {
        user_rows(v.drop_last()).push(v.last())
    } else {
        user_rows(v.drop_last())
    }
}

/// Records strictly sorted by name.
pub open spec fn rows_sorted(v: Seq<InstalledPackage>) -> bool {
    forall|i: int, j: int| 0 <= i < j < v.len() ==> order_lex(v[i].name@, v[j].name@) < 0
}

pub proof fn lemma_find_row(v: Seq<InstalledPackage>, n: Seq<char>)
    requires
        rows_sorted(v),
    ensures
        match find_row(v, n) {
            Some(p) => exists|i: int| 0 <= i < v.len() && v[i] == p && p.name@ == n,
            None => forall|i: int| 0 <= i < v.len() ==> v[i].name@ != n,
        },
        forall|i: int| 0 <= i < v.len() && v[i].name@ == n ==> find_row(v, n) == Some(v[i]),
    decreases v.len(),
{
    if v.len() > 0 {
        assert(rows_sorted(v.drop_last()));
        lemma_find_row(v.drop_last(), n);
        assert forall|i: int| 0 <= i < v.len() && v[i].name@ == n implies find_row(v, n) == Some(v[i]) by {
            if i < v.len() - 1 {
                assert(v.drop_last()[i] == v[i]);
                lemma_lex_antisym(v[i].name@, v.last().name@);
            }
        }
        match find_row(v.drop_last(), n) {
            Some(p) => {
                if v.last().name@ != n {
                    let i = choose|i: int| 0 <= i < v.drop_last().len() && v.drop_last()[i] == p && p.name@ == n;
                    assert(v[i] == p);
                }
            },
            None => {
                assert forall|i: int| 0 <= i < v.len() - 1 implies v[i].name@ != n by {
                    assert(v.drop_last()[i] == v[i]);
                }
            },
        }
    }
}

/// The record of installed packages and of past transactions.
pub struct InstalledDb {
    rows: Vec<InstalledPackage>,
    log: Vec<HistoryEntry>,
}

impl InstalledDb {
    /// The installed packages, by name.
    pub closed spec fn rows(&self) -> Seq<InstalledPackage> {
        self.rows@
    }

    /// The past transactions, oldest first.
    pub closed spec fn entries(&self) -> Seq<HistoryEntry> {
        self.log@
    }

    /// The record of the package named `n`.
    pub open spec fn lookup(&self, n: Seq<char>) -> Option<InstalledPackage> {
        find_row(self.rows(), n)
    }

    /// Records are sorted by name, one per name, and history ids increase.
    pub closed spec fn wf(&self) -> bool {
        &&& rows_sorted(self.rows@)
        &&& forall|i: int, j: int| 0 <= i < j < self.log@.len() ==> self.log@[i].id < self.log@[j].id
    }

    pub proof fn lemma_rows(&self)
        requires
            self.wf(),
        ensures
            rows_sorted(self.rows()),
            forall|i: int| 0 <= i < self.rows().len() ==> self.lookup(#[trigger] self.rows()[i].name@) == Some(self.rows()[i]),
            forall|n: Seq<char>| #[trigger] self.lookup(n) is Some ==> self.lookup(n)->0.name@ == n
                && self.rows().contains(self.lookup(n)->0),
    {
        assert forall|n: Seq<char>| #[trigger] self.lookup(n) is Some implies self.lookup(n)->0.name@ == n
            && self.rows().contains(self.lookup(n)->0) by {
            lemma_find_row(self.rows@, n);
        }
        assert forall|i: int| 0 <= i < self.rows().len() implies self.lookup(#[trigger] self.rows()[i].name@) == Some(self.rows()[i]) by {
            lemma_find_row(self.rows@, self.rows@[i].name@);
        }
    }

    /// An empty record.
    pub fn new() -> (r: InstalledDb)
        ensures
            r.wf(),
            r.rows().len() == 0,
            r.entries().len() == 0,
    {
        InstalledDb { rows: Vec::new(), log: Vec::new() }
    }

    /// Stores a record, replacing the one of the same name (`INSERT OR REPLACE`).
    pub fn put(&mut self, row: InstalledPackage)
        requires
            old(self).wf(),
        ensures
            final(self).wf(),
            final(self).entries() == old(self).entries(),
            forall|n: Seq<char>| #[trigger] final(self).lookup(n) == if n == row.name@ {
                Some(row)
            } else {
                old(self).lookup(n)
            },
    {
        let ghost old_rows = self.rows@;
        let nc = chars_of(row.name.as_str());
        let mut k: usize = 0;
        while k < self.rows.len() && order_lex_chars(&chars_of(self.rows[k].name.as_str()), &nc) < 0
            invariant
                k <= self.rows@.len(),
                self.rows@ == old_rows,
                nc@ == row.name@,
                forall|j: int| 0 <= j < k ==> order_lex(old_rows[j].name@, row.name@) < 0,
            decreases self.rows@.len() - k,
        {
            k = k + 1;
        }
        let same = k < self.rows.len() && chars_eq(&chars_of(self.rows[k].name.as_str()), &nc);
        if same {
            self.rows.set(k, row);
        } else {
            self.rows.insert(k, row);
        }
        proof {
            lemma_find_row(old_rows, row.name@);
            let nr = self.rows@;
            // the rows after position k sort after the new name
            assert forall|j: int| k <= j < old_rows.len() implies order_lex(row.name@, old_rows[j].name@) >= 0
                || order_lex(row.name@, old_rows[j].name@) < 0 by {}
            if k < old_rows.len() {
                lemma_lex_antisym(old_rows[k as int].name@, row.name@);
            }
            assert(rows_sorted(old_rows));
            assert forall|j: int| k < j < old_rows.len() implies order_lex(row.name@, old_rows[j].name@) < 0 by {
                lemma_lex_antisym(old_rows[k as int].name@, row.name@);
                assert(order_lex(old_rows[k as int].name@, old_rows[j].name@) < 0);
                lemma_lex_lt_trans(row.name@, old_rows[k as int].name@, old_rows[j].name@);
            }
            assert(rows_sorted(nr)) by {
                assert forall|a: int, b: int| 0 <= a < b < nr.len() implies order_lex(nr[a].name@, nr[b].name@) < 0 by {
                    if same {
                        if a == k {
                            assert(nr[b] == old_rows[b]);
                        } else if b == k {
                            assert(nr[a] == old_rows[a]);
                        } else {
                            assert(nr[a] == old_rows[a] && nr[b] == old_rows[b]);
                        }
                    } else {
                        if a == k {
                            assert(nr[b] == old_rows[b - 1]);
                            lemma_lex_antisym(old_rows[k as int].name@, row.name@);
                        } else if b == k {
                            assert(nr[a] == old_rows[a]);
                        } else if a > k {
                            assert(nr[a] == old_rows[a - 1] && nr[b] == old_rows[b - 1]);
                        } else if b > k {
                            assert(nr[a] == old_rows[a] && nr[b] == old_rows[b - 1]);
                            lemma_lex_antisym(old_rows[k as int].name@, row.name@);
                            if b - 1 == k {
                                lemma_lex_lt_trans(nr[a].name@, row.name@, nr[b].name@);
                            } else {
                                lemma_lex_lt_trans(nr[a].name@, row.name@, nr[b].name@);
                            }
                        } else {
                            assert(nr[a] == old_rows[a] && nr[b] == old_rows[b]);
                        }
                    }
                }
            }
            let kk: int = k as int;
            assert(nr[kk] == row);
            lemma_find_row(nr, row.name@);
            assert forall|n: Seq<char>| n != row.name@ implies #[trigger] find_row(nr, n) == find_row(old_rows, n) by {
                lemma_find_row(old_rows, n);
                lemma_find_row(nr, n);
                match find_row(old_rows, n) {
                    Some(p) => {
                        let a = choose|a: int| 0 <= a < old_rows.len() && old_rows[a] == p && p.name@ == n;
                        if same {
                            assert(nr[a] == old_rows[a]);
                        } else if a < k {
                            assert(nr[a] == old_rows[a]);
                        } else {
                            assert(nr[a + 1] == old_rows[a]);
                        }
                    },
                    None => {
                        match find_row(nr, n) {
                            Some(p) => {
                                let a = choose|a: int| 0 <= a < nr.len() && nr[a] == p && p.name@ == n;
                                if same {
                                    assert(nr[a] == old_rows[a]);
                                } else if a < k {
                                    assert(nr[a] == old_rows[a]);
                                } else if a > k {
                                    assert(nr[a] == old_rows[a - 1]);
                                }
                            },
                            None => {},
                        }
                    },
                }
            }
        }
    }

    /// Removes the record named `name`, if any.
    pub fn delete(&mut self, name: &str)
        requires
            old(self).wf(),
        ensures
            final(self).wf(),
            final(self).entries() == old(self).entries(),
            forall|n: Seq<char>| #[trigger] final(self).lookup(n) == if n == name@ {
                None
            } else {
                old(self).lookup(n)
            },
    {
        let ghost old_rows = self.rows@;
        let nc = chars_of(name);
        let mut k: usize = 0;
        while k < self.rows.len()
            invariant
                k <= self.rows@.len(),
                self.rows@ == old_rows,
                self.log@ == old(self).log@,
                old(self).rows@ == old_rows,
                old(self).wf(),
                nc@ == name@,
                forall|j: int| 0 <= j < k ==> old_rows[j].name@ != name@,
            decreases self.rows@.len() - k,
        {
            if chars_eq(&chars_of(self.rows[k].name.as_str()), &nc) {
                let _ = self.rows.remove(k);
                proof {
                    let nr = self.rows@;
                    assert(nr == old_rows.remove(k as int));
                    assert(rows_sorted(nr)) by {
                        assert forall|a: int, b: int| 0 <= a < b < nr.len() implies order_lex(nr[a].name@, nr[b].name@) < 0 by {
                            if a >= k {
                                assert(nr[a] == old_rows[a + 1] && nr[b] == old_rows[b + 1]);
                            } else if b >= k {
                                assert(nr[a] == old_rows[a] && nr[b] == old_rows[b + 1]);
                            } else {
                                assert(nr[a] == old_rows[a] && nr[b] == old_rows[b]);
                            }
                        }
                    }
                    lemma_find_row(old_rows, name@);
                    lemma_find_row(nr, name@);
                    assert forall|j: int| 0 <= j < nr.len() implies nr[j].name@ != name@ by {
                        if j < k {
                            assert(nr[j] == old_rows[j]);
                        } else {
                            assert(nr[j] == old_rows[j + 1]);
                            lemma_lex_antisym(old_rows[k as int].name@, old_rows[j + 1].name@);
                        }
                    }
                    assert forall|n: Seq<char>| n != name@ implies #[trigger] find_row(nr, n) == find_row(old_rows, n) by {
                        lemma_find_row(old_rows, n);
                        lemma_find_row(nr, n);
                        match find_row(old_rows, n) {
                            Some(p) => {
                                let a = choose|a: int| 0 <= a < old_rows.len() && old_rows[a] == p && p.name@ == n;
                                if a < k {
                                    assert(nr[a] == old_rows[a]);
                                } else {
                                    assert(a != k);
                                    assert(nr[a - 1] == old_rows[a]);
                                }
                            },
                            None => {
                                match find_row(nr, n) {
                                    Some(p) => {
                                        let a = choose|a: int| 0 <= a < nr.len() && nr[a] == p && p.name@ == n;
                                        if a < k {
                                            assert(nr[a] == old_rows[a]);
                                        } else {
                                            assert(nr[a] == old_rows[a + 1]);
                                        }
                                    },
                                    None => {},
                                }
                            },
                        }
                    }
                }
                return;
            }
            k = k + 1;
        }
        proof {
            lemma_find_row(old_rows, name@);
        }
    }

    /// Appends a history entry, numbered one past the last (or 1 in an empty history).
    fn append_history(&mut self, action: &str, package: &String, old_ver: Option<String>, new_ver: Option<String>, now: &str)
        requires
            old(self).wf(),
            old(self).entries().len() == 0 || old(self).entries().last().id < i64::MAX,
        ensures
            final(self).wf(),
            final(self).rows() == old(self).rows(),
            final(self).entries().len() == old(self).entries().len() + 1,
            final(self).entries().drop_last() == old(self).entries(),
            ({
                let e = final(self).entries().last();
                &&& e.id == (if old(self).entries().len() == 0 { 1 } else { old(self).entries().last().id + 1 })
                &&& e.action@ == action@
                &&& e.package@ == package@
                &&& ov(e.old_ver) == ov(old_ver)
                &&& ov(e.new_ver) == ov(new_ver)
                &&& e.timestamp@ == now@
            }),
    {
        let id: i64 = if self.log.len() == 0 { 1 } else { self.log[self.log.len() - 1].id + 1 };
        let e = HistoryEntry {
            id,
            action: String::from_str(action),
            package: package.clone(),
            old_ver,
            new_ver,
            timestamp: String::from_str(now),
        };
        let ghost old_log = self.log@;
        self.log.push(e);
        assert(self.log@.drop_last() == old_log);
    }

    /// Adds a history entry read back from storage, as long as its id is past the last
    /// one; says whether it was added.
    pub fn restore_entry(&mut self, e: HistoryEntry) -> (r: bool)
        requires
            old(self).wf(),
        ensures
            final(self).wf(),
            final(self).rows() == old(self).rows(),
            r == (old(self).entries().len() == 0 || old(self).entries().last().id < e.id),
            r ==> final(self).entries() == old(self).entries().push(e),
            !r ==> final(self).entries() == old(self).entries(),
    {
        if self.log.len() == 0 || self.log[self.log.len() - 1].id < e.id {
            let ghost old_log = self.log@;
            self.log.push(e);
            assert forall|i: int, j: int| 0 <= i < j < self.log@.len() implies self.log@[i].id < self.log@[j].id by {
                if j == self.log@.len() - 1 && i < j {
                    if old_log.len() > 0 && i < old_log.len() - 1 {
                        assert(old_log[i].id < old_log[old_log.len() - 1].id);
                    }
                }
            }
            true
        } else {
            false
        }
    }

    /// Whether a package of that name is installed.
    pub fn is_installed(&self, name: &str) -> (r: bool)
        requires
            self.wf(),
        ensures
            r == self.lookup(name@) is Some,
    {
        self.find(name).is_some()
    }

    /// The record of the package named `name`.
    pub fn find(&self, name: &str) -> (r: Option<&InstalledPackage>)
        requires
            self.wf(),
        ensures
            match r {
                Some(p) => self.lookup(name@) == Some(*p),
                None => self.lookup(name@) is None,
            },
    {
        proof {
            lemma_find_row(self.rows@, name@);
        }
        let nc = chars_of(name);
        let mut i: usize = 0;
        while i < self.rows.len()
            invariant
                i <= self.rows@.len(),
                nc@ == name@,
                self.wf(),
                forall|j: int| 0 <= j < i ==> self.rows@[j].name@ != name@,
            decreases self.rows@.len() - i,
        {
            if chars_eq(&chars_of(self.rows[i].name.as_str()), &nc) {
                proof {
                    lemma_find_row(self.rows@, name@);
                }
                return Some(&self.rows[i]);
            }
            i = i + 1;
        }
        None
    }

    /// A copy of the record of the package named `name`.
    pub fn get(&self, name: &str) -> (r: Option<InstalledPackage>)
        requires
            self.wf(),
        ensures
            r == self.lookup(name@),
    {
        match self.find(name) {
            Some(p) => Some(p.duplicate()),
            None => None,
        }
    }

    /// All installed packages, by name.
    pub fn list_all(&self) -> (r: Vec<InstalledPackage>)
        ensures
            r@ == self.rows(),
    {
        let mut out: Vec<InstalledPackage> = Vec::new();
        let mut i: usize = 0;
        while i < self.rows.len()
            invariant
                i <= self.rows@.len(),
                out@ == self.rows@.take(i as int),
            decreases self.rows@.len() - i,
        {
            out.push(self.rows[i].duplicate());
            assert(self.rows@.take(i + 1) == self.rows@.take(i as int).push(self.rows@[i as int]));
            i = i + 1;
        }
        assert(self.rows@.take(self.rows@.len() as int) == self.rows@);
        out
    }

    /// The packages the user asked for, by name.
    pub fn list_user_installed(&self) -> (r: Vec<InstalledPackage>)
        ensures
            r@ == user_rows(self.rows()),
    {
        let mut out: Vec<InstalledPackage> = Vec::new();
        let mut i: usize = 0;
        while i < self.rows.len()
            invariant
                i <= self.rows@.len(),
                out@ == user_rows(self.rows@.take(i as int)),
            decreases self.rows@.len() - i,
        {
            proof {
                assert(self.rows@.take(i + 1).drop_last() == self.rows@.take(i as int));
                assert(self.rows@.take(i + 1).last() == self.rows@[i as int]);
            }
            if self.rows[i].reason == InstallReason::User {
                out.push(self.rows[i].duplicate());
            }
            i = i + 1;
        }
        assert(self.rows@.take(self.rows@.len() as int) == self.rows@);
        out
    }

    /// The id of the newest history entry, or 0 when there is none.
    pub fn last_history_id(&self) -> (r: i64)
        ensures
            r == if self.entries().len() == 0 { 0 } else { self.entries().last().id },
    {
        if self.log.len() == 0 {
            0
        } else {
            self.log[self.log.len() - 1].id
        }
    }

    /// How many packages are installed.
    pub fn count(&self) -> (r: usize)
        ensures
            r == self.rows().len(),
    {
        self.rows.len()
    }

    /// The last `limit` history entries, newest first.
    pub fn history(&self, limit: usize) -> (r: Vec<HistoryEntry>)
        ensures
            r@.len() == if limit < self.entries().len() { limit as int } else { self.entries().len() as int },
            forall|i: int| 0 <= i < r@.len() ==> #[trigger] r@[i] == self.entries()[self.entries().len() - 1 - i],
    {
        let mut out: Vec<HistoryEntry> = Vec::new();
        let n = self.log.len();
        let mut i: usize = 0;
        while i < limit && i < n
            invariant
                n == self.log@.len(),
                i <= n,
                i <= limit,
                out@.len() == i,
                forall|k: int| 0 <= k < i ==> #[trigger] out@[k] == self.log@[n - 1 - k],
            decreases n - i,
        {
            out.push(self.log[n - 1 - i].duplicate());
            i = i + 1;
        }
        out
    }

    /// The history entry with that id.
    pub fn get_history_entry(&self, id: i64) -> (r: Option<HistoryEntry>)
        requires
            self.wf(),
        ensures
            match r {
                Some(e) => e.id == id && self.entries().contains(e),
                None => forall|i: int| 0 <= i < self.entries().len() ==> self.entries()[i].id != id,
            },
    {
        let mut i: usize = 0;
        while i < self.log.len()
            invariant
                i <= self.log@.len(),
                forall|j: int| 0 <= j < i ==> self.log@[j].id != id,
            decreases self.log@.len() - i,
        {
            if self.log[i].id == id {
                return Some(self.log[i].duplicate());
            }
            i = i + 1;
        }
        None
    }

    /// Records an installation: the package's record, with its files joined by `;` and
    /// the given time, replaces any of the same name, and an `install` entry is logged.
    pub fn record_install(&mut self, pkg: &Package, reason: InstallReason, files: &[String], now: &str)
        requires
            old(self).wf(),
            old(self).entries().len() == 0 || old(self).entries().last().id < i64::MAX,
        ensures
            final(self).wf(),
            forall|n: Seq<char>| n != pkg.name@ ==> #[trigger] final(self).lookup(n) == old(self).lookup(n),
            final(self).lookup(pkg.name@) matches Some(row) && installed_row(row, *pkg, reason, files@, now@),
            final(self).entries().drop_last() == old(self).entries(),
            history_tail(final(self).entries(), old(self).entries(), "install"@, pkg.name@, None, Some(pkg.version@), now@),
    {
        let row = row_for(pkg, reason, files, now);
        self.put(row);
        let ghost mid = *self;
        self.append_history("install", &pkg.name, None, Some(pkg.version.clone()), now);
        assert forall|n: Seq<char>| #[trigger] self.lookup(n) == mid.lookup(n) by {
            assert(self.rows() == mid.rows());
        }
    }

    /// Records an upgrade: like an installation, but the reason stays what it was
    /// (`User` where there was no record), and an `upgrade` entry is logged.
    pub fn record_upgrade(&mut self, old_ver: &str, pkg: &Package, files: &[String], now: &str)
        requires
            old(self).wf(),
            old(self).entries().len() == 0 || old(self).entries().last().id < i64::MAX,
        ensures
            final(self).wf(),
            forall|n: Seq<char>| n != pkg.name@ ==> #[trigger] final(self).lookup(n) == old(self).lookup(n),
            final(self).lookup(pkg.name@) matches Some(row) && installed_row(row, *pkg, match old(self).lookup(pkg.name@) {
                Some(prev) => prev.reason,
                None => InstallReason::User,
            }, files@, now@),
            final(self).entries().drop_last() == old(self).entries(),
            history_tail(final(self).entries(), old(self).entries(), "upgrade"@, pkg.name@, Some(old_ver@), Some(pkg.version@), now@),
    {
        let reason = match self.find(pkg.name.as_str()) {
            Some(prev) => prev.reason,
            None => InstallReason::User,
        };
        let row = row_for(pkg, reason, files, now);
        self.put(row);
        let ghost mid = *self;
        self.append_history("upgrade", &pkg.name, Some(String::from_str(old_ver)), Some(pkg.version.clone()), now);
        assert forall|n: Seq<char>| #[trigger] self.lookup(n) == mid.lookup(n) by {
            assert(self.rows() == mid.rows());
        }
    }

    /// Records a removal: the record goes, and a `remove` entry is logged.
    pub fn record_remove(&mut self, name: &str, version: &str, now: &str)
        requires
            old(self).wf(),
            old(self).entries().len() == 0 || old(self).entries().last().id < i64::MAX,
        ensures
            final(self).wf(),
            forall|n: Seq<char>| #[trigger] final(self).lookup(n) == if n == name@ {
                None
            } else {
                old(self).lookup(n)
            },
            final(self).entries().drop_last() == old(self).entries(),
            history_tail(final(self).entries(), old(self).entries(), "remove"@, name@, Some(version@), None, now@),
    {
        self.delete(name);
        let n = String::from_str(name);
        let ghost mid = *self;
        self.append_history("remove", &n, Some(String::from_str(version)), None, now);
        assert forall|n: Seq<char>| #[trigger] self.lookup(n) == mid.lookup(n) by {
            assert(self.rows() == mid.rows());
        }
    }

    /// The files recorded for a package: its file list split at `;`, empty pieces left out.
    pub fn files_of(&self, name: &str) -> (r: Vec<String>)
        requires
            self.wf(),
        ensures
            r@.map_values(|f: String| f@) == match self.lookup(name@) {
                Some(p) => nonempty(split_char(p.files@, ';')),
                None => Seq::empty(),
            },
    {
        match self.find(name) {
            Some(p) => split_files(&p.files),
            None => Vec::new(),
        }
    }
}

/// The pieces that are not empty, in order.
pub open spec fn nonempty(parts: Seq<Seq<char>>) -> Seq<Seq<char>>
    decreases parts.len(),
{
    if parts.len() == 0 {
        Seq::empty()
    } else if parts.last().len() == 0 {
        nonempty(parts.drop_last())
    } else {
        nonempty(parts.drop_last()).push(parts.last())
    }
}

/// A `;`-separated file list, empty pieces left out.
pub fn split_files(files: &String) -> (r: Vec<String>)
    ensures
        r@.map_values(|f: String| f@) == nonempty(split_char(files@, ';')),
{
    let fc = chars_of(files.as_str());
    let parts = split_chars(&fc, ';');
    let ghost pv = split_char(files@, ';');
    let mut out: Vec<String> = Vec::new();
    let mut i: usize = 0;
    while i < parts.len()
        invariant
            i <= parts@.len(),
            pv.len() == parts@.len(),
            forall|k: int| 0 <= k < parts@.len() ==> (#[trigger] parts@[k])@ == pv[k],
            out@.map_values(|f: String| f@) == nonempty(pv.take(i as int)),
        decreases parts@.len() - i,
    {
        assert(pv.take(i + 1).drop_last() == pv.take(i as int));
        assert(pv.take(i + 1).last() == parts@[i as int]@);
        if parts[i].len() > 0 {
            let ghost before = out@.map_values(|f: String| f@);
            out.push(string_of(&parts[i]));
            assert(out@.map_values(|f: String| f@) == before.push(parts@[i as int]@));
        }
        i = i + 1;
    }
    assert(pv.take(parts@.len() as int) == pv);
    out
}

/// The record stored for an installed package.
pub open spec fn installed_row(row: InstalledPackage, pkg: Package, reason: InstallReason, files: Seq<String>, now: Seq<char>) -> bool {
    &&& row.name@ == pkg.name@
    &&& row.version@ == pkg.version@
    &&& row.architecture@ == pkg.architecture@
    &&& row.installed_size_kb == match pkg.installed_size_kb {
        Some(k) => k,
        None => 0,
    }
    &&& ov(row.section) == ov(pkg.section)
    &&& ov(row.maintainer) == ov(pkg.maintainer)
    &&& ov(row.description_short) == ov(pkg.description_short)
    &&& row.installed_at@ == now
    &&& row.reason == reason
    &&& row.files@ == join(files.map_values(|f: String| f@), seq![';'])
    &&& ov(row.depends) == ov(pkg.depends)
    &&& ov(row.recommends) == ov(pkg.recommends)
}

/// The log grew by one entry after `before`, with the next id and the given contents.
pub open spec fn history_tail(
    after: Seq<HistoryEntry>,
    before: Seq<HistoryEntry>,
    action: Seq<char>,
    package: Seq<char>,
    old_ver: Option<Seq<char>>,
    new_ver: Option<Seq<char>>,
    now: Seq<char>,
) -> bool {
    &&& after.len() == before.len() + 1
    &&& after.last().id == (if before.len() == 0 { 1 } else { before.last().id + 1 })
    &&& after.last().action@ == action
    &&& after.last().package@ == package
    &&& ov(after.last().old_ver) == old_ver
    &&& ov(after.last().new_ver) == new_ver
    &&& after.last().timestamp@ == now
}

fn row_for(pkg: &Package, reason: InstallReason, files: &[String], now: &str) -> (r: InstalledPackage)
    ensures
        installed_row(r, *pkg, reason, files@, now@),
{
    proof {
        reveal_strlit(";");
        assert(";"@ =~= seq![';']);
    }
    InstalledPackage {
        name: pkg.name.clone(),
        version: pkg.version.clone(),
        architecture: pkg.architecture.clone(),
        installed_size_kb: match pkg.installed_size_kb {
            Some(k) => k,
            None => 0,
        },
        section: clone_opt(&pkg.section),
        maintainer: clone_opt(&pkg.maintainer),
        description_short: clone_opt(&pkg.description_short),
        installed_at: String::from_str(now),
        reason,
        files: join_strings(files, ";"),
        depends: clone_opt(&pkg.depends),
        recommends: clone_opt(&pkg.recommends),
    }
}

} // verus!
