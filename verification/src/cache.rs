//! The package cache: the newest version of each package by name, and every
//! version by name, architecture and version.
use vstd::prelude::*;
use crate::package::{Package, ov};
use crate::text::{
    chars_eq, chars_of, contains_chars, contains_sub, extend_chars, extend_str, lines, lines_of,
    lowercase, lowercase_chars, push_char, slice_chars, starts_with, starts_with_chars,
    starts_with_str, string_of, trim, trim_chars,
};
use crate::version::{lemma_lex_antisym, lemma_lex_trans, order_lex, version_order, version_sign};
use crate::version::order_lex_chars;

verus! {

// ─────────────────────────────────────────────────────────────
//  Model
// ─────────────────────────────────────────────────────────────

/// The last package named `n` in `v`.
pub open spec fn find_pkg(v: Seq<Package>, n: Seq<char>) -> Option<Package>
    decreases v.len(),
{
    if v.len() == 0 {
        None
    } else if v.last().name@ == n {
        Some(v.last())
    } else {
        find_pkg(v.drop_last(), n)
    }
}

/// The last entry of `v` under key `k`.
pub open spec fn find_keyed(v: Seq<(String, Package)>, k: Seq<char>) -> Option<Package>
    decreases v.len(),
{
    if v.len() == 0 {
        None
    } else if v.last().0@ == k {
        Some(v.last().1)
    } else {
        find_keyed(v.drop_last(), k)
    }
}

/// The key under which every version of a package is kept: `name:arch:version`.
pub open spec fn exact_key(name: Seq<char>, arch: Seq<char>, version: Seq<char>) -> Seq<char> {
    name + seq![':'] + arch + seq![':'] + version
}

/// What the by-name table holds for `n` after `p` is added to a table `m`: `p`, unless the
/// package already there under that name has a newer version.
pub open spec fn ingest_lookup(m: Option<Package>, p: Package) -> Option<Package> {
    match m {
        Some(ex) => if version_order(ex.version@, p.version@) == 1 {
            Some(ex)
        } else {
            Some(p)
        },
        None => Some(p),
    }
}

/// What the by-name table holds for `n` after adding the packages in order to a table
/// that held `start` for it.
pub open spec fn lookup_after(start: Option<Package>, pkgs: Seq<Package>, n: Seq<char>) -> Option<Package>
    decreases pkgs.len(),
{
    if pkgs.len() == 0 {
        start
    } else {
        let prev = lookup_after(start, pkgs.drop_last(), n);
        if pkgs.last().name@ == n {
            ingest_lookup(prev, pkgs.last())
        } else {
            prev
        }
    }
}

/// The by-name table after adding the packages in order, starting from an empty cache.
pub open spec fn newest_of(pkgs: Seq<Package>, n: Seq<char>) -> Option<Package> {
    lookup_after(None, pkgs, n)
}

pub open spec fn names_unique(v: Seq<Package>) -> bool {
    forall|i: int, j: int| 0 <= i < j < v.len() ==> v[i].name@ != v[j].name@
}

pub open spec fn keys_unique(v: Seq<(String, Package)>) -> bool {
    forall|i: int, j: int| 0 <= i < j < v.len() ==> v[i].0@ != v[j].0@
}

proof fn lemma_find_pkg(v: Seq<Package>, n: Seq<char>)
    requires
        names_unique(v),
    ensures
        match find_pkg(v, n) {
            Some(p) => exists|i: int| 0 <= i < v.len() && v[i] == p && p.name@ == n,
            None => forall|i: int| 0 <= i < v.len() ==> v[i].name@ != n,
        },
        forall|i: int| 0 <= i < v.len() && v[i].name@ == n ==> find_pkg(v, n) == Some(v[i]),
    decreases v.len(),
{
    if v.len() > 0 {
        lemma_find_pkg(v.drop_last(), n);
        assert forall|i: int| 0 <= i < v.len() && v[i].name@ == n implies find_pkg(v, n) == Some(v[i]) by {
            if i < v.len() - 1 {
                assert(v.drop_last()[i] == v[i]);
            }
        }
        match find_pkg(v.drop_last(), n) {
            Some(p) => {
                if v.last().name@ != n {
                    let i = choose|i: int| 0 <= i < v.drop_last().len() && v.drop_last()[i] == p && p.name@ == n;
                    assert(v[i] == p);
                }
            },
            None => {
                assert forall|i: int| 0 <= i < v.len() - 1 implies v[i].name@ != n by {
                    assert(v.drop_last()[i] == v[i]);
                }
            },
        }
    }
}

proof fn lemma_find_keyed(v: Seq<(String, Package)>, k: Seq<char>)
    requires
        keys_unique(v),
    ensures
        match find_keyed(v, k) {
            Some(p) => exists|i: int| 0 <= i < v.len() && v[i].1 == p && v[i].0@ == k,
            None => forall|i: int| 0 <= i < v.len() ==> v[i].0@ != k,
        },
        forall|i: int| 0 <= i < v.len() && v[i].0@ == k ==> find_keyed(v, k) == Some(v[i].1),
    decreases v.len(),
{
    if v.len() > 0 {
        lemma_find_keyed(v.drop_last(), k);
        assert forall|i: int| 0 <= i < v.len() && v[i].0@ == k implies find_keyed(v, k) == Some(v[i].1) by {
            if i < v.len() - 1 {
                assert(v.drop_last()[i] == v[i]);
            }
        }
        match find_keyed(v.drop_last(), k) {
            Some(p) => {
                if v.last().0@ != k {
                    let i = choose|i: int| 0 <= i < v.drop_last().len() && v.drop_last()[i].1 == p && v.drop_last()[i].0@ == k;
                    assert(v[i] == v.drop_last()[i]);
                }
            },
            None => {
                assert forall|i: int| 0 <= i < v.len() - 1 implies v[i].0@ != k by {
                    assert(v.drop_last()[i] == v[i]);
                }
            },
        }
    }
}

/// Position of the entry under key `k`.
fn key_index(v: &Vec<(String, Package)>, k: &Vec<char>) -> (r: Option<usize>)
    ensures
        match r {
            Some(i) => i < v@.len() && v@[i as int].0@ == k@,
            None => forall|j: int| 0 <= j < v@.len() ==> v@[j].0@ != k@,
        },
{
    let mut i: usize = 0;
    while i < v.len()
        invariant
            i <= v.len(),
            forall|j: int| 0 <= j < i ==> v@[j].0@ != k@,
        decreases v.len() - i,
    {
        let kc = chars_of(v[i].0.as_str());
        if chars_eq(&kc, k) {
            return Some(i);
        }
        i = i + 1;
    }
    None
}

/// Position of the package named `n`.
fn name_index(v: &Vec<Package>, n: &Vec<char>) -> (r: Option<usize>)
    ensures
        match r {
            Some(i) => i < v@.len() && v@[i as int].name@ == n@,
            None => forall|j: int| 0 <= j < v@.len() ==> v@[j].name@ != n@,
        },
{
    let mut i: usize = 0;
    while i < v.len()
        invariant
            i <= v.len(),
            forall|j: int| 0 <= j < i ==> v@[j].name@ != n@,
        decreases v.len() - i,
    {
        let nc = chars_of(v[i].name.as_str());
        if chars_eq(&nc, n) {
            return Some(i);
        }
        i = i + 1;
    }
    None
}

// ─────────────────────────────────────────────────────────────
//  PackageCache
// ─────────────────────────────────────────────────────────────

/// All known packages: for each name the newest version seen, and every version under
/// `name:arch:version`.
pub struct PackageCache {
    by_name: Vec<Package>,
    all: Vec<(String, Package)>,
}

impl PackageCache {
    /// The package that `get` gives for a name.
    pub closed spec fn lookup(&self, n: Seq<char>) -> Option<Package> {
        find_pkg(self.by_name@, n)
    }

    /// The package that `get_exact` gives for a `name:arch:version` key.
    pub closed spec fn lookup_exact(&self, k: Seq<char>) -> Option<Package> {
        find_keyed(self.all@, k)
    }

    /// The packages by name, one per name.
    pub closed spec fn newest(&self) -> Seq<Package> {
        self.by_name@
    }

    /// The by-name table holds one package per name and the exact table one per key.
    pub closed spec fn wf(&self) -> bool {
        &&& names_unique(self.by_name@)
        &&& keys_unique(self.all@)
    }

    /// The cache's by-name table holds one package per name, and `lookup` finds it.
    pub proof fn lemma_newest(&self)
        requires
            self.wf(),
        ensures
            names_unique(self.newest()),
            forall|i: int| 0 <= i < self.newest().len() ==> self.lookup(#[trigger] self.newest()[i].name@) == Some(self.newest()[i]),
            forall|n: Seq<char>| #[trigger] self.lookup(n) is Some ==> self.lookup(n)->0.name@ == n
                && self.newest().contains(self.lookup(n)->0),
    {
        assert forall|n: Seq<char>| #[trigger] self.lookup(n) is Some implies self.lookup(n)->0.name@ == n
            && self.newest().contains(self.lookup(n)->0) by {
            lemma_find_pkg(self.by_name@, n);
        }
        assert forall|i: int| 0 <= i < self.newest().len() implies self.lookup(#[trigger] self.newest()[i].name@) == Some(self.newest()[i]) by {
            lemma_find_pkg(self.by_name@, self.by_name@[i].name@);
        }
    }

    /// An empty cache.
    pub fn empty() -> (r: PackageCache)
        ensures
            r.wf(),
            forall|n: Seq<char>| r.lookup(n) is None,
            forall|k: Seq<char>| r.lookup_exact(k) is None,
            r.newest().len() == 0,
    {
        PackageCache { by_name: Vec::new(), all: Vec::new() }
    }

    /// Adds a package: it is kept under its exact key, and by name unless the package
    /// already there by that name has a newer version.
    pub fn ingest(&mut self, pkg: Package)
        requires
            old(self).wf(),
        ensures
            final(self).wf(),
            forall|n: Seq<char>| #[trigger] final(self).lookup(n) == if n == pkg.name@ {
                ingest_lookup(old(self).lookup(n), pkg)
            } else {
                old(self).lookup(n)
            },
            forall|k: Seq<char>| #[trigger] final(self).lookup_exact(k) == if k == exact_key(pkg.name@, pkg.architecture@, pkg.version@) {
                Some(pkg)
            } else {
                old(self).lookup_exact(k)
            },
            final(self).newest().len() == old(self).newest().len() + if old(self).lookup(pkg.name@) is None { 1int } else { 0int },
    {
        let ghost old_by_name = self.by_name@;
        let ghost old_all = self.all@;
        // exact key
        let mut key: Vec<char> = chars_of(pkg.name.as_str());
        key.push(':');
        extend_str(&mut key, pkg.architecture.as_str());
        key.push(':');
        extend_str(&mut key, pkg.version.as_str());
        assert(key@ == exact_key(pkg.name@, pkg.architecture@, pkg.version@));
        let key_s = string_of(&key);
        let mut all: Vec<(String, Package)> = Vec::new();
        std::mem::swap(&mut all, &mut self.all);
        assert(all@ == old_all);
        let found = key_index(&all, &key);
        let copy = pkg.duplicate();
        match found {
            Some(j) => {
                all.set(j, (key_s, copy));
            },
            None => {
                all.push((key_s, copy));
            },
        }
        proof {
            lemma_find_keyed(old_all, key@);
            lemma_find_keyed(all@, key@);
            assert(keys_unique(all@)) by {
                assert forall|a: int, b: int| 0 <= a < b < all@.len() implies all@[a].0@ != all@[b].0@ by {
                    if found is None {
                        if b == all@.len() - 1 {
                            assert(old_all[a].0@ != key@);
                        } else {
                            assert(all@[a] == old_all[a] && all@[b] == old_all[b]);
                        }
                    } else {
                        let j = found->0 as int;
                        if a == j {
                            assert(old_all[j].0@ == key@);
                            assert(all@[b] == old_all[b]);
                        } else if b == j {
                            assert(old_all[j].0@ == key@);
                            assert(all@[a] == old_all[a]);
                        } else {
                            assert(all@[a] == old_all[a] && all@[b] == old_all[b]);
                        }
                    }
                }
            }
            assert forall|k: Seq<char>| k != key@ implies #[trigger] find_keyed(all@, k) == find_keyed(old_all, k) by {
                lemma_find_keyed(old_all, k);
                lemma_find_keyed(all@, k);
                match find_keyed(old_all, k) {
                    Some(p) => {
                        let a = choose|a: int| 0 <= a < old_all.len() && old_all[a].1 == p && old_all[a].0@ == k;
                        assert(all@[a] == old_all[a]);
                    },
                    None => {
                        match find_keyed(all@, k) {
                            Some(p) => {
                                let a = choose|a: int| 0 <= a < all@.len() && all@[a].1 == p && all@[a].0@ == k;
                                if a < old_all.len() {
                                    assert(all@[a] == old_all[a]);
                                }
                            },
                            None => {},
                        }
                    },
                }
            }
            assert(all@[if found is Some { found->0 as int } else { all@.len() - 1 }].0@ == key@);
        }
        self.all = all;
        // by name
        let mut by_name: Vec<Package> = Vec::new();
        std::mem::swap(&mut by_name, &mut self.by_name);
        assert(by_name@ == old_by_name);
        let name_c = chars_of(pkg.name.as_str());
        let at = name_index(&by_name, &name_c);
        proof {
            lemma_find_pkg(old_by_name, pkg.name@);
        }
        match at {
            Some(j) => {
                let newer = version_sign(by_name[j].version.as_str(), pkg.version.as_str()) == 1;
                if !newer {
                    by_name.set(j, pkg);
                }
            },
            None => {
                by_name.push(pkg);
            },
        }
        proof {
            let idx: int = if at is Some { at->0 as int } else { by_name@.len() - 1 };
            assert(by_name@[idx].name@ == pkg.name@);
            assert(names_unique(by_name@)) by {
                assert forall|a: int, b: int| 0 <= a < b < by_name@.len() implies by_name@[a].name@ != by_name@[b].name@ by {
                    if a != idx && b != idx {
                        assert(by_name@[a] == old_by_name[a] && by_name@[b] == old_by_name[b]);
                    } else if a == idx {
                        assert(by_name@[b] == old_by_name[b]);
                        if at is Some {
                            assert(old_by_name[idx].name@ == pkg.name@);
                        }
                    } else {
                        assert(by_name@[a] == old_by_name[a]);
                        if at is Some {
                            assert(old_by_name[idx].name@ == pkg.name@);
                        }
                    }
                }
            }
            lemma_find_pkg(by_name@, pkg.name@);
            assert forall|n: Seq<char>| n != pkg.name@ implies #[trigger] find_pkg(by_name@, n) == find_pkg(old_by_name, n) by {
                lemma_find_pkg(old_by_name, n);
                lemma_find_pkg(by_name@, n);
                match find_pkg(old_by_name, n) {
                    Some(p) => {
                        let a = choose|a: int| 0 <= a < old_by_name.len() && old_by_name[a] == p && p.name@ == n;
                        assert(by_name@[a] == old_by_name[a]);
                    },
                    None => {
                        match find_pkg(by_name@, n) {
                            Some(p) => {
                                let a = choose|a: int| 0 <= a < by_name@.len() && by_name@[a] == p && p.name@ == n;
                                if a < old_by_name.len() && a != idx {
                                    assert(by_name@[a] == old_by_name[a]);
                                }
                            },
                            None => {},
                        }
                    },
                }
            }
            if at is Some {
                assert(find_pkg(old_by_name, pkg.name@) == Some(old_by_name[idx]));
            } else {
                assert(find_pkg(old_by_name, pkg.name@) is None);
            }
        }
        self.by_name = by_name;
    }

    /// The newest known package of that name.
    pub fn get(&self, name: &str) -> (r: Option<&Package>)
        requires
            self.wf(),
        ensures
            match r {
                Some(p) => self.lookup(name@) == Some(*p),
                None => self.lookup(name@) is None,
            },
    {
        proof {
            lemma_find_pkg(self.by_name@, name@);
        }
        let nc = chars_of(name);
        let mut i: usize = 0;
        while i < self.by_name.len()
            invariant
                i <= self.by_name.len(),
                nc@ == name@,
                self.wf(),
                forall|j: int| 0 <= j < i ==> self.by_name@[j].name@ != name@,
            decreases self.by_name.len() - i,
        {
            let pc = chars_of(self.by_name[i].name.as_str());
            if chars_eq(&pc, &nc) {
                proof {
                    lemma_find_pkg(self.by_name@, name@);
                }
                return Some(&self.by_name[i]);
            }
            i = i + 1;
        }
        None
    }

    /// The package of exactly that name, version and architecture.
    pub fn get_exact(&self, name: &str, version: &str, arch: &str) -> (r: Option<&Package>)
        requires
            self.wf(),
        ensures
            match r {
                Some(p) => self.lookup_exact(exact_key(name@, arch@, version@)) == Some(*p),
                None => self.lookup_exact(exact_key(name@, arch@, version@)) is None,
            },
    {
        let mut key: Vec<char> = chars_of(name);
        key.push(':');
        extend_str(&mut key, arch);
        key.push(':');
        extend_str(&mut key, version);
        proof {
            lemma_find_keyed(self.all@, key@);
        }
        let mut i: usize = 0;
        while i < self.all.len()
            invariant
                i <= self.all.len(),
                key@ == exact_key(name@, arch@, version@),
                self.wf(),
                forall|j: int| 0 <= j < i ==> self.all@[j].0@ != key@,
            decreases self.all.len() - i,
        {
            let kc = chars_of(self.all[i].0.as_str());
            if chars_eq(&kc, &key) {
                proof {
                    lemma_find_keyed(self.all@, key@);
                }
                return Some(&self.all[i].1);
            }
            i = i + 1;
        }
        None
    }

    /// How many package names the cache knows.
    pub fn len(&self) -> (r: usize)
        ensures
            r == self.newest().len(),
    {
        self.by_name.len()
    }
}

// ─────────────────────────────────────────────────────────────
//  Ordering of query results
// ─────────────────────────────────────────────────────────────

/// `a` sorts before `b` by name.
pub open spec fn name_before(a: Package, b: Package) -> bool {
    order_lex(a.name@, b.name@) < 0
}

/// `a` sorts before `b` among the results of a search for `q` (lowercased): an exact name
/// match first, then a name that starts with `q`, then by name.
pub open spec fn search_before(a: Package, b: Package, q: Seq<char>) -> bool {
    let al = lowercase(a.name@);
    let bl = lowercase(b.name@);
    if (al == q) != (bl == q) {
        al == q
    } else if starts_with(al, q) != starts_with(bl, q) {
        starts_with(al, q)
    } else {
        name_before(a, b)
    }
}

/// A package matches a search for `q` (lowercased): its lowercased name or summary
/// contains `q`.
pub open spec fn search_hit(p: Package, q: Seq<char>) -> bool {
    contains_sub(lowercase(p.name@), q) || match ov(p.description_short) {
        Some(d) => contains_sub(lowercase(d), q),
        None => false,
    }
}

pub open spec fn ranked_before(a: Package, b: Package, q: Seq<char>, by_rank: bool) -> bool {
    if by_rank {
        search_before(a, b, q)
    } else {
        name_before(a, b)
    }
}

proof fn lemma_ranked_total(a: Package, b: Package, q: Seq<char>, by_rank: bool)
    requires
        a.name@ != b.name@,
    ensures
        ranked_before(a, b, q, by_rank) || ranked_before(b, a, q, by_rank),
{
    lemma_lex_antisym(a.name@, b.name@);
}

proof fn lemma_ranked_trans(a: Package, b: Package, c: Package, q: Seq<char>, by_rank: bool)
    requires
        ranked_before(a, b, q, by_rank),
        ranked_before(b, c, q, by_rank),
    ensures
        ranked_before(a, c, q, by_rank),
{
    lemma_lex_antisym(a.name@, b.name@);
    lemma_lex_antisym(b.name@, c.name@);
    lemma_lex_antisym(a.name@, c.name@);
    if order_lex(a.name@, b.name@) < 0 && order_lex(b.name@, c.name@) < 0 {
        lemma_lex_trans(a.name@, b.name@, c.name@);
    }
}

fn ranked_before_exec(a: &Package, b: &Package, q: &Vec<char>, by_rank: bool) -> (r: bool)
    ensures
        r == ranked_before(*a, *b, q@, by_rank),
{
    let an = chars_of(a.name.as_str());
    let bn = chars_of(b.name.as_str());
    let by_name = order_lex_chars(&an, &bn) < 0;
    if !by_rank {
        return by_name;
    }
    let al = lowercase_chars(&an);
    let bl = lowercase_chars(&bn);
    let ae = chars_eq(&al, q);
    let be = chars_eq(&bl, q);
    if ae != be {
        return ae;
    }
    let as_ = starts_with_chars(&al, q);
    let bs = starts_with_chars(&bl, q);
    if as_ != bs {
        return as_;
    }
    by_name
}

/// Sorts packages with distinct names (insertion sort).
fn sort_packages<'a>(v: Vec<&'a Package>, q: &Vec<char>, by_rank: bool) -> (r: Vec<&'a Package>)
    requires
        forall|i: int, j: int| 0 <= i < j < v@.len() ==> v@[i].name@ != v@[j].name@,
    ensures
        r@.len() == v@.len(),
        forall|i: int, j: int| 0 <= i < j < r@.len() ==> ranked_before(*r@[i], *r@[j], q@, by_rank),
        forall|i: int| 0 <= i < r@.len() ==> v@.contains(#[trigger] r@[i]),
        forall|j: int| 0 <= j < v@.len() ==> r@.contains(#[trigger] v@[j]),
{
    let mut r: Vec<&'a Package> = Vec::new();
    let mut i: usize = 0;
    while i < v.len()
        invariant
            i <= v@.len(),
            forall|a: int, b: int| 0 <= a < b < v@.len() ==> v@[a].name@ != v@[b].name@,
            r@.len() == i,
            forall|a: int, b: int| 0 <= a < b < r@.len() ==> ranked_before(*r@[a], *r@[b], q@, by_rank),
            forall|a: int| 0 <= a < r@.len() ==> exists|b: int| 0 <= b < i && #[trigger] r@[a] == #[trigger] v@[b],
            forall|b: int| 0 <= b < i ==> r@.contains(#[trigger] v@[b]),
        decreases v@.len() - i,
    {
        let x = v[i];
        let mut k: usize = 0;
        while k < r.len() && !ranked_before_exec(x, r[k], q, by_rank)
            invariant
                k <= r@.len(),
                forall|a: int| 0 <= a < k ==> !ranked_before(*x, *r@[a], q@, by_rank),
            decreases r@.len() - k,
        {
            k = k + 1;
        }
        let ghost old_r = r@;
        proof {
            assert forall|a: int| 0 <= a < old_r.len() implies old_r[a].name@ != x.name@ by {
                let b = choose|b: int| 0 <= b < i && old_r[a] == v@[b];
                assert(v@[b].name@ != v@[i as int].name@);
            }
        }
        r.insert(k, x);
        proof {
            assert(r@ == old_r.insert(k as int, x));
            assert forall|a: int, b: int| 0 <= a < b < r@.len() implies ranked_before(*r@[a], *r@[b], q@, by_rank) by {
                if b == k {
                    lemma_ranked_total(*old_r[a], *x, q@, by_rank);
                } else if a == k {
                    lemma_ranked_total(*x, *old_r[k as int], q@, by_rank);
                    if b - 1 > k {
                        lemma_ranked_trans(*x, *old_r[k as int], *old_r[b - 1], q@, by_rank);
                    }
                } else if a > k {
                    assert(r@[a] == old_r[a - 1] && r@[b] == old_r[b - 1]);
                } else if b > k {
                    assert(r@[a] == old_r[a] && r@[b] == old_r[b - 1]);
                } else {
                    assert(r@[a] == old_r[a] && r@[b] == old_r[b]);
                }
            }
            assert forall|a: int| 0 <= a < r@.len() implies exists|b: int| 0 <= b < i + 1 && #[trigger] r@[a] == #[trigger] v@[b] by {
                if a < k {
                    assert(r@[a] == old_r[a]);
                } else if a > k {
                    assert(r@[a] == old_r[a - 1]);
                } else {
                    assert(r@[a] == v@[i as int]);
                }
            }
            assert forall|b: int| 0 <= b < i + 1 implies r@.contains(#[trigger] v@[b]) by {
                if b < i {
                    let a = choose|a: int| 0 <= a < old_r.len() && old_r[a] == v@[b];
                    if a < k {
                        assert(r@[a] == old_r[a]);
                    } else {
                        assert(r@[a + 1] == old_r[a]);
                    }
                } else {
                    assert(r@[k as int] == v@[b]);
                }
            }
        }
        i = i + 1;
    }
    proof {
        assert forall|a: int| 0 <= a < r@.len() implies v@.contains(#[trigger] r@[a]) by {
            let b = choose|b: int| 0 <= b < i && r@[a] == v@[b];
        }
    }
    r
}

/// The packages of `v` that match a search for `q`, in order.
pub open spec fn hits_of(v: Seq<Package>, q: Seq<char>) -> Seq<Package>
    decreases v.len(),
{
    if v.len() == 0 {
        Seq::empty()
    } else if search_hit(v.last(), q) {
        hits_of(v.drop_last(), q).push(v.last())
    } else {
        hits_of(v.drop_last(), q)
    }
}

proof fn lemma_hits_of(v: Seq<Package>, q: Seq<char>)
    requires
        names_unique(v),
    ensures
        names_unique(hits_of(v, q)),
        forall|i: int| 0 <= i < hits_of(v, q).len() ==> v.contains(#[trigger] hits_of(v, q)[i]) && search_hit(hits_of(v, q)[i], q),
        forall|j: int| 0 <= j < v.len() && search_hit(v[j], q) ==> hits_of(v, q).contains(#[trigger] v[j]),
    decreases v.len(),
{
    if v.len() > 0 {
        let init = v.drop_last();
        assert(names_unique(init));
        lemma_hits_of(init, q);
        let h0 = hits_of(init, q);
        assert forall|i: int| 0 <= i < h0.len() implies v.contains(#[trigger] h0[i]) by {
            let j = choose|j: int| 0 <= j < init.len() && init[j] == h0[i];
            assert(v[j] == init[j]);
        }
        if search_hit(v.last(), q) {
            let h = hits_of(v, q);
            assert(h == h0.push(v.last()));
            assert forall|i: int| 0 <= i < h0.len() implies h0[i].name@ != v.last().name@ by {
                let j = choose|j: int| 0 <= j < init.len() && init[j] == h0[i];
                assert(v[j] == init[j]);
            }
            assert forall|i: int| 0 <= i < h.len() implies v.contains(#[trigger] h[i]) && search_hit(h[i], q) by {
                if i < h0.len() {
                    assert(h[i] == h0[i]);
                } else {
                    assert(v[v.len() - 1] == h[i]);
                }
            }
            assert forall|j: int| 0 <= j < v.len() && search_hit(v[j], q) implies h.contains(#[trigger] v[j]) by {
                if j < v.len() - 1 {
                    assert(init[j] == v[j]);
                    let k = choose|k: int| 0 <= k < h0.len() && h0[k] == init[j];
                    assert(h[k] == h0[k]);
                } else {
                    assert(h[h0.len() as int] == v[j]);
                }
            }
        } else {
            assert forall|j: int| 0 <= j < v.len() && search_hit(v[j], q) implies hits_of(v, q).contains(#[trigger] v[j]) by {
                assert(j < v.len() - 1);
                assert(init[j] == v[j]);
            }
        }
    }
}

impl PackageCache {
    /// The newest packages whose lowercased name or summary contains the lowercased query:
    /// exact name matches first, then names that start with it, then by name.
    pub fn search(&self, query: &str) -> (r: Vec<&Package>)
        requires
            self.wf(),
        ensures
            forall|i: int, j: int| 0 <= i < j < r@.len() ==> search_before(*r@[i], *r@[j], lowercase(query@)),
            forall|i: int| 0 <= i < r@.len() ==> self.newest().contains(*#[trigger] r@[i]) && search_hit(*r@[i], lowercase(query@)),
            forall|p: Package| self.newest().contains(p) && search_hit(p, lowercase(query@)) ==> exists|i: int| 0 <= i < r@.len() && *r@[i] == p,
    {
        let q = lowercase_chars(&chars_of(query));
        let mut hits: Vec<&Package> = Vec::new();
        let mut i: usize = 0;
        let ghost bn = self.by_name@;
        while i < self.by_name.len()
            invariant
                i <= bn.len(),
                bn == self.by_name@,
                hits@.len() == hits_of(bn.take(i as int), q@).len(),
                forall|a: int| 0 <= a < hits@.len() ==> *hits@[a] == #[trigger] hits_of(bn.take(i as int), q@)[a],
            decreases bn.len() - i,
        {
            let p = &self.by_name[i];
            assert(bn.take(i + 1).drop_last() == bn.take(i as int));
            assert(bn.take(i + 1).last() == *p);
            let ln = lowercase_chars(&chars_of(p.name.as_str()));
            let mut hit = contains_chars(&ln, &q);
            if !hit {
                match &p.description_short {
                    Some(d) => {
                        let ld = lowercase_chars(&chars_of(d.as_str()));
                        hit = contains_chars(&ld, &q);
                    },
                    None => {},
                }
            }
            if hit {
                hits.push(p);
            }
            i = i + 1;
        }
        proof {
            assert(bn.take(bn.len() as int) == bn);
            lemma_hits_of(bn, q@);
        }
        let ghost h = hits_of(bn, q@);
        assert forall|a: int, b: int| 0 <= a < b < hits@.len() implies hits@[a].name@ != hits@[b].name@ by {
            assert(*hits@[a] == h[a] && *hits@[b] == h[b]);
        }
        let r = sort_packages(hits, &q, true);
        assert forall|a: int, b: int| 0 <= a < b < r@.len() implies search_before(*r@[a], *r@[b], lowercase(query@)) by {
            assert(ranked_before(*r@[a], *r@[b], q@, true));
        }
        proof {
            assert forall|a: int| 0 <= a < r@.len() implies self.newest().contains(*#[trigger] r@[a]) && search_hit(*r@[a], lowercase(query@)) by {
                let b = choose|b: int| 0 <= b < hits@.len() && hits@[b] == r@[a];
                assert(*hits@[b] == h[b]);
            }
            assert forall|p: Package| self.newest().contains(p) && search_hit(p, lowercase(query@)) implies exists|a: int| 0 <= a < r@.len() && *r@[a] == p by {
                let j = choose|j: int| 0 <= j < bn.len() && bn[j] == p;
                let k = choose|k: int| 0 <= k < h.len() && h[k] == bn[j];
                assert(hits@.contains(hits@[k]));
                let a = choose|a: int| 0 <= a < r@.len() && r@[a] == hits@[k];
            }
        }
        r
    }

    /// All newest packages, by name.
    pub fn all_packages(&self) -> (r: Vec<&Package>)
        requires
            self.wf(),
        ensures
            forall|i: int, j: int| 0 <= i < j < r@.len() ==> name_before(*r@[i], *r@[j]),
            r@.len() == self.newest().len(),
            forall|i: int| 0 <= i < r@.len() ==> self.newest().contains(*#[trigger] r@[i]),
            forall|p: Package| self.newest().contains(p) ==> exists|i: int| 0 <= i < r@.len() && *r@[i] == p,
    {
        let mut refs: Vec<&Package> = Vec::new();
        let mut i: usize = 0;
        while i < self.by_name.len()
            invariant
                i <= self.by_name@.len(),
                self.wf(),
                refs@.len() == i,
                forall|a: int| 0 <= a < i ==> *refs@[a] == self.by_name@[a],
            decreases self.by_name@.len() - i,
        {
            refs.push(&self.by_name[i]);
            i = i + 1;
        }
        let q: Vec<char> = Vec::new();
        assert forall|a: int, b: int| 0 <= a < b < refs@.len() implies refs@[a].name@ != refs@[b].name@ by {
            assert(*refs@[a] == self.by_name@[a] && *refs@[b] == self.by_name@[b]);
        }
        let r = sort_packages(refs, &q, false);
        assert forall|a: int, b: int| 0 <= a < b < r@.len() implies name_before(*r@[a], *r@[b]) by {
            assert(ranked_before(*r@[a], *r@[b], q@, false));
        }
        proof {
            assert forall|p: Package| self.newest().contains(p) implies exists|i: int| 0 <= i < r@.len() && *r@[i] == p by {
                let b = choose|b: int| 0 <= b < self.by_name@.len() && self.by_name@[b] == p;
                assert(refs@.contains(refs@[b]));
            }
            assert forall|i: int| 0 <= i < r@.len() implies self.newest().contains(*#[trigger] r@[i]) by {
                assert(refs@.contains(r@[i]));
                let b = choose|b: int| 0 <= b < refs@.len() && refs@[b] == r@[i];
                assert(self.by_name@[b] == *refs@[b]);
            }
        }
        r
    }
}

// ─────────────────────────────────────────────────────────────
//  Laws
// ─────────────────────────────────────────────────────────────

/// After adding packages one by one to an empty cache, every name among them maps to a
/// package among them with that name, whose version is at least that of every package
/// added under the name.
pub proof fn law_cache_keeps_newest(pkgs: Seq<Package>, n: Seq<char>)
    ensures
        (exists|i: int| 0 <= i < pkgs.len() && pkgs[i].name@ == n) ==> newest_of(pkgs, n) is Some,
        newest_of(pkgs, n) matches Some(q) ==> (q.name@ == n && pkgs.contains(q)),
        newest_of(pkgs, n) matches Some(q) ==> forall|i: int|
            0 <= i < pkgs.len() && #[trigger] pkgs[i].name@ == n ==> version_order(pkgs[i].version@, q.version@) <= 0,
    decreases pkgs.len(),
{
    if pkgs.len() > 0 {
        let init = pkgs.drop_last();
        law_cache_keeps_newest(init, n);
        let last = pkgs.last();
        assert forall|i: int| 0 <= i < init.len() implies init[i] == pkgs[i] by {}
        if (exists|i: int| 0 <= i < pkgs.len() && pkgs[i].name@ == n) && last.name@ != n {
            let i = choose|i: int| 0 <= i < pkgs.len() && pkgs[i].name@ == n;
            assert(init[i].name@ == n);
        }
        match newest_of(pkgs, n) {
            Some(q) => {
                if last.name@ == n {
                    match newest_of(init, n) {
                        Some(ex) => {
                            crate::version::law_version_order_antisymmetric(ex.version@, last.version@);
                            crate::version::lemma_version_order_range(ex.version@, last.version@);
                            assert forall|i: int| 0 <= i < pkgs.len() && #[trigger] pkgs[i].name@ == n implies version_order(pkgs[i].version@, q.version@) <= 0 by {
                                if i == pkgs.len() - 1 {
                                    crate::version::law_version_order_reflexive(q.version@);
                                } else {
                                    assert(init[i].name@ == n);
                                    if q == ex {
                                    } else {
                                        crate::version::law_version_order_transitive(pkgs[i].version@, ex.version@, q.version@);
                                    }
                                }
                            }
                            if q == ex {
                                let j = choose|j: int| 0 <= j < init.len() && init[j] == ex;
                                assert(pkgs[j] == ex);
                            } else {
                                assert(pkgs[pkgs.len() - 1] == q);
                            }
                        },
                        None => {
                            assert(pkgs[pkgs.len() - 1] == q);
                            assert forall|i: int| 0 <= i < pkgs.len() && #[trigger] pkgs[i].name@ == n implies version_order(pkgs[i].version@, q.version@) <= 0 by {
                                if i == pkgs.len() - 1 {
                                    crate::version::law_version_order_reflexive(q.version@);
                                } else {
                                    assert(init[i].name@ == n);
                                }
                            }
                        },
                    }
                } else {
                    let j = choose|j: int| 0 <= j < init.len() && init[j] == q;
                    assert(pkgs[j] == q);
                    assert forall|i: int| 0 <= i < pkgs.len() && #[trigger] pkgs[i].name@ == n implies version_order(pkgs[i].version@, q.version@) <= 0 by {
                        assert(i < pkgs.len() - 1);
                        assert(init[i].name@ == n);
                    }
                }
            },
            None => {},
        }
    }
}


/// Among packages added under a name, the one kept is newest, and of those equally new the
/// one added last: every package added after it under that name is older.
pub proof fn law_newest_is_last_of_its_version(pkgs: Seq<Package>, n: Seq<char>)
    ensures
        newest_of(pkgs, n) matches Some(q) ==> exists|i: int| 0 <= i < pkgs.len() && pkgs[i] == q
            && forall|j: int| i < j < pkgs.len() && #[trigger] pkgs[j].name@ == n ==> version_order(pkgs[j].version@, q.version@) < 0,
    decreases pkgs.len(),
{
    if pkgs.len() > 0 {
        let init = pkgs.drop_last();
        law_newest_is_last_of_its_version(init, n);
        let last = pkgs.last();
        match newest_of(pkgs, n) {
            Some(q) => {
                if last.name@ == n && q == last {
                    assert(pkgs[pkgs.len() - 1] == q);
                } else {
                    assert(newest_of(init, n) == Some(q));
                    let i = choose|i: int| 0 <= i < init.len() && init[i] == q
                        && forall|j: int| i < j < init.len() && #[trigger] init[j].name@ == n ==> version_order(init[j].version@, q.version@) < 0;
                    assert(pkgs[i] == q);
                    if last.name@ == n {
                        assert(version_order(q.version@, last.version@) == 1);
                        crate::version::law_version_order_antisymmetric(q.version@, last.version@);
                    }
                    assert forall|j: int| i < j < pkgs.len() && #[trigger] pkgs[j].name@ == n implies version_order(pkgs[j].version@, q.version@) < 0 by {
                        if j < init.len() {
                            assert(init[j] == pkgs[j]);
                        }
                    }
                }
            },
            None => {},
        }
    }
}

} // verus!
