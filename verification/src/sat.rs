//! The resolver that states the install request as a boolean formula: each package of
//! the index is a variable; a package needs one candidate of each of its dependency
//! clauses and excludes what it conflicts with or breaks; the requested and the installed
//! packages are set. A SAT solver decides whether the formula can be met; the plan then
//! takes the requested and installed packages and what they depend on.
use vstd::prelude::*;
use crate::cache::PackageCache;
use crate::db::{InstalledDb, InstalledPackage};
use crate::solver::{base_name_of, download_total, unpacked_total, word, TransactionPlan};
use crate::package::{dep_field, group_view, groups_view, ov, parse_dep_field, DepGroup, DepSpec, Package};
use crate::version::{op_holds, version_order, version_satisfies};
use crate::text::{char_views, chars_eq_str, chars_of, extend_chars, extend_str, join, join_chars, string_of};

verus! {

// ─────────────────────────────────────────────────────────────
//  Literals and formulas
// ─────────────────────────────────────────────────────────────

/// A literal: a package's index and whether it is to be installed.
pub type Lit = (usize, bool);

/// A formula as plain values: clauses of literals.
pub open spec fn formula_view(f: Seq<Vec<Lit>>) -> Seq<Seq<Lit>> {
    f.map_values(|c: Vec<Lit>| c@)
}

/// A set of literals meets a formula: each clause has a literal in the set.
pub open spec fn meets(model: Seq<Lit>, f: Seq<Seq<Lit>>) -> bool {
    forall|i: int| #![trigger f[i]] 0 <= i < f.len() ==> exists|k: int| 0 <= k < f[i].len() && model.contains(#[trigger] f[i][k])
}

/// An assignment, given by the variables it makes true, meets a formula: each clause has a
/// literal it makes true.
pub open spec fn satisfied_by(t: Set<usize>, f: Seq<Seq<Lit>>) -> bool {
    forall|i: int| #![trigger f[i]] 0 <= i < f.len() ==> clause_true(t, f[i])
}

/// The assignment makes some literal of the clause true.
pub open spec fn clause_true(t: Set<usize>, c: Seq<Lit>) -> bool {
    exists|k: int| 0 <= k < c.len() && #[trigger] lit_true(t, c[k])
}

/// The assignment makes the literal true.
pub open spec fn lit_true(t: Set<usize>, l: Lit) -> bool {
    t.contains(l.0) == l.1
}

/// The largest variable index `varisat` takes: `Var::max_var()`, `u32::MAX >> 4`.
pub open spec fn max_var() -> int {
    268435455
}

/// No two literals of a model name the same variable.
pub open spec fn distinct_vars(m: Seq<Lit>) -> bool {
    forall|i: int, j: int| 0 <= i < j < m.len() ==> (#[trigger] m[i]).0 != (#[trigger] m[j]).0
}

/// Asks `varisat` whether the formula can be met (`CnfFormula`, `Solver::add_formula`,
/// `solve`, `model`). Every variable index must be at most `Var::max_var()`, which
/// `Var::from_index` asserts. `solve` fails only when interrupted or when writing a proof,
/// and neither is set up here, so the answer is `Ok`: `Some(model)` gives literals that meet
/// the formula, one per variable (as `model` walks the variables), and `None` says that no
/// assignment does. Which model comes back is left open.
#[verifier::external_body]
fn solve_formula(f: &Vec<Vec<Lit>>) -> (r: Result<Option<Vec<Lit>>, String>)
    requires
        clauses_below(formula_view(f@), max_var() + 1),
    ensures
        r is Ok,
        r matches Ok(Some(m)) ==> meets(m@, formula_view(f@)) && distinct_vars(m@),
        r matches Ok(None) ==> forall|t: Set<usize>| !#[trigger] satisfied_by(t, formula_view(f@)),
{
    let mut formula = varisat::CnfFormula::new();
    for c in f.iter() {
        let lits: Vec<varisat::Lit> = c.iter().map(|l| varisat::Lit::from_index(l.0, l.1)).collect();
        varisat::ExtendFormula::add_clause(&mut formula, &lits);
    }
    let mut solver = varisat::Solver::new();
    solver.add_formula(&formula);
    match solver.solve() {
        Ok(true) => Ok(solver.model().map(|m| m.iter().map(|l| (l.index(), l.is_positive())).collect())),
        Ok(false) => Ok(None),
        Err(e) => Err(e.to_string()),
    }
}

// ─────────────────────────────────────────────────────────────
//  Packages, provided names and candidates
// ─────────────────────────────────────────────────────────────

/// The index of the first package of that name.
pub open spec fn direct_index(pkgs: Seq<&Package>, n: Seq<char>) -> Option<usize>
    decreases pkgs.len(),
{
    if pkgs.len() == 0 {
        None
    } else {
        match direct_index(pkgs.drop_last(), n) {
            Some(i) => Some(i),
            None => if pkgs.last().name@ == n {
                Some((pkgs.len() - 1) as usize)
            } else {
                None
            },
        }
    }
}

/// The parsed groups of an optional dependency-like field.
pub open spec fn field_groups(o: Option<String>) -> Seq<Seq<DepSpec>> {
    match ov(o) {
        Some(s) => dep_field(s),
        None => Seq::empty(),
    }
}

/// The names of the alternatives of the groups, in order.
pub open spec fn alt_names(gs: Seq<Seq<DepSpec>>) -> Seq<Seq<char>>
    decreases gs.len(),
{
    if gs.len() == 0 {
        Seq::empty()
    } else {
        alt_names(gs.drop_last()) + names_in(gs.last())
    }
}

pub open spec fn names_in(alts: Seq<DepSpec>) -> Seq<Seq<char>>
    decreases alts.len(),
{
    if alts.len() == 0 {
        Seq::empty()
    } else {
        names_in(alts.drop_last()).push(alts.last().name)
    }
}

/// Each name paired with the index `i`.
pub open spec fn tagged(ns: Seq<Seq<char>>, i: usize) -> Seq<(Seq<char>, usize)>
    decreases ns.len(),
{
    if ns.len() == 0 {
        Seq::empty()
    } else {
        tagged(ns.drop_last(), i).push((ns.last(), i))
    }
}

/// The names the first `upto` packages provide, each with the index of its provider.
pub open spec fn provides_of(pkgs: Seq<&Package>, upto: int) -> Seq<(Seq<char>, usize)>
    decreases upto,
{
    if upto <= 0 {
        Seq::empty()
    } else {
        provides_of(pkgs, upto - 1) + tagged(alt_names(field_groups(pkgs[upto - 1].provides)), (upto - 1) as usize)
    }
}

pub open spec fn prov_view(v: Seq<(String, usize)>) -> Seq<(Seq<char>, usize)> {
    v.map_values(|p: (String, usize)| (p.0@, p.1))
}

/// Whether a version meets an optional constraint.
pub open spec fn version_ok(v: Seq<char>, c: Option<(crate::version::VersionOp, Seq<char>)>) -> bool {
    match c {
        Some((op, w)) => op_holds(op, version_order(v, w)),
        None => true,
    }
}

/// `acc` with each provider of `n` in `prov` added, in order, unless already there.
pub open spec fn add_providers(acc: Seq<usize>, prov: Seq<(Seq<char>, usize)>, n: Seq<char>) -> Seq<usize>
    decreases prov.len(),
{
    if prov.len() == 0 {
        acc
    } else {
        let a = if prov[0].0 == n && !acc.contains(prov[0].1) {
            acc.push(prov[0].1)
        } else {
            acc
        };
        add_providers(a, prov.drop_first(), n)
    }
}

/// The packages that meet an alternative: the package of that name where its version
/// meets the constraint, then the packages that provide the name.
pub open spec fn cands(pkgs: Seq<&Package>, prov: Seq<(Seq<char>, usize)>, d: DepSpec) -> Seq<usize> {
    let start = match direct_index(pkgs, d.name) {
        Some(i) => if version_ok(pkgs[i as int].version@, d.constraint) {
            seq![i]
        } else {
            Seq::empty()
        },
        None => Seq::empty(),
    };
    add_providers(start, prov, d.name)
}

proof fn lemma_direct_prefix(pkgs: Seq<&Package>, n: Seq<char>, k: int)
    requires
        0 <= k <= pkgs.len(),
        direct_index(pkgs.take(k), n) is Some,
    ensures
        direct_index(pkgs, n) == direct_index(pkgs.take(k), n),
    decreases pkgs.len() - k,
{
    if k < pkgs.len() {
        assert(pkgs.take(k + 1).drop_last() == pkgs.take(k));
        lemma_direct_prefix(pkgs, n, k + 1);
    } else {
        assert(pkgs.take(k) == pkgs);
    }
}

proof fn lemma_direct_bound(pkgs: Seq<&Package>, n: Seq<char>)
    requires
        pkgs.len() <= usize::MAX,
    ensures
        direct_index(pkgs, n) matches Some(i) ==> i < pkgs.len() && pkgs[i as int].name@ == n,
    decreases pkgs.len(),
{
    if pkgs.len() > 0 {
        lemma_direct_bound(pkgs.drop_last(), n);
    }
}

// ─────────────────────────────────────────────────────────────
//  The resolver
// ─────────────────────────────────────────────────────────────

/// A SAT-based resolver over a package index and the installed packages.
pub struct SatResolver<'a> {
    pub cache: &'a PackageCache,
    pub db: &'a InstalledDb,
    /// The packages of the index, by name; a package's index is its variable.
    pub pkgs: Vec<&'a Package>,
    /// Each name a package provides, with the package's index.
    pub provides: Vec<(String, usize)>,
}

impl<'a> SatResolver<'a> {
    /// The tables are well formed and the provided names are those of the packages.
    pub open spec fn ready(&self) -> bool {
        &&& self.cache.wf()
        &&& self.db.wf()
        &&& self.pkgs@.len() <= usize::MAX
        &&& prov_view(self.provides@) == provides_of(self.pkgs@, self.pkgs@.len() as int)
    }

    /// A resolver over the index's packages, by name.
    pub fn new(cache: &'a PackageCache, db: &'a InstalledDb) -> (r: SatResolver<'a>)
        requires
            cache.wf(),
            db.wf(),
        ensures
            r.ready(),
            r.cache == cache,
            r.db == db,
            r.pkgs@.len() == cache.newest().len(),
            forall|i: int| 0 <= i < r.pkgs@.len() ==> cache.newest().contains(*#[trigger] r.pkgs@[i]),
            forall|i: int, j: int| 0 <= i < j < r.pkgs@.len() ==> crate::cache::name_before(*r.pkgs@[i], *r.pkgs@[j]),
    {
        let pkgs = cache.all_packages();
        let mut provides: Vec<(String, usize)> = Vec::new();
        let mut i: usize = 0;
        while i < pkgs.len()
            invariant
                i <= pkgs@.len(),
                prov_view(provides@) == provides_of(pkgs@, i as int),
            decreases pkgs.len() - i,
        {
            let groups: Vec<DepGroup> = match &pkgs[i].provides {
                Some(s) => parse_dep_field(s.as_str()),
                None => Vec::new(),
            };
            let ghost gv = groups_view(groups@);
            assert(gv == field_groups(pkgs@[i as int].provides));
            let ghost start = provides@;
            let mut g: usize = 0;
            while g < groups.len()
                invariant
                    g <= groups@.len(),
                    gv == groups_view(groups@),
                    gv.len() == groups@.len(),
                    prov_view(provides@) == prov_view(start) + tagged(alt_names(gv.take(g as int)), i),
                decreases groups.len() - g,
            {
                assert(gv.take(g + 1).drop_last() == gv.take(g as int));
                assert(gv.take(g + 1).last() == gv[g as int]);
                let alts = &groups[g].alternatives;
                let ghost av = gv[g as int];
                assert(av == group_view(groups@[g as int]));
                let ghost mid = provides@;
                let mut k: usize = 0;
                while k < alts.len()
                    invariant
                        k <= alts@.len(),
                        av == group_view(groups@[g as int]),
                        av.len() == alts@.len(),
                        alts@ == groups@[g as int].alternatives@,
                        prov_view(provides@) == prov_view(mid) + tagged(names_in(av.take(k as int)), i),
                    decreases alts.len() - k,
                {
                    assert(av.take(k + 1).drop_last() == av.take(k as int));
                    assert(av.take(k + 1).last() == av[k as int]);
                    assert(av[k as int].name == alts@[k as int].name@);
                    let ghost before = provides@;
                    provides.push((alts[k].name.clone(), i));
                    proof {
                        let ns = names_in(av.take(k as int));
                        let e = (alts@[k as int].name@, i);
                        assert(prov_view(provides@) == prov_view(before).push(e));
                        assert(names_in(av.take(k + 1)) == ns.push(av[k as int].name));
                        assert(ns.push(av[k as int].name).drop_last() == ns);
                        assert(tagged(ns.push(av[k as int].name), i) == tagged(ns, i).push(e));
                        assert(prov_view(mid) + tagged(ns, i).push(e) == (prov_view(mid) + tagged(ns, i)).push(e));
                    }
                    k = k + 1;
                }
                assert(av.take(alts@.len() as int) == av);
                proof {
                    lemma_tagged_concat(alt_names(gv.take(g as int)), names_in(av), i);
                }
                g = g + 1;
            }
            assert(gv.take(groups@.len() as int) == gv);
            i = i + 1;
        }
        let total = pkgs.len();
        assert(pkgs@.len() == total);
        SatResolver { cache, db, pkgs, provides }
    }

    /// The index of the package of that name.
    fn direct(&self, n: &str) -> (r: Option<usize>)
        ensures
            r == direct_index(self.pkgs@, n@),
            r matches Some(i) ==> i < self.pkgs@.len(),
    {
        let mut i: usize = 0;
        assert(self.pkgs@.take(0) == Seq::<&Package>::empty());
        let nc = crate::text::chars_of(n);
        while i < self.pkgs.len()
            invariant
                i <= self.pkgs@.len(),
                nc@ == n@,
                direct_index(self.pkgs@.take(i as int), n@) is None,
            decreases self.pkgs.len() - i,
        {
            assert(self.pkgs@.take(i + 1).drop_last() == self.pkgs@.take(i as int));
            assert(self.pkgs@.take(i + 1).last() == self.pkgs@[i as int]);
            if crate::text::chars_eq(&crate::text::chars_of(self.pkgs[i].name.as_str()), &nc) {
                proof {
                    lemma_direct_prefix(self.pkgs@, n@, i + 1);
                }
                return Some(i);
            }
            i = i + 1;
        }
        assert(self.pkgs@.take(i as int) == self.pkgs@);
        None
    }

    /// The packages that meet an alternative.
    fn candidates(&self, d: &crate::package::SingleDep) -> (r: Vec<usize>)
        requires
            self.ready(),
        ensures
            r@ == cands(self.pkgs@, prov_view(self.provides@), crate::package::dep_view(*d)),
    {
        let mut acc: Vec<usize> = Vec::new();
        match self.direct(d.name.as_str()) {
            Some(i) => {
                let ok = match &d.constraint {
                    Some(c) => version_satisfies(self.pkgs[i].version.as_str(), &c.op, c.version.as_str()),
                    None => true,
                };
                if ok {
                    acc.push(i);
                }
            },
            None => {},
        }
        let ghost pv = prov_view(self.provides@);
        let ghost start = acc@;
        let nc = crate::text::chars_of(d.name.as_str());
        let mut k: usize = 0;
        assert(pv.skip(0) == pv);
        while k < self.provides.len()
            invariant
                k <= self.provides@.len(),
                pv == prov_view(self.provides@),
                nc@ == d.name@,
                add_providers(start, pv, d.name@) == add_providers(acc@, pv.skip(k as int), d.name@),
            decreases self.provides.len() - k,
        {
            assert(pv.skip(k as int).drop_first() == pv.skip(k + 1));
            assert(pv.skip(k as int)[0] == (self.provides@[k as int].0@, self.provides@[k as int].1));
            let j = self.provides[k].1;
            if crate::text::chars_eq(&crate::text::chars_of(self.provides[k].0.as_str()), &nc) && !contains_index(&acc, j) {
                acc.push(j);
            }
            k = k + 1;
        }
        assert(pv.skip(k as int).len() == 0);
        acc
    }
}

fn contains_index(v: &Vec<usize>, x: usize) -> (r: bool)
    ensures
        r == v@.contains(x),
{
    let mut i: usize = 0;
    while i < v.len()
        invariant
            i <= v@.len(),
            forall|j: int| 0 <= j < i ==> v@[j] != x,
        decreases v.len() - i,
    {
        if v[i] == x {
            assert(v@[i as int] == x);
            return true;
        }
        i = i + 1;
    }
    false
}

proof fn lemma_tagged_concat(a: Seq<Seq<char>>, b: Seq<Seq<char>>, i: usize)
    ensures
        tagged(a + b, i) == tagged(a, i) + tagged(b, i),
    decreases b.len(),
{
    if b.len() == 0 {
        assert(a + b == a);
    } else {
        lemma_tagged_concat(a, b.drop_last(), i);
        assert((a + b).drop_last() == a + b.drop_last());
        assert((a + b).last() == b.last());
    }
}

// ─────────────────────────────────────────────────────────────
//  The clauses
// ─────────────────────────────────────────────────────────────

/// The dependency groups a package needs met: `Pre-Depends`, `Depends` and, unless they
/// are off, `Recommends`.
pub open spec fn dep_groups_of(p: &Package, no_rec: bool) -> Seq<Seq<DepSpec>> {
    field_groups(p.pre_depends) + field_groups(p.depends) + if no_rec {
        Seq::empty()
    } else {
        field_groups(p.recommends)
    }
}

/// The packages that meet any alternative of a group, alternative by alternative.
pub open spec fn group_cands(pkgs: Seq<&Package>, prov: Seq<(Seq<char>, usize)>, alts: Seq<DepSpec>) -> Seq<usize>
    decreases alts.len(),
{
    if alts.len() == 0 {
        Seq::empty()
    } else {
        group_cands(pkgs, prov, alts.drop_last()) + cands(pkgs, prov, alts.last())
    }
}

/// Each index as a positive literal.
pub open spec fn positives(c: Seq<usize>) -> Seq<Lit>
    decreases c.len(),
{
    if c.len() == 0 {
        Seq::empty()
    } else {
        positives(c.drop_last()).push((c.last(), true))
    }
}

/// For package `i`, one clause per group that some package meets: not `i`, or one of
/// those packages.
pub open spec fn group_clauses(pkgs: Seq<&Package>, prov: Seq<(Seq<char>, usize)>, i: usize, gs: Seq<Seq<DepSpec>>) -> Seq<Seq<Lit>>
    decreases gs.len(),
{
    if gs.len() == 0 {
        Seq::empty()
    } else {
        let rest = group_clauses(pkgs, prov, i, gs.drop_last());
        let c = group_cands(pkgs, prov, gs.last());
        if c.len() > 0 {
            rest.push(seq![(i, false)] + positives(c))
        } else {
            rest
        }
    }
}

/// The dependency clauses of the first `upto` packages.
pub open spec fn dep_clauses(pkgs: Seq<&Package>, prov: Seq<(Seq<char>, usize)>, no_rec: bool, upto: int) -> Seq<Seq<Lit>>
    decreases upto,
{
    if upto <= 0 {
        Seq::empty()
    } else {
        dep_clauses(pkgs, prov, no_rec, upto - 1) + group_clauses(pkgs, prov, (upto - 1) as usize, dep_groups_of(pkgs[upto - 1], no_rec))
    }
}

/// The groups of what a package conflicts with or breaks.
pub open spec fn conflict_groups_of(p: &Package) -> Seq<Seq<DepSpec>> {
    field_groups(p.conflicts) + field_groups(p.breaks)
}

/// For package `i`, a clause excluding it together with each other package of `c`.
pub open spec fn exclusions(i: usize, c: Seq<usize>) -> Seq<Seq<Lit>>
    decreases c.len(),
{
    if c.len() == 0 {
        Seq::empty()
    } else {
        let rest = exclusions(i, c.drop_last());
        if c.last() != i {
            rest.push(seq![(i, false), (c.last(), false)])
        } else {
            rest
        }
    }
}

pub open spec fn alt_exclusions(pkgs: Seq<&Package>, prov: Seq<(Seq<char>, usize)>, i: usize, alts: Seq<DepSpec>) -> Seq<Seq<Lit>>
    decreases alts.len(),
{
    if alts.len() == 0 {
        Seq::empty()
    } else {
        alt_exclusions(pkgs, prov, i, alts.drop_last()) + exclusions(i, cands(pkgs, prov, alts.last()))
    }
}

pub open spec fn group_exclusions(pkgs: Seq<&Package>, prov: Seq<(Seq<char>, usize)>, i: usize, gs: Seq<Seq<DepSpec>>) -> Seq<Seq<Lit>>
    decreases gs.len(),
{
    if gs.len() == 0 {
        Seq::empty()
    } else {
        group_exclusions(pkgs, prov, i, gs.drop_last()) + alt_exclusions(pkgs, prov, i, gs.last())
    }
}

/// The conflict clauses of the first `upto` packages.
pub open spec fn conflict_clauses(pkgs: Seq<&Package>, prov: Seq<(Seq<char>, usize)>, upto: int) -> Seq<Seq<Lit>>
    decreases upto,
{
    if upto <= 0 {
        Seq::empty()
    } else {
        conflict_clauses(pkgs, prov, upto - 1) + group_exclusions(pkgs, prov, (upto - 1) as usize, conflict_groups_of(pkgs[upto - 1]))
    }
}

/// One clause per index that sets it.
pub open spec fn units(v: Seq<usize>) -> Seq<Seq<Lit>>
    decreases v.len(),
{
    if v.len() == 0 {
        Seq::empty()
    } else {
        units(v.drop_last()).push(seq![(v.last(), true)])
    }
}

proof fn lemma_group_clauses_concat(pkgs: Seq<&Package>, prov: Seq<(Seq<char>, usize)>, i: usize, a: Seq<Seq<DepSpec>>, b: Seq<Seq<DepSpec>>)
    ensures
        group_clauses(pkgs, prov, i, a + b) == group_clauses(pkgs, prov, i, a) + group_clauses(pkgs, prov, i, b),
    decreases b.len(),
{
    if b.len() == 0 {
        assert(a + b == a);
        assert(group_clauses(pkgs, prov, i, a) + Seq::<Seq<Lit>>::empty() == group_clauses(pkgs, prov, i, a));
    } else {
        lemma_group_clauses_concat(pkgs, prov, i, a, b.drop_last());
        assert((a + b).drop_last() == a + b.drop_last());
        assert((a + b).last() == b.last());
        let x = group_clauses(pkgs, prov, i, a);
        let y = group_clauses(pkgs, prov, i, b.drop_last());
        let c = group_cands(pkgs, prov, b.last());
        if c.len() > 0 {
            assert(x + y.push(seq![(i, false)] + positives(c)) == (x + y).push(seq![(i, false)] + positives(c)));
        }
    }
}

proof fn lemma_group_exclusions_concat(pkgs: Seq<&Package>, prov: Seq<(Seq<char>, usize)>, i: usize, a: Seq<Seq<DepSpec>>, b: Seq<Seq<DepSpec>>)
    ensures
        group_exclusions(pkgs, prov, i, a + b) == group_exclusions(pkgs, prov, i, a) + group_exclusions(pkgs, prov, i, b),
    decreases b.len(),
{
    if b.len() == 0 {
        assert(a + b == a);
        assert(group_exclusions(pkgs, prov, i, a) + Seq::<Seq<Lit>>::empty() == group_exclusions(pkgs, prov, i, a));
    } else {
        lemma_group_exclusions_concat(pkgs, prov, i, a, b.drop_last());
        assert((a + b).drop_last() == a + b.drop_last());
        assert((a + b).last() == b.last());
        let x = group_exclusions(pkgs, prov, i, a);
        let y = group_exclusions(pkgs, prov, i, b.drop_last());
        let z = alt_exclusions(pkgs, prov, i, b.last());
        assert(x + (y + z) == (x + y) + z);
    }
}

fn field_groups_of(o: &Option<String>) -> (r: Vec<DepGroup>)
    ensures
        groups_view(r@) == field_groups(*o),
{
    match o {
        Some(s) => parse_dep_field(s.as_str()),
        None => {
            let v: Vec<DepGroup> = Vec::new();
            assert(groups_view(v@) == Seq::<Seq<DepSpec>>::empty());
            v
        },
    }
}

impl<'a> SatResolver<'a> {
    /// The packages that meet any alternative of a group.
    fn group_candidates(&self, g: &DepGroup) -> (r: Vec<usize>)
        requires
            self.ready(),
        ensures
            r@ == group_cands(self.pkgs@, prov_view(self.provides@), group_view(*g)),
    {
        let ghost gv = group_view(*g);
        let ghost pv = prov_view(self.provides@);
        let mut out: Vec<usize> = Vec::new();
        let mut k: usize = 0;
        while k < g.alternatives.len()
            invariant
                self.ready(),
                k <= g.alternatives@.len(),
                gv == group_view(*g),
                gv.len() == g.alternatives@.len(),
                pv == prov_view(self.provides@),
                out@ == group_cands(self.pkgs@, pv, gv.take(k as int)),
            decreases g.alternatives.len() - k,
        {
            assert(gv.take(k + 1).drop_last() == gv.take(k as int));
            assert(gv.take(k + 1).last() == gv[k as int]);
            assert(gv[k as int] == crate::package::dep_view(g.alternatives@[k as int]));
            let c = self.candidates(&g.alternatives[k]);
            let mut j: usize = 0;
            let ghost base = out@;
            while j < c.len()
                invariant
                    j <= c@.len(),
                    out@ == base + c@.take(j as int),
                decreases c.len() - j,
            {
                out.push(c[j]);
                assert(c@.take(j + 1) == c@.take(j as int).push(c@[j as int]));
                j = j + 1;
            }
            assert(c@.take(c@.len() as int) == c@);
            k = k + 1;
        }
        assert(gv.take(g.alternatives@.len() as int) == gv);
        out
    }

    /// Appends the dependency clauses of package `i` for the groups.
    fn push_group_clauses(&self, i: usize, groups: &Vec<DepGroup>, out: &mut Vec<Vec<Lit>>)
        requires
            self.ready(),
        ensures
            formula_view(final(out)@) == formula_view(old(out)@) + group_clauses(self.pkgs@, prov_view(self.provides@), i, groups_view(groups@)),
    {
        let ghost gv = groups_view(groups@);
        let ghost pv = prov_view(self.provides@);
        let ghost start = formula_view(out@);
        let mut g: usize = 0;
        assert(start + Seq::<Seq<Lit>>::empty() == start);
        while g < groups.len()
            invariant
                self.ready(),
                g <= groups@.len(),
                gv == groups_view(groups@),
                gv.len() == groups@.len(),
                pv == prov_view(self.provides@),
                formula_view(out@) == start + group_clauses(self.pkgs@, pv, i, gv.take(g as int)),
            decreases groups.len() - g,
        {
            assert(gv.take(g + 1).drop_last() == gv.take(g as int));
            assert(gv.take(g + 1).last() == gv[g as int]);
            assert(gv[g as int] == group_view(groups@[g as int]));
            let c = self.group_candidates(&groups[g]);
            if c.len() > 0 {
                let mut clause: Vec<Lit> = Vec::new();
                clause.push((i, false));
                let mut j: usize = 0;
                assert(c@.take(0) == Seq::<usize>::empty());
                while j < c.len()
                    invariant
                        j <= c@.len(),
                        clause@ == seq![(i, false)] + positives(c@.take(j as int)),
                    decreases c.len() - j,
                {
                    assert(c@.take(j + 1).drop_last() == c@.take(j as int));
                    assert(c@.take(j + 1).last() == c@[j as int]);
                    clause.push((c[j], true));
                    assert(seq![(i, false)] + positives(c@.take(j as int)).push((c@[j as int], true)) == (seq![(i, false)] + positives(c@.take(j as int))).push((c@[j as int], true)));
                    j = j + 1;
                }
                assert(c@.take(c@.len() as int) == c@);
                let ghost before = out@;
                out.push(clause);
                proof {
                    let prev = group_clauses(self.pkgs@, pv, i, gv.take(g as int));
                    let cl = seq![(i, false)] + positives(c@);
                    assert(formula_view(out@) == formula_view(before).push(cl));
                    assert(start + prev.push(cl) == (start + prev).push(cl));
                }
            }
            g = g + 1;
        }
        assert(gv.take(groups@.len() as int) == gv);
    }

    /// Appends the conflict clauses of package `i` for the groups.
    fn push_exclusions(&self, i: usize, groups: &Vec<DepGroup>, out: &mut Vec<Vec<Lit>>)
        requires
            self.ready(),
        ensures
            formula_view(final(out)@) == formula_view(old(out)@) + group_exclusions(self.pkgs@, prov_view(self.provides@), i, groups_view(groups@)),
    {
        let ghost gv = groups_view(groups@);
        let ghost pv = prov_view(self.provides@);
        let ghost start = formula_view(out@);
        let mut g: usize = 0;
        assert(start + Seq::<Seq<Lit>>::empty() == start);
        while g < groups.len()
            invariant
                self.ready(),
                g <= groups@.len(),
                gv == groups_view(groups@),
                gv.len() == groups@.len(),
                pv == prov_view(self.provides@),
                formula_view(out@) == start + group_exclusions(self.pkgs@, pv, i, gv.take(g as int)),
            decreases groups.len() - g,
        {
            assert(gv.take(g + 1).drop_last() == gv.take(g as int));
            assert(gv.take(g + 1).last() == gv[g as int]);
            let ghost av = gv[g as int];
            assert(av == group_view(groups@[g as int]));
            let ghost mid = formula_view(out@);
            let alts = &groups[g].alternatives;
            let mut k: usize = 0;
            assert(mid + Seq::<Seq<Lit>>::empty() == mid);
            while k < alts.len()
                invariant
                    self.ready(),
                    k <= alts@.len(),
                    alts@ == groups@[g as int].alternatives@,
                    av == group_view(groups@[g as int]),
                    av.len() == alts@.len(),
                    pv == prov_view(self.provides@),
                    formula_view(out@) == mid + alt_exclusions(self.pkgs@, pv, i, av.take(k as int)),
                decreases alts.len() - k,
            {
                assert(av.take(k + 1).drop_last() == av.take(k as int));
                assert(av.take(k + 1).last() == av[k as int]);
                assert(av[k as int] == crate::package::dep_view(alts@[k as int]));
                let c = self.candidates(&alts[k]);
                let ghost mid2 = formula_view(out@);
                let mut j: usize = 0;
                assert(c@.take(0) == Seq::<usize>::empty());
                assert(mid2 + Seq::<Seq<Lit>>::empty() == mid2);
                while j < c.len()
                    invariant
                        j <= c@.len(),
                        formula_view(out@) == mid2 + exclusions(i, c@.take(j as int)),
                    decreases c.len() - j,
                {
                    assert(c@.take(j + 1).drop_last() == c@.take(j as int));
                    assert(c@.take(j + 1).last() == c@[j as int]);
                    if c[j] != i {
                        let ghost before = out@;
                        let mut pair: Vec<Lit> = Vec::new();
                        pair.push((i, false));
                        pair.push((c[j], false));
                        out.push(pair);
                        proof {
                            let e = seq![(i, false), (c@[j as int], false)];
                            assert(pair@ == e);
                            assert(formula_view(out@) == formula_view(before).push(e));
                            let prev = exclusions(i, c@.take(j as int));
                            assert(mid2 + prev.push(e) == (mid2 + prev).push(e));
                        }
                    }
                    j = j + 1;
                }
                assert(c@.take(c@.len() as int) == c@);
                proof {
                    let x = alt_exclusions(self.pkgs@, pv, i, av.take(k as int));
                    let y = exclusions(i, c@);
                    assert(mid + x + y == mid + (x + y));
                }
                k = k + 1;
            }
            assert(av.take(alts@.len() as int) == av);
            proof {
                let x = group_exclusions(self.pkgs@, pv, i, gv.take(g as int));
                let y = alt_exclusions(self.pkgs@, pv, i, av);
                assert(start + x + y == start + (x + y));
            }
            g = g + 1;
        }
        assert(gv.take(groups@.len() as int) == gv);
    }
}

// ─────────────────────────────────────────────────────────────
//  The formula of a request
// ─────────────────────────────────────────────────────────────

/// The variables of the installed packages that the index has, in the order of the
/// records.
pub open spec fn installed_vars(pkgs: Seq<&Package>, rows: Seq<InstalledPackage>) -> Seq<usize>
    decreases rows.len(),
{
    if rows.len() == 0 {
        Seq::empty()
    } else {
        let rest = installed_vars(pkgs, rows.drop_last());
        match direct_index(pkgs, rows.last().name@) {
            Some(i) => rest.push(i),
            None => rest,
        }
    }
}

/// The first package that provides `n`.
pub open spec fn first_provider(prov: Seq<(Seq<char>, usize)>, n: Seq<char>) -> Option<usize>
    decreases prov.len(),
{
    if prov.len() == 0 {
        None
    } else if prov[0].0 == n {
        Some(prov[0].1)
    } else {
        first_provider(prov.drop_first(), n)
    }
}

/// The variable a requested name stands for: the package of that name, else its first
/// provider.
pub open spec fn request_var(pkgs: Seq<&Package>, prov: Seq<(Seq<char>, usize)>, n: Seq<char>) -> Option<usize> {
    match direct_index(pkgs, n) {
        Some(i) => Some(i),
        None => first_provider(prov, n),
    }
}

/// The whole formula: dependency clauses, conflict clauses, the requested packages and the
/// installed packages.
pub open spec fn formula_for(pkgs: Seq<&Package>, prov: Seq<(Seq<char>, usize)>, no_rec: bool, req: Seq<usize>, inst: Seq<usize>) -> Seq<Seq<Lit>> {
    dep_clauses(pkgs, prov, no_rec, pkgs.len() as int) + conflict_clauses(pkgs, prov, pkgs.len() as int) + units(req) + units(inst)
}

proof fn lemma_units_push(v: Seq<usize>, x: usize)
    ensures
        units(v.push(x)) == units(v).push(seq![(x, true)]),
{
    assert(v.push(x).drop_last() == v);
}

impl<'a> SatResolver<'a> {
    /// The variables of the installed packages.
    fn installed_indices(&self) -> (r: Vec<usize>)
        requires
            self.ready(),
        ensures
            r@ == installed_vars(self.pkgs@, self.db.rows()),
    {
        let rows = self.db.list_all();
        let mut out: Vec<usize> = Vec::new();
        let mut k: usize = 0;
        assert(rows@.take(0) == Seq::<InstalledPackage>::empty());
        while k < rows.len()
            invariant
                k <= rows@.len(),
                rows@ == self.db.rows(),
                out@ == installed_vars(self.pkgs@, rows@.take(k as int)),
            decreases rows.len() - k,
        {
            assert(rows@.take(k + 1).drop_last() == rows@.take(k as int));
            assert(rows@.take(k + 1).last() == rows@[k as int]);
            match self.direct(rows[k].name.as_str()) {
                Some(i) => out.push(i),
                None => {},
            }
            k = k + 1;
        }
        assert(rows@.take(rows@.len() as int) == rows@);
        out
    }

    /// The variable a requested name stands for.
    fn request_index(&self, n: &str) -> (r: Option<usize>)
        requires
            self.ready(),
        ensures
            r == request_var(self.pkgs@, prov_view(self.provides@), n@),
    {
        match self.direct(n) {
            Some(i) => Some(i),
            None => {
                let ghost pv = prov_view(self.provides@);
                let nc = crate::text::chars_of(n);
                let mut k: usize = 0;
                assert(pv.skip(0) == pv);
                while k < self.provides.len()
                    invariant
                        k <= self.provides@.len(),
                        pv == prov_view(self.provides@),
                        nc@ == n@,
                        first_provider(pv, n@) == first_provider(pv.skip(k as int), n@),
                        direct_index(self.pkgs@, n@) is None,
                    decreases self.provides.len() - k,
                {
                    assert(pv.skip(k as int).drop_first() == pv.skip(k + 1));
                    assert(pv.skip(k as int)[0] == (self.provides@[k as int].0@, self.provides@[k as int].1));
                    if crate::text::chars_eq(&crate::text::chars_of(self.provides[k].0.as_str()), &nc) {
                        assert(pv.skip(k as int).len() > 0);
                        assert(first_provider(pv.skip(k as int), n@) == Some(self.provides@[k as int].1));
                        return Some(self.provides[k].1);
                    }
                    k = k + 1;
                }
                assert(pv.skip(k as int).len() == 0);
                None
            },
        }
    }

    /// The formula for the requested variables.
    fn build_formula(&self, req: &Vec<usize>, no_recommends: bool) -> (r: Vec<Vec<Lit>>)
        requires
            self.ready(),
        ensures
            formula_view(r@) == formula_for(self.pkgs@, prov_view(self.provides@), no_recommends, req@, installed_vars(self.pkgs@, self.db.rows())),
    {
        let ghost pv = prov_view(self.provides@);
        let ghost ps = self.pkgs@;
        let mut out: Vec<Vec<Lit>> = Vec::new();
        let mut i: usize = 0;
        assert(formula_view(out@) == Seq::<Seq<Lit>>::empty());
        while i < self.pkgs.len()
            invariant
                self.ready(),
                i <= ps.len(),
                ps == self.pkgs@,
                pv == prov_view(self.provides@),
                formula_view(out@) == dep_clauses(ps, pv, no_recommends, i as int),
            decreases self.pkgs.len() - i,
        {
            let p = self.pkgs[i];
            let a = field_groups_of(&p.pre_depends);
            let b = field_groups_of(&p.depends);
            let ghost f0 = formula_view(out@);
            self.push_group_clauses(i, &a, &mut out);
            self.push_group_clauses(i, &b, &mut out);
            let ghost ga = groups_view(a@);
            let ghost gb = groups_view(b@);
            proof {
                lemma_group_clauses_concat(ps, pv, i, ga, gb);
            }
            if !no_recommends {
                let c = field_groups_of(&p.recommends);
                self.push_group_clauses(i, &c, &mut out);
                proof {
                    lemma_group_clauses_concat(ps, pv, i, ga + gb, groups_view(c@));
                    assert(dep_groups_of(ps[i as int], no_recommends) == ga + gb + groups_view(c@));
                    let x = group_clauses(ps, pv, i, ga);
                    let y = group_clauses(ps, pv, i, gb);
                    let z = group_clauses(ps, pv, i, groups_view(c@));
                    assert(f0 + x + y + z == f0 + (x + y + z));
                }
            } else {
                proof {
                    assert(dep_groups_of(ps[i as int], no_recommends) == ga + gb + Seq::<Seq<DepSpec>>::empty());
                    assert(ga + gb + Seq::<Seq<DepSpec>>::empty() == ga + gb);
                    let x = group_clauses(ps, pv, i, ga);
                    let y = group_clauses(ps, pv, i, gb);
                    assert(f0 + x + y == f0 + (x + y));
                }
            }
            i = i + 1;
        }
        let ghost d = formula_view(out@);
        let mut i: usize = 0;
        assert(d + Seq::<Seq<Lit>>::empty() == d);
        while i < self.pkgs.len()
            invariant
                self.ready(),
                i <= ps.len(),
                ps == self.pkgs@,
                pv == prov_view(self.provides@),
                formula_view(out@) == d + conflict_clauses(ps, pv, i as int),
            decreases self.pkgs.len() - i,
        {
            let p = self.pkgs[i];
            let a = field_groups_of(&p.conflicts);
            let b = field_groups_of(&p.breaks);
            let ghost f0 = formula_view(out@);
            self.push_exclusions(i, &a, &mut out);
            self.push_exclusions(i, &b, &mut out);
            proof {
                let ga = groups_view(a@);
                let gb = groups_view(b@);
                lemma_group_exclusions_concat(ps, pv, i, ga, gb);
                assert(conflict_groups_of(ps[i as int]) == ga + gb);
                let x = group_exclusions(ps, pv, i, ga);
                let y = group_exclusions(ps, pv, i, gb);
                let prev = conflict_clauses(ps, pv, i as int);
                assert(d + prev + x + y == d + (prev + (x + y)));
            }
            i = i + 1;
        }
        let inst = self.installed_indices();
        let ghost e = formula_view(out@);
        let mut k: usize = 0;
        assert(req@.take(0) == Seq::<usize>::empty());
        assert(e + Seq::<Seq<Lit>>::empty() == e);
        while k < req.len()
            invariant
                k <= req@.len(),
                formula_view(out@) == e + units(req@.take(k as int)),
            decreases req.len() - k,
        {
            let ghost before = out@;
            let mut u: Vec<Lit> = Vec::new();
            u.push((req[k], true));
            out.push(u);
            proof {
                assert(req@.take(k + 1) == req@.take(k as int).push(req@[k as int]));
                lemma_units_push(req@.take(k as int), req@[k as int]);
                assert(formula_view(out@) == formula_view(before).push(seq![(req@[k as int], true)]));
                let prev = units(req@.take(k as int));
                assert(e + prev.push(seq![(req@[k as int], true)]) == (e + prev).push(seq![(req@[k as int], true)]));
            }
            k = k + 1;
        }
        assert(req@.take(req@.len() as int) == req@);
        let ghost f = formula_view(out@);
        let mut k: usize = 0;
        assert(inst@.take(0) == Seq::<usize>::empty());
        assert(f + Seq::<Seq<Lit>>::empty() == f);
        while k < inst.len()
            invariant
                k <= inst@.len(),
                formula_view(out@) == f + units(inst@.take(k as int)),
            decreases inst.len() - k,
        {
            let ghost before = out@;
            let mut u: Vec<Lit> = Vec::new();
            u.push((inst[k], true));
            out.push(u);
            proof {
                assert(inst@.take(k + 1) == inst@.take(k as int).push(inst@[k as int]));
                lemma_units_push(inst@.take(k as int), inst@[k as int]);
                assert(formula_view(out@) == formula_view(before).push(seq![(inst@[k as int], true)]));
                let prev = units(inst@.take(k as int));
                assert(f + prev.push(seq![(inst@[k as int], true)]) == (f + prev).push(seq![(inst@[k as int], true)]));
            }
            k = k + 1;
        }
        assert(inst@.take(inst@.len() as int) == inst@);
        out
    }
}

// ─────────────────────────────────────────────────────────────
//  Bounds
// ─────────────────────────────────────────────────────────────

/// Every index in `v` is below `n`.
pub open spec fn below(v: Seq<usize>, n: int) -> bool {
    forall|k: int| 0 <= k < v.len() ==> (#[trigger] v[k] as int) < n
}

proof fn lemma_tagged_below(ns: Seq<Seq<char>>, i: usize, n: int)
    requires
        i < n,
    ensures
        forall|k: int| 0 <= k < tagged(ns, i).len() ==> (#[trigger] tagged(ns, i)[k]).1 == i,
    decreases ns.len(),
{
    if ns.len() > 0 {
        lemma_tagged_below(ns.drop_last(), i, n);
        let t = tagged(ns.drop_last(), i);
        assert forall|k: int| 0 <= k < tagged(ns, i).len() implies (#[trigger] tagged(ns, i)[k]).1 == i by {
            if k < t.len() {
                assert(tagged(ns, i)[k] == t[k]);
            }
        }
    }
}

proof fn lemma_provides_below(pkgs: Seq<&Package>, upto: int)
    requires
        upto <= pkgs.len() <= usize::MAX,
    ensures
        forall|k: int| 0 <= k < provides_of(pkgs, upto).len() ==> ((#[trigger] provides_of(pkgs, upto)[k]).1 as int) < upto,
    decreases upto,
{
    if upto > 0 {
        lemma_provides_below(pkgs, upto - 1);
        let a = provides_of(pkgs, upto - 1);
        let t = tagged(alt_names(field_groups(pkgs[upto - 1].provides)), (upto - 1) as usize);
        lemma_tagged_below(alt_names(field_groups(pkgs[upto - 1].provides)), (upto - 1) as usize, upto);
        assert forall|k: int| 0 <= k < provides_of(pkgs, upto).len() implies ((#[trigger] provides_of(pkgs, upto)[k]).1 as int) < upto by {
            if k < a.len() {
                assert(provides_of(pkgs, upto)[k] == a[k]);
            } else {
                assert(provides_of(pkgs, upto)[k] == t[k - a.len()]);
            }
        }
    }
}

proof fn lemma_add_providers_below(acc: Seq<usize>, prov: Seq<(Seq<char>, usize)>, nm: Seq<char>, n: int)
    requires
        below(acc, n),
        forall|k: int| 0 <= k < prov.len() ==> ((#[trigger] prov[k]).1 as int) < n,
    ensures
        below(add_providers(acc, prov, nm), n),
    decreases prov.len(),
{
    if prov.len() > 0 {
        let a = if prov[0].0 == nm && !acc.contains(prov[0].1) {
            acc.push(prov[0].1)
        } else {
            acc
        };
        assert(below(a, n)) by {
            assert(prov[0].1 < n);
            assert forall|k: int| 0 <= k < a.len() implies (#[trigger] a[k] as int) < n by {
                if k < acc.len() {
                    assert(a[k] == acc[k]);
                }
            }
        }
        assert forall|k: int| 0 <= k < prov.drop_first().len() implies ((#[trigger] prov.drop_first()[k]).1 as int) < n by {
            assert(prov.drop_first()[k] == prov[k + 1]);
        }
        lemma_add_providers_below(a, prov.drop_first(), nm, n);
    }
}

impl<'a> SatResolver<'a> {
    /// Every candidate is a package of the index.
    proof fn lemma_cands_below(&self, d: DepSpec)
        requires
            self.ready(),
        ensures
            below(cands(self.pkgs@, prov_view(self.provides@), d), self.pkgs@.len() as int),
    {
        let ps = self.pkgs@;
        lemma_direct_bound(ps, d.name);
        lemma_provides_below(ps, ps.len() as int);
        let start = match direct_index(ps, d.name) {
            Some(i) => if version_ok(ps[i as int].version@, d.constraint) {
                seq![i]
            } else {
                Seq::empty()
            },
            None => Seq::empty(),
        };
        assert(below(start, ps.len() as int));
        lemma_add_providers_below(start, prov_view(self.provides@), d.name, ps.len() as int);
    }
}


// ─────────────────────────────────────────────────────────────
//  What the requested and installed packages need
// ─────────────────────────────────────────────────────────────

/// The first candidate whose package is installed.
pub open spec fn first_installed_cand(pkgs: Seq<&Package>, db: InstalledDb, c: Seq<usize>) -> Option<usize>
    decreases c.len(),
{
    if c.len() == 0 {
        None
    } else if db.lookup(pkgs[c[0] as int].name@) is Some {
        Some(c[0])
    } else {
        first_installed_cand(pkgs, db, c.drop_first())
    }
}

/// The package a dependency group leads to: the first alternative that some package
/// meets, and among its candidates an installed one, else the first.
pub open spec fn pick(pkgs: Seq<&Package>, prov: Seq<(Seq<char>, usize)>, db: InstalledDb, alts: Seq<DepSpec>) -> Option<usize>
    decreases alts.len(),
{
    if alts.len() == 0 {
        None
    } else {
        let c = cands(pkgs, prov, alts[0]);
        if c.len() > 0 {
            match first_installed_cand(pkgs, db, c) {
                Some(x) => Some(x),
                None => Some(c[0]),
            }
        } else {
            pick(pkgs, prov, db, alts.drop_first())
        }
    }
}

/// The packages the groups lead to, in the order of the groups.
pub open spec fn picks(pkgs: Seq<&Package>, prov: Seq<(Seq<char>, usize)>, db: InstalledDb, gs: Seq<Seq<DepSpec>>) -> Seq<usize>
    decreases gs.len(),
{
    if gs.len() == 0 {
        Seq::empty()
    } else {
        let rest = picks(pkgs, prov, db, gs.drop_last());
        match pick(pkgs, prov, db, gs.last()) {
            Some(x) => rest.push(x),
            None => rest,
        }
    }
}

/// What package `i` needs: the packages its pre-dependencies and dependencies lead to.
pub open spec fn needs(pkgs: Seq<&Package>, prov: Seq<(Seq<char>, usize)>, db: InstalledDb, i: usize) -> Seq<usize> {
    picks(pkgs, prov, db, field_groups(pkgs[i as int].pre_depends) + field_groups(pkgs[i as int].depends))
}

/// A set of packages holds the forced ones and what each of its members needs.
pub open spec fn closed_set(pkgs: Seq<&Package>, prov: Seq<(Seq<char>, usize)>, db: InstalledDb, forced: Seq<usize>, s: Set<usize>) -> bool {
    &&& forall|k: int| 0 <= k < forced.len() ==> s.contains(#[trigger] forced[k])
    &&& forall|i: usize, k: int| s.contains(i) && i < pkgs.len() && 0 <= k < needs(pkgs, prov, db, i).len() ==> s.contains(#[trigger] needs(pkgs, prov, db, i)[k])
}

/// The packages a vector of marks marks.
pub open spec fn marked(m: Seq<bool>) -> Set<usize> {
    Set::new(|i: usize| i < m.len() && m[i as int])
}

/// How many marks are set.
pub open spec fn count_true(m: Seq<bool>) -> nat
    decreases m.len(),
{
    if m.len() == 0 {
        0
    } else {
        count_true(m.drop_last()) + if m.last() { 1nat } else { 0nat }
    }
}

proof fn lemma_count_bound(m: Seq<bool>)
    ensures
        count_true(m) <= m.len(),
    decreases m.len(),
{
    if m.len() > 0 {
        lemma_count_bound(m.drop_last());
    }
}

proof fn lemma_count_set(m: Seq<bool>, k: int)
    requires
        0 <= k < m.len(),
        !m[k],
    ensures
        count_true(m.update(k, true)) == count_true(m) + 1,
    decreases m.len(),
{
    let u = m.update(k, true);
    if k == m.len() - 1 {
        assert(u.drop_last() == m.drop_last());
    } else {
        assert(u.drop_last() == m.drop_last().update(k, true));
        lemma_count_set(m.drop_last(), k);
    }
}

proof fn lemma_picks_concat(pkgs: Seq<&Package>, prov: Seq<(Seq<char>, usize)>, db: InstalledDb, a: Seq<Seq<DepSpec>>, b: Seq<Seq<DepSpec>>)
    ensures
        picks(pkgs, prov, db, a + b) == picks(pkgs, prov, db, a) + picks(pkgs, prov, db, b),
    decreases b.len(),
{
    if b.len() == 0 {
        assert(a + b == a);
    } else {
        assert((a + b).drop_last() == a + b.drop_last());
        assert((a + b).last() == b.last());
        lemma_picks_concat(pkgs, prov, db, a, b.drop_last());
    }
}

impl<'a> SatResolver<'a> {
    /// The first of the candidates whose package is installed.
    fn installed_cand(&self, c: &Vec<usize>) -> (r: Option<usize>)
        requires
            self.ready(),
            below(c@, self.pkgs@.len() as int),
        ensures
            r == first_installed_cand(self.pkgs@, *self.db, c@),
            r matches Some(x) ==> c@.contains(x),
    {
        let mut k: usize = 0;
        assert(c@.skip(0) == c@);
        while k < c.len()
            invariant
                self.ready(),
                k <= c@.len(),
                below(c@, self.pkgs@.len() as int),
                first_installed_cand(self.pkgs@, *self.db, c@) == first_installed_cand(self.pkgs@, *self.db, c@.skip(k as int)),
            decreases c.len() - k,
        {
            assert(c@.skip(k as int).drop_first() == c@.skip(k + 1));
            assert(c@.skip(k as int)[0] == c@[k as int]);
            let j = c[k];
            assert(j < self.pkgs@.len());
            if self.db.is_installed(self.pkgs[j].name.as_str()) {
                return Some(j);
            }
            k = k + 1;
        }
        None
    }

    /// The package a dependency group leads to.
    fn pick_group(&self, g: &DepGroup) -> (r: Option<usize>)
        requires
            self.ready(),
        ensures
            r == pick(self.pkgs@, prov_view(self.provides@), *self.db, group_view(*g)),
            r matches Some(x) ==> x < self.pkgs@.len(),
    {
        let ghost gv = group_view(*g);
        let ghost pv = prov_view(self.provides@);
        let mut k: usize = 0;
        assert(gv.skip(0) == gv);
        while k < g.alternatives.len()
            invariant
                self.ready(),
                k <= g.alternatives@.len(),
                gv == group_view(*g),
                gv.len() == g.alternatives@.len(),
                pv == prov_view(self.provides@),
                pick(self.pkgs@, pv, *self.db, gv) == pick(self.pkgs@, pv, *self.db, gv.skip(k as int)),
            decreases g.alternatives.len() - k,
        {
            assert(gv.skip(k as int).drop_first() == gv.skip(k + 1));
            assert(gv.skip(k as int)[0] == gv[k as int]);
            assert(gv[k as int] == crate::package::dep_view(g.alternatives@[k as int]));
            let c = self.candidates(&g.alternatives[k]);
            if c.len() > 0 {
                proof {
                    self.lemma_cands_below(gv[k as int]);
                }
                match self.installed_cand(&c) {
                    Some(x) => {
                        return Some(x);
                    },
                    None => {
                        return Some(c[0]);
                    },
                }
            }
            k = k + 1;
        }
        None
    }

    /// Appends what the groups lead to.
    fn push_picks(&self, groups: &Vec<DepGroup>, out: &mut Vec<usize>)
        requires
            self.ready(),
            below(old(out)@, self.pkgs@.len() as int),
        ensures
            final(out)@ == old(out)@ + picks(self.pkgs@, prov_view(self.provides@), *self.db, groups_view(groups@)),
            below(final(out)@, self.pkgs@.len() as int),
    {
        let ghost gv = groups_view(groups@);
        let ghost pv = prov_view(self.provides@);
        let ghost start = out@;
        let mut g: usize = 0;
        assert(start + Seq::<usize>::empty() == start);
        while g < groups.len()
            invariant
                self.ready(),
                g <= groups@.len(),
                gv == groups_view(groups@),
                gv.len() == groups@.len(),
                pv == prov_view(self.provides@),
                out@ == start + picks(self.pkgs@, pv, *self.db, gv.take(g as int)),
                below(out@, self.pkgs@.len() as int),
            decreases groups.len() - g,
        {
            assert(gv.take(g + 1).drop_last() == gv.take(g as int));
            assert(gv.take(g + 1).last() == gv[g as int]);
            assert(gv[g as int] == group_view(groups@[g as int]));
            match self.pick_group(&groups[g]) {
                Some(x) => {
                    let ghost before = out@;
                    out.push(x);
                    proof {
                        let prev = picks(self.pkgs@, pv, *self.db, gv.take(g as int));
                        assert(start + prev.push(x) == (start + prev).push(x));
                        assert forall|k: int| 0 <= k < out@.len() implies (#[trigger] out@[k] as int) < self.pkgs@.len() by {
                            if k < before.len() {
                                assert(out@[k] == before[k]);
                            }
                        }
                    }
                },
                None => {},
            }
            g = g + 1;
        }
        assert(gv.take(groups@.len() as int) == gv);
    }

    /// What package `i` needs.
    fn needs_of(&self, i: usize) -> (r: Vec<usize>)
        requires
            self.ready(),
            i < self.pkgs@.len(),
        ensures
            r@ == needs(self.pkgs@, prov_view(self.provides@), *self.db, i),
            below(r@, self.pkgs@.len() as int),
    {
        let p = self.pkgs[i];
        let a = field_groups_of(&p.pre_depends);
        let b = field_groups_of(&p.depends);
        let mut out: Vec<usize> = Vec::new();
        assert(out@ == Seq::<usize>::empty());
        self.push_picks(&a, &mut out);
        self.push_picks(&b, &mut out);
        proof {
            let pv = prov_view(self.provides@);
            lemma_picks_concat(self.pkgs@, pv, *self.db, groups_view(a@), groups_view(b@));
            assert(Seq::<usize>::empty() + picks(self.pkgs@, pv, *self.db, groups_view(a@)) == picks(self.pkgs@, pv, *self.db, groups_view(a@)));
        }
        out
    }

    /// Marks the forced packages and, from them on, what each marked package needs: the
    /// least set that holds the forced packages and is closed under `needs`.
    pub fn needed(&self, forced: &Vec<usize>) -> (r: Vec<bool>)
        requires
            self.ready(),
            below(forced@, self.pkgs@.len() as int),
        ensures
            r@.len() == self.pkgs@.len(),
            closed_set(self.pkgs@, prov_view(self.provides@), *self.db, forced@, marked(r@)),
            forall|s: Set<usize>| #[trigger] closed_set(self.pkgs@, prov_view(self.provides@), *self.db, forced@, s) ==> marked(r@).subset_of(s),
    {
        let ghost pv = prov_view(self.provides@);
        let ghost ps = self.pkgs@;
        let ghost db = *self.db;
        let n = self.pkgs.len();
        let mut marks: Vec<bool> = Vec::new();
        while marks.len() < n
            invariant
                marks@.len() <= n,
                n == ps.len(),
                forall|j: int| 0 <= j < marks@.len() ==> !#[trigger] marks@[j],
                count_true(marks@) == 0,
            decreases n - marks.len(),
        {
            let ghost before = marks@;
            marks.push(false);
            assert(marks@.drop_last() == before);
        }
        let mut queue: Vec<usize> = Vec::new();
        let mut k: usize = 0;
        while k < forced.len()
            invariant
                self.ready(),
                ps == self.pkgs@,
                pv == prov_view(self.provides@),
                db == *self.db,
                n == ps.len(),
                k <= forced@.len(),
                below(forced@, n as int),
                marks@.len() == n,
                queue@.len() == count_true(marks@),
                forall|q: int| 0 <= q < queue@.len() ==> (#[trigger] queue@[q] as int) < n && marks@[queue@[q] as int],
                forall|j: int| 0 <= j < n && #[trigger] marks@[j] ==> exists|q: int| 0 <= q < queue@.len() && queue@[q] == j,
                forall|j: int| 0 <= j < k ==> marks@[#[trigger] forced@[j] as int],
                forall|s: Set<usize>| #[trigger] closed_set(ps, pv, db, forced@, s) ==> marked(marks@).subset_of(s),
            decreases forced.len() - k,
        {
            let f = forced[k];
            assert((forced@[k as int] as int) < n);
            if !marks[f] {
                let ghost before = marks@;
                let ghost qb = queue@;
                proof {
                    lemma_count_set(marks@, f as int);
                }
                marks.set(f, true);
                queue.push(f);
                proof {
                    assert(queue@[qb.len() as int] == f);
                    assert forall|q: int| 0 <= q < queue@.len() implies (#[trigger] queue@[q] as int) < n && marks@[queue@[q] as int] by {
                        if q < qb.len() {
                            assert(queue@[q] == qb[q]);
                        }
                    }
                    assert forall|j: int| 0 <= j < n && #[trigger] marks@[j] implies exists|q: int| 0 <= q < queue@.len() && queue@[q] == j by {
                        if j != f {
                            assert(before[j]);
                            let q = choose|q: int| 0 <= q < qb.len() && qb[q] == j;
                            assert(queue@[q] == j);
                        } else {
                            assert(queue@[qb.len() as int] == j);
                        }
                    }
                    assert forall|s: Set<usize>| #[trigger] closed_set(ps, pv, db, forced@, s) implies marked(marks@).subset_of(s) by {
                        assert(marked(before).subset_of(s));
                        assert(s.contains(forced@[k as int]));
                        assert forall|x: usize| marked(marks@).contains(x) implies s.contains(x) by {
                            if x != f {
                                assert(marked(before).contains(x));
                            }
                        }
                    }
                }
            }
            k = k + 1;
        }
        let mut head: usize = 0;
        while head < queue.len()
            invariant
                self.ready(),
                ps == self.pkgs@,
                pv == prov_view(self.provides@),
                db == *self.db,
                n == ps.len(),
                marks@.len() == n,
                head <= queue@.len(),
                queue@.len() == count_true(marks@),
                below(forced@, n as int),
                forall|q: int| 0 <= q < queue@.len() ==> (#[trigger] queue@[q] as int) < n && marks@[queue@[q] as int],
                forall|j: int| 0 <= j < n && #[trigger] marks@[j] ==> exists|q: int| 0 <= q < queue@.len() && queue@[q] == j,
                forall|j: int| 0 <= j < forced@.len() ==> marks@[#[trigger] forced@[j] as int],
                forall|q: int, t: int| 0 <= q < head && 0 <= t < needs(ps, pv, db, queue@[q]).len() ==> marks@[#[trigger] needs(ps, pv, db, queue@[q])[t] as int],
                forall|q: int| 0 <= q < head ==> below(#[trigger] needs(ps, pv, db, queue@[q]), n as int),
                forall|s: Set<usize>| #[trigger] closed_set(ps, pv, db, forced@, s) ==> marked(marks@).subset_of(s),
            decreases n - head,
        {
            proof {
                lemma_count_bound(marks@);
            }
            let idx = queue[head];
            assert((queue@[head as int] as int) < n);
            let need = self.needs_of(idx);
            let ghost qh = queue@;
            let mut t: usize = 0;
            while t < need.len()
                invariant
                    self.ready(),
                    ps == self.pkgs@,
                    pv == prov_view(self.provides@),
                    db == *self.db,
                    n == ps.len(),
                    marks@.len() == n,
                    head < qh.len(),
                    qh == queue@.take(qh.len() as int),
                    qh.len() <= queue@.len(),
                    idx == qh[head as int],
                    marks@[idx as int],
                    need@ == needs(ps, pv, db, idx),
                    below(need@, n as int),
                    t <= need@.len(),
                    below(forced@, n as int),
                    queue@.len() == count_true(marks@),
                    forall|q: int| 0 <= q < queue@.len() ==> (#[trigger] queue@[q] as int) < n && marks@[queue@[q] as int],
                    forall|j: int| 0 <= j < n && #[trigger] marks@[j] ==> exists|q: int| 0 <= q < queue@.len() && queue@[q] == j,
                    forall|j: int| 0 <= j < forced@.len() ==> marks@[#[trigger] forced@[j] as int],
                    forall|q: int, u: int| 0 <= q < head && 0 <= u < needs(ps, pv, db, queue@[q]).len() ==> marks@[#[trigger] needs(ps, pv, db, queue@[q])[u] as int],
                    forall|u: int| 0 <= u < t ==> marks@[#[trigger] need@[u] as int],
                    forall|q: int| 0 <= q < head ==> below(#[trigger] needs(ps, pv, db, queue@[q]), n as int),
                    forall|s: Set<usize>| #[trigger] closed_set(ps, pv, db, forced@, s) ==> marked(marks@).subset_of(s),
                decreases need.len() - t,
            {
                let d = need[t];
                assert((need@[t as int] as int) < n);
                if !marks[d] {
                    let ghost before = marks@;
                    let ghost qb = queue@;
                    proof {
                        lemma_count_set(marks@, d as int);
                    }
                    marks.set(d, true);
                    queue.push(d);
                    proof {
                        assert(queue@[qb.len() as int] == d);
                        assert(queue@.take(qh.len() as int) == qb.take(qh.len() as int));
                        assert forall|q: int| 0 <= q < queue@.len() implies (#[trigger] queue@[q] as int) < n && marks@[queue@[q] as int] by {
                            if q < qb.len() {
                                assert(queue@[q] == qb[q]);
                            }
                        }
                        assert forall|j: int| 0 <= j < n && #[trigger] marks@[j] implies exists|q: int| 0 <= q < queue@.len() && queue@[q] == j by {
                            if j != d {
                                assert(before[j]);
                                let q = choose|q: int| 0 <= q < qb.len() && qb[q] == j;
                                assert(queue@[q] == j);
                            } else {
                                assert(queue@[qb.len() as int] == j);
                            }
                        }
                        assert forall|q: int, u: int| 0 <= q < head && 0 <= u < needs(ps, pv, db, queue@[q]).len() implies marks@[#[trigger] needs(ps, pv, db, queue@[q])[u] as int] by {
                            assert(queue@[q] == qb[q]);
                            assert(before[needs(ps, pv, db, qb[q])[u] as int]);
                        }
                        assert forall|q: int| 0 <= q < head implies below(#[trigger] needs(ps, pv, db, queue@[q]), n as int) by {
                            assert(queue@[q] == qb[q]);
                        }
                        assert forall|j: int| 0 <= j < forced@.len() implies marks@[#[trigger] forced@[j] as int] by {
                            assert(before[forced@[j] as int]);
                        }
                        assert forall|s: Set<usize>| #[trigger] closed_set(ps, pv, db, forced@, s) implies marked(marks@).subset_of(s) by {
                            assert(marked(before).subset_of(s));
                            assert(marked(before).contains(idx));
                            assert(s.contains(idx));
                            assert(s.contains(needs(ps, pv, db, idx)[t as int]));
                            assert forall|x: usize| marked(marks@).contains(x) implies s.contains(x) by {
                                if x != d {
                                    assert(marked(before).contains(x));
                                }
                            }
                        }
                    }
                }
                t = t + 1;
            }
            proof {
                assert(queue@[head as int] == idx);
                assert forall|q: int, u: int| 0 <= q < head + 1 && 0 <= u < needs(ps, pv, db, queue@[q]).len() implies marks@[#[trigger] needs(ps, pv, db, queue@[q])[u] as int] by {
                    if q == head {
                        assert(need@[u] == needs(ps, pv, db, queue@[q])[u]);
                        assert(marks@[need@[u] as int]);
                    }
                }
                assert forall|q: int| 0 <= q < head + 1 implies below(#[trigger] needs(ps, pv, db, queue@[q]), n as int) by {
                    if q == head {
                        assert(need@ == needs(ps, pv, db, queue@[q]));
                    }
                }
            }
            head = head + 1;
        }
        proof {
            assert forall|k: int| 0 <= k < forced@.len() implies marked(marks@).contains(#[trigger] forced@[k]) by {
                assert(marks@[forced@[k] as int]);
            }
            assert forall|i: usize, t: int| marked(marks@).contains(i) && i < ps.len() && 0 <= t < needs(ps, pv, db, i).len() implies marked(marks@).contains(#[trigger] needs(ps, pv, db, i)[t]) by {
                assert(marks@[i as int]);
                let q = choose|q: int| 0 <= q < queue@.len() && queue@[q] == i as int;
                assert(queue@[q] == i);
                assert(marks@[needs(ps, pv, db, queue@[q])[t] as int]);
                assert(below(needs(ps, pv, db, queue@[q]), n as int));
                let d = needs(ps, pv, db, i)[t];
                assert((d as int) < n);
            }
        }
        marks
    }
}


// ─────────────────────────────────────────────────────────────
//  The plan of a model
// ─────────────────────────────────────────────────────────────

/// The packages a model sets to be installed.
pub open spec fn model_set(model: Seq<Lit>) -> Set<usize> {
    Set::new(|i: usize| model.contains((i, true)))
}

/// The members of `s` below `upto`, in ascending order.
pub open spec fn in_order(s: Set<usize>, upto: nat) -> Seq<usize>
    decreases upto,
{
    if upto == 0 {
        Seq::empty()
    } else {
        let r = in_order(s, (upto - 1) as nat);
        if s.contains((upto - 1) as usize) {
            r.push((upto - 1) as usize)
        } else {
            r
        }
    }
}

/// The chosen packages that are not installed.
pub open spec fn fresh_of(pkgs: Seq<&Package>, db: InstalledDb, v: Seq<usize>) -> Seq<Package>
    decreases v.len(),
{
    if v.len() == 0 {
        Seq::empty()
    } else {
        let r = fresh_of(pkgs, db, v.drop_last());
        let p = *pkgs[v.last() as int];
        if db.lookup(p.name@) is None {
            r.push(p)
        } else {
            r
        }
    }
}

/// The chosen packages that are installed in an older version.
pub open spec fn newer_of(pkgs: Seq<&Package>, db: InstalledDb, v: Seq<usize>) -> Seq<Package>
    decreases v.len(),
{
    if v.len() == 0 {
        Seq::empty()
    } else {
        let r = newer_of(pkgs, db, v.drop_last());
        let p = *pkgs[v.last() as int];
        match db.lookup(p.name@) {
            Some(row) => if version_order(p.version@, row.version@) == 1 {
                r.push(p)
            } else {
                r
            },
            None => r,
        }
    }
}

/// A plan installs the fresh packages of `v` and upgrades its newer ones, in the order of
/// `v`, records the versions it upgrades from, and counts their bytes.
pub open spec fn plan_of(pkgs: Seq<&Package>, db: InstalledDb, v: Seq<usize>, plan: TransactionPlan) -> bool {
    &&& plan.to_install@ == fresh_of(pkgs, db, v)
    &&& plan.to_upgrade@ == newer_of(pkgs, db, v)
    &&& plan.upgrade_from@.len() == plan.to_upgrade@.len()
    &&& forall|k: int| 0 <= k < plan.upgrade_from@.len() ==> {
        &&& #[trigger] plan.upgrade_from@[k].0@ == plan.to_upgrade@[k].name@
        &&& plan.upgrade_from@[k].1@ == db.lookup(plan.to_upgrade@[k].name@)->0.version@
    }
    &&& plan.to_remove@.len() == 0
    &&& plan.to_autoremove@.len() == 0
    &&& plan.warnings@.len() == 0
    &&& plan.download_bytes == download_total(plan.to_install@ + plan.to_upgrade@) % word()
    &&& plan.install_bytes == unpacked_total(plan.to_install@ + plan.to_upgrade@) % word()
    &&& plan.freed_bytes == 0
}

fn model_sets(model: &Vec<Lit>, i: usize) -> (r: bool)
    ensures
        r == model@.contains((i, true)),
{
    let mut k: usize = 0;
    while k < model.len()
        invariant
            k <= model@.len(),
            forall|j: int| 0 <= j < k ==> model@[j] != (i, true),
        decreases model.len() - k,
    {
        if model[k].0 == i && model[k].1 {
            assert(model@[k as int] == (i, true));
            return true;
        }
        k = k + 1;
    }
    false
}

impl<'a> SatResolver<'a> {
    /// The plan for the packages a model sets: each that is not installed is installed,
    /// each installed in an older version is upgraded.
    #[verifier::spinoff_prover]
    pub fn build_plan(&self, model: &Vec<Lit>) -> (plan: TransactionPlan)
        requires
            self.ready(),
        ensures
            plan_of(self.pkgs@, *self.db, in_order(model_set(model@), self.pkgs@.len()), plan),
    {
        let ghost ps = self.pkgs@;
        let ghost db = *self.db;
        let ghost ms = model_set(model@);
        let mut to_install: Vec<Package> = Vec::new();
        let mut to_upgrade: Vec<Package> = Vec::new();
        let mut upgrade_from: Vec<(String, String)> = Vec::new();
        let mut i: usize = 0;
        while i < self.pkgs.len()
            invariant
                self.ready(),
                ps == self.pkgs@,
                db == *self.db,
                ms == model_set(model@),
                i <= ps.len(),
                to_install@ == fresh_of(ps, db, in_order(ms, i as nat)),
                to_upgrade@ == newer_of(ps, db, in_order(ms, i as nat)),
                upgrade_from@.len() == to_upgrade@.len(),
                forall|k: int| 0 <= k < upgrade_from@.len() ==> {
                    &&& #[trigger] upgrade_from@[k].0@ == to_upgrade@[k].name@
                    &&& upgrade_from@[k].1@ == db.lookup(to_upgrade@[k].name@)->0.version@
                },
            decreases self.pkgs.len() - i,
        {
            let ghost v = in_order(ms, i as nat);
            assert(ms.contains(i) == model@.contains((i, true)));
            if model_sets(model, i) {
                let ghost w = in_order(ms, (i + 1) as nat);
                assert(w == v.push(i));
                assert(w.drop_last() == v);
                let p = self.pkgs[i];
                match self.db.get(p.name.as_str()) {
                    Some(row) => {
                        if crate::version::version_sign(p.version.as_str(), row.version.as_str()) == 1 {
                            let ghost before = upgrade_from@;
                            let ghost tb = to_upgrade@;
                            upgrade_from.push((p.name.clone(), row.version.clone()));
                            to_upgrade.push(p.duplicate());
                            proof {
                                assert forall|k: int| 0 <= k < upgrade_from@.len() implies {
                                    &&& #[trigger] upgrade_from@[k].0@ == to_upgrade@[k].name@
                                    &&& upgrade_from@[k].1@ == db.lookup(to_upgrade@[k].name@)->0.version@
                                } by {
                                    if k < before.len() {
                                        assert(upgrade_from@[k] == before[k]);
                                        assert(to_upgrade@[k] == tb[k]);
                                        assert(before[k].0@ == tb[k].name@);
                                    } else {
                                        assert(k == before.len());
                                        assert(to_upgrade@[k] == *p);
                                        assert(upgrade_from@[k].0@ == p.name@);
                                        assert(upgrade_from@[k].1@ == row.version@);
                                        assert(db.lookup(p.name@) == Some(row));
                                        assert(db.lookup(to_upgrade@[k].name@)->0.version@ == row.version@);
                                    }
                                }
                            }
                        }
                    },
                    None => {
                        to_install.push(p.duplicate());
                    },
                }
            } else {
                assert(in_order(ms, (i + 1) as nat) == v);
            }
            i = i + 1;
        }
        assert(in_order(ms, i as nat) == in_order(model_set(model@), self.pkgs@.len()));
        let dl_a = crate::solver::download_bytes_of(&to_install);
        let dl_b = crate::solver::download_bytes_of(&to_upgrade);
        let un_a = crate::solver::unpacked_bytes_of(&to_install);
        let un_b = crate::solver::unpacked_bytes_of(&to_upgrade);
        let download_bytes = crate::solver::add_wrapping(dl_a, dl_b);
        let install_bytes = crate::solver::add_wrapping(un_a, un_b);
        proof {
            crate::solver::lemma_totals_concat(to_install@, to_upgrade@);
            vstd::arithmetic::div_mod::lemma_add_mod_noop(download_total(to_install@), download_total(to_upgrade@), word());
            vstd::arithmetic::div_mod::lemma_add_mod_noop(unpacked_total(to_install@), unpacked_total(to_upgrade@), word());
        }
        let plan = TransactionPlan {
            to_install,
            to_upgrade,
            to_remove: Vec::new(),
            to_autoremove: Vec::new(),
            upgrade_from,
            download_bytes,
            install_bytes,
            freed_bytes: 0,
            warnings: Vec::new(),
        };
        assert(plan.to_remove@.len() == 0 && plan.to_autoremove@.len() == 0 && plan.warnings@.len() == 0);
        let ghost v = in_order(model_set(model@), self.pkgs@.len());
        assert(plan.to_install@ == fresh_of(ps, db, v));
        assert(plan.to_upgrade@ == newer_of(ps, db, v));
        assert(plan.upgrade_from@.len() == plan.to_upgrade@.len());
        assert(forall|k: int| 0 <= k < plan.upgrade_from@.len() ==> {
            &&& #[trigger] plan.upgrade_from@[k].0@ == plan.to_upgrade@[k].name@
            &&& plan.upgrade_from@[k].1@ == db.lookup(plan.to_upgrade@[k].name@)->0.version@
        });
        assert(plan.download_bytes == download_total(plan.to_install@ + plan.to_upgrade@) % word());
        assert(plan.install_bytes == unpacked_total(plan.to_install@ + plan.to_upgrade@) % word());
        assert(plan.freed_bytes == 0);
        assert(plan_of(ps, db, v, plan));
        plan
    }
}


// ─────────────────────────────────────────────────────────────
//  Why a request cannot be met
// ─────────────────────────────────────────────────────────────

/// The line for a dependency group that no package meets.
pub open spec fn missing_line(p: Seq<char>, alts: Seq<DepSpec>) -> Seq<char> {
    "  • '"@ + p + "' requires ["@ + join(names_in(alts), " | "@) + "] — not found in any repository"@
}

/// The lines for the groups of package `p` that no package meets.
pub open spec fn missing_lines(pkgs: Seq<&Package>, prov: Seq<(Seq<char>, usize)>, p: Seq<char>, gs: Seq<Seq<DepSpec>>) -> Seq<Seq<char>>
    decreases gs.len(),
{
    if gs.len() == 0 {
        Seq::empty()
    } else {
        let r = missing_lines(pkgs, prov, p, gs.drop_last());
        if group_cands(pkgs, prov, gs.last()).len() == 0 {
            r.push(missing_line(p, gs.last()))
        } else {
            r
        }
    }
}

/// The lines for the names package `p` conflicts with that are installed.
pub open spec fn held_lines(db: InstalledDb, p: Seq<char>, names: Seq<Seq<char>>) -> Seq<Seq<char>>
    decreases names.len(),
{
    if names.len() == 0 {
        Seq::empty()
    } else {
        let r = held_lines(db, p, names.drop_last());
        if db.lookup(names.last()) is Some {
            r.push("  • '"@ + p + "' conflicts with installed package '"@ + names.last() + "'"@)
        } else {
            r
        }
    }
}

/// The lines for the requested packages, in order: unmet dependencies, then conflicts
/// with installed packages.
pub open spec fn request_lines(pkgs: Seq<&Package>, prov: Seq<(Seq<char>, usize)>, db: InstalledDb, no_rec: bool, req: Seq<usize>) -> Seq<Seq<char>>
    decreases req.len(),
{
    if req.len() == 0 {
        Seq::empty()
    } else {
        let p = *pkgs[req.last() as int];
        request_lines(pkgs, prov, db, no_rec, req.drop_last())
            + missing_lines(pkgs, prov, p.name@, dep_groups_of(&p, no_rec))
            + held_lines(db, p.name@, alt_names(field_groups(p.conflicts)))
    }
}

/// A line for each of `a`'s conflict names that is `b`.
pub open spec fn same_lines(a: Seq<char>, b: Seq<char>, names: Seq<Seq<char>>) -> Seq<Seq<char>>
    decreases names.len(),
{
    if names.len() == 0 {
        Seq::empty()
    } else {
        let r = same_lines(a, b, names.drop_last());
        if names.last() == b {
            r.push("  • '"@ + a + "' conflicts with '"@ + b + "'"@)
        } else {
            r
        }
    }
}

/// The lines for requested package `i` against those after it, up to `upto`.
pub open spec fn row_lines(pkgs: Seq<&Package>, req: Seq<usize>, i: int, upto: nat) -> Seq<Seq<char>>
    decreases upto,
{
    if upto == 0 || upto <= i + 1 {
        Seq::empty()
    } else {
        let a = *pkgs[req[i] as int];
        let b = *pkgs[req[upto - 1] as int];
        row_lines(pkgs, req, i, (upto - 1) as nat) + same_lines(a.name@, b.name@, alt_names(field_groups(a.conflicts)))
    }
}

/// The lines for the pairs of requested packages, the first of the pair below `upto`.
pub open spec fn pair_lines(pkgs: Seq<&Package>, req: Seq<usize>, upto: nat) -> Seq<Seq<char>>
    decreases upto,
{
    if upto == 0 {
        Seq::empty()
    } else {
        pair_lines(pkgs, req, (upto - 1) as nat) + row_lines(pkgs, req, upto - 1, req.len())
    }
}

/// The text that explains why the requested packages cannot be installed together.
pub open spec fn diagnosis(pkgs: Seq<&Package>, prov: Seq<(Seq<char>, usize)>, db: InstalledDb, no_rec: bool, req: Seq<usize>) -> Seq<char> {
    let found = request_lines(pkgs, prov, db, no_rec, req) + pair_lines(pkgs, req, req.len());
    let body = if found.len() == 0 {
        seq!["  • Unknown conflict — try running `lpm update` first"@]
    } else {
        found
    };
    join(seq!["Cannot resolve dependencies. Possible reasons:"@] + body + seq![Seq::<char>::empty(), "Tip: run `lpm search <package>` to check available versions."@], "\n"@)
}

proof fn lemma_views_push(v: Seq<Vec<char>>, x: Vec<char>)
    ensures
        char_views(v.push(x)) == char_views(v).push(x@),
{
    assert(char_views(v.push(x)) =~= char_views(v).push(x@));
}

/// The names of a group's alternatives.
fn names_of_group(g: &DepGroup) -> (r: Vec<Vec<char>>)
    ensures
        char_views(r@) == names_in(group_view(*g)),
{
    let ghost av = group_view(*g);
    let mut out: Vec<Vec<char>> = Vec::new();
    let mut k: usize = 0;
    assert(char_views(out@) =~= Seq::<Seq<char>>::empty());
    while k < g.alternatives.len()
        invariant
            k <= g.alternatives@.len(),
            av == group_view(*g),
            av.len() == g.alternatives@.len(),
            char_views(out@) == names_in(av.take(k as int)),
        decreases g.alternatives.len() - k,
    {
        assert(av.take(k + 1).drop_last() == av.take(k as int));
        assert(av.take(k + 1).last() == av[k as int]);
        assert(av[k as int].name == g.alternatives@[k as int].name@);
        let ghost before = out@;
        out.push(chars_of(g.alternatives[k].name.as_str()));
        proof {
            lemma_views_push(before, out@.last());
        }
        k = k + 1;
    }
    assert(av.take(g.alternatives@.len() as int) == av);
    out
}

/// The names of the alternatives of all groups, in order.
fn names_of_groups(groups: &Vec<DepGroup>) -> (r: Vec<Vec<char>>)
    ensures
        char_views(r@) == alt_names(groups_view(groups@)),
{
    let ghost gv = groups_view(groups@);
    let mut out: Vec<Vec<char>> = Vec::new();
    let mut g: usize = 0;
    assert(char_views(out@) =~= Seq::<Seq<char>>::empty());
    while g < groups.len()
        invariant
            g <= groups@.len(),
            gv == groups_view(groups@),
            gv.len() == groups@.len(),
            char_views(out@) == alt_names(gv.take(g as int)),
        decreases groups.len() - g,
    {
        assert(gv.take(g + 1).drop_last() == gv.take(g as int));
        assert(gv.take(g + 1).last() == gv[g as int]);
        assert(gv[g as int] == group_view(groups@[g as int]));
        let names = names_of_group(&groups[g]);
        let ghost mid = out@;
        let mut k: usize = 0;
        assert(char_views(names@.take(0)) =~= Seq::<Seq<char>>::empty());
        while k < names.len()
            invariant
                k <= names@.len(),
                char_views(out@) == char_views(mid) + char_views(names@.take(k as int)),
            decreases names.len() - k,
        {
            let ghost before = out@;
            out.push(names[k].clone());
            proof {
                lemma_views_push(before, out@.last());
                assert(names@.take(k + 1) == names@.take(k as int).push(names@[k as int]));
                lemma_views_push(names@.take(k as int), names@[k as int]);
                assert(char_views(mid) + char_views(names@.take(k as int)).push(names@[k as int]@) == (char_views(mid) + char_views(names@.take(k as int))).push(names@[k as int]@));
            }
            k = k + 1;
        }
        assert(names@.take(names@.len() as int) == names@);
        g = g + 1;
    }
    assert(gv.take(groups@.len() as int) == gv);
    out
}

/// Appends a line for each of `a`'s conflict names that is `b`.
fn push_same(a: &str, b: &str, names: &Vec<Vec<char>>, lines: &mut Vec<Vec<char>>)
    ensures
        char_views(final(lines)@) == char_views(old(lines)@) + same_lines(a@, b@, char_views(names@)),
{
    let ghost nv = char_views(names@);
    let ghost start = char_views(lines@);
    let mut k: usize = 0;
    assert(start + Seq::<Seq<char>>::empty() == start);
    while k < names.len()
        invariant
            k <= names@.len(),
            nv == char_views(names@),
            nv.len() == names@.len(),
            char_views(lines@) == start + same_lines(a@, b@, nv.take(k as int)),
        decreases names.len() - k,
    {
        assert(nv.take(k + 1).drop_last() == nv.take(k as int));
        assert(nv.take(k + 1).last() == names@[k as int]@);
        if chars_eq_str(&names[k], b) {
            let mut line: Vec<char> = Vec::new();
            extend_str(&mut line, "  • '");
            extend_str(&mut line, a);
            extend_str(&mut line, "' conflicts with '");
            extend_str(&mut line, b);
            extend_str(&mut line, "'");
            let ghost before = lines@;
            lines.push(line);
            proof {
                lemma_views_push(before, lines@.last());
                let prev = same_lines(a@, b@, nv.take(k as int));
                let e = "  • '"@ + a@ + "' conflicts with '"@ + b@ + "'"@;
                assert(lines@.last()@ == e);
                assert(start + prev.push(e) == (start + prev).push(e));
            }
        }
        k = k + 1;
    }
    assert(nv.take(names@.len() as int) == nv);
}

impl<'a> SatResolver<'a> {
    /// Appends a line for each group of package `p` that no package meets.
    fn push_missing(&self, p: &str, groups: &Vec<DepGroup>, lines: &mut Vec<Vec<char>>)
        requires
            self.ready(),
        ensures
            char_views(final(lines)@) == char_views(old(lines)@) + missing_lines(self.pkgs@, prov_view(self.provides@), p@, groups_view(groups@)),
    {
        let ghost gv = groups_view(groups@);
        let ghost pv = prov_view(self.provides@);
        let ghost start = char_views(lines@);
        let mut g: usize = 0;
        assert(start + Seq::<Seq<char>>::empty() == start);
        while g < groups.len()
            invariant
                self.ready(),
                g <= groups@.len(),
                gv == groups_view(groups@),
                gv.len() == groups@.len(),
                pv == prov_view(self.provides@),
                char_views(lines@) == start + missing_lines(self.pkgs@, pv, p@, gv.take(g as int)),
            decreases groups.len() - g,
        {
            assert(gv.take(g + 1).drop_last() == gv.take(g as int));
            assert(gv.take(g + 1).last() == gv[g as int]);
            assert(gv[g as int] == group_view(groups@[g as int]));
            let c = self.group_candidates(&groups[g]);
            if c.len() == 0 {
                let names = names_of_group(&groups[g]);
                assert(char_views(names@) =~= names@.map_values(|q: Vec<char>| q@));
                let joined = join_chars(&names, " | ");
                let mut line: Vec<char> = Vec::new();
                extend_str(&mut line, "  • '");
                extend_str(&mut line, p);
                extend_str(&mut line, "' requires [");
                extend_chars(&mut line, &joined);
                extend_str(&mut line, "] — not found in any repository");
                let ghost before = lines@;
                lines.push(line);
                proof {
                    lemma_views_push(before, lines@.last());
                    let prev = missing_lines(self.pkgs@, pv, p@, gv.take(g as int));
                    let e = missing_line(p@, gv[g as int]);
                    assert(lines@.last()@ == e);
                    assert(start + prev.push(e) == (start + prev).push(e));
                }
            }
            g = g + 1;
        }
        assert(gv.take(groups@.len() as int) == gv);
    }

    /// Appends a line for each of `p`'s conflict names that is installed.
    fn push_held(&self, p: &str, names: &Vec<Vec<char>>, lines: &mut Vec<Vec<char>>)
        requires
            self.ready(),
        ensures
            char_views(final(lines)@) == char_views(old(lines)@) + held_lines(*self.db, p@, char_views(names@)),
    {
        let ghost nv = char_views(names@);
        let ghost start = char_views(lines@);
        let mut k: usize = 0;
        assert(start + Seq::<Seq<char>>::empty() == start);
        while k < names.len()
            invariant
                self.ready(),
                k <= names@.len(),
                nv == char_views(names@),
                nv.len() == names@.len(),
                char_views(lines@) == start + held_lines(*self.db, p@, nv.take(k as int)),
            decreases names.len() - k,
        {
            assert(nv.take(k + 1).drop_last() == nv.take(k as int));
            assert(nv.take(k + 1).last() == names@[k as int]@);
            let n = string_of(&names[k]);
            if self.db.is_installed(n.as_str()) {
                let mut line: Vec<char> = Vec::new();
                extend_str(&mut line, "  • '");
                extend_str(&mut line, p);
                extend_str(&mut line, "' conflicts with installed package '");
                extend_chars(&mut line, &names[k]);
                extend_str(&mut line, "'");
                let ghost before = lines@;
                lines.push(line);
                proof {
                    lemma_views_push(before, lines@.last());
                    let prev = held_lines(*self.db, p@, nv.take(k as int));
                    let e = "  • '"@ + p@ + "' conflicts with installed package '"@ + names@[k as int]@ + "'"@;
                    assert(lines@.last()@ == e);
                    assert(start + prev.push(e) == (start + prev).push(e));
                }
            }
            k = k + 1;
        }
        assert(nv.take(names@.len() as int) == nv);
    }
}


proof fn lemma_missing_concat(pkgs: Seq<&Package>, prov: Seq<(Seq<char>, usize)>, p: Seq<char>, a: Seq<Seq<DepSpec>>, b: Seq<Seq<DepSpec>>)
    ensures
        missing_lines(pkgs, prov, p, a + b) == missing_lines(pkgs, prov, p, a) + missing_lines(pkgs, prov, p, b),
    decreases b.len(),
{
    if b.len() == 0 {
        assert(a + b == a);
    } else {
        assert((a + b).drop_last() == a + b.drop_last());
        assert((a + b).last() == b.last());
        lemma_missing_concat(pkgs, prov, p, a, b.drop_last());
    }
}

impl<'a> SatResolver<'a> {
    /// The text that explains why the requested packages cannot be installed together.
    pub fn diagnose(&self, req: &Vec<usize>, no_recommends: bool) -> (r: String)
        requires
            self.ready(),
            below(req@, self.pkgs@.len() as int),
        ensures
            r@ == diagnosis(self.pkgs@, prov_view(self.provides@), *self.db, no_recommends, req@),
    {
        let ghost ps = self.pkgs@;
        let ghost pv = prov_view(self.provides@);
        let ghost db = *self.db;
        let mut lines: Vec<Vec<char>> = Vec::new();
        lines.push(chars_of("Cannot resolve dependencies. Possible reasons:"));
        let ghost head = char_views(lines@);
        assert(head == seq!["Cannot resolve dependencies. Possible reasons:"@]);
        let mut i: usize = 0;
        assert(req@.take(0) == Seq::<usize>::empty());
        while i < req.len()
            invariant
                self.ready(),
                ps == self.pkgs@,
                pv == prov_view(self.provides@),
                db == *self.db,
                i <= req@.len(),
                below(req@, ps.len() as int),
                char_views(lines@) == head + request_lines(ps, pv, db, no_recommends, req@.take(i as int)),
            decreases req.len() - i,
        {
            assert(req@.take(i + 1).drop_last() == req@.take(i as int));
            assert(req@.take(i + 1).last() == req@[i as int]);
            assert((req@[i as int] as int) < ps.len());
            let p = self.pkgs[req[i]];
            let name = p.name.as_str();
            let ghost f0 = char_views(lines@);
            let a = field_groups_of(&p.pre_depends);
            let b = field_groups_of(&p.depends);
            self.push_missing(name, &a, &mut lines);
            self.push_missing(name, &b, &mut lines);
            let ghost ga = groups_view(a@);
            let ghost gb = groups_view(b@);
            proof {
                lemma_missing_concat(ps, pv, p.name@, ga, gb);
                let x = missing_lines(ps, pv, p.name@, ga);
                let y = missing_lines(ps, pv, p.name@, gb);
                assert(f0 + x + y == f0 + (x + y));
            }
            if !no_recommends {
                let c = field_groups_of(&p.recommends);
                let ghost f1 = char_views(lines@);
                self.push_missing(name, &c, &mut lines);
                proof {
                    lemma_missing_concat(ps, pv, p.name@, ga + gb, groups_view(c@));
                    assert(dep_groups_of(p, no_recommends) == ga + gb + groups_view(c@));
                    let xy = missing_lines(ps, pv, p.name@, ga + gb);
                    let z = missing_lines(ps, pv, p.name@, groups_view(c@));
                    assert(f0 + xy + z == f0 + (xy + z));
                }
            } else {
                proof {
                    assert(dep_groups_of(p, no_recommends) == ga + gb + Seq::<Seq<DepSpec>>::empty());
                    assert(ga + gb + Seq::<Seq<DepSpec>>::empty() == ga + gb);
                }
            }
            let ghost f2 = char_views(lines@);
            let cg = field_groups_of(&p.conflicts);
            let cn = names_of_groups(&cg);
            self.push_held(name, &cn, &mut lines);
            proof {
                let m = missing_lines(ps, pv, p.name@, dep_groups_of(p, no_recommends));
                let h = held_lines(db, p.name@, alt_names(field_groups(p.conflicts)));
                let prev = request_lines(ps, pv, db, no_recommends, req@.take(i as int));
                assert(f2 == head + prev + m);
                assert(head + prev + m + h == head + (prev + m + h));
            }
            i = i + 1;
        }
        assert(req@.take(req@.len() as int) == req@);
        let ghost mid = char_views(lines@);
        let mut i: usize = 0;
        assert(mid + Seq::<Seq<char>>::empty() == mid);
        while i < req.len()
            invariant
                self.ready(),
                ps == self.pkgs@,
                i <= req@.len(),
                below(req@, ps.len() as int),
                char_views(lines@) == mid + pair_lines(ps, req@, i as nat),
            decreases req.len() - i,
        {
            assert((req@[i as int] as int) < ps.len());
            let a = self.pkgs[req[i]];
            let cg = field_groups_of(&a.conflicts);
            let cn = names_of_groups(&cg);
            let ghost m0 = char_views(lines@);
            let mut j: usize = i + 1;
            assert(m0 + Seq::<Seq<char>>::empty() == m0);
            while j < req.len()
                invariant
                    ps == self.pkgs@,
                    i < j <= req@.len(),
                    below(req@, ps.len() as int),
                    a == ps[req@[i as int] as int],
                    char_views(cn@) == alt_names(field_groups(a.conflicts)),
                    char_views(lines@) == m0 + row_lines(ps, req@, i as int, j as nat),
                decreases req.len() - j,
            {
                assert((req@[j as int] as int) < ps.len());
                let b = self.pkgs[req[j]];
                let ghost before = char_views(lines@);
                push_same(a.name.as_str(), b.name.as_str(), &cn, &mut lines);
                proof {
                    let prev = row_lines(ps, req@, i as int, j as nat);
                    let x = same_lines(a.name@, b.name@, alt_names(field_groups(a.conflicts)));
                    assert(row_lines(ps, req@, i as int, (j + 1) as nat) == prev + x);
                    assert(m0 + prev + x == m0 + (prev + x));
                }
                j = j + 1;
            }
            proof {
                let prev = pair_lines(ps, req@, i as nat);
                let x = row_lines(ps, req@, i as int, req@.len());
                assert(pair_lines(ps, req@, (i + 1) as nat) == prev + x);
                assert(mid + prev + x == mid + (prev + x));
            }
            i = i + 1;
        }
        let ghost found = request_lines(ps, pv, db, no_recommends, req@) + pair_lines(ps, req@, req@.len());
        assert(char_views(lines@) == head + found);
        if lines.len() == 1 {
            assert(found.len() == 0);
            let ghost before = lines@;
            lines.push(chars_of("  • Unknown conflict — try running `lpm update` first"));
            proof {
                lemma_views_push(before, lines@.last());
            }
        }
        let ghost body = if found.len() == 0 {
            seq!["  • Unknown conflict — try running `lpm update` first"@]
        } else {
            found
        };
        assert(char_views(lines@) == seq!["Cannot resolve dependencies. Possible reasons:"@] + body);
        let ghost before = lines@;
        lines.push(Vec::new());
        proof {
            lemma_views_push(before, lines@.last());
        }
        let ghost before2 = lines@;
        lines.push(chars_of("Tip: run `lpm search <package>` to check available versions."));
        proof {
            lemma_views_push(before2, lines@.last());
            assert(char_views(lines@) == seq!["Cannot resolve dependencies. Possible reasons:"@] + body + seq![Seq::<char>::empty(), "Tip: run `lpm search <package>` to check available versions."@]);
            assert(char_views(lines@) =~= lines@.map_values(|q: Vec<char>| q@));
        }
        let text = join_chars(&lines, "\n");
        string_of(&text)
    }
}


// ─────────────────────────────────────────────────────────────
//  Resolving a request
// ─────────────────────────────────────────────────────────────

/// Why the SAT resolver refuses a request.
#[derive(Debug)]
pub enum SatError {
    /// The package index is empty.
    CacheEmpty,
    /// A requested name is neither a package nor provided by one.
    NotFound(String),
    /// The SAT solver failed; its own message.
    Solver(String),
    /// The requested packages cannot be installed together; the text says why.
    Unsat(String),
}

/// The text of an error, as shown to the user.
pub open spec fn sat_error_text(e: SatError) -> Seq<char> {
    match e {
        SatError::CacheEmpty => "Package cache is empty. Run `lpm update` first."@,
        SatError::NotFound(n) => "Package '"@ + n@ + "' not found. Run `lpm update` and check the name."@,
        SatError::Solver(m) => "SAT error: "@ + m@,
        SatError::Unsat(m) => m@,
    }
}

impl SatError {
    /// The text of the error.
    pub fn message(&self) -> (r: String)
        ensures
            r@ == sat_error_text(*self),
    {
        let mut v: Vec<char> = Vec::new();
        match self {
            SatError::CacheEmpty => {
                extend_str(&mut v, "Package cache is empty. Run `lpm update` first.");
            },
            SatError::NotFound(n) => {
                extend_str(&mut v, "Package '");
                extend_str(&mut v, n.as_str());
                extend_str(&mut v, "' not found. Run `lpm update` and check the name.");
            },
            SatError::Solver(m) => {
                extend_str(&mut v, "SAT error: ");
                extend_str(&mut v, m.as_str());
            },
            SatError::Unsat(m) => {
                extend_str(&mut v, m.as_str());
            },
        }
        proof {
            assert(v@ =~= sat_error_text(*self));
        }
        string_of(&v)
    }
}

/// The index of the first requested name that stands for no package.
pub open spec fn first_unfound(pkgs: Seq<&Package>, prov: Seq<(Seq<char>, usize)>, req: Seq<Seq<char>>) -> Option<int>
    decreases req.len(),
{
    if req.len() == 0 {
        None
    } else {
        match first_unfound(pkgs, prov, req.drop_last()) {
            Some(k) => Some(k),
            None => if request_var(pkgs, prov, req.last()) is None {
                Some(req.len() - 1)
            } else {
                None
            },
        }
    }
}

/// The variables the requested names stand for.
pub open spec fn request_vars(pkgs: Seq<&Package>, prov: Seq<(Seq<char>, usize)>, req: Seq<Seq<char>>) -> Seq<usize>
    decreases req.len(),
{
    if req.len() == 0 {
        Seq::empty()
    } else {
        request_vars(pkgs, prov, req.drop_last()).push(request_var(pkgs, prov, req.last())->0)
    }
}

/// The least set that holds the forced packages and what each of its members needs.
pub open spec fn least_closed(pkgs: Seq<&Package>, prov: Seq<(Seq<char>, usize)>, db: InstalledDb, forced: Seq<usize>) -> Set<usize> {
    Set::new(|i: usize| forall|s: Set<usize>| #[trigger] closed_set(pkgs, prov, db, forced, s) ==> s.contains(i))
}

proof fn lemma_in_order_ext(a: Set<usize>, b: Set<usize>, upto: nat)
    requires
        upto <= usize::MAX + 1,
        forall|i: usize| (i as int) < upto ==> (a.contains(i) <==> b.contains(i)),
    ensures
        in_order(a, upto) == in_order(b, upto),
    decreases upto,
{
    if upto > 0 {
        lemma_in_order_ext(a, b, (upto - 1) as nat);
        assert(a.contains((upto - 1) as usize) == b.contains((upto - 1) as usize));
    }
}

impl<'a> SatResolver<'a> {
    /// The variables of the requested names, or the index of the first that stands for no
    /// package.
    fn request_indices(&self, names: &[String]) -> (r: Result<Vec<usize>, usize>)
        requires
            self.ready(),
        ensures
            match r {
                Ok(v) => first_unfound(self.pkgs@, prov_view(self.provides@), crate::solver::requested(names@)) is None
                    && v@ == request_vars(self.pkgs@, prov_view(self.provides@), crate::solver::requested(names@)),
                Err(k) => first_unfound(self.pkgs@, prov_view(self.provides@), crate::solver::requested(names@)) == Some(k as int)
                    && k < names@.len(),
            },
    {
        let ghost ps = self.pkgs@;
        let ghost pv = prov_view(self.provides@);
        let ghost req = crate::solver::requested(names@);
        let mut out: Vec<usize> = Vec::new();
        let mut k: usize = 0;
        assert(req.take(0) == Seq::<Seq<char>>::empty());
        while k < names.len()
            invariant
                self.ready(),
                ps == self.pkgs@,
                pv == prov_view(self.provides@),
                req == crate::solver::requested(names@),
                req.len() == names@.len(),
                k <= names@.len(),
                first_unfound(ps, pv, req.take(k as int)) is None,
                out@ == request_vars(ps, pv, req.take(k as int)),
            decreases names.len() - k,
        {
            assert(req.take(k + 1).drop_last() == req.take(k as int));
            assert(req.take(k + 1).last() == req[k as int]);
            let base = base_name_of(names[k].as_str());
            assert(base@ == req[k as int]);
            match self.request_index(base.as_str()) {
                Some(i) => {
                    out.push(i);
                },
                None => {
                    proof {
                        lemma_unfound_prefix(ps, pv, req, k + 1);
                    }
                    return Err(k);
                },
            }
            k = k + 1;
        }
        assert(req.take(names@.len() as int) == req);
        Ok(out)
    }

    /// Resolves an install request with the SAT solver: the plan holds the requested and
    /// installed packages and what they need, each dependency group led to one package;
    /// where that set cannot be confirmed the solver's own model is taken.
    pub fn resolve(&self, names: &[String], no_recommends: bool) -> (r: Result<TransactionPlan, SatError>)
        requires
            self.ready(),
            self.pkgs@.len() <= max_var() + 1,
        ensures
            (self.pkgs@.len() == 0) <==> (r matches Err(SatError::CacheEmpty)),
            !(r matches Err(SatError::Solver(_))),
            self.pkgs@.len() > 0 ==> match first_unfound(self.pkgs@, prov_view(self.provides@), crate::solver::requested(names@)) {
                Some(k) => r matches Err(SatError::NotFound(m)) && m@ == crate::solver::requested(names@)[k],
                None => {
                    let req = request_vars(self.pkgs@, prov_view(self.provides@), crate::solver::requested(names@));
                    let inst = installed_vars(self.pkgs@, self.db.rows());
                    let f = formula_for(self.pkgs@, prov_view(self.provides@), no_recommends, req, inst);
                    if exists|t: Set<usize>| #[trigger] satisfied_by(t, f) {
                        r matches Ok(plan) && plan_of(self.pkgs@, *self.db, in_order(least_closed(self.pkgs@, prov_view(self.provides@), *self.db, req + inst), self.pkgs@.len()), plan)
                    } else {
                        r matches Err(SatError::Unsat(m)) && m@ == diagnosis(self.pkgs@, prov_view(self.provides@), *self.db, no_recommends, req)
                    }
                },
            },
    {
        let ghost ps = self.pkgs@;
        let ghost pv = prov_view(self.provides@);
        let ghost db = *self.db;
        if self.pkgs.len() == 0 {
            return Err(SatError::CacheEmpty);
        }
        let req = match self.request_indices(names) {
            Ok(v) => v,
            Err(k) => {
                return Err(SatError::NotFound(base_name_of(names[k].as_str())));
            },
        };
        proof {
            self.lemma_request_vars_below(crate::solver::requested(names@));
        }
        let f = self.build_formula(&req, no_recommends);
        let ghost fv = formula_view(f@);
        proof {
            self.lemma_installed_below(self.db.rows());
            self.lemma_formula_below(no_recommends, req@, installed_vars(ps, self.db.rows()));
        }
        let initial = match solve_formula(&f) {
            Err(e) => {
                let mut v: Vec<char> = Vec::new();
                extend_str(&mut v, e.as_str());
                return Err(SatError::Solver(string_of(&v)));
            },
            Ok(None) => {
                return Err(SatError::Unsat(self.diagnose(&req, no_recommends)));
            },
            Ok(Some(m)) => m,
        };
        assert(meets(initial@, fv));
        proof {
            lemma_model_assigns(initial@, fv);
            assert(satisfied_by(model_set(initial@), fv));
        }
        let inst = self.installed_indices();
        proof {
            self.lemma_installed_below(self.db.rows());
        }
        let mut forced: Vec<usize> = Vec::new();
        let mut k: usize = 0;
        while k < req.len()
            invariant
                k <= req@.len(),
                forced@ == req@.take(k as int),
            decreases req.len() - k,
        {
            forced.push(req[k]);
            assert(req@.take(k + 1) == req@.take(k as int).push(req@[k as int]));
            k = k + 1;
        }
        assert(req@.take(req@.len() as int) == req@);
        let mut k: usize = 0;
        while k < inst.len()
            invariant
                k <= inst@.len(),
                forced@ == req@ + inst@.take(k as int),
            decreases inst.len() - k,
        {
            forced.push(inst[k]);
            assert(inst@.take(k + 1) == inst@.take(k as int).push(inst@[k as int]));
            assert(req@ + inst@.take(k as int).push(inst@[k as int]) == (req@ + inst@.take(k as int)).push(inst@[k as int]));
            k = k + 1;
        }
        assert(inst@.take(inst@.len() as int) == inst@);
        assert(below(forced@, ps.len() as int)) by {
            assert forall|j: int| 0 <= j < forced@.len() implies (#[trigger] forced@[j] as int) < ps.len() by {
                if j < req@.len() {
                    assert(forced@[j] == req@[j]);
                } else {
                    assert(forced@[j] == inst@[j - req@.len()]);
                }
            }
        }
        let marks = self.needed(&forced);
        let mut lits: Vec<Lit> = Vec::new();
        let mut i: usize = 0;
        while i < marks.len()
            invariant
                i <= marks@.len(),
                lits@.len() == i,
                forall|j: int| 0 <= j < i ==> #[trigger] lits@[j] == (j as usize, marks@[j]),
            decreases marks.len() - i,
        {
            lits.push((i, marks[i]));
            i = i + 1;
        }
        let chosen = match solve_formula(&f) {
            Ok(Some(_)) => lits,
            _ => initial,
        };
        let plan = self.build_plan(&chosen);
        proof {
            let least = least_closed(ps, pv, db, forced@);
            if chosen@ == lits@ {
                assert forall|i: usize| (i as int) < ps.len() implies (model_set(lits@).contains(i) <==> least.contains(i)) by {
                    if model_set(lits@).contains(i) {
                        let j = choose|j: int| 0 <= j < lits@.len() && lits@[j] == (i, true);
                        assert(lits@[j] == (j as usize, marks@[j]));
                        assert(marked(marks@).contains(i));
                        assert forall|s: Set<usize>| #[trigger] closed_set(ps, pv, db, forced@, s) implies s.contains(i) by {
                            assert(marked(marks@).subset_of(s));
                        }
                    }
                    if least.contains(i) {
                        assert(closed_set(ps, pv, db, forced@, marked(marks@)));
                        assert(marked(marks@).contains(i));
                        assert(lits@[i as int] == (i, true));
                        assert(lits@.contains((i, true)));
                    }
                }
                lemma_in_order_ext(model_set(lits@), least, ps.len());
            }
        }
        Ok(plan)
    }

    proof fn lemma_request_vars_below(&self, req: Seq<Seq<char>>)
        requires
            self.ready(),
            first_unfound(self.pkgs@, prov_view(self.provides@), req) is None,
        ensures
            below(request_vars(self.pkgs@, prov_view(self.provides@), req), self.pkgs@.len() as int),
        decreases req.len(),
    {
        if req.len() > 0 {
            self.lemma_request_vars_below(req.drop_last());
            let ps = self.pkgs@;
            let pv = prov_view(self.provides@);
            lemma_direct_bound(ps, req.last());
            lemma_provides_below(ps, ps.len() as int);
            lemma_first_provider_below(pv, req.last(), ps.len() as int);
            let v = request_vars(ps, pv, req);
            let w = request_vars(ps, pv, req.drop_last());
            assert forall|k: int| 0 <= k < v.len() implies (#[trigger] v[k] as int) < ps.len() by {
                if k < w.len() {
                    assert(v[k] == w[k]);
                }
            }
        }
    }

    proof fn lemma_installed_below(&self, rows: Seq<InstalledPackage>)
        requires
            self.ready(),
        ensures
            below(installed_vars(self.pkgs@, rows), self.pkgs@.len() as int),
        decreases rows.len(),
    {
        if rows.len() > 0 {
            self.lemma_installed_below(rows.drop_last());
            lemma_direct_bound(self.pkgs@, rows.last().name@);
            let v = installed_vars(self.pkgs@, rows);
            let w = installed_vars(self.pkgs@, rows.drop_last());
            assert forall|k: int| 0 <= k < v.len() implies (#[trigger] v[k] as int) < self.pkgs@.len() by {
                if k < w.len() {
                    assert(v[k] == w[k]);
                }
            }
        }
    }
}

proof fn lemma_first_provider_below(prov: Seq<(Seq<char>, usize)>, n: Seq<char>, bound: int)
    requires
        forall|k: int| 0 <= k < prov.len() ==> ((#[trigger] prov[k]).1 as int) < bound,
    ensures
        first_provider(prov, n) matches Some(i) ==> (i as int) < bound,
    decreases prov.len(),
{
    if prov.len() > 0 && prov[0].0 != n {
        assert forall|k: int| 0 <= k < prov.drop_first().len() implies ((#[trigger] prov.drop_first()[k]).1 as int) < bound by {
            assert(prov.drop_first()[k] == prov[k + 1]);
        }
        lemma_first_provider_below(prov.drop_first(), n, bound);
    }
}


proof fn lemma_unfound_prefix(pkgs: Seq<&Package>, prov: Seq<(Seq<char>, usize)>, req: Seq<Seq<char>>, j: int)
    requires
        0 <= j <= req.len(),
        first_unfound(pkgs, prov, req.take(j)) is Some,
    ensures
        first_unfound(pkgs, prov, req) == first_unfound(pkgs, prov, req.take(j)),
    decreases req.len() - j,
{
    if j < req.len() {
        assert(req.take(j + 1).drop_last() == req.take(j));
        lemma_unfound_prefix(pkgs, prov, req, j + 1);
    } else {
        assert(req.take(j) == req);
    }
}


proof fn lemma_units_index(v: Seq<usize>, k: int)
    requires
        0 <= k < v.len(),
    ensures
        units(v).len() == v.len(),
        units(v)[k] == seq![(v[k], true)],
    decreases v.len(),
{
    if k < v.len() - 1 {
        lemma_units_index(v.drop_last(), k);
    } else {
        lemma_units_len(v.drop_last());
    }
}

proof fn lemma_units_len(v: Seq<usize>)
    ensures
        units(v).len() == v.len(),
    decreases v.len(),
{
    if v.len() > 0 {
        lemma_units_len(v.drop_last());
    }
}

/// Each requested and each installed package is chosen: it is in the least closed set the
/// plan is built from, and every model that meets the formula sets it.
pub proof fn law_requests_and_installed_are_chosen(
    pkgs: Seq<&Package>,
    prov: Seq<(Seq<char>, usize)>,
    db: InstalledDb,
    no_rec: bool,
    req: Seq<usize>,
    inst: Seq<usize>,
    m: Seq<Lit>,
    k: int,
)
    requires
        0 <= k < req.len() + inst.len(),
    ensures
        least_closed(pkgs, prov, db, req + inst).contains((req + inst)[k]),
        meets(m, formula_for(pkgs, prov, no_rec, req, inst)) ==> model_set(m).contains((req + inst)[k]),
{
    let x = (req + inst)[k];
    assert forall|s: Set<usize>| #[trigger] closed_set(pkgs, prov, db, req + inst, s) implies s.contains(x) by {}
    if meets(m, formula_for(pkgs, prov, no_rec, req, inst)) {
        let d = dep_clauses(pkgs, prov, no_rec, pkgs.len() as int);
        let c = conflict_clauses(pkgs, prov, pkgs.len() as int);
        let f = formula_for(pkgs, prov, no_rec, req, inst);
        lemma_units_len(req);
        lemma_units_len(inst);
        let at = if k < req.len() {
            lemma_units_index(req, k);
            d.len() + c.len() + k
        } else {
            lemma_units_index(inst, k - req.len());
            d.len() + c.len() + req.len() + (k - req.len())
        };
        assert(f[at] == seq![(x, true)]);
        let j = choose|j: int| 0 <= j < f[at].len() && m.contains(#[trigger] f[at][j]);
        assert(m.contains((x, true)));
    }
}


// ─────────────────────────────────────────────────────────────
//  Literal indices of the formula
// ─────────────────────────────────────────────────────────────

/// Every literal of the clauses names a variable below `n`.
pub open spec fn clauses_below(f: Seq<Seq<Lit>>, n: int) -> bool {
    forall|k: int, j: int| 0 <= k < f.len() && 0 <= j < f[k].len() ==> (#[trigger] f[k][j]).0 < n
}

proof fn lemma_concat_below(a: Seq<Seq<Lit>>, b: Seq<Seq<Lit>>, n: int)
    requires
        clauses_below(a, n),
        clauses_below(b, n),
    ensures
        clauses_below(a + b, n),
{
    assert forall|k: int, j: int| 0 <= k < (a + b).len() && 0 <= j < (a + b)[k].len() implies (#[trigger] (a + b)[k][j]).0 < n by {
        if k < a.len() {
            assert((a + b)[k] == a[k]);
            assert(a[k][j].0 < n);
        } else {
            assert((a + b)[k] == b[k - a.len()]);
            assert(b[k - a.len()][j].0 < n);
        }
    }
}

proof fn lemma_push_below(a: Seq<Seq<Lit>>, c: Seq<Lit>, n: int)
    requires
        clauses_below(a, n),
        forall|j: int| 0 <= j < c.len() ==> (#[trigger] c[j]).0 < n,
    ensures
        clauses_below(a.push(c), n),
{
    assert forall|k: int, j: int| 0 <= k < a.push(c).len() && 0 <= j < a.push(c)[k].len() implies (#[trigger] a.push(c)[k][j]).0 < n by {
        if k < a.len() {
            assert(a.push(c)[k] == a[k]);
            assert(a[k][j].0 < n);
        } else {
            assert(a.push(c)[k] == c);
            assert(c[j].0 < n);
        }
    }
}

proof fn lemma_positives_below(c: Seq<usize>, n: int)
    requires
        below(c, n),
    ensures
        positives(c).len() == c.len(),
        forall|j: int| 0 <= j < positives(c).len() ==> (#[trigger] positives(c)[j]).0 < n,
    decreases c.len(),
{
    if c.len() > 0 {
        assert forall|k: int| 0 <= k < c.drop_last().len() implies (#[trigger] c.drop_last()[k] as int) < n by {
            assert(c.drop_last()[k] == c[k]);
        }
        lemma_positives_below(c.drop_last(), n);
        assert(c[c.len() - 1] < n);
    }
}

proof fn lemma_exclusions_below(i: usize, c: Seq<usize>, n: int)
    requires
        i < n,
        below(c, n),
    ensures
        clauses_below(exclusions(i, c), n),
    decreases c.len(),
{
    if c.len() > 0 {
        assert forall|k: int| 0 <= k < c.drop_last().len() implies (#[trigger] c.drop_last()[k] as int) < n by {
            assert(c.drop_last()[k] == c[k]);
        }
        lemma_exclusions_below(i, c.drop_last(), n);
        if c.last() != i {
            assert(c[c.len() - 1] < n);
            lemma_push_below(exclusions(i, c.drop_last()), seq![(i, false), (c.last(), false)], n);
        }
    }
}

proof fn lemma_units_below(v: Seq<usize>, n: int)
    requires
        below(v, n),
    ensures
        clauses_below(units(v), n),
    decreases v.len(),
{
    if v.len() > 0 {
        assert forall|k: int| 0 <= k < v.drop_last().len() implies (#[trigger] v.drop_last()[k] as int) < n by {
            assert(v.drop_last()[k] == v[k]);
        }
        lemma_units_below(v.drop_last(), n);
        assert(v[v.len() - 1] < n);
        lemma_push_below(units(v.drop_last()), seq![(v.last(), true)], n);
    }
}

proof fn lemma_seq_concat_below(a: Seq<usize>, b: Seq<usize>, n: int)
    requires
        below(a, n),
        below(b, n),
    ensures
        below(a + b, n),
{
    assert forall|k: int| 0 <= k < (a + b).len() implies (#[trigger] (a + b)[k] as int) < n by {
        if k < a.len() {
            assert((a + b)[k] == a[k]);
        } else {
            assert((a + b)[k] == b[k - a.len()]);
        }
    }
}

impl<'a> SatResolver<'a> {
    proof fn lemma_group_cands_below(&self, alts: Seq<DepSpec>)
        requires
            self.ready(),
        ensures
            below(group_cands(self.pkgs@, prov_view(self.provides@), alts), self.pkgs@.len() as int),
        decreases alts.len(),
    {
        if alts.len() > 0 {
            self.lemma_group_cands_below(alts.drop_last());
            self.lemma_cands_below(alts.last());
            lemma_seq_concat_below(group_cands(self.pkgs@, prov_view(self.provides@), alts.drop_last()), cands(self.pkgs@, prov_view(self.provides@), alts.last()), self.pkgs@.len() as int);
        }
    }

    proof fn lemma_group_clauses_below(&self, i: usize, gs: Seq<Seq<DepSpec>>)
        requires
            self.ready(),
            i < self.pkgs@.len(),
        ensures
            clauses_below(group_clauses(self.pkgs@, prov_view(self.provides@), i, gs), self.pkgs@.len() as int),
        decreases gs.len(),
    {
        let n = self.pkgs@.len() as int;
        let pv = prov_view(self.provides@);
        if gs.len() > 0 {
            self.lemma_group_clauses_below(i, gs.drop_last());
            let c = group_cands(self.pkgs@, pv, gs.last());
            if c.len() > 0 {
                self.lemma_group_cands_below(gs.last());
                lemma_positives_below(c, n);
                let cl = seq![(i, false)] + positives(c);
                assert forall|j: int| 0 <= j < cl.len() implies (#[trigger] cl[j]).0 < n by {
                    if j > 0 {
                        assert(cl[j] == positives(c)[j - 1]);
                    }
                }
                lemma_push_below(group_clauses(self.pkgs@, pv, i, gs.drop_last()), cl, n);
            }
        }
    }

    proof fn lemma_dep_clauses_below(&self, no_rec: bool, upto: int)
        requires
            self.ready(),
            upto <= self.pkgs@.len(),
        ensures
            clauses_below(dep_clauses(self.pkgs@, prov_view(self.provides@), no_rec, upto), self.pkgs@.len() as int),
        decreases upto,
    {
        if upto > 0 {
            self.lemma_dep_clauses_below(no_rec, upto - 1);
            self.lemma_group_clauses_below((upto - 1) as usize, dep_groups_of(self.pkgs@[upto - 1], no_rec));
            lemma_concat_below(
                dep_clauses(self.pkgs@, prov_view(self.provides@), no_rec, upto - 1),
                group_clauses(self.pkgs@, prov_view(self.provides@), (upto - 1) as usize, dep_groups_of(self.pkgs@[upto - 1], no_rec)),
                self.pkgs@.len() as int,
            );
        }
    }

    proof fn lemma_alt_exclusions_below(&self, i: usize, alts: Seq<DepSpec>)
        requires
            self.ready(),
            i < self.pkgs@.len(),
        ensures
            clauses_below(alt_exclusions(self.pkgs@, prov_view(self.provides@), i, alts), self.pkgs@.len() as int),
        decreases alts.len(),
    {
        if alts.len() > 0 {
            let n = self.pkgs@.len() as int;
            let pv = prov_view(self.provides@);
            self.lemma_alt_exclusions_below(i, alts.drop_last());
            self.lemma_cands_below(alts.last());
            lemma_exclusions_below(i, cands(self.pkgs@, pv, alts.last()), n);
            lemma_concat_below(alt_exclusions(self.pkgs@, pv, i, alts.drop_last()), exclusions(i, cands(self.pkgs@, pv, alts.last())), n);
        }
    }

    proof fn lemma_group_exclusions_below(&self, i: usize, gs: Seq<Seq<DepSpec>>)
        requires
            self.ready(),
            i < self.pkgs@.len(),
        ensures
            clauses_below(group_exclusions(self.pkgs@, prov_view(self.provides@), i, gs), self.pkgs@.len() as int),
        decreases gs.len(),
    {
        if gs.len() > 0 {
            let n = self.pkgs@.len() as int;
            let pv = prov_view(self.provides@);
            self.lemma_group_exclusions_below(i, gs.drop_last());
            self.lemma_alt_exclusions_below(i, gs.last());
            lemma_concat_below(group_exclusions(self.pkgs@, pv, i, gs.drop_last()), alt_exclusions(self.pkgs@, pv, i, gs.last()), n);
        }
    }

    proof fn lemma_conflict_clauses_below(&self, upto: int)
        requires
            self.ready(),
            upto <= self.pkgs@.len(),
        ensures
            clauses_below(conflict_clauses(self.pkgs@, prov_view(self.provides@), upto), self.pkgs@.len() as int),
        decreases upto,
    {
        if upto > 0 {
            self.lemma_conflict_clauses_below(upto - 1);
            self.lemma_group_exclusions_below((upto - 1) as usize, conflict_groups_of(self.pkgs@[upto - 1]));
            lemma_concat_below(
                conflict_clauses(self.pkgs@, prov_view(self.provides@), upto - 1),
                group_exclusions(self.pkgs@, prov_view(self.provides@), (upto - 1) as usize, conflict_groups_of(self.pkgs@[upto - 1])),
                self.pkgs@.len() as int,
            );
        }
    }

    /// Every literal of the formula names a package of the index.
    proof fn lemma_formula_below(&self, no_rec: bool, req: Seq<usize>, inst: Seq<usize>)
        requires
            self.ready(),
            below(req, self.pkgs@.len() as int),
            below(inst, self.pkgs@.len() as int),
        ensures
            clauses_below(formula_for(self.pkgs@, prov_view(self.provides@), no_rec, req, inst), self.pkgs@.len() as int),
    {
        let n = self.pkgs@.len() as int;
        let pv = prov_view(self.provides@);
        self.lemma_dep_clauses_below(no_rec, n);
        self.lemma_conflict_clauses_below(n);
        lemma_units_below(req, n);
        lemma_units_below(inst, n);
        let d = dep_clauses(self.pkgs@, pv, no_rec, n);
        let c = conflict_clauses(self.pkgs@, pv, n);
        lemma_concat_below(d, c, n);
        lemma_concat_below(d + c, units(req), n);
        lemma_concat_below(d + c + units(req), units(inst), n);
    }
}


/// A model that meets a formula with one literal per variable gives an assignment that
/// meets it.
proof fn lemma_model_assigns(m: Seq<Lit>, f: Seq<Seq<Lit>>)
    requires
        meets(m, f),
        distinct_vars(m),
    ensures
        satisfied_by(model_set(m), f),
{
    assert forall|i: int| #![trigger f[i]] 0 <= i < f.len() implies clause_true(model_set(m), f[i]) by {
        let k = choose|k: int| 0 <= k < f[i].len() && m.contains(#[trigger] f[i][k]);
        let l = f[i][k];
        if !l.1 {
            if m.contains((l.0, true)) {
                let p = choose|p: int| 0 <= p < m.len() && m[p] == l;
                let q = choose|q: int| 0 <= q < m.len() && m[q] == (l.0, true);
                assert(p != q);
                if p < q {
                    assert(m[p].0 != m[q].0);
                } else {
                    assert(m[q].0 != m[p].0);
                }
            }
        } else {
            assert(l == (l.0, true));
        }
        assert(lit_true(model_set(m), f[i][k]));
        assert(clause_true(model_set(m), f[i]));
    }
    assert(satisfied_by(model_set(m), f));
}



} // verus!
