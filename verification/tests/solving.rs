use lpm::cache::PackageCache;
use lpm::db::{InstallReason, InstalledDb};
use lpm::package::Package;
use lpm::solver::{resolve_with_sat, SolveError, Solver, TransactionPlan};

fn pkg(name: &str, version: &str, depends: Option<&str>) -> Package {
    Package {
        name: name.to_string(),
        version: version.to_string(),
        architecture: "amd64".to_string(),
        depends: depends.map(|s| s.to_string()),
        download_size: Some(1000),
        installed_size_kb: Some(2),
        ..Default::default()
    }
}

fn names(v: &[Package]) -> Vec<String> {
    v.iter().map(|p| p.name.clone()).collect()
}

fn s(v: &[&str]) -> Vec<String> {
    v.iter().map(|x| x.to_string()).collect()
}

fn cache_of(ps: Vec<Package>) -> PackageCache {
    let mut c = PackageCache::empty();
    for p in ps {
        c.ingest(p);
    }
    c
}

#[test]
fn install_pulls_in_dependencies_sorted_by_name() {
    let c = cache_of(vec![
        pkg("app", "1.0", Some("libz (>= 1.0), libb | libc")),
        pkg("libz", "1.2", None),
        pkg("libb", "1.0", None),
        pkg("libc", "1.0", None),
    ]);
    let db = InstalledDb::new();
    let plan = Solver::new(&c, &db).resolve_install(&s(&["app"]), true).ok().unwrap();
    assert_eq!(names(&plan.to_install), s(&["app", "libb", "libz"]));
    assert_eq!(plan.download_bytes, 3000);
    assert_eq!(plan.install_bytes, 3 * 2 * 1024);
    assert!(plan.to_upgrade.is_empty());
}

#[test]
fn installed_alternative_is_preferred() {
    let c = cache_of(vec![
        pkg("app", "1.0", Some("libb | libc")),
        pkg("libb", "1.0", None),
        pkg("libc", "1.0", None),
    ]);
    let mut db = InstalledDb::new();
    db.record_install(&pkg("libc", "1.0", None), InstallReason::Dependency, &[], "t");
    let plan = Solver::new(&c, &db).resolve_install(&s(&["app"]), true).ok().unwrap();
    assert_eq!(names(&plan.to_install), s(&["app"]));
}

#[test]
fn unknown_package_is_refused() {
    let c = cache_of(vec![pkg("a", "1", None)]);
    let db = InstalledDb::new();
    match Solver::new(&c, &db).resolve_install(&s(&["a", "nope:amd64"]), true) {
        Err(SolveError::NoMatch(n)) => assert_eq!(n, "nope"),
        _ => panic!("expected NoMatch"),
    }
    assert_eq!(
        SolveError::NoMatch("nope".to_string()).message(),
        "No match for package: 'nope'\n  Hint: run `lpm update` to refresh the package index."
    );
}

#[test]
fn dependency_missing_from_the_index_is_left_out() {
    let c = cache_of(vec![pkg("a", "1", Some("ghost | phantom"))]);
    let db = InstalledDb::new();
    let plan = Solver::new(&c, &db).resolve_install(&s(&["a"]), true).ok().unwrap();
    assert_eq!(names(&plan.to_install), s(&["a"]));
    assert!(plan.warnings.is_empty());
}

#[test]
fn recommends_followed_only_on_request() {
    let mut a = pkg("a", "1", None);
    a.recommends = Some("r".to_string());
    let c = cache_of(vec![a, pkg("r", "1", None)]);
    let db = InstalledDb::new();
    let without = Solver::new(&c, &db).resolve_install(&s(&["a"]), true).ok().unwrap();
    assert_eq!(names(&without.to_install), s(&["a"]));
    let with = Solver::new(&c, &db).resolve_install(&s(&["a"]), false).ok().unwrap();
    assert_eq!(names(&with.to_install), s(&["a", "r"]));
}

#[test]
fn newer_version_of_installed_request_is_an_upgrade() {
    let c = cache_of(vec![pkg("a", "2.0", None)]);
    let mut db = InstalledDb::new();
    db.record_install(&pkg("a", "1.0", None), InstallReason::User, &[], "t");
    let plan = Solver::new(&c, &db).resolve_install(&s(&["a"]), true).ok().unwrap();
    assert!(plan.to_install.is_empty());
    assert_eq!(names(&plan.to_upgrade), s(&["a"]));
    assert_eq!(plan.upgrade_from, vec![("a".to_string(), "1.0".to_string())]);
}

#[test]
fn remove_requires_installed_packages() {
    let c = PackageCache::empty();
    let mut db = InstalledDb::new();
    db.record_install(&pkg("a", "1.0", None), InstallReason::User, &[], "t");
    let plan = Solver::new(&c, &db).resolve_remove(&s(&["a"])).ok().unwrap();
    assert_eq!(plan.to_remove, s(&["a"]));
    assert_eq!(plan.freed_bytes, 2048);
    match Solver::new(&c, &db).resolve_remove(&s(&["b"])) {
        Err(e) => assert_eq!(e.message(), "Package 'b' is not installed."),
        Ok(_) => panic!("expected an error"),
    }
}

#[test]
fn autoremove_keeps_user_packages_and_their_dependencies() {
    let c = PackageCache::empty();
    let mut db = InstalledDb::new();
    db.record_install(&pkg("app", "1", Some("lib")), InstallReason::User, &[], "t");
    db.record_install(&pkg("lib", "1", Some("base")), InstallReason::Dependency, &[], "t");
    db.record_install(&pkg("base", "1", None), InstallReason::Dependency, &[], "t");
    db.record_install(&pkg("orphan", "1", None), InstallReason::Dependency, &[], "t");
    db.record_install(&pkg("aaa", "1", None), InstallReason::Dependency, &[], "t");
    let plan = Solver::new(&c, &db).resolve_autoremove().ok().unwrap();
    assert_eq!(plan.to_autoremove, s(&["aaa", "orphan"]));
    assert_eq!(plan.freed_bytes, 2 * 2048);
}

#[test]
fn upgrade_lists_newer_cache_versions() {
    let c = cache_of(vec![pkg("a", "2.0", None), pkg("b", "1.0", None), pkg("c", "0.5", None)]);
    let mut db = InstalledDb::new();
    db.record_install(&pkg("a", "1.0", None), InstallReason::User, &[], "t");
    db.record_install(&pkg("b", "1.0", None), InstallReason::User, &[], "t");
    db.record_install(&pkg("c", "1.0", None), InstallReason::User, &[], "t");
    let plan = Solver::new(&c, &db).resolve_upgrade().ok().unwrap();
    assert_eq!(names(&plan.to_upgrade), s(&["a"]));
    assert_eq!(plan.upgrade_from, vec![("a".to_string(), "1.0".to_string())]);
}

#[test]
fn empty_plan_is_empty() {
    let p = TransactionPlan::default();
    assert!(p.is_empty());
}

#[test]
fn sat_resolver_is_not_built() {
    let c = PackageCache::empty();
    let db = InstalledDb::new();
    assert!(matches!(resolve_with_sat(&c, &db, &s(&["a"]), true), Err(SolveError::SatUnavailable)));
}

fn row_with_files(files: &str) -> lpm::db::InstalledPackage {
    lpm::db::InstalledPackage {
        name: "x".to_string(),
        version: "1.0".to_string(),
        architecture: "amd64".to_string(),
        installed_size_kb: 0,
        section: None,
        maintainer: None,
        description_short: None,
        installed_at: "t".to_string(),
        reason: InstallReason::User,
        files: files.to_string(),
        depends: None,
        recommends: None,
    }
}

#[test]
fn first_recorded_file_skips_empty_pieces() {
    assert_eq!(lpm::solver::first_recorded_file(&row_with_files(";;/usr/bin/x;/usr/lib/y")), Some("/usr/bin/x".to_string()));
    assert_eq!(lpm::solver::first_recorded_file(&row_with_files(";;")), None);
}

#[test]
fn package_without_files_counts_as_present() {
    assert!(lpm::solver::package_physically_present(&row_with_files("")));
    assert!(!lpm::solver::package_physically_present(&row_with_files(";/nonexistent/lpm/path/file")));
}
