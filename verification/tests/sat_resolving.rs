use lpm::cache::PackageCache;
use lpm::db::{InstallReason, InstalledDb};
use lpm::package::Package;
use lpm::sat::{SatError, SatResolver};

fn pkg(name: &str, version: &str, depends: Option<&str>) -> Package {
    Package {
        name: name.to_string(),
        version: version.to_string(),
        architecture: "amd64".to_string(),
        depends: depends.map(|s| s.to_string()),
        download_size: Some(1000),
        installed_size_kb: Some(2),
        ..Default::default()
    }
}

fn names(v: &[Package]) -> Vec<String> {
    v.iter().map(|p| p.name.clone()).collect()
}

fn s(v: &[&str]) -> Vec<String> {
    v.iter().map(|x| x.to_string()).collect()
}

fn cache_of(ps: Vec<Package>) -> PackageCache {
    let mut c = PackageCache::empty();
    for p in ps {
        c.ingest(p);
    }
    c
}

#[test]
fn sat_install_takes_what_the_request_needs() {
    let c = cache_of(vec![
        pkg("app", "1.0", Some("libz (>= 1.0), libb | libc")),
        pkg("libz", "1.2", None),
        pkg("libb", "1.0", None),
        pkg("libc", "1.0", None),
        pkg("extra", "1.0", None),
    ]);
    let db = InstalledDb::new();
    let plan = SatResolver::new(&c, &db).resolve(&s(&["app"]), true).ok().unwrap();
    assert_eq!(names(&plan.to_install), s(&["app", "libb", "libz"]));
    assert!(plan.to_upgrade.is_empty());
    assert_eq!(plan.download_bytes, 3000);
    assert_eq!(plan.install_bytes, 3 * 2 * 1024);
}

#[test]
fn sat_prefers_an_installed_provider() {
    let mut exim = pkg("exim", "4.0", None);
    exim.provides = Some("mta".to_string());
    let mut postfix = pkg("postfix", "3.0", None);
    postfix.provides = Some("mta".to_string());
    let c = cache_of(vec![pkg("app", "1.0", Some("mta")), exim, postfix]);
    let mut db = InstalledDb::new();
    let mut held = pkg("postfix", "3.0", None);
    held.provides = Some("mta".to_string());
    db.record_install(&held, InstallReason::Dependency, &[], "t");
    let plan = SatResolver::new(&c, &db).resolve(&s(&["app"]), true).ok().unwrap();
    assert_eq!(names(&plan.to_install), s(&["app"]));
    assert!(plan.to_upgrade.is_empty());
}

#[test]
fn sat_takes_the_first_alternative_that_exists() {
    let c = cache_of(vec![
        pkg("app", "1.0", Some("libb | libc")),
        pkg("libb", "1.0", None),
        pkg("libc", "1.0", None),
    ]);
    let mut db = InstalledDb::new();
    db.record_install(&pkg("libc", "1.0", None), InstallReason::Dependency, &[], "t");
    let plan = SatResolver::new(&c, &db).resolve(&s(&["app"]), true).ok().unwrap();
    assert_eq!(names(&plan.to_install), s(&["app", "libb"]));
}

#[test]
fn sat_upgrades_an_older_installed_package() {
    let c = cache_of(vec![pkg("libz", "1.2", None)]);
    let mut db = InstalledDb::new();
    db.record_install(&pkg("libz", "1.0", None), InstallReason::User, &[], "t");
    let plan = SatResolver::new(&c, &db).resolve(&s(&["libz"]), true).ok().unwrap();
    assert!(plan.to_install.is_empty());
    assert_eq!(names(&plan.to_upgrade), s(&["libz"]));
    assert_eq!(plan.upgrade_from, vec![("libz".to_string(), "1.0".to_string())]);
    assert_eq!(plan.download_bytes, 1000);
}

#[test]
fn sat_finds_a_provider_and_drops_the_qualifier() {
    let mut postfix = pkg("postfix", "3.0", None);
    postfix.provides = Some("mail-transport-agent".to_string());
    let c = cache_of(vec![postfix, pkg("vim", "9.0", None)]);
    let db = InstalledDb::new();
    let plan = SatResolver::new(&c, &db).resolve(&s(&["mail-transport-agent", "vim:amd64"]), true).ok().unwrap();
    assert_eq!(names(&plan.to_install), s(&["postfix", "vim"]));
}

#[test]
fn sat_refuses_an_unknown_name() {
    let c = cache_of(vec![pkg("vim", "9.0", None)]);
    let db = InstalledDb::new();
    match SatResolver::new(&c, &db).resolve(&s(&["vim", "nope:i386"]), true) {
        Err(e) => {
            assert!(matches!(e, SatError::NotFound(ref n) if n == "nope"));
            assert_eq!(e.message(), "Package 'nope' not found. Run `lpm update` and check the name.");
        }
        Ok(_) => panic!("expected an error"),
    }
}

#[test]
fn sat_refuses_an_empty_cache() {
    let c = PackageCache::empty();
    let db = InstalledDb::new();
    match SatResolver::new(&c, &db).resolve(&s(&["vim"]), true) {
        Err(e) => {
            assert!(matches!(e, SatError::CacheEmpty));
            assert_eq!(e.message(), "Package cache is empty. Run `lpm update` first.");
        }
        Ok(_) => panic!("expected an error"),
    }
}

#[test]
fn sat_explains_conflicting_requests() {
    let mut a = pkg("a", "1.0", None);
    a.conflicts = Some("b".to_string());
    let c = cache_of(vec![a, pkg("b", "1.0", None)]);
    let db = InstalledDb::new();
    match SatResolver::new(&c, &db).resolve(&s(&["a", "b"]), true) {
        Err(SatError::Unsat(m)) => assert_eq!(
            m,
            "Cannot resolve dependencies. Possible reasons:\n  • 'a' conflicts with 'b'\n\nTip: run `lpm search <package>` to check available versions."
        ),
        _ => panic!("expected an unsatisfiable request"),
    }
}

#[test]
fn sat_explains_a_conflict_with_an_installed_package() {
    let mut a = pkg("a", "1.0", None);
    a.conflicts = Some("b".to_string());
    let c = cache_of(vec![a, pkg("b", "1.0", None)]);
    let mut db = InstalledDb::new();
    db.record_install(&pkg("b", "1.0", None), InstallReason::User, &[], "t");
    match SatResolver::new(&c, &db).resolve(&s(&["a"]), true) {
        Err(SatError::Unsat(m)) => assert_eq!(
            m,
            "Cannot resolve dependencies. Possible reasons:\n  • 'a' conflicts with installed package 'b'\n\nTip: run `lpm search <package>` to check available versions."
        ),
        _ => panic!("expected an unsatisfiable request"),
    }
}

#[test]
fn sat_reports_an_unknown_conflict() {
    let mut a = pkg("a", "1.0", None);
    a.breaks = Some("b".to_string());
    let c = cache_of(vec![a, pkg("b", "1.0", None)]);
    let db = InstalledDb::new();
    match SatResolver::new(&c, &db).resolve(&s(&["a", "b"]), true) {
        Err(SatError::Unsat(m)) => assert_eq!(
            m,
            "Cannot resolve dependencies. Possible reasons:\n  • Unknown conflict — try running `lpm update` first\n\nTip: run `lpm search <package>` to check available versions."
        ),
        _ => panic!("expected an unsatisfiable request"),
    }
}

#[test]
fn sat_diagnosis_names_a_missing_dependency() {
    let c = cache_of(vec![pkg("app", "1.0", Some("ghost | phantom"))]);
    let db = InstalledDb::new();
    let r = SatResolver::new(&c, &db);
    assert_eq!(
        r.diagnose(&vec![0], true),
        "Cannot resolve dependencies. Possible reasons:\n  • 'app' requires [ghost | phantom] — not found in any repository\n\nTip: run `lpm search <package>` to check available versions."
    );
}

#[test]
fn sat_needed_is_the_closure_of_the_forced_packages() {
    let c = cache_of(vec![
        pkg("a", "1.0", Some("b")),
        pkg("b", "1.0", Some("c")),
        pkg("c", "1.0", None),
        pkg("d", "1.0", None),
    ]);
    let db = InstalledDb::new();
    let r = SatResolver::new(&c, &db);
    assert_eq!(r.needed(&vec![0]), vec![true, true, true, false]);
    assert_eq!(r.needed(&vec![3]), vec![false, false, false, true]);
}

#[test]
fn sat_plan_follows_the_model() {
    let c = cache_of(vec![pkg("a", "1.0", None), pkg("b", "1.0", None), pkg("c", "1.0", None)]);
    let db = InstalledDb::new();
    let r = SatResolver::new(&c, &db);
    let plan = r.build_plan(&vec![(2, true), (0, true), (1, false)]);
    assert_eq!(names(&plan.to_install), s(&["a", "c"]));
}

#[test]
fn sat_solver_error_text() {
    assert_eq!(SatError::Solver("x".to_string()).message(), "SAT error: x");
}
