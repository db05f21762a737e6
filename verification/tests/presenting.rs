use lpm::apt_sources::{EntryKind, SourceEntry};
use lpm::cache::PackageCache;
use lpm::commands::{
    archive_mentions, available_upgrade, filter_search, info_package, install_reason, installed_mentions,
    is_cache_file, list_repo_label, no_package_message, only_upgrade, package_label, redo_step, security_uris,
    security_upgrades, undo_step, update_line, HistoryError, HistoryStep, SearchFilter,
};
use lpm::db::{HistoryEntry, InstallReason, InstalledDb};
use lpm::engine::get_score;
use lpm::log;
use lpm::package::Package;
use lpm::ui::{
    action_label, description_lines, history_versions, is_yes, list_tag, old_version_of, plural, repo_short,
    search_header, truncate, upgrade_version_text,
};

fn pkg(name: &str, version: &str) -> Package {
    Package { name: name.to_string(), version: version.to_string(), architecture: "amd64".to_string(), ..Default::default() }
}

fn s(v: &[&str]) -> Vec<String> {
    v.iter().map(|x| x.to_string()).collect()
}

fn entry(action: &str, old: Option<&str>, new: Option<&str>) -> HistoryEntry {
    HistoryEntry {
        id: 1,
        action: action.to_string(),
        package: "vim".to_string(),
        old_ver: old.map(|x| x.to_string()),
        new_ver: new.map(|x| x.to_string()),
        timestamp: "t".to_string(),
    }
}

#[test]
fn labels_and_lines() {
    assert_eq!(package_label("vim", "9.0", "amd64"), "vim-9.0.amd64");
    assert_eq!(update_line("vim", "1", "2"), "  vim-1 -> 2");
    let mut p = pkg("x", "1");
    p.repo_base_uri = Some("http://deb.debian.org/debian/".to_string());
    assert_eq!(list_repo_label(&p), "debian");
    assert_eq!(repo_short(&p), "debian");
    p.repo_base_uri = None;
    assert_eq!(list_repo_label(&p), "");
    assert_eq!(repo_short(&p), "unknown");
    assert_eq!(no_package_message("zz"), "No package named 'zz' found.\n  Hint: try `lpm search zz`");
}

#[test]
fn requested_names_are_user_installs() {
    let names = s(&["vim", "nano"]);
    assert_eq!(install_reason(&names, "nano"), InstallReason::User);
    assert_eq!(install_reason(&names, "libc6"), InstallReason::Dependency);
    assert_eq!(install_reason(&s(&["vim:amd64"]), "vim"), InstallReason::User);
}

#[test]
fn upgrade_filters_keep_order() {
    let ups = vec![pkg("a", "1"), pkg("b", "1"), pkg("a", "2")];
    let only: Vec<String> = only_upgrade(ups, "a").iter().map(|p| p.version.clone()).collect();
    assert_eq!(only, s(&["1", "2"]));
    let mut sec = SourceEntry {
        kind: EntryKind::Deb,
        uri: "https://security.debian.org/debian-security".to_string(),
        suite: "stable-security".to_string(),
        components: s(&["main"]),
        arches: Vec::new(),
        signed_by: None,
        enabled: true,
        label: None,
    };
    let mut plain = SourceEntry { uri: "https://deb.debian.org/debian".to_string(), suite: "stable".to_string(), ..sec.duplicate() };
    plain.enabled = true;
    sec.enabled = true;
    let uris = security_uris(&[plain, sec]);
    assert_eq!(uris, s(&["https://security.debian.org/debian-security"]));
    let mut a = pkg("a", "1");
    a.repo_base_uri = Some("https://security.debian.org/debian-security/".to_string());
    let mut b = pkg("b", "1");
    b.repo_base_uri = Some("https://deb.debian.org/debian".to_string());
    let c = pkg("c", "1");
    let kept: Vec<String> = security_upgrades(vec![a, b, c], &uris).iter().map(|p| p.name.clone()).collect();
    assert_eq!(kept, s(&["a"]));
}

#[test]
fn search_options_filter_matches() {
    let mut a = pkg("Vim", "1");
    a.section = Some("editors".to_string());
    a.repo_base_uri = Some("http://main/".to_string());
    let mut b = pkg("vim-gtk", "1");
    b.provides = Some("editor, gvim".to_string());
    let c = pkg("nano", "1");
    let results = vec![&a, &b, &c];
    let inst = vec![true, false, true];
    let none = SearchFilter { installed: false, repo: None, section: None, exact: false, provides: None };
    assert_eq!(filter_search(results.clone(), &inst, "vim", &none).len(), 3);
    let installed = SearchFilter { installed: true, ..none_like(&none) };
    let r: Vec<&str> = filter_search(results.clone(), &inst, "vim", &installed).iter().map(|p| p.name.as_str()).collect();
    assert_eq!(r, vec!["Vim", "nano"]);
    let exact = SearchFilter { exact: true, ..none_like(&none) };
    let r: Vec<&str> = filter_search(results.clone(), &inst, "VIM", &exact).iter().map(|p| p.name.as_str()).collect();
    assert_eq!(r, vec!["Vim"]);
    let prov = SearchFilter { provides: Some("gvim".to_string()), ..none_like(&none) };
    let r: Vec<&str> = filter_search(results.clone(), &inst, "vim", &prov).iter().map(|p| p.name.as_str()).collect();
    assert_eq!(r, vec!["vim-gtk"]);
    let sec = SearchFilter { section: Some("editors".to_string()), repo: Some("main".to_string()), ..none_like(&none) };
    let r: Vec<&str> = filter_search(results, &inst, "vim", &sec).iter().map(|p| p.name.as_str()).collect();
    assert_eq!(r, vec!["Vim"]);
}

fn none_like(_f: &SearchFilter) -> SearchFilter {
    SearchFilter { installed: false, repo: None, section: None, exact: false, provides: None }
}

#[test]
fn info_prefers_the_cache_and_falls_back_to_the_record() {
    let mut c = PackageCache::empty();
    c.ingest(pkg("vim", "2"));
    let mut db = InstalledDb::new();
    let mut p = pkg("local", "0.1");
    p.section = Some("misc".to_string());
    p.installed_size_kb = Some(4);
    db.record_install(&p, InstallReason::User, &[], "t");
    assert_eq!(info_package(&c, &db, "vim").unwrap().version, "2");
    let l = info_package(&c, &db, "local").unwrap();
    assert_eq!(l.section.as_deref(), Some("misc"));
    assert_eq!(l.installed_size_kb, Some(4));
    assert!(info_package(&c, &db, "none").is_none());
    let inst = db.get("local").unwrap();
    assert!(available_upgrade(&c, &inst).is_none());
    c.ingest(pkg("local", "0.2"));
    assert_eq!(available_upgrade(&c, &inst).unwrap().version, "0.2");
}

#[test]
fn file_queries() {
    let mut p = pkg("vim", "1");
    p.filename = Some("pool/main/v/vim/vim_1_amd64.deb".to_string());
    assert!(archive_mentions(&p, "vim_1"));
    assert!(!archive_mentions(&pkg("x", "1"), "vim"));
    let mut db = InstalledDb::new();
    db.record_install(&pkg("vim", "1"), InstallReason::User, &s(&["/usr/bin/vim"]), "t");
    assert!(installed_mentions(&db.get("vim").unwrap(), "/usr/bin/vim"));
    assert!(is_cache_file("/var/cache/lpm/archives/vim_1_amd64.deb"));
    assert!(is_cache_file("/var/cache/lpm/archives/x.deb.part"));
    assert!(!is_cache_file("/var/cache/lpm/archives/.deb"));
    assert!(!is_cache_file("/var/cache/lpm/archives/notes.txt"));
}

#[test]
fn undo_and_redo_of_history_entries() {
    assert!(matches!(undo_step(&entry("install", None, Some("1"))), Ok(HistoryStep::Remove(_))));
    assert!(matches!(undo_step(&entry("remove", Some("1"), None)), Ok(HistoryStep::Install(_))));
    match undo_step(&entry("upgrade", Some("1"), Some("2"))) {
        Ok(HistoryStep::InstallVersion(n, v)) => {
            assert_eq!(n, "vim");
            assert_eq!(v, "1");
        }
        _ => panic!("expected a downgrade"),
    }
    assert!(matches!(undo_step(&entry("upgrade", None, Some("2"))), Err(HistoryError::NoOldVersion)));
    match undo_step(&entry("purge", None, None)) {
        Err(e) => assert_eq!(e.message(true), "Unsupported action for undo: purge"),
        Ok(_) => panic!("expected an error"),
    }
    assert!(matches!(redo_step(&entry("remove", Some("1"), None)), Ok(HistoryStep::Remove(_))));
    match redo_step(&entry("upgrade", Some("1"), Some("2"))) {
        Ok(HistoryStep::UpgradeTo(n, v, o)) => {
            assert_eq!(n, "vim");
            assert_eq!(v, "2");
            assert_eq!(o.as_deref(), Some("1"));
        }
        _ => panic!("expected an upgrade"),
    }
    assert_eq!(HistoryError::NoNewVersion.message(false), "No new version for upgrade");
}

#[test]
fn terminal_texts() {
    assert_eq!(plural(1), "");
    assert_eq!(plural(2), "s");
    assert_eq!(truncate("abcdef", 3), "abc");
    assert_eq!(truncate("ab", 3), "ab");
    assert_eq!(old_version_of(&vec![("a".to_string(), "1".to_string())], "a"), "1");
    assert_eq!(old_version_of(&vec![], "a"), "?");
    assert_eq!(upgrade_version_text("1", "2"), "1 -> 2");
    assert!(is_yes("  Yes\n"));
    assert!(is_yes("y"));
    assert!(!is_yes("yep"));
    assert!(!is_yes(""));
    assert_eq!(action_label("remove"), "Erase");
    assert_eq!(action_label("other"), "other");
    assert_eq!(history_versions(&Some("1".to_string()), &Some("2".to_string())), "1 -> 2");
    assert_eq!(history_versions(&None, &None), "");
    assert_eq!(description_lines(" first\n .\n second "), s(&["  first", "", "  second"]));
    assert_eq!(list_tag(true, "main", &Some("2".to_string())), "@installed (upgrade available: 2)");
    assert_eq!(list_tag(false, "main", &None), "main");
    assert_eq!(search_header("vim", 3), "==================== N/S matched: 3 : vim ====================");
}

#[test]
fn log_lines_have_time_level_and_message() {
    assert_eq!(log::info("T", "hello"), "[T] INFO  hello\n");
    assert_eq!(log::error("T", "bad"), "[T] ERROR bad\n");
    assert_eq!(log::cmd("T", &s(&["install", "vim"])), "[T] CMD   lpm install vim\n");
}

#[test]
fn search_scores_rank_matches() {
    assert_eq!(get_score("Vim", "vim"), 100);
    assert_eq!(get_score("vim-tiny", "vim"), 80);
    assert_eq!(get_score("gvim", "vim"), 60);
    assert_eq!(get_score("nano", "vim"), 0);
}
