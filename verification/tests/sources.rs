use lpm::apt_sources::{
    default_true, entries_from_toml, normalize_suite, parse_deb822_line, parse_options, parse_sources_list,
    strip_inline_comments, EntryKind, SourceEntry, SourcesList, TomlRepo,
};
use lpm::repo::{ConfigFile, RepoEdit, RepoError, RepoManager};

fn s(v: &[&str]) -> Vec<String> {
    v.iter().map(|x| x.to_string()).collect()
}

fn entry(uri: &str, suite: &str, comps: &[&str], enabled: bool) -> SourceEntry {
    SourceEntry {
        kind: EntryKind::Deb,
        uri: uri.to_string(),
        suite: suite.to_string(),
        components: s(comps),
        arches: Vec::new(),
        signed_by: None,
        enabled,
        label: Some("deb".to_string()),
    }
}

#[test]
fn one_line_entries_are_read() {
    let text = "# comment\n\ndeb [arch=amd64,arm64 signed-by=/k.gpg] http://deb.debian.org/debian bookworm main contrib\n# deb http://x/ sid main\ndeb-src http://y stable main\nnonsense line\n";
    let es = parse_sources_list(text);
    assert_eq!(es.len(), 3);
    assert!(matches!(es[0].kind, EntryKind::Deb));
    assert_eq!(es[0].uri, "http://deb.debian.org/debian");
    assert_eq!(es[0].suite, "bookworm");
    assert_eq!(es[0].components, s(&["main", "contrib"]));
    assert_eq!(es[0].arches, s(&["amd64", "arm64"]));
    assert_eq!(es[0].signed_by.as_deref(), Some("/k.gpg"));
    assert!(es[0].enabled);
    assert!(!es[1].enabled);
    assert_eq!(es[1].uri, "http://x/");
    assert_eq!(es[1].suite, "sid");
    assert_eq!(es[1].components, s(&["main"]));
    assert!(matches!(es[2].kind, EntryKind::DebSrc));
    let off = parse_deb822_line("# deb http://x/ sid main").unwrap();
    assert!(!off.enabled);
    assert_eq!(off.uri, "http://x/");
    assert_eq!(off.suite, "sid");
    assert!(parse_deb822_line("deb http://only-uri").is_none());
}

#[test]
fn options_give_architectures_and_key() {
    let (a, k) = parse_options(Some("arch=i386 trusted=yes"));
    assert_eq!(a, s(&["i386"]));
    assert_eq!(k, None);
    let (a2, k2) = parse_options(None);
    assert!(a2.is_empty() && k2.is_none());
}

#[test]
fn index_urls_cover_components_and_architectures() {
    let mut flat = entry("http://flat/", "", &[], true);
    flat.arches = s(&["arm64"]);
    let list = SourcesList {
        entries: vec![entry("http://r/debian/", "stable", &["main", "contrib"], true), entry("http://off", "x", &["main"], false), flat],
    };
    let urls: Vec<String> = list.index_urls("amd64").iter().map(|u| u.url.clone()).collect();
    assert_eq!(
        urls,
        s(&[
            "http://r/debian/dists/stable/main/binary-amd64/Packages",
            "http://r/debian/dists/stable/contrib/binary-amd64/Packages",
            "http://flat/Packages",
        ])
    );
    assert_eq!(list.active_deb_entries().len(), 2);
}

#[test]
fn toml_tables_become_entries() {
    let repos = vec![TomlRepo {
        name: "debian".to_string(),
        baseurl: "https://deb.debian.org/debian".to_string(),
        suite: "stable".to_string(),
        components: s(&["main"]),
        arch: s(&["amd64"]),
        enabled: default_true(),
        gpgkey: Some("/k".to_string()),
    }];
    let es = entries_from_toml(&repos);
    assert_eq!(es.len(), 1);
    assert_eq!(es[0].label.as_deref(), Some("debian"));
    assert_eq!(es[0].signed_by.as_deref(), Some("/k"));
    assert!(es[0].enabled);
}

#[test]
fn suites_and_comments_are_normalised() {
    assert_eq!(normalize_suite("sid"), "unstable");
    assert_eq!(normalize_suite("trixie"), "trixie");
    assert_eq!(strip_inline_comments("a = 1 # c\n# whole\nb = 2"), "a = 1\n# whole\nb = 2");
}

#[test]
fn repo_add_appends_a_table() {
    let (name, text) = RepoManager::add("old\n", "https://ex.org/repo/", "stable", &s(&["main", "extra"]));
    assert_eq!(name, "repo-stable");
    assert_eq!(
        text,
        "old\n\n[[repo]]\nname       = \"repo-stable\"\nbaseurl    = \"https://ex.org/repo/\"\nsuite      = \"stable\"\ncomponents = [\"main\", \"extra\"]\narch       = [\"amd64\"]\nenabled    = true\n"
    );
}

#[test]
fn repo_edits_rewrite_the_configuration() {
    let es = vec![entry("http://a", "s1", &["main"], true), entry("http://b", "s2", &["x", "y"], true)];
    match RepoManager::disable(1, &es, false, true) {
        Ok((ConfigFile::List, text)) => assert_eq!(
            text,
            "# /etc/lpm/sources.list — managed by lpm\ndeb http://a s1 main\n# deb http://b s2 x y\n"
        ),
        _ => panic!("expected the list file"),
    }
    match RepoManager::remove(0, &es, true, true) {
        Ok((ConfigFile::Toml, text)) => assert_eq!(
            text,
            "# /etc/lpm/sources-list.toml — managed by lpm\n\n[[repo]]\nname       = \"deb\"\nbaseurl    = \"http://b\"\nsuite      = \"s2\"\ncomponents = [\"x\", \"y\"]\narch       = [\"amd64\"]\nenabled    = true\n\n"
        ),
        _ => panic!("expected the toml file"),
    }
    assert!(matches!(RepoManager::enable(5, &es, true, true), Err(RepoError::NoSuchId(5))));
    assert!(matches!(RepoManager::modify_by_id(0, &es, false, false, RepoEdit::Enable), Err(RepoError::NoConfigFile)));
    assert_eq!(
        RepoError::NoSuchId(5).message(),
        "No repository with ID 5. Run `lpm repo list` to see available."
    );
    let listed = RepoManager::list(&es);
    assert_eq!(listed.len(), 2);
    assert_eq!(listed[1].0, 1);
}
