use lpm::db::{split_files, InstallReason, InstalledDb};
use lpm::dpkg_status::{build_status_block, dpkg_installed, dpkg_list_content, get_field, mark_deinstalled, upsert_status};
use lpm::import_dpkg::{import_packages, list_file_entries, parse_dpkg_status};
use lpm::package::Package;

fn pkg(name: &str, version: &str) -> Package {
    Package { name: name.to_string(), version: version.to_string(), architecture: "amd64".to_string(), installed_size_kb: Some(7), ..Default::default() }
}

fn s(v: &[&str]) -> Vec<String> {
    v.iter().map(|x| x.to_string()).collect()
}

#[test]
fn install_is_read_back_and_logged() {
    let mut db = InstalledDb::new();
    db.record_install(&pkg("vim", "9.0"), InstallReason::User, &s(&["/usr/bin/vim", "/usr/share/vim/x"]), "2024-01-01T00:00:00Z");
    let row = db.get("vim").unwrap();
    assert_eq!(row.version, "9.0");
    assert_eq!(row.installed_size_kb, 7);
    assert_eq!(row.files, "/usr/bin/vim;/usr/share/vim/x");
    assert_eq!(row.reason, InstallReason::User);
    assert!(db.is_installed("vim"));
    assert_eq!(db.files_of("vim"), s(&["/usr/bin/vim", "/usr/share/vim/x"]));
    let h = db.history(10);
    assert_eq!(h.len(), 1);
    assert_eq!(h[0].id, 1);
    assert_eq!(h[0].action, "install");
    assert_eq!(h[0].new_ver.as_deref(), Some("9.0"));
    assert_eq!(db.last_history_id(), 1);
}

#[test]
fn upgrade_keeps_reason_and_remove_forgets() {
    let mut db = InstalledDb::new();
    db.record_install(&pkg("lib", "1"), InstallReason::Dependency, &[], "t1");
    db.record_upgrade("1", &pkg("lib", "2"), &[], "t2");
    let row = db.get("lib").unwrap();
    assert_eq!(row.version, "2");
    assert_eq!(row.reason, InstallReason::Dependency);
    db.record_remove("lib", "2", "t3");
    assert!(!db.is_installed("lib"));
    assert_eq!(db.count(), 0);
    let h = db.history(10);
    assert_eq!(h.iter().map(|e| e.action.as_str()).collect::<Vec<_>>(), vec!["remove", "upgrade", "install"]);
    assert_eq!(h[1].old_ver.as_deref(), Some("1"));
    assert_eq!(db.get_history_entry(2).unwrap().action, "upgrade");
    assert!(db.get_history_entry(9).is_none());
    assert_eq!(db.history(1).len(), 1);
}

#[test]
fn list_all_is_sorted_and_user_list_filters() {
    let mut db = InstalledDb::new();
    db.record_install(&pkg("b", "1"), InstallReason::User, &[], "t");
    db.record_install(&pkg("a", "1"), InstallReason::Dependency, &[], "t");
    db.record_install(&pkg("c", "1"), InstallReason::User, &[], "t");
    let all: Vec<String> = db.list_all().iter().map(|p| p.name.clone()).collect();
    assert_eq!(all, s(&["a", "b", "c"]));
    let user: Vec<String> = db.list_user_installed().iter().map(|p| p.name.clone()).collect();
    assert_eq!(user, s(&["b", "c"]));
}

#[test]
fn reasons_round_trip_as_words() {
    assert_eq!(InstallReason::User.as_str(), "user");
    assert_eq!(InstallReason::Dependency.as_str(), "dep");
    assert_eq!(InstallReason::from_str("dep"), InstallReason::Dependency);
    assert_eq!(InstallReason::from_str("anything"), InstallReason::User);
    assert_eq!(split_files(&"a;;b;".to_string()), s(&["a", "b"]));
}

#[test]
fn status_block_has_the_dpkg_fields() {
    let b = build_status_block("vim", "9.0", "amd64", 12, Some("libc6"), None, Some("editors"), None, None);
    assert_eq!(
        b,
        "Package: vim\nStatus: install ok installed\nSection: editors\nArchitecture: amd64\nVersion: 9.0\nDepends: libc6\nInstalled-Size: 12\nDescription: vim\n"
    );
    assert_eq!(get_field(&b, "version").as_deref(), Some("9.0"));
    assert_eq!(get_field(&b, "Recommends"), None);
}

#[test]
fn status_file_updates_replace_or_append() {
    let cur = "Package: a\nStatus: install ok installed\nVersion: 1\n\nPackage: b\nStatus: install ok installed\nVersion: 2\n\n";
    let new_a = "Package: a\nStatus: install ok installed\nVersion: 3\n";
    let out = upsert_status(cur, "a", new_a);
    assert_eq!(out, "Package: a\nStatus: install ok installed\nVersion: 3\n\n\nPackage: b\nStatus: install ok installed\nVersion: 2\n\n");
    let pairs = dpkg_installed(&out);
    assert_eq!(pairs, vec![("a".to_string(), "3".to_string()), ("b".to_string(), "2".to_string())]);
    let gone = mark_deinstalled(&out, "b");
    assert!(gone.contains("Status: deinstall ok config-files"));
    assert_eq!(dpkg_installed(&gone), vec![("a".to_string(), "3".to_string())]);
    let appended = upsert_status("", "z", "Package: z\n");
    assert_eq!(appended, "Package: z\n\n\n");
}

#[test]
fn list_file_names_directories_then_files() {
    let c = dpkg_list_content(&s(&["/usr/bin/vim", "/usr/share/doc/vim/copyright", "", "/etc/vimrc"]));
    assert_eq!(c, "/etc\n/usr/bin\n/usr/share/doc/vim\n/usr/bin/vim\n/usr/share/doc/vim/copyright\n/etc/vimrc\n");
    assert_eq!(list_file_entries("/a\n\n/b\n"), s(&["/a", "/b"]));
}

#[test]
fn dpkg_import_skips_what_is_installed() {
    let status = "Package: a\nStatus: install ok installed\nVersion: 1\nArchitecture: all\n\nPackage: gone\nStatus: deinstall ok config-files\nVersion: 1\n\nPackage: b\nStatus: install ok installed\nVersion: 2\nInstalled-Size: 5\n";
    let pkgs = parse_dpkg_status(status);
    assert_eq!(pkgs.iter().map(|p| p.name.clone()).collect::<Vec<_>>(), s(&["a", "b"]));
    assert_eq!(pkgs[1].installed_size_kb, Some(5));
    let mut db = InstalledDb::new();
    db.record_install(&pkg("b", "2"), InstallReason::User, &[], "t");
    let files = vec![s(&["/x"]), s(&[])];
    let (imported, skipped) = import_packages(&mut db, &pkgs, &files, "now");
    assert_eq!((imported, skipped), (1, 1));
    assert_eq!(db.get("a").unwrap().files, "/x");
}
