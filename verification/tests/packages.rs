use lpm::package::{parse_dep_field, split_description, Package};
use lpm::version::VersionOp;

const INDEX: &str = "Package: vim\nVersion: 2:9.0.1378-2\nArchitecture: amd64\nInstalled-Size: 3800\nSize: 1600000\nFilename: pool/main/v/vim/vim_9.0.deb\nDepends: vim-common (= 2:9.0.1378-2), libc6 (>= 2.34)\nDescription: Vi IMproved\n enhanced vi editor\n\nPackage: nano\nVersion: 7.2-1\nArchitecture: amd64\n\nPackage: broken\nArchitecture: all\n";

#[test]
fn parse_index_reads_each_stanza() {
    let pkgs = Package::parse_index(INDEX);
    assert_eq!(pkgs.len(), 2);
    assert_eq!(pkgs[0].name, "vim");
    assert_eq!(pkgs[0].version, "2:9.0.1378-2");
    assert_eq!(pkgs[0].architecture, "amd64");
    assert_eq!(pkgs[0].installed_size_kb, Some(3800));
    assert_eq!(pkgs[0].download_size, Some(1600000));
    assert_eq!(pkgs[0].filename.as_deref(), Some("pool/main/v/vim/vim_9.0.deb"));
    assert_eq!(pkgs[0].description_short.as_deref(), Some("Vi IMproved"));
    assert_eq!(pkgs[1].name, "nano");
    assert_eq!(pkgs[1].depends, None);
}

#[test]
fn parse_block_needs_name_and_version() {
    assert!(Package::parse_block("Package: x\nArchitecture: all").is_none());
    let p = Package::parse_block("Package: x\nVersion: 1\n").unwrap();
    assert_eq!(p.name, "x");
    assert_eq!(p.version, "1");
}

#[test]
fn description_splits_summary_from_body() {
    let (s, l) = split_description(Some("Summary line\n more text".to_string()));
    assert_eq!(s.as_deref(), Some("Summary line"));
    assert!(l.is_some());
    let (s2, l2) = split_description(None);
    assert!(s2.is_none() && l2.is_none());
}

#[test]
fn dependency_field_groups_and_alternatives() {
    let g = parse_dep_field("libc6 (>= 2.34), foo | bar:any, baz (<< 2.0)");
    assert_eq!(g.len(), 3);
    assert_eq!(g[0].alternatives.len(), 1);
    assert_eq!(g[0].alternatives[0].name, "libc6");
    let c = g[0].alternatives[0].constraint.as_ref().unwrap();
    assert!(matches!(c.op, VersionOp::Ge));
    assert_eq!(c.version, "2.34");
    assert_eq!(g[1].alternatives.len(), 2);
    assert_eq!(g[1].alternatives[1].name, "bar");
    assert_eq!(g[1].alternatives[1].arch_qual.as_deref(), Some(":any"));
    let c2 = g[2].alternatives[0].constraint.as_ref().unwrap();
    assert!(matches!(c2.op, VersionOp::Lt));
}
