use lpm::cache::PackageCache;
use lpm::index::{
    all_variants_failed, arch_from_machine, decompress, extract_base_uri_comment, index_label,
    index_variants, stored_index, url_to_cache_name,
};
use lpm::apt_sources::IndexUrl;
use lpm::package::Package;
use std::io::Write;

fn pkg(name: &str, version: &str) -> Package {
    Package { name: name.to_string(), version: version.to_string(), architecture: "amd64".to_string(), ..Default::default() }
}

#[test]
fn cache_keeps_the_newest_version_by_name() {
    let mut c = PackageCache::empty();
    c.ingest(pkg("vim", "1.0"));
    c.ingest(pkg("vim", "2.0"));
    c.ingest(pkg("vim", "1.5"));
    assert_eq!(c.get("vim").unwrap().version, "2.0");
    assert_eq!(c.len(), 1);
    assert_eq!(c.get_exact("vim", "1.5", "amd64").unwrap().version, "1.5");
    assert_eq!(c.get_exact("vim", "1.0", "amd64").unwrap().version, "1.0");
    assert!(c.get_exact("vim", "3.0", "amd64").is_none());
    assert!(c.get("emacs").is_none());
}

#[test]
fn equal_versions_replace_the_earlier_package() {
    let mut c = PackageCache::empty();
    let mut a = pkg("x", "1.0");
    a.section = Some("a".to_string());
    let mut b = pkg("x", "1.0");
    b.section = Some("b".to_string());
    c.ingest(a);
    c.ingest(b);
    assert_eq!(c.get("x").unwrap().section.as_deref(), Some("b"));
}

#[test]
fn search_ranks_exact_then_prefix_then_name() {
    let mut c = PackageCache::empty();
    c.ingest(pkg("libvim", "1"));
    c.ingest(pkg("vim-tiny", "1"));
    c.ingest(pkg("vim", "1"));
    c.ingest(pkg("nano", "1"));
    let mut d = pkg("ed", "1");
    d.description_short = Some("line editor like VIM".to_string());
    c.ingest(d);
    let r: Vec<&str> = c.search("Vim").iter().map(|p| p.name.as_str()).collect();
    assert_eq!(r, vec!["vim", "vim-tiny", "ed", "libvim"]);
    let all: Vec<&str> = c.all_packages().iter().map(|p| p.name.as_str()).collect();
    assert_eq!(all, vec!["ed", "libvim", "nano", "vim", "vim-tiny"]);
}

#[test]
fn stored_index_gives_back_its_base_uri() {
    let s = stored_index("https://deb.debian.org/debian/ ", "Package: a\nVersion: 1\n");
    assert_eq!(s, "# lpm-base-uri: https://deb.debian.org/debian/ \nPackage: a\nVersion: 1\n");
    assert_eq!(extract_base_uri_comment(&s).as_deref(), Some("https://deb.debian.org/debian/"));
    assert_eq!(extract_base_uri_comment("Package: a\n"), None);
}

#[test]
fn load_index_fills_missing_base_uris() {
    let mut c = PackageCache::empty();
    let text = stored_index("http://repo", "Package: a\nVersion: 1\n\nPackage: b\nVersion: 2\n");
    assert_eq!(c.load_index(&text), 2);
    assert_eq!(c.get("a").unwrap().repo_base_uri.as_deref(), Some("http://repo"));
    assert_eq!(c.get("b").unwrap().version, "2");
}

#[test]
fn cache_names_replace_other_characters() {
    assert_eq!(url_to_cache_name("http://deb.debian.org/debian"), "http___deb_debian_org_debian");
    assert_eq!(url_to_cache_name("a-b_c/é"), "a-b_c_é");
    let long = "x".repeat(130);
    assert_eq!(url_to_cache_name(&long).chars().count(), 120);
}

#[test]
fn gzip_index_is_decompressed() {
    let mut e = flate2::write::GzEncoder::new(Vec::new(), flate2::Compression::default());
    e.write_all(b"Package: a\n").unwrap();
    let gz = e.finish().unwrap();
    assert_eq!(decompress(&gz, ".gz").as_deref(), Some("Package: a\n"));
    assert_eq!(decompress(b"not gzip", ".gz"), None);
}

#[test]
fn xz_and_bzip2_indexes_are_decompressed() {
    let mut x = xz2::write::XzEncoder::new(Vec::new(), 6);
    x.write_all(b"hello").unwrap();
    let xz = x.finish().unwrap();
    assert_eq!(decompress(&xz, ".xz").as_deref(), Some("hello"));
    let mut b = bzip2::write::BzEncoder::new(Vec::new(), bzip2::Compression::default());
    b.write_all(b"world").unwrap();
    let bz = b.finish().unwrap();
    assert_eq!(decompress(&bz, ".bz2").as_deref(), Some("world"));
}

#[test]
fn plain_index_is_read_lossily() {
    assert_eq!(decompress(&[0x61, 0xff, 0x62], "").as_deref(), Some("a\u{fffd}b"));
}

#[test]
fn variants_try_xz_gz_bz2_then_plain() {
    let v = index_variants("http://r/Packages");
    let urls: Vec<&str> = v.iter().map(|p| p.0.as_str()).collect();
    assert_eq!(urls, vec!["http://r/Packages.xz", "http://r/Packages.gz", "http://r/Packages.bz2", "http://r/Packages"]);
    assert_eq!(v[3].1, "");
    assert_eq!(
        all_variants_failed("u", "boom"),
        "All variants failed for u  (tried: u.xz, u.gz, u.bz2, u)\n  boom"
    );
}

#[test]
fn machine_names_map_to_debian_architectures() {
    assert_eq!(arch_from_machine("x86_64"), "amd64");
    assert_eq!(arch_from_machine("aarch64"), "arm64");
    assert_eq!(arch_from_machine("armv7l"), "armhf");
    assert_eq!(arch_from_machine("i686"), "i386");
    assert_eq!(arch_from_machine("riscv64"), "riscv64");
    assert_eq!(arch_from_machine("mips"), "mips");
}

#[test]
fn index_label_defaults_to_suite_component_arch() {
    let mut u = IndexUrl {
        url: "x".to_string(),
        base_uri: "b".to_string(),
        suite: "stable".to_string(),
        component: "main".to_string(),
        arch: "amd64".to_string(),
        label: None,
    };
    assert_eq!(index_label(&u), "stable/main [amd64]");
    u.label = Some("debian".to_string());
    assert_eq!(index_label(&u), "debian");
}

#[test]
fn equal_versions_keep_the_later_one_and_len_counts_names() {
    let mut c = PackageCache::empty();
    let mut a = pkg("vim", "9.0");
    a.description_short = Some("first".to_string());
    let mut b = pkg("vim", "9.0");
    b.description_short = Some("second".to_string());
    c.ingest(a);
    c.ingest(pkg("nano", "7.2"));
    c.ingest(b);
    c.ingest(pkg("vim", "8.2"));
    assert_eq!(c.get("vim").unwrap().description_short.as_deref(), Some("second"));
    assert_eq!(c.len(), 2);
    assert_eq!(c.get_exact("vim", "8.2", &c.get("vim").unwrap().architecture.clone()).unwrap().version, "8.2");
    assert!(c.get_exact("vim", "7.0", "amd64").is_none());
}
