use lpm::deb::{comp_from_name, decompress, list_regular_files, Compression, DebError, DebPackage};
use std::io::Write;

fn tar_of(entries: &[(&str, &[u8], u8)]) -> Vec<u8> {
    let mut b = tar::Builder::new(Vec::new());
    for (path, data, kind) in entries {
        let mut h = tar::Header::new_gnu();
        h.set_size(data.len() as u64);
        h.set_mode(0o644);
        h.set_entry_type(tar::EntryType::new(*kind));
        h.set_cksum();
        b.append_data(&mut h, path, *data).unwrap();
    }
    b.into_inner().unwrap()
}

fn gz(data: &[u8]) -> Vec<u8> {
    let mut e = flate2::write::GzEncoder::new(Vec::new(), flate2::Compression::default());
    e.write_all(data).unwrap();
    e.finish().unwrap()
}

fn xz(data: &[u8]) -> Vec<u8> {
    let mut e = xz2::write::XzEncoder::new(Vec::new(), 6);
    e.write_all(data).unwrap();
    e.finish().unwrap()
}

fn ar_member(out: &mut Vec<u8>, name: &str, data: &[u8]) {
    let header = format!("{:<16}{:<12}{:<6}{:<6}{:<8}{:<10}`\n", format!("{}/", name), 0, 0, 0, 100644, data.len());
    assert_eq!(header.len(), 60);
    out.extend_from_slice(header.as_bytes());
    out.extend_from_slice(data);
    if data.len() % 2 == 1 {
        out.push(b'\n');
    }
}

fn sample_deb() -> Vec<u8> {
    let control = b"Package: hello\nVersion: 2.10-3\nArchitecture: amd64\nDescription: greets\n";
    let ctl = tar_of(&[("./control", control, b'0'), ("./postinst", b"#!/bin/sh\nexit 0\n", b'0')]);
    let data = tar_of(&[("./usr/bin/hello", b"ELF", b'0'), ("./usr/share/doc/hello/copyright", b"c", b'0'), ("./usr/bin/hi", b"", b'2')]);
    let mut deb = b"!<arch>\n".to_vec();
    ar_member(&mut deb, "debian-binary", b"2.0\n");
    ar_member(&mut deb, "control.tar.gz", &gz(&ctl));
    ar_member(&mut deb, "data.tar.xz", &xz(&data));
    deb
}

#[test]
fn deb_control_and_files_are_read() {
    let d = match DebPackage::parse(&sample_deb()) {
        Ok(d) => d,
        Err(e) => panic!("{}", e.message()),
    };
    assert_eq!(d.control.name, "hello");
    assert_eq!(d.control.version, "2.10-3");
    assert!(matches!(d.control_comp, Compression::Gz));
    assert!(matches!(d.data_compression, Compression::Xz));
    assert_eq!(d.file_list, vec!["/usr/bin/hello".to_string(), "/usr/share/doc/hello/copyright".to_string()]);
    assert_eq!(d.extract_script("postinst").as_deref(), Some("#!/bin/sh\nexit 0\n"));
    assert_eq!(d.extract_script("prerm"), None);
    assert!(d.data_archive().is_some());
}

#[test]
fn bad_files_are_refused() {
    assert!(matches!(DebPackage::parse(b"not an archive"), Err(DebError::BadMagic)));
    assert_eq!(DebError::BadMagic.message(), "Not a valid .deb file (bad ar magic)");
    let mut only_binary = b"!<arch>\n".to_vec();
    ar_member(&mut only_binary, "debian-binary", b"2.0\n");
    assert!(matches!(DebPackage::parse(&only_binary), Err(DebError::NoControlTar)));
    let mut truncated = b"!<arch>\n".to_vec();
    ar_member(&mut truncated, "control.tar.gz", b"abcdef");
    truncated.truncate(truncated.len() - 3);
    match DebPackage::parse(&truncated) {
        Err(e) => assert_eq!(e.message(), "Truncated .deb at ar member 'control.tar.gz'"),
        Ok(_) => panic!("expected truncation"),
    }
    let mut bad_gz = b"!<arch>\n".to_vec();
    ar_member(&mut bad_gz, "control.tar.gz", b"zz");
    assert!(matches!(DebPackage::parse(&bad_gz), Err(DebError::Decompress(_))));
}

#[test]
fn compression_follows_the_member_suffix() {
    assert!(matches!(comp_from_name("data.tar.zst"), Compression::Zst));
    assert!(matches!(comp_from_name("data.tar.bz2"), Compression::Bz2));
    assert!(matches!(comp_from_name("data.tar"), Compression::Plain));
    let z = zstd::encode_all(&b"abc"[..], 3).unwrap();
    assert_eq!(decompress(&z, Compression::Zst), Some(b"abc".to_vec()));
    assert_eq!(decompress(b"raw", Compression::Plain), Some(b"raw".to_vec()));
}

#[test]
fn regular_files_skip_links_and_directories() {
    let t = tar_of(&[("./etc/", b"", b'5'), ("./etc/a.conf", b"x", b'0'), ("./etc/l", b"", b'1')]);
    assert_eq!(list_regular_files(&t, Compression::Plain), Some(vec!["/etc/a.conf".to_string()]));
    assert_eq!(list_regular_files(b"garbage", Compression::Gz), None);
}

#[test]
fn member_paths_are_normalized() {
    assert_eq!(lpm::deb::rel_path_of("./a//b/./c/"), "a/b/c");
    assert_eq!(lpm::deb::rel_path_of("./"), "");
    assert_eq!(lpm::deb::rel_path_of("."), "");
    assert_eq!(lpm::deb::rel_path_of("usr/../bin"), "usr/../bin");
    assert_eq!(lpm::deb::rel_path_of("/etc/x"), "/etc/x");
}

fn data_tar() -> Vec<u8> {
    let mut b = tar::Builder::new(Vec::new());
    let mut dir = tar::Header::new_gnu();
    dir.set_entry_type(tar::EntryType::Directory);
    dir.set_size(0);
    dir.set_mode(0o755);
    b.append_data(&mut dir, "./usr/bin/", &[][..]).unwrap();
    let mut f = tar::Header::new_gnu();
    f.set_entry_type(tar::EntryType::Regular);
    f.set_size(3);
    f.set_mode(0o755);
    b.append_data(&mut f, "./usr/bin/tool", &b"abc"[..]).unwrap();
    let mut l = tar::Header::new_gnu();
    l.set_entry_type(tar::EntryType::Symlink);
    l.set_size(0);
    l.set_mode(0o777);
    b.append_link(&mut l, "./usr/bin/alias", "tool").unwrap();
    let mut root = tar::Header::new_gnu();
    root.set_entry_type(tar::EntryType::Directory);
    root.set_size(0);
    root.set_mode(0o755);
    b.append_data(&mut root, "./", &[][..]).unwrap();
    b.into_inner().unwrap()
}

#[test]
fn extraction_plan_follows_the_members() {
    let plan = lpm::deb::extraction_plan(&data_tar()).unwrap();
    assert_eq!(plan.len(), 3);
    assert_eq!(plan[0].path, "usr/bin");
    assert!(matches!(plan[0].action, lpm::deb::ExtractAction::Dir));
    assert!(!plan[0].regular && !plan[0].listed);
    assert_eq!(plan[1].path, "usr/bin/tool");
    match &plan[1].action {
        lpm::deb::ExtractAction::File { data, mode } => {
            assert_eq!(data, &b"abc".to_vec());
            assert_eq!(*mode, Some(0o755));
        }
        _ => panic!("expected a file"),
    }
    assert!(plan[1].regular && plan[1].listed);
    assert_eq!(plan[2].path, "usr/bin/alias");
    assert!(matches!(&plan[2].action, lpm::deb::ExtractAction::Symlink { target } if target == "tool"));
    assert!(!plan[2].regular && plan[2].listed);
    assert!(lpm::deb::extraction_plan(b"not a tar archive at all").map_or(true, |p| p.is_empty()));
}
