use lpm::download::{
    classify_status, download_jobs, failures_message, not_found_message, pkg_dest_path, should_retry, DownloadError,
    StatusClass,
};
use lpm::package::Package;
use lpm::solver::download_bytes_of;

fn pkg(name: &str, version: &str) -> Package {
    Package {
        name: name.to_string(),
        version: version.to_string(),
        architecture: "amd64".to_string(),
        repo_base_uri: Some("http://deb.debian.org/debian//".to_string()),
        filename: Some("pool/main/v/vim.deb".to_string()),
        download_size: Some(10),
        ..Default::default()
    }
}

#[test]
fn archives_are_named_with_escaped_versions() {
    assert_eq!(pkg_dest_path(&pkg("vim", "2:9.0/1")), "/var/cache/lpm/archives/vim_2%3A9.0%2F1_amd64.deb");
}

#[test]
fn jobs_join_base_uri_and_file_name() {
    let jobs = match download_jobs(&[pkg("vim", "1"), pkg("nano", "2")]) {
        Ok(j) => j,
        Err(_) => panic!("expected jobs"),
    };
    assert_eq!(jobs.len(), 2);
    assert_eq!(jobs[0].url, "http://deb.debian.org/debian/pool/main/v/vim.deb");
    assert_eq!(jobs[0].dest, "/var/cache/lpm/archives/vim_1_amd64.deb");
    assert_eq!(jobs[1].label, "nano 2");
    assert_eq!(jobs[1].size, 10);
}

#[test]
fn packages_without_metadata_stop_the_download() {
    let mut a = pkg("a", "1");
    a.filename = None;
    let mut b = pkg("b", "1");
    b.repo_base_uri = None;
    match download_jobs(&[pkg("ok", "1"), a, b]) {
        Err(e) => {
            assert!(matches!(e, DownloadError::NoFilename(_)));
            assert_eq!(e.message(), "Package a has no filename in metadata — run `lpm update` first");
        }
        Ok(_) => panic!("expected an error"),
    }
    let mut c = pkg("c", "1");
    c.repo_base_uri = None;
    match download_jobs(&[c]) {
        Err(e) => assert_eq!(e.message(), "Package c has no repository URI — run `lpm update` first"),
        Ok(_) => panic!("expected an error"),
    }
}

#[test]
fn retries_stop_after_three_tries_or_a_404() {
    assert!(should_retry(0, "connection reset"));
    assert!(should_retry(1, "timeout"));
    assert!(!should_retry(2, "timeout"));
    assert!(!should_retry(0, "404 Not Found: http://x"));
    assert_eq!(not_found_message("http://x"), "404 Not Found: http://x");
}

#[test]
fn status_codes_are_classified() {
    assert_eq!(classify_status(200), StatusClass::Success);
    assert_eq!(classify_status(204), StatusClass::Success);
    assert_eq!(classify_status(404), StatusClass::NotFound);
    assert_eq!(classify_status(500), StatusClass::Failed);
    assert_eq!(classify_status(301), StatusClass::Failed);
}

#[test]
fn failure_summary_counts_packages() {
    assert_eq!(
        failures_message(3),
        "3 package(s) could not be downloaded. Transaction aborted — nothing was installed.\nFix your network connection or try again."
    );
}

#[test]
fn download_total_sums_known_sizes() {
    let mut b = pkg("b", "1");
    b.download_size = None;
    assert_eq!(download_bytes_of(&vec![pkg("a", "1"), b, pkg("c", "1")]), 20);
}
