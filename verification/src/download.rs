//! What a download of packages is made of: where each archive comes from and where it is
//! kept, when a failed download is tried again, and what a failure is reported as.
use vstd::prelude::*;
use crate::package::Package;
use crate::text::{
    chars_of, contains_chars, contains_sub, decimal, decimal_of, extend_chars, extend_str,
    join_path, path_join, strip_end, strip_end_chars, string_of, CharClass,
};

verus! {

/// Where downloaded archives are kept.
pub const DL_DIR: &'static str = "/var/cache/lpm/archives";

/// How many times a download is tried before it is given up.
pub const MAX_RETRIES: usize = 3;

/// How many downloads run at once.
pub const MAX_CONCURRENT: usize = 8;

/// The download directory as characters.
pub open spec fn dl_dir() -> Seq<char> {
    "/var/cache/lpm/archives"@
}

// ─────────────────────────────────────────────────────────────
//  Archive file names
// ─────────────────────────────────────────────────────────────

/// A version as it stands in a file name: `:` written `%3A` and `/` written `%2F`.
pub open spec fn escaped_version(v: Seq<char>) -> Seq<char>
    decreases v.len(),
{
    if v.len() == 0 {
        Seq::empty()
    } else {
        escaped_version(v.drop_last()) + if v.last() == ':' {
            seq!['%', '3', 'A']
        } else if v.last() == '/' {
            seq!['%', '2', 'F']
        } else {
            seq![v.last()]
        }
    }
}

/// The file name of a package's archive: `name_version_arch.deb`.
pub open spec fn archive_name(p: Package) -> Seq<char> {
    p.name@ + seq!['_'] + escaped_version(p.version@) + seq!['_'] + p.architecture@ + seq!['.', 'd', 'e', 'b']
}

/// Where a package's archive is kept.
pub open spec fn dest_path(p: Package) -> Seq<char> {
    path_join(dl_dir(), archive_name(p))
}

/// Where the archive of `pkg` is kept in the download directory.
pub fn pkg_dest_path(pkg: &Package) -> (r: String)
    ensures
        r@ == dest_path(*pkg),
{
    let name = chars_of(pkg.version.as_str());
    let mut f: Vec<char> = chars_of(pkg.name.as_str());
    f.push('_');
    let mut i: usize = 0;
    let ghost start = f@;
    assert(name@.take(0) == Seq::<char>::empty());
    while i < name.len()
        invariant
            i <= name@.len(),
            name@ == pkg.version@,
            f@ == start + escaped_version(name@.take(i as int)),
        decreases name.len() - i,
    {
        let c = name[i];
        assert(name@.take(i + 1).drop_last() == name@.take(i as int));
        if c == ':' {
            f.push('%');
            f.push('3');
            f.push('A');
        } else if c == '/' {
            f.push('%');
            f.push('2');
            f.push('F');
        } else {
            f.push(c);
        }
        i = i + 1;
    }
    assert(name@.take(name@.len() as int) == name@);
    f.push('_');
    extend_str(&mut f, pkg.architecture.as_str());
    f.push('.');
    f.push('d');
    f.push('e');
    f.push('b');
    assert(f@ == archive_name(*pkg));
    let d = chars_of(DL_DIR);
    let r = join_path(&d, &f);
    string_of(&r)
}

// ─────────────────────────────────────────────────────────────
//  Jobs
// ─────────────────────────────────────────────────────────────

/// One archive to fetch: from `url` to `dest`, shown as `label`, of `size` bytes where the
/// index gives a size.
pub struct DownloadJob {
    pub url: String,
    pub dest: String,
    pub label: String,
    pub size: u64,
}

/// A downloaded archive: the package and where its file now lies.
pub struct DownloadResult {
    pub package: Package,
    pub path: String,
}

/// Why a download could not even be planned.
pub enum DownloadError {
    /// The named package has no repository to fetch it from.
    NoRepository(String),
    /// The named package has no file name in its index.
    NoFilename(String),
}

/// The URL of an archive: the repository's base URI without its trailing `/`s, a `/`, then
/// the file name.
pub open spec fn archive_url(base: Seq<char>, filename: Seq<char>) -> Seq<char> {
    strip_end(base, CharClass::Exactly('/')) + seq!['/'] + filename
}

/// The job that fetches a package that has both a base URI and a file name.
pub open spec fn job_of(p: Package, j: DownloadJob) -> bool {
    &&& p.repo_base_uri is Some
    &&& p.filename is Some
    &&& j.url@ == archive_url(p.repo_base_uri->0@, p.filename->0@)
    &&& j.dest@ == dest_path(p)
    &&& j.label@ == p.name@ + seq![' '] + p.version@
    &&& j.size == match p.download_size {
        Some(s) => s,
        None => 0,
    }
}

/// Whether a package can be fetched: it names its repository and its file.
pub open spec fn fetchable(p: Package) -> bool {
    p.repo_base_uri is Some && p.filename is Some
}

/// The error for a package that cannot be fetched.
pub open spec fn missing_error(p: Package, e: DownloadError) -> bool {
    match e {
        DownloadError::NoRepository(n) => p.repo_base_uri is None && n@ == p.name@,
        DownloadError::NoFilename(n) => p.repo_base_uri is Some && p.filename is None && n@ == p.name@,
    }
}

/// The jobs for a list of packages, in order; the error for the first package that cannot
/// be fetched, if any cannot.
pub fn download_jobs(packages: &[Package]) -> (r: Result<Vec<DownloadJob>, DownloadError>)
    ensures
        match r {
            Ok(jobs) => {
                &&& forall|i: int| 0 <= i < packages@.len() ==> fetchable(#[trigger] packages@[i])
                &&& jobs@.len() == packages@.len()
                &&& forall|i: int| 0 <= i < jobs@.len() ==> job_of(packages@[i], #[trigger] jobs@[i])
            },
            Err(e) => exists|i: int| {
                &&& 0 <= i < packages@.len()
                &&& forall|j: int| 0 <= j < i ==> fetchable(#[trigger] packages@[j])
                &&& !fetchable(packages@[i])
                &&& missing_error(packages@[i], e)
            },
        },
{
    let mut jobs: Vec<DownloadJob> = Vec::new();
    let mut i: usize = 0;
    while i < packages.len()
        invariant
            i <= packages@.len(),
            jobs@.len() == i,
            forall|j: int| 0 <= j < i ==> fetchable(#[trigger] packages@[j]),
            forall|j: int| 0 <= j < i ==> job_of(packages@[j], #[trigger] jobs@[j]),
        decreases packages.len() - i,
    {
        let p = &packages[i];
        let base = match &p.repo_base_uri {
            Some(u) => u,
            None => {
                let e = DownloadError::NoRepository(p.name.clone());
                assert(missing_error(packages@[i as int], e));
                return Err(e);
            },
        };
        let filename = match &p.filename {
            Some(f) => f,
            None => {
                let e = DownloadError::NoFilename(p.name.clone());
                assert(missing_error(packages@[i as int], e));
                return Err(e);
            },
        };
        let bc = chars_of(base.as_str());
        let mut url = strip_end_chars(&bc, &CharClass::Exactly('/'));
        url.push('/');
        extend_str(&mut url, filename.as_str());
        let mut label: Vec<char> = chars_of(p.name.as_str());
        label.push(' ');
        extend_str(&mut label, p.version.as_str());
        let size: u64 = match p.download_size {
            Some(s) => s,
            None => 0,
        };
        let job = DownloadJob {
            url: string_of(&url),
            dest: pkg_dest_path(p),
            label: string_of(&label),
            size,
        };
        assert(p.repo_base_uri == Some(*base));
        assert(job.url@ == archive_url(base@, filename@));
        assert(job.dest@ == dest_path(*p));
        assert(job.label@ == p.name@ + seq![' '] + p.version@);
        assert(job_of(packages@[i as int], job));
        jobs.push(job);
        i = i + 1;
    }
    Ok(jobs)
}

// ─────────────────────────────────────────────────────────────
//  Retries and answers
// ─────────────────────────────────────────────────────────────

/// Whether a download that failed on try `attempt` (from 0) is tried again: not after the
/// last try, and never when the server said 404.
pub open spec fn retries(attempt: int, error_text: Seq<char>) -> bool {
    attempt + 1 < MAX_RETRIES && !contains_sub(error_text, "404"@)
}

/// Whether to try a failed download again.
pub fn should_retry(attempt: usize, error_text: &str) -> (r: bool)
    ensures
        r == retries(attempt as int, error_text@),
{
    if attempt >= MAX_RETRIES - 1 {
        return false;
    }
    let e = chars_of(error_text);
    let t = chars_of("404");
    !contains_chars(&e, &t)
}

/// What a server's status code means for a download.
#[derive(PartialEq, Eq, Structural, Clone, Copy, Debug)]
pub enum StatusClass {
    Success,
    NotFound,
    Failed,
}

pub open spec fn status_class(code: u16) -> StatusClass {
    if 200 <= code <= 299 {
        StatusClass::Success
    } else if code == 404 {
        StatusClass::NotFound
    } else {
        StatusClass::Failed
    }
}

/// A 2xx status is success; 404 is "not found", which is not tried again; anything else
/// is a failure.
pub fn classify_status(code: u16) -> (r: StatusClass)
    ensures
        r == status_class(code),
{
    if 200 <= code && code <= 299 {
        StatusClass::Success
    } else if code == 404 {
        StatusClass::NotFound
    } else {
        StatusClass::Failed
    }
}

// ─────────────────────────────────────────────────────────────
//  Messages
// ─────────────────────────────────────────────────────────────

impl DownloadError {
    pub open spec fn text(&self) -> Seq<char> {
        match self {
            DownloadError::NoRepository(n) => "Package "@ + n@ + " has no repository URI — run `lpm update` first"@,
            DownloadError::NoFilename(n) => "Package "@ + n@ + " has no filename in metadata — run `lpm update` first"@,
        }
    }

    /// The message for the error.
    pub fn message(&self) -> (r: String)
        ensures
            r@ == self.text(),
    {
        let mut v: Vec<char> = chars_of("Package ");
        match self {
            DownloadError::NoRepository(n) => {
                extend_str(&mut v, n.as_str());
                extend_str(&mut v, " has no repository URI — run `lpm update` first");
            },
            DownloadError::NoFilename(n) => {
                extend_str(&mut v, n.as_str());
                extend_str(&mut v, " has no filename in metadata — run `lpm update` first");
            },
        }
        string_of(&v)
    }
}

/// The message for `url` not found on the server.
pub fn not_found_message(url: &str) -> (r: String)
    ensures
        r@ == "404 Not Found: "@ + url@,
{
    let mut v: Vec<char> = chars_of("404 Not Found: ");
    extend_str(&mut v, url);
    string_of(&v)
}

/// The message when `n` archives could not be downloaded.
pub open spec fn failures_text(n: nat) -> Seq<char> {
    decimal(n) + " package(s) could not be downloaded. Transaction aborted — nothing was installed.\nFix your network connection or try again."@
}

pub fn failures_message(n: u64) -> (r: String)
    ensures
        r@ == failures_text(n as nat),
{
    let mut v: Vec<char> = decimal_of(n);
    extend_str(
        &mut v,
        " package(s) could not be downloaded. Transaction aborted — nothing was installed.\nFix your network connection or try again.",
    );
    string_of(&v)
}

} // verus!
