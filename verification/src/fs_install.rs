//! The rules of installing and removing files: which directories may be removed and in
//! what order, which files become executable, and where maintainer scripts and
//! configuration live.
use vstd::prelude::*;
use crate::db::InstallReason;
use crate::deb::DebPackage;
use crate::dpkg_status::{parent_of, path_parent};
use crate::package::Package;
use crate::text::{
    chars_eq, chars_eq_str, chars_of, extend_str, join_path, path_join, split_char, split_char_from, split_chars,
    string_of,
};

verus! {

// ─────────────────────────────────────────────────────────────
//  Path components
// ─────────────────────────────────────────────────────────────

/// Whether a segment is `.`.
pub open spec fn is_dot(s: Seq<char>) -> bool {
    s.len() == 1 && s[0] == '.'
}

/// The number of segments between `/`s that name something: not empty and not `.`.
pub open spec fn named_segments(segs: Seq<Seq<char>>) -> nat
    decreases segs.len(),
{
    if segs.len() == 0 {
        0
    } else {
        (if segs[0].len() == 0 || is_dot(segs[0]) {
            0nat
        } else {
            1nat
        }) + named_segments(segs.drop_first())
    }
}

/// Whether a relative path starts with `.` as a component of its own.
pub open spec fn leading_cur_dir(s: Seq<char>) -> bool {
    s.len() > 0 && s[0] == '.' && (s.len() == 1 || s[1] == '/')
}

/// The number of components of a path (`Path::components().count()` on Unix): the root,
/// a leading `.`, and each segment that is not empty or `.`.
pub open spec fn component_count(s: Seq<char>) -> nat {
    (if s.len() > 0 && s[0] == '/' {
        1nat
    } else {
        0nat
    }) + (if leading_cur_dir(s) {
        1nat
    } else {
        0nat
    }) + named_segments(split_char(s, '/'))
}

proof fn lemma_named_bound(cur: Seq<char>, s: Seq<char>, c: char)
    ensures
        named_segments(split_char_from(cur, s, c)) <= cur.len() + s.len(),
    decreases s.len(),
{
    let t = split_char_from(cur, s, c);
    let one: nat = if cur.len() == 0 || is_dot(cur) {
        0nat
    } else {
        1nat
    };
    if s.len() == 0 {
        assert(t == seq![cur]);
        assert(t.drop_first() == Seq::<Seq<char>>::empty());
        assert(named_segments(Seq::<Seq<char>>::empty()) == 0);
        assert(named_segments(t) == one + named_segments(t.drop_first()));
    } else if s[0] == c {
        let rest = split_char_from(Seq::empty(), s.drop_first(), c);
        assert(t == seq![cur] + rest);
        assert(t[0] == cur);
        assert(t.drop_first() == rest);
        lemma_named_bound(Seq::empty(), s.drop_first(), c);
        assert(named_segments(t) == one + named_segments(rest));
    } else {
        lemma_named_bound(cur.push(s[0]), s.drop_first(), c);
    }
}

proof fn lemma_component_bound(s: Seq<char>)
    ensures
        component_count(s) <= s.len(),
{
    let t = split_char(s, '/');
    if s.len() > 0 && s[0] == '/' {
        let rest = split_char_from(Seq::empty(), s.drop_first(), '/');
        assert(t == seq![Seq::<char>::empty()] + rest);
        assert(t[0] == Seq::<char>::empty());
        assert(t.drop_first() == rest);
        lemma_named_bound(Seq::empty(), s.drop_first(), '/');
        assert(named_segments(t) == named_segments(rest));
        assert(!leading_cur_dir(s));
    } else if leading_cur_dir(s) {
        if s.len() == 1 {
            let r1 = split_char_from(seq!['.'], s.drop_first(), '/');
            assert(s.drop_first().len() == 0);
            assert(Seq::<char>::empty().push('.') == seq!['.']);
            assert(r1 == seq![seq!['.']]);
            assert(t == r1);
            assert(is_dot(t[0]));
            assert(t.drop_first() == Seq::<Seq<char>>::empty());
            assert(named_segments(Seq::<Seq<char>>::empty()) == 0);
            assert(named_segments(t) == 0);
        } else {
            let s1 = s.drop_first();
            assert(Seq::<char>::empty().push('.') == seq!['.']);
            assert(t == split_char_from(seq!['.'], s1, '/'));
            assert(s1[0] == '/');
            let rest = split_char_from(Seq::empty(), s1.drop_first(), '/');
            assert(t == seq![seq!['.']] + rest);
            assert(is_dot(t[0]));
            assert(t.drop_first() == rest);
            lemma_named_bound(Seq::empty(), s1.drop_first(), '/');
            assert(named_segments(t) == named_segments(rest));
        }
    } else {
        lemma_named_bound(Seq::empty(), s, '/');
    }
}

/// The number of components of a path.
pub fn component_count_of(v: &[char]) -> (r: usize)
    ensures
        r == component_count(v@),
{
    let segs = split_chars(v, '/');
    let ghost all = split_char(v@, '/');
    let mut n: usize = 0;
    let mut i: usize = 0;
    assert(all.skip(0) == all);
    let vl = v.len();
    assert(vl == v@.len());
    proof {
        lemma_component_bound(v@);
    }
    while i < segs.len()
        invariant
            i <= segs@.len(),
            all == split_char(v@, '/'),
            segs@.len() == all.len(),
            forall|k: int| 0 <= k < segs@.len() ==> (#[trigger] segs@[k])@ == all[k],
            n + named_segments(all.skip(i as int)) == named_segments(all),
            named_segments(all) <= v@.len(),
            v@.len() <= usize::MAX,
        decreases segs.len() - i,
    {
        assert(all.skip(i as int).drop_first() == all.skip(i + 1));
        assert(all.skip(i as int)[0] == all[i as int]);
        assert(named_segments(all.skip(i as int)) == (if all[i as int].len() == 0 || is_dot(all[i as int]) {
            0nat
        } else {
            1nat
        }) + named_segments(all.skip(i + 1)));
        let s = &segs[i];
        assert(s@ == all[i as int]);
        assert(v@.len() == v.len());
        if !(s.len() == 0 || (s.len() == 1 && s[0] == '.')) {
            n = n + 1;
        }
        i = i + 1;
    }
    assert(all.skip(i as int) == Seq::<Seq<char>>::empty());
    let root: usize = if v.len() > 0 && v[0] == '/' {
        1
    } else {
        0
    };
    let cur: usize = if v.len() > 0 && v[0] == '.' && (v.len() == 1 || v[1] == '/') {
        1
    } else {
        0
    };
    root + cur + n
}

// ─────────────────────────────────────────────────────────────
//  Directories left after a removal
// ─────────────────────────────────────────────────────────────

/// Directories that are never removed.
pub open spec fn is_protected(s: Seq<char>) -> bool {
    ||| s == "/"@ ||| s == "/usr"@ ||| s == "/usr/bin"@ ||| s == "/usr/lib"@
    ||| s == "/usr/lib64"@ ||| s == "/usr/libexec"@ ||| s == "/usr/share"@
    ||| s == "/usr/include"@ ||| s == "/usr/local"@ ||| s == "/usr/share/doc"@
    ||| s == "/usr/share/man"@ ||| s == "/usr/share/info"@ ||| s == "/usr/share/locale"@
    ||| s == "/bin"@ ||| s == "/sbin"@ ||| s == "/lib"@ ||| s == "/lib64"@ ||| s == "/etc"@
    ||| s == "/var"@ ||| s == "/var/lib"@ ||| s == "/var/cache"@ ||| s == "/var/log"@
    ||| s == "/tmp"@ ||| s == "/opt"@ ||| s == "/home"@ ||| s == "/root"@ ||| s == "/sys"@
    ||| s == "/proc"@ ||| s == "/dev"@ ||| s == "/run"@
}

/// A directory may be removed when it is not protected and lies more than three levels
/// below the root.
pub open spec fn safe_to_rmdir(s: Seq<char>) -> bool {
    !is_protected(s) && component_count(s) > 4
}

/// Whether a directory emptied by a removal may itself be removed.
pub fn is_safe_to_rmdir(path: &str) -> (r: bool)
    ensures
        r == safe_to_rmdir(path@),
{
    let c = chars_of(path);
    let p = chars_eq_str(&c, "/") || chars_eq_str(&c, "/usr") || chars_eq_str(&c, "/usr/bin")
        || chars_eq_str(&c, "/usr/lib") || chars_eq_str(&c, "/usr/lib64") || chars_eq_str(
        &c,
        "/usr/libexec",
    ) || chars_eq_str(&c, "/usr/share") || chars_eq_str(&c, "/usr/include") || chars_eq_str(
        &c,
        "/usr/local",
    ) || chars_eq_str(&c, "/usr/share/doc") || chars_eq_str(&c, "/usr/share/man")
        || chars_eq_str(&c, "/usr/share/info") || chars_eq_str(&c, "/usr/share/locale")
        || chars_eq_str(&c, "/bin") || chars_eq_str(&c, "/sbin") || chars_eq_str(&c, "/lib")
        || chars_eq_str(&c, "/lib64") || chars_eq_str(&c, "/etc") || chars_eq_str(&c, "/var")
        || chars_eq_str(&c, "/var/lib") || chars_eq_str(&c, "/var/cache") || chars_eq_str(
        &c,
        "/var/log",
    ) || chars_eq_str(&c, "/tmp") || chars_eq_str(&c, "/opt") || chars_eq_str(&c, "/home")
        || chars_eq_str(&c, "/root") || chars_eq_str(&c, "/sys") || chars_eq_str(&c, "/proc")
        || chars_eq_str(&c, "/dev") || chars_eq_str(&c, "/run");
    if p {
        return false;
    }
    component_count_of(&c) > 4
}

/// A directory is one that removing the files may leave empty and that may be removed:
/// the parent of one of the files, and safe to remove.
pub open spec fn removable_parent(files: Seq<String>, d: Seq<char>) -> bool {
    safe_to_rmdir(d) && exists|i: int| 0 <= i < files.len() && path_parent(#[trigger] files[i]@) == Some(d)
}

/// Whether one of the strings has the text `d`.
pub open spec fn holds_text_spec(v: Seq<String>, d: Seq<char>) -> bool {
    exists|k: int| 0 <= k < v.len() && (#[trigger] v[k])@ == d
}

/// Whether the directory found for a file is among `out`, where it may be removed.
pub open spec fn covered(out: Seq<String>, p: Option<Seq<char>>) -> bool {
    match p {
        Some(d) => safe_to_rmdir(d) ==> holds_text_spec(out, d),
        None => true,
    }
}

fn holds_text(v: &Vec<String>, d: &Vec<char>) -> (r: bool)
    ensures
        r == holds_text_spec(v@, d@),
{
    let mut k: usize = 0;
    while k < v.len()
        invariant
            k <= v@.len(),
            forall|m: int| 0 <= m < k ==> (#[trigger] v@[m])@ != d@,
        decreases v.len() - k,
    {
        let c = chars_of(v[k].as_str());
        if chars_eq(&c, d) {
            return true;
        }
        k = k + 1;
    }
    false
}

/// `out` holds distinct texts, deepest first, and `depth` their component counts.
pub open spec fn dirs_ordered(out: Seq<String>, depth: Seq<usize>) -> bool {
    &&& depth.len() == out.len()
    &&& forall|a: int| 0 <= a < out.len() ==> depth[a] == component_count((#[trigger] out[a])@)
    &&& forall|a: int, b: int| 0 <= a < b < out.len() ==> (#[trigger] out[a])@ != (#[trigger] out[b])@
    &&& forall|a: int, b: int| 0 <= a < b < out.len() ==> depth[a] >= depth[b]
}

/// Puts `d`, of `k` components, among `out` after every deeper or equally deep one.
fn place_dir(out: &mut Vec<String>, depth: &mut Vec<usize>, d: String, k: usize)
    requires
        dirs_ordered(old(out)@, old(depth)@),
        k == component_count(d@),
        !holds_text_spec(old(out)@, d@),
    ensures
        dirs_ordered(final(out)@, final(depth)@),
        holds_text_spec(final(out)@, d@),
        forall|x: Seq<char>| holds_text_spec(old(out)@, x) ==> holds_text_spec(final(out)@, x),
        forall|b: int| 0 <= b < final(out)@.len() ==> (#[trigger] final(out)@[b])@ == d@ || holds_text_spec(old(out)@, final(out)@[b]@),
{
    let mut j: usize = 0;
    while j < out.len() && depth[j] >= k
        invariant
            j <= out@.len(),
            depth@.len() == out@.len(),
            forall|a: int| 0 <= a < j ==> depth@[a] >= k,
        decreases out.len() - j,
    {
        j = j + 1;
    }
    let ghost o = out@;
    let ghost dp = depth@;
    let ghost dv = d@;
    out.insert(j, d);
    depth.insert(j, k);
    proof {
        o.insert_ensures(j as int, out@[j as int]);
        dp.insert_ensures(j as int, k);
        assert(out@[j as int]@ == dv);
        assert forall|a: int| j <= a < o.len() implies dp[a] < k by {
            if a > j {
                assert(dp[j as int] >= dp[a]);
            }
        }
        assert forall|a: int, b: int| 0 <= a < b < out@.len() implies (#[trigger] out@[a])@ != (#[trigger] out@[b])@ by {
            if a < j && b < j {
                assert(out@[a] == o[a] && out@[b] == o[b]);
            } else if a < j && b == j {
                assert(out@[a] == o[a]);
            } else if a < j {
                assert(out@[a] == o[a] && out@[b] == o[b - 1]);
            } else if a == j {
                assert(out@[b] == o[b - 1]);
            } else {
                assert(out@[a] == o[a - 1] && out@[b] == o[b - 1]);
            }
        }
        assert forall|a: int, b: int| 0 <= a < b < out@.len() implies depth@[a] >= depth@[b] by {
            if a < j && b < j {
            } else if a < j && b == j {
            } else if a < j {
                assert(depth@[b] == dp[b - 1]);
            } else if a == j {
                assert(depth@[b] == dp[b - 1]);
            } else {
                assert(depth@[a] == dp[a - 1] && depth@[b] == dp[b - 1]);
            }
        }
        assert forall|a: int| 0 <= a < out@.len() implies depth@[a] == component_count((#[trigger] out@[a])@) by {
            if a > j {
                assert(out@[a] == o[a - 1]);
            } else if a < j {
                assert(out@[a] == o[a]);
            }
        }
        assert forall|x: Seq<char>| holds_text_spec(o, x) implies holds_text_spec(out@, x) by {
            let a = choose|a: int| 0 <= a < o.len() && (#[trigger] o[a])@ == x;
            if a < j {
                assert(out@[a] == o[a]);
            } else {
                assert(out@[a + 1] == o[a]);
            }
        }
        assert forall|b: int| 0 <= b < out@.len() implies (#[trigger] out@[b])@ == dv || holds_text_spec(o, out@[b]@) by {
            if b < j {
                assert(out@[b] == o[b]);
            } else if b > j {
                assert(out@[b] == o[b - 1]);
            }
        }
    }
}

/// The directories to try to remove after a package's files are gone: each removable
/// parent of a file once, deeper ones first.
pub fn dirs_to_remove(files: &[String]) -> (r: Vec<String>)
    ensures
        forall|a: int, b: int| 0 <= a < b < r@.len() ==> (#[trigger] r@[a])@ != (#[trigger] r@[b])@,
        forall|a: int, b: int| 0 <= a < b < r@.len() ==> component_count((#[trigger] r@[a])@) >= component_count((#[trigger] r@[b])@),
        forall|a: int| 0 <= a < r@.len() ==> removable_parent(files@, (#[trigger] r@[a])@),
        forall|d: Seq<char>| removable_parent(files@, d) ==> holds_text_spec(r@, d),
{
    let mut out: Vec<String> = Vec::new();
    let mut depth: Vec<usize> = Vec::new();
    let mut i: usize = 0;
    while i < files.len()
        invariant
            i <= files@.len(),
            dirs_ordered(out@, depth@),
            forall|a: int| 0 <= a < out@.len() ==> safe_to_rmdir((#[trigger] out@[a])@)
                && exists|j: int| 0 <= j < i && path_parent(#[trigger] files@[j]@) == Some(out@[a]@),
            forall|j: int| 0 <= j < i ==> covered(out@, path_parent(#[trigger] files@[j]@)),
        decreases files.len() - i,
    {
        let ghost o = out@;
        match parent_of(files[i].as_str()) {
            None => {
                assert(covered(out@, path_parent(files@[i as int]@)));
            },
            Some(d) => {
                let dc = chars_of(d.as_str());
                let ghost dv = d@;
                if is_safe_to_rmdir(d.as_str()) && !holds_text(&out, &dc) {
                    let k = component_count_of(&dc);
                    place_dir(&mut out, &mut depth, d, k);
                    proof {
                        assert forall|a: int| 0 <= a < out@.len() implies safe_to_rmdir((#[trigger] out@[a])@)
                            && exists|jj: int| 0 <= jj < i + 1 && path_parent(#[trigger] files@[jj]@) == Some(out@[a]@) by {
                            if out@[a]@ == dv {
                                assert(path_parent(files@[i as int]@) == Some(out@[a]@));
                            } else {
                                let b = choose|b: int| 0 <= b < o.len() && (#[trigger] o[b])@ == out@[a]@;
                                assert(safe_to_rmdir(o[b]@));
                                let jj = choose|jj: int| 0 <= jj < i && path_parent(#[trigger] files@[jj]@) == Some(o[b]@);
                                assert(path_parent(files@[jj]@) == Some(out@[a]@));
                            }
                        }
                        assert forall|jj: int| 0 <= jj < i + 1 implies covered(out@, path_parent(#[trigger] files@[jj]@)) by {
                            if jj < i {
                                match path_parent(files@[jj]@) {
                                    Some(dd) => {
                                        if safe_to_rmdir(dd) {
                                            assert(covered(o, path_parent(files@[jj]@)));
                                        }
                                    },
                                    None => {},
                                }
                            }
                        }
                    }
                } else {
                    proof {
                        assert forall|jj: int| 0 <= jj < i + 1 implies covered(out@, path_parent(#[trigger] files@[jj]@)) by {
                            if jj == i {
                                if safe_to_rmdir(dv) {
                                    assert(holds_text_spec(out@, dc@));
                                }
                            }
                        }
                    }
                }
            },
        }
        i = i + 1;
    }
    assert forall|d: Seq<char>| removable_parent(files@, d) implies holds_text_spec(out@, d) by {
        let j = choose|j: int| 0 <= j < files@.len() && path_parent(#[trigger] files@[j]@) == Some(d);
        assert(covered(out@, path_parent(files@[j]@)));
    }
    out
}

// ─────────────────────────────────────────────────────────────
//  Files made executable
// ─────────────────────────────────────────────────────────────

/// Whether a path lies in a `bin`, `sbin` or `libexec` directory, or is one.
pub open spec fn in_bin_dir(s: Seq<char>) -> bool {
    exists|k: int| 0 <= k < split_char(s, '/').len() && {
        let seg = #[trigger] split_char(s, '/')[k];
        seg == "bin"@ || seg == "sbin"@ || seg == "libexec"@
    }
}

/// Whether an installed file is one that should be executable: it lies under a `bin`,
/// `sbin` or `libexec` directory.
pub fn is_bin_path(path: &str) -> (r: bool)
    ensures
        r == in_bin_dir(path@),
{
    let c = chars_of(path);
    let segs = split_chars(&c, '/');
    let mut k: usize = 0;
    while k < segs.len()
        invariant
            k <= segs@.len(),
            c@ == path@,
            segs@.len() == split_char(c@, '/').len(),
            forall|m: int| 0 <= m < segs@.len() ==> (#[trigger] segs@[m])@ == split_char(c@, '/')[m],
            forall|m: int| 0 <= m < k ==> {
                let seg = #[trigger] split_char(c@, '/')[m];
                !(seg == "bin"@ || seg == "sbin"@ || seg == "libexec"@)
            },
        decreases segs.len() - k,
    {
        if chars_eq_str(&segs[k], "bin") || chars_eq_str(&segs[k], "sbin") || chars_eq_str(&segs[k], "libexec") {
            return true;
        }
        k = k + 1;
    }
    false
}

/// The mode of an executable file: each read bit also grants execution (`mode | ((mode &
/// 0o444) >> 2)`).
pub fn executable_mode(mode: u32) -> (r: u32)
    ensures
        r == mode | ((mode & 0o444u32) >> 2u32),
{
    mode | ((mode & 0o444) >> 2)
}

// ─────────────────────────────────────────────────────────────
//  Maintainer scripts and configuration
// ─────────────────────────────────────────────────────────────

/// One package to install from its downloaded archive.
pub struct InstallJob {
    pub pkg: Package,
    pub deb: DebPackage,
    /// Where the archive was downloaded.
    pub path: String,
    pub reason: InstallReason,
    pub is_upgrade: bool,
    /// The version installed before, for an upgrade.
    pub old_version: Option<String>,
}

impl InstallJob {
    /// The word for what the job does, in the log and to the maintainer scripts:
    /// `upgrade` or `install`.
    pub fn action_word(&self) -> (r: &'static str)
        ensures
            r@ == if self.is_upgrade {
                "upgrade"@
            } else {
                "install"@
            },
    {
        if self.is_upgrade {
            "upgrade"
        } else {
            "install"
        }
    }
}

// ─────────────────────────────────────────────────────────────
//  Maintainer scripts
// ─────────────────────────────────────────────────────────────

/// Where a maintainer script of a package is written before it runs.
pub fn maintainer_script_path(pkg_name: &str, script: &str) -> (r: String)
    ensures
        r@ == "/tmp/lpm-"@ + pkg_name@ + seq!['-'] + script@,
{
    let mut v: Vec<char> = chars_of("/tmp/lpm-");
    extend_str(&mut v, pkg_name);
    v.push('-');
    extend_str(&mut v, script);
    string_of(&v)
}

/// The arguments of `preinst`: `install` or `upgrade`, then the old version (empty when
/// there is none).
pub fn preinst_args(is_upgrade: bool, old_version: &Option<String>) -> (r: Vec<String>)
    ensures
        r@.len() == 2,
        r@[0]@ == if is_upgrade {
            "upgrade"@
        } else {
            "install"@
        },
        r@[1]@ == match old_version {
            Some(v) => v@,
            None => Seq::<char>::empty(),
        },
{
    let action = if is_upgrade {
        String::from_str("upgrade")
    } else {
        String::from_str("install")
    };
    let old = match old_version {
        Some(v) => v.clone(),
        None => String::new(),
    };
    let mut r: Vec<String> = Vec::new();
    r.push(action);
    r.push(old);
    r
}

/// The arguments of `postinst`: `configure`, then the old version (empty when there is
/// none).
pub fn postinst_args(old_version: &Option<String>) -> (r: Vec<String>)
    ensures
        r@.len() == 2,
        r@[0]@ == "configure"@,
        r@[1]@ == match old_version {
            Some(v) => v@,
            None => Seq::<char>::empty(),
        },
{
    let old = match old_version {
        Some(v) => v.clone(),
        None => String::new(),
    };
    let mut r: Vec<String> = Vec::new();
    r.push(String::from_str("configure"));
    r.push(old);
    r
}

/// The configuration directory of a package, removed on purge: `/etc` joined with its
/// name.
pub fn purge_path(pkg_name: &str) -> (r: String)
    ensures
        r@ == path_join("/etc"@, pkg_name@),
{
    let d = chars_of("/etc");
    let n = chars_of(pkg_name);
    let p = join_path(&d, &n);
    string_of(&p)
}

} // verus!
