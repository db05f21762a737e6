//! Package index files: how a downloaded index is named, stored with the repository it
//! came from, read back, decompressed, and added to the cache.
use vstd::prelude::*;
use crate::apt_sources::IndexUrl;
use crate::cache::{exact_key, ingest_lookup, lookup_after, PackageCache};
use crate::codec::{
    bz2_decode, bz2_decoded, gz_decode, gz_decoded, utf8_decoded, utf8_lossy, utf8_text,
    utf8_text_lossy, xz_decode, xz_decoded,
};
use crate::package::{block_fields, clone_opt, ov, package_blocks, package_from_fields, Package};
use crate::text::{
    alphanumeric, chars_eq_str, chars_of, extend_str, in_class, is_alphanumeric, is_ws, lines,
    lines_from, lines_of, slice_chars, split_str, starts_with, starts_with_str, strip_cr,
    strip_end, strip_start, string_of, trim, trim_chars, CharClass,
};

verus! {

// ─────────────────────────────────────────────────────────────
//  Cache file names
// ─────────────────────────────────────────────────────────────

/// The character that stands for `c` in a cache file name.
pub open spec fn cache_name_char(c: char) -> char {
    if alphanumeric(c) || c == '-' || c == '_' {
        c
    } else {
        '_'
    }
}

/// The length of the cache file name of an index URL of length `n`: at most 120.
pub open spec fn cache_name_len(n: nat) -> nat {
    if n < 120 {
        n
    } else {
        120
    }
}

/// The file name under which the index at `url` is stored: its first 120 characters,
/// each one that is not alphanumeric, `-` or `_` replaced by `_`.
pub fn url_to_cache_name(url: &str) -> (r: String)
    ensures
        r@.len() == cache_name_len(url@.len()),
        forall|i: int| 0 <= i < r@.len() ==> r@[i] == cache_name_char(url@[i]),
{
    let cc = chars_of(url);
    let n: usize = if cc.len() < 120 {
        cc.len()
    } else {
        120
    };
    let mut out: Vec<char> = Vec::new();
    let mut i: usize = 0;
    while i < n
        invariant
            i <= n,
            n <= cc@.len(),
            n == cache_name_len(url@.len()),
            cc@ == url@,
            out@.len() == i,
            forall|k: int| 0 <= k < i ==> out@[k] == cache_name_char(cc@[k]),
        decreases n - i,
    {
        let c = cc[i];
        let k = if is_alphanumeric(c) || c == '-' || c == '_' {
            c
        } else {
            '_'
        };
        out.push(k);
        i = i + 1;
    }
    string_of(&out)
}

// ─────────────────────────────────────────────────────────────
//  The recorded base URI
// ─────────────────────────────────────────────────────────────

/// The start of the line that records, in a stored index, the repository it came from.
pub open spec fn base_uri_marker() -> Seq<char> {
    seq!['#', ' ', 'l', 'p', 'm', '-', 'b', 'a', 's', 'e', '-', 'u', 'r', 'i', ':']
}

/// The base URI that the lines record: the rest of the first line that starts with the
/// marker, trimmed.
pub open spec fn recorded_base_uri(ls: Seq<Seq<char>>) -> Option<Seq<char>>
    decreases ls.len(),
{
    if ls.len() == 0 {
        None
    } else if starts_with(ls[0], base_uri_marker()) {
        Some(trim(ls[0].skip(15)))
    } else {
        recorded_base_uri(ls.drop_first())
    }
}

/// The base URI recorded in a stored index, if a line records one.
pub fn extract_base_uri_comment(content: &str) -> (r: Option<String>)
    ensures
        ov(r) == recorded_base_uri(lines(content@)),
{
    let cc = chars_of(content);
    let ls = lines_of(&cc);
    let ghost all = lines(cc@);
    let mut i: usize = 0;
    assert(all.skip(0) == all);
    while i < ls.len()
        invariant
            i <= ls.len(),
            all == lines(cc@),
            cc@ == content@,
            ls@.len() == all.len(),
            forall|k: int| 0 <= k < ls@.len() ==> (#[trigger] ls@[k])@ == all[k],
            recorded_base_uri(all) == recorded_base_uri(all.skip(i as int)),
        decreases ls.len() - i,
    {
        assert(all.skip(i as int).drop_first() == all.skip(i + 1));
        assert(all.skip(i as int)[0] == all[i as int]);
        proof {
            reveal_strlit("# lpm-base-uri:");
        }
        assert("# lpm-base-uri:"@ == base_uri_marker());
        if starts_with_str(&ls[i], "# lpm-base-uri:") {
            let rest = slice_chars(&ls[i], 15, ls[i].len());
            assert(rest@ == all[i as int].skip(15));
            let t = trim_chars(&rest);
            return Some(string_of(&t));
        }
        i = i + 1;
    }
    assert(all.skip(i as int) == Seq::<Seq<char>>::empty());
    None
}

/// The text stored for an index: a line that records the base URI, then the index.
pub open spec fn stored_index_text(base: Seq<char>, content: Seq<char>) -> Seq<char> {
    base_uri_marker() + seq![' '] + base + seq!['\n'] + content
}

/// The text stored for an index downloaded from the repository at `base_uri`.
pub fn stored_index(base_uri: &str, content: &str) -> (r: String)
    ensures
        r@ == stored_index_text(base_uri@, content@),
{
    let mut v: Vec<char> = Vec::new();
    extend_str(&mut v, "# lpm-base-uri: ");
    extend_str(&mut v, base_uri);
    v.push('\n');
    extend_str(&mut v, content);
    proof {
        reveal_strlit("# lpm-base-uri: ");
    }
    assert(v@ == stored_index_text(base_uri@, content@));
    string_of(&v)
}

proof fn lemma_first_line(cur: Seq<char>, a: Seq<char>, rest: Seq<char>)
    requires
        forall|i: int| 0 <= i < a.len() ==> a[i] != '\n',
    ensures
        lines_from(cur, a + seq!['\n'] + rest) == seq![strip_cr(cur + a)] + lines_from(Seq::empty(), rest),
    decreases a.len(),
{
    let s = a + seq!['\n'] + rest;
    if a.len() == 0 {
        assert(s[0] == '\n');
        assert(s.drop_first() == rest);
        assert(cur + a == cur);
    } else {
        assert(s[0] == a[0]);
        assert(s.drop_first() == a.drop_first() + seq!['\n'] + rest);
        lemma_first_line(cur.push(a[0]), a.drop_first(), rest);
        assert(cur.push(a[0]) + a.drop_first() == cur + a);
    }
}

proof fn lemma_strip_start_push(x: Seq<char>, c: char, cls: CharClass)
    ensures
        strip_start(x.push(c), cls) == if strip_start(x, cls).len() == 0 {
            strip_start(seq![c], cls)
        } else {
            strip_start(x, cls).push(c)
        },
    decreases x.len(),
{
    if x.len() == 0 {
        assert(x.push(c) == seq![c]);
    } else {
        assert(x.push(c)[0] == x[0]);
        if in_class(cls, x[0]) {
            assert(x.push(c).drop_first() == x.drop_first().push(c));
            lemma_strip_start_push(x.drop_first(), c, cls);
        }
    }
}

proof fn lemma_trim_space_cr(b: Seq<char>)
    ensures
        trim(seq![' '] + strip_cr(b)) == trim(b),
{
    let w = CharClass::Whitespace;
    let x = strip_cr(b);
    assert((seq![' '] + x)[0] == ' ');
    assert((seq![' '] + x).drop_first() == x);
    assert(strip_start(seq![' '] + x, w) == strip_start(x, w));
    if b.len() > 0 && b.last() == '\r' {
        let y = b.drop_last();
        assert(b == y.push('\r'));
        lemma_strip_start_push(y, '\r', w);
        assert(seq!['\r'].drop_first() == Seq::<char>::empty());
        assert(strip_start(seq!['\r'], w) == strip_start(Seq::<char>::empty(), w));
        if strip_start(y, w).len() > 0 {
            let z = strip_start(y, w);
            assert(z.push('\r').drop_last() == z);
            assert(strip_end(z.push('\r'), w) == strip_end(z, w));
        }
    }
}

/// A stored index gives back the base URI it was stored with, trimmed, as long as the URI
/// holds no line break.
pub proof fn law_stored_base_uri_read_back(base: Seq<char>, content: Seq<char>)
    requires
        !base.contains('\n'),
    ensures
        recorded_base_uri(lines(stored_index_text(base, content))) == Some(trim(base)),
{
    let m = base_uri_marker();
    let first = m + seq![' '] + base;
    assert forall|i: int| 0 <= i < first.len() implies first[i] != '\n' by {
        if i >= 16 {
            assert(first[i] == base[i - 16]);
        }
    }
    assert(stored_index_text(base, content) == first + seq!['\n'] + content);
    lemma_first_line(Seq::empty(), first, content);
    assert(Seq::<char>::empty() + first == first);
    let ls = lines(stored_index_text(base, content));
    assert(ls[0] == strip_cr(first));
    let l = strip_cr(first);
    assert(l.take(15) == m);
    assert(starts_with(l, m));
    if base.len() == 0 {
        assert(first == m + seq![' ']);
        assert(l == first);
        assert(l.skip(15) == seq![' '] + strip_cr(base));
    } else {
        assert(first.last() == base.last());
        assert(l.skip(15) == seq![' '] + strip_cr(base));
    }
    lemma_trim_space_cr(base);
}

// ─────────────────────────────────────────────────────────────
//  Decompression and variants
// ─────────────────────────────────────────────────────────────

/// The text of a downloaded index with the given file suffix: `.gz`, `.bz2` and `.xz` are
/// decompressed and must be UTF-8; anything else is read as UTF-8 with bad sequences
/// replaced.
pub open spec fn index_text(b: Seq<u8>, suffix: Seq<char>) -> Option<Seq<char>> {
    if suffix == seq!['.', 'g', 'z'] {
        match gz_decoded(b) {
            Some(d) => utf8_decoded(d),
            None => None,
        }
    } else if suffix == seq!['.', 'b', 'z', '2'] {
        match bz2_decoded(b) {
            Some(d) => utf8_decoded(d),
            None => None,
        }
    } else if suffix == seq!['.', 'x', 'z'] {
        match xz_decoded(b) {
            Some(d) => utf8_decoded(d),
            None => None,
        }
    } else {
        Some(utf8_lossy(b))
    }
}

/// The text of a downloaded index, by the suffix of the file it came from; `None` where
/// the data does not decompress or is not UTF-8.
pub fn decompress(bytes: &[u8], suffix: &str) -> (r: Option<String>)
    ensures
        ov(r) == index_text(bytes@, suffix@),
{
    let s = chars_of(suffix);
    proof {
        reveal_strlit(".gz");
        reveal_strlit(".bz2");
        reveal_strlit(".xz");
    }
    assert(".gz"@ == seq!['.', 'g', 'z']);
    assert(".bz2"@ == seq!['.', 'b', 'z', '2']);
    assert(".xz"@ == seq!['.', 'x', 'z']);
    if chars_eq_str(&s, ".gz") {
        match gz_decode(bytes) {
            Some(d) => utf8_text(d.as_slice()),
            None => None,
        }
    } else if chars_eq_str(&s, ".bz2") {
        match bz2_decode(bytes) {
            Some(d) => utf8_text(d.as_slice()),
            None => None,
        }
    } else if chars_eq_str(&s, ".xz") {
        match xz_decode(bytes) {
            Some(d) => utf8_text(d.as_slice()),
            None => None,
        }
    } else {
        Some(utf8_text_lossy(bytes))
    }
}

/// The suffixes tried for an index, in order: `.xz`, `.gz`, `.bz2`, none.
pub open spec fn index_suffix(i: int) -> Seq<char> {
    if i == 0 {
        seq!['.', 'x', 'z']
    } else if i == 1 {
        seq!['.', 'g', 'z']
    } else if i == 2 {
        seq!['.', 'b', 'z', '2']
    } else {
        Seq::empty()
    }
}

/// The files tried for the index at `url`, in order: each as its URL and its suffix.
pub fn index_variants(url: &str) -> (r: Vec<(String, String)>)
    ensures
        r@.len() == 4,
        forall|i: int| 0 <= i < 4 ==> (#[trigger] r@[i]).1@ == index_suffix(i) && r@[i].0@ == url@ + index_suffix(i),
{
    let mut out: Vec<(String, String)> = Vec::new();
    let mut k: usize = 0;
    while k < 4
        invariant
            k <= 4,
            out@.len() == k,
            forall|i: int| 0 <= i < k ==> (#[trigger] out@[i]).1@ == index_suffix(i) && out@[i].0@ == url@ + index_suffix(i),
        decreases 4 - k,
    {
        let suffix: &str = if k == 0 {
            ".xz"
        } else if k == 1 {
            ".gz"
        } else if k == 2 {
            ".bz2"
        } else {
            ""
        };
        proof {
            reveal_strlit(".xz");
            reveal_strlit(".gz");
            reveal_strlit(".bz2");
            reveal_strlit("");
        }
        assert(suffix@ == index_suffix(k as int));
        let mut v: Vec<char> = chars_of(url);
        extend_str(&mut v, suffix);
        out.push((string_of(&v), String::from_str(suffix)));
        k = k + 1;
    }
    out
}

/// The message when no variant of an index could be fetched.
pub open spec fn all_failed_text(url: Seq<char>, last: Seq<char>) -> Seq<char> {
    "All variants failed for "@ + url + "  (tried: "@ + url + ".xz, "@ + url + ".gz, "@ + url
        + ".bz2, "@ + url + ")\n  "@ + last
}

/// The message when no variant of the index at `url` could be fetched; `last` is the last
/// error seen.
pub fn all_variants_failed(url: &str, last: &str) -> (r: String)
    ensures
        r@ == all_failed_text(url@, last@),
{
    let mut v: Vec<char> = Vec::new();
    extend_str(&mut v, "All variants failed for ");
    extend_str(&mut v, url);
    extend_str(&mut v, "  (tried: ");
    extend_str(&mut v, url);
    extend_str(&mut v, ".xz, ");
    extend_str(&mut v, url);
    extend_str(&mut v, ".gz, ");
    extend_str(&mut v, url);
    extend_str(&mut v, ".bz2, ");
    extend_str(&mut v, url);
    extend_str(&mut v, ")\n  ");
    extend_str(&mut v, last);
    string_of(&v)
}

/// The label shown while an index is fetched: its own, or `suite/component [arch]`.
pub open spec fn label_text(info: IndexUrl) -> Seq<char> {
    match info.label {
        Some(l) => l@,
        None => info.suite@ + seq!['/'] + info.component@ + seq![' ', '['] + info.arch@ + seq![']'],
    }
}

pub fn index_label(info: &IndexUrl) -> (r: String)
    ensures
        r@ == label_text(*info),
{
    match &info.label {
        Some(l) => l.clone(),
        None => {
            let mut v: Vec<char> = chars_of(info.suite.as_str());
            v.push('/');
            extend_str(&mut v, info.component.as_str());
            v.push(' ');
            v.push('[');
            extend_str(&mut v, info.arch.as_str());
            v.push(']');
            string_of(&v)
        },
    }
}

// ─────────────────────────────────────────────────────────────
//  Architecture
// ─────────────────────────────────────────────────────────────

/// The Debian architecture for a machine name as `uname -m` gives it.
pub open spec fn arch_of_machine(m: Seq<char>) -> Seq<char> {
    if m == "x86_64"@ {
        "amd64"@
    } else if m == "aarch64"@ || m == "arm64"@ {
        "arm64"@
    } else if m == "armv7l"@ {
        "armhf"@
    } else if m == "i686"@ || m == "i386"@ {
        "i386"@
    } else {
        m
    }
}

/// The Debian architecture for a machine name: `x86_64` is `amd64`, `aarch64` is `arm64`,
/// `armv7l` is `armhf`, `i686` is `i386`; other names stand for themselves.
pub fn arch_from_machine(m: &str) -> (r: String)
    ensures
        r@ == arch_of_machine(m@),
{
    let c = chars_of(m);
    if chars_eq_str(&c, "x86_64") {
        String::from_str("amd64")
    } else if chars_eq_str(&c, "aarch64") || chars_eq_str(&c, "arm64") {
        String::from_str("arm64")
    } else if chars_eq_str(&c, "armv7l") {
        String::from_str("armhf")
    } else if chars_eq_str(&c, "i686") || chars_eq_str(&c, "i386") {
        String::from_str("i386")
    } else {
        String::from_str(m)
    }
}

// ─────────────────────────────────────────────────────────────
//  Adding an index to the cache
// ─────────────────────────────────────────────────────────────

/// A package from an index whose base URI is recorded as `base`: it keeps its own base
/// URI, else takes `base`.
pub open spec fn with_base(p: Package, base: Option<String>) -> Package {
    if p.repo_base_uri is None {
        Package { repo_base_uri: base, ..p }
    } else {
        p
    }
}

/// Each package with the base URI filled in.
pub open spec fn with_bases(ps: Seq<Package>, base: Option<String>) -> Seq<Package>
    decreases ps.len(),
{
    if ps.len() == 0 {
        Seq::empty()
    } else {
        with_bases(ps.drop_last(), base).push(with_base(ps.last(), base))
    }
}

/// What the exact table holds for key `k` after adding the packages in order to a table
/// that held `start` for it: the last package with that key.
pub open spec fn exact_after(start: Option<Package>, pkgs: Seq<Package>, k: Seq<char>) -> Option<Package>
    decreases pkgs.len(),
{
    if pkgs.len() == 0 {
        start
    } else if exact_key(pkgs.last().name@, pkgs.last().architecture@, pkgs.last().version@) == k {
        Some(pkgs.last())
    } else {
        exact_after(start, pkgs.drop_last(), k)
    }
}

/// How many of the packages bring a name that the cache `c` does not know and that no
/// package before them has.
pub open spec fn new_names(c: PackageCache, ps: Seq<Package>) -> nat
    decreases ps.len(),
{
    if ps.len() == 0 {
        0
    } else {
        new_names(c, ps.drop_last()) + if lookup_after(c.lookup(ps.last().name@), ps.drop_last(), ps.last().name@) is None {
            1nat
        } else {
            0nat
        }
    }
}

/// How many different names the packages have.
pub open spec fn distinct_names(ps: Seq<Package>) -> nat
    decreases ps.len(),
{
    if ps.len() == 0 {
        0
    } else {
        distinct_names(ps.drop_last()) + if exists|j: int| 0 <= j < ps.len() - 1 && #[trigger] ps.drop_last()[j].name@ == ps.last().name@ {
            0nat
        } else {
            1nat
        }
    }
}

/// The packages that `Package::parse_index` gives for a text.
pub open spec fn parsed_index(content: Seq<char>, ps: Seq<Package>) -> bool {
    &&& ps.len() == package_blocks(split_str(content, "\n\n"@)).len()
    &&& forall|i: int| 0 <= i < ps.len() ==> package_from_fields(
        #[trigger] ps[i],
        block_fields(package_blocks(split_str(content, "\n\n"@))[i]),
    )
}

impl PackageCache {
    /// Adds the packages of one index in order, each without a base URI of its own taking
    /// `base`.
    pub fn add_packages(&mut self, pkgs: &Vec<Package>, base: &Option<String>)
        requires
            old(self).wf(),
        ensures
            final(self).wf(),
            forall|n: Seq<char>| #[trigger] final(self).lookup(n) == lookup_after(old(self).lookup(n), with_bases(pkgs@, *base), n),
            forall|k: Seq<char>| #[trigger] final(self).lookup_exact(k) == exact_after(old(self).lookup_exact(k), with_bases(pkgs@, *base), k),
            final(self).newest().len() == old(self).newest().len() + new_names(*old(self), with_bases(pkgs@, *base)),
    {
        let ghost s0 = *old(self);
        let mut i: usize = 0;
        assert(pkgs@.take(0) == Seq::<Package>::empty());
        while i < pkgs.len()
            invariant
                i <= pkgs@.len(),
                self.wf(),
                forall|n: Seq<char>| #[trigger] self.lookup(n) == lookup_after(s0.lookup(n), with_bases(pkgs@.take(i as int), *base), n),
                forall|k: Seq<char>| #[trigger] self.lookup_exact(k) == exact_after(s0.lookup_exact(k), with_bases(pkgs@.take(i as int), *base), k),
                self.newest().len() == s0.newest().len() + new_names(s0, with_bases(pkgs@.take(i as int), *base)),
            decreases pkgs.len() - i,
        {
            let mut p = pkgs[i].duplicate();
            if p.repo_base_uri.is_none() {
                p.repo_base_uri = clone_opt(base);
            }
            assert(p == with_base(pkgs@[i as int], *base));
            let ghost before = *self;
            let ghost prev = with_bases(pkgs@.take(i as int), *base);
            let ghost next = with_bases(pkgs@.take(i + 1), *base);
            assert(pkgs@.take(i + 1).drop_last() == pkgs@.take(i as int));
            assert(next == prev.push(p));
            assert(next.drop_last() == prev);
            self.ingest(p);
            assert forall|n: Seq<char>| #[trigger] self.lookup(n) == lookup_after(s0.lookup(n), next, n) by {
                assert(before.lookup(n) == lookup_after(s0.lookup(n), prev, n));
            }
            assert forall|k: Seq<char>| #[trigger] self.lookup_exact(k) == exact_after(s0.lookup_exact(k), next, k) by {
                assert(before.lookup_exact(k) == exact_after(s0.lookup_exact(k), prev, k));
            }
            assert(before.lookup(p.name@) == lookup_after(s0.lookup(p.name@), prev, p.name@));
            assert(next.last() == p);
            i = i + 1;
        }
        assert(pkgs@.take(pkgs@.len() as int) == pkgs@);
    }

    /// Adds the packages of a stored index, with the base URI it records; gives their
    /// number.
    pub fn load_index(&mut self, content: &str) -> (r: usize)
        requires
            old(self).wf(),
        ensures
            final(self).wf(),
            exists|ps: Seq<Package>, b: Option<String>| {
                &&& parsed_index(content@, ps)
                &&& ov(b) == recorded_base_uri(lines(content@))
                &&& r == ps.len()
                &&& forall|n: Seq<char>| #[trigger] final(self).lookup(n) == lookup_after(old(self).lookup(n), with_bases(ps, b), n)
                &&& forall|k: Seq<char>| #[trigger] final(self).lookup_exact(k) == exact_after(old(self).lookup_exact(k), with_bases(ps, b), k)
            },
    {
        let base = extract_base_uri_comment(content);
        let pkgs = Package::parse_index(content);
        self.add_packages(&pkgs, &base);
        assert(parsed_index(content@, pkgs@));
        pkgs.len()
    }
}


// ─────────────────────────────────────────────────────────────
//  Laws of a cache filled in order
// ─────────────────────────────────────────────────────────────

/// Neither text holds a `:`.
pub open spec fn colon_free(s: Seq<char>) -> bool {
    forall|i: int| 0 <= i < s.len() ==> s[i] != ':'
}

/// The package has exactly that name, version and architecture.
pub open spec fn is_exact(p: Package, name: Seq<char>, version: Seq<char>, arch: Seq<char>) -> bool {
    p.name@ == name && p.version@ == version && p.architecture@ == arch
}

proof fn lemma_colon_prefix(a: Seq<char>, b: Seq<char>, x: Seq<char>, y: Seq<char>)
    requires
        colon_free(a),
        colon_free(b),
        a + seq![':'] + x == b + seq![':'] + y,
    ensures
        a == b,
        x == y,
{
    let l = a + seq![':'] + x;
    let r = b + seq![':'] + y;
    if a.len() < b.len() {
        assert(l[a.len() as int] == ':');
        assert(r[a.len() as int] == b[a.len() as int]);
    } else if b.len() < a.len() {
        assert(r[b.len() as int] == ':');
        assert(l[b.len() as int] == a[b.len() as int]);
    }
    assert(a.len() == b.len());
    assert(a =~= l.take(a.len() as int));
    assert(b =~= r.take(b.len() as int));
    assert(x =~= l.skip(a.len() as int + 1));
    assert(y =~= r.skip(b.len() as int + 1));
}

/// Keys of names and architectures without `:` tell the triples apart.
proof fn lemma_exact_key_injective(n1: Seq<char>, a1: Seq<char>, v1: Seq<char>, n2: Seq<char>, a2: Seq<char>, v2: Seq<char>)
    requires
        colon_free(n1),
        colon_free(a1),
        colon_free(n2),
        colon_free(a2),
        exact_key(n1, a1, v1) == exact_key(n2, a2, v2),
    ensures
        n1 == n2,
        a1 == a2,
        v1 == v2,
{
    assert(exact_key(n1, a1, v1) == n1 + seq![':'] + (a1 + seq![':'] + v1));
    assert(exact_key(n2, a2, v2) == n2 + seq![':'] + (a2 + seq![':'] + v2));
    lemma_colon_prefix(n1, n2, a1 + seq![':'] + v1, a2 + seq![':'] + v2);
    lemma_colon_prefix(a1, a2, v1, v2);
}

/// What `get_exact(name, version, arch)` finds in a cache filled in order from empty is
/// the last package added with exactly that name, version and architecture, and nothing
/// where none was added (names and architectures without `:`).
pub proof fn law_exact_is_last_added(ps: Seq<Package>, name: Seq<char>, version: Seq<char>, arch: Seq<char>)
    requires
        colon_free(name),
        colon_free(arch),
        forall|i: int| 0 <= i < ps.len() ==> colon_free(#[trigger] ps[i].name@) && colon_free(ps[i].architecture@),
    ensures
        exact_after(None, ps, exact_key(name, arch, version)) is None <==> forall|i: int| 0 <= i < ps.len() ==> !#[trigger] is_exact(ps[i], name, version, arch),
        exact_after(None, ps, exact_key(name, arch, version)) matches Some(q) ==> exists|i: int| 0 <= i < ps.len() && ps[i] == q && #[trigger] is_exact(ps[i], name, version, arch)
            && forall|j: int| i < j < ps.len() ==> !#[trigger] is_exact(ps[j], name, version, arch),
    decreases ps.len(),
{
    if ps.len() > 0 {
        let init = ps.drop_last();
        assert forall|i: int| 0 <= i < init.len() implies colon_free(#[trigger] init[i].name@) && colon_free(init[i].architecture@) by {
            assert(init[i] == ps[i]);
        }
        law_exact_is_last_added(init, name, version, arch);
        let last = ps.last();
        let k = exact_key(name, arch, version);
        assert(colon_free(ps[ps.len() - 1].name@));
        let hit = exact_key(last.name@, last.architecture@, last.version@) == k;
        if hit {
            lemma_exact_key_injective(last.name@, last.architecture@, last.version@, name, arch, version);
            assert(is_exact(ps[ps.len() - 1], name, version, arch));
        } else {
            assert(!is_exact(ps[ps.len() - 1], name, version, arch));
            assert forall|i: int| 0 <= i < init.len() implies (is_exact(init[i], name, version, arch) <==> #[trigger] is_exact(ps[i], name, version, arch)) by {
                assert(init[i] == ps[i]);
            }
            match exact_after(None, ps, k) {
                Some(q) => {
                    let i = choose|i: int| 0 <= i < init.len() && init[i] == q && #[trigger] is_exact(init[i], name, version, arch)
                        && forall|j: int| i < j < init.len() ==> !#[trigger] is_exact(init[j], name, version, arch);
                    assert(ps[i] == q && is_exact(ps[i], name, version, arch));
                    assert forall|j: int| i < j < ps.len() implies !#[trigger] is_exact(ps[j], name, version, arch) by {
                        if j < init.len() {
                            assert(init[j] == ps[j]);
                        }
                    }
                },
                None => {
                    assert forall|i: int| 0 <= i < ps.len() implies !#[trigger] is_exact(ps[i], name, version, arch) by {
                        if i < init.len() {
                            assert(init[i] == ps[i]);
                        }
                    }
                },
            }
        }
    }
}


/// Filling a cache that knows no name with packages in order adds one name for each
/// different name among them: `len` counts names, not versions.
pub proof fn law_len_counts_names(c: PackageCache, ps: Seq<Package>)
    requires
        forall|n: Seq<char>| #[trigger] c.lookup(n) is None,
    ensures
        new_names(c, ps) == distinct_names(ps),
    decreases ps.len(),
{
    if ps.len() > 0 {
        law_len_counts_names(c, ps.drop_last());
        let init = ps.drop_last();
        let n = ps.last().name@;
        assert(c.lookup(n) is None);
        crate::cache::law_cache_keeps_newest(init, n);
        assert(lookup_after(c.lookup(n), init, n) == crate::cache::newest_of(init, n));
        if exists|j: int| 0 <= j < ps.len() - 1 && #[trigger] ps.drop_last()[j].name@ == n {
            assert(crate::cache::newest_of(init, n) is Some);
        } else {
            if crate::cache::newest_of(init, n) is Some {
                let q = crate::cache::newest_of(init, n)->0;
                let j = choose|j: int| 0 <= j < init.len() && init[j] == q;
                assert(init[j].name@ == n);
            }
        }
    }
}


proof fn lemma_with_bases_index(ps: Seq<Package>, b: Option<String>, i: int)
    requires
        0 <= i < ps.len(),
    ensures
        with_bases(ps, b).len() == ps.len(),
        with_bases(ps, b)[i] == with_base(ps[i], b),
    decreases ps.len(),
{
    if i < ps.len() - 1 {
        lemma_with_bases_index(ps.drop_last(), b, i);
    } else {
        lemma_with_bases_len(ps.drop_last(), b);
    }
}

proof fn lemma_with_bases_len(ps: Seq<Package>, b: Option<String>)
    ensures
        with_bases(ps, b).len() == ps.len(),
    decreases ps.len(),
{
    if ps.len() > 0 {
        lemma_with_bases_len(ps.drop_last(), b);
    }
}

/// Once a package is added, the exact table holds, under its key, one of the packages
/// added with that key: with each package's base URI filled in, one whose base URI is the
/// one filled in, where none came with its own.
proof fn lemma_exact_has_base(start: Option<Package>, ps: Seq<Package>, b: Option<String>, i: int)
    requires
        0 <= i < ps.len(),
        forall|j: int| 0 <= j < ps.len() ==> (#[trigger] ps[j]).repo_base_uri is None,
    ensures
        exact_after(start, with_bases(ps, b), exact_key(ps[i].name@, ps[i].architecture@, ps[i].version@)) matches Some(q)
            && q.repo_base_uri == b,
    decreases ps.len(),
{
    let k = exact_key(ps[i].name@, ps[i].architecture@, ps[i].version@);
    let w = with_bases(ps, b);
    lemma_with_bases_len(ps, b);
    let last = ps.len() - 1;
    lemma_with_bases_index(ps, b, last);
    assert(w.last() == with_base(ps[last], b));
    assert(w.drop_last() == with_bases(ps.drop_last(), b));
    if exact_key(w.last().name@, w.last().architecture@, w.last().version@) == k {
        assert(ps[last].repo_base_uri is None);
    } else {
        assert(i < last);
        assert forall|j: int| 0 <= j < ps.drop_last().len() implies (#[trigger] ps.drop_last()[j]).repo_base_uri is None by {
            assert(ps.drop_last()[j] == ps[j]);
        }
        assert(ps.drop_last()[i] == ps[i]);
        lemma_exact_has_base(start, ps.drop_last(), b, i);
    }
}

/// An index stored with its base URI and loaded again: `get_exact` for any package of the
/// stored text finds one whose base URI is the recorded one (trimmed), as long as the URI
/// holds no line break.
pub proof fn law_loaded_index_keeps_base_uri(
    base: Seq<char>,
    content: Seq<char>,
    ps: Seq<Package>,
    b: Option<String>,
    start: Option<Package>,
    i: int,
)
    requires
        !base.contains('\n'),
        parsed_index(stored_index_text(base, content), ps),
        ov(b) == recorded_base_uri(lines(stored_index_text(base, content))),
        0 <= i < ps.len(),
    ensures
        exact_after(start, with_bases(ps, b), exact_key(ps[i].name@, ps[i].architecture@, ps[i].version@)) matches Some(q)
            && ov(q.repo_base_uri) == Some(trim(base)),
{
    law_stored_base_uri_read_back(base, content);
    assert forall|j: int| 0 <= j < ps.len() implies (#[trigger] ps[j]).repo_base_uri is None by {
        assert(parsed_index(stored_index_text(base, content), ps));
    }
    lemma_exact_has_base(start, ps, b, i);
}

} // verus!
