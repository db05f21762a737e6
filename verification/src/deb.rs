//! `.deb` files: the `ar` container with its `debian-binary`, `control.tar.*` and
//! `data.tar.*` members, the control stanza, maintainer scripts and the list of regular
//! files. Unpacking files onto the disk is the application's part.
use vstd::prelude::*;
use crate::codec::{
    bz2_decode, bz2_decoded, gz_decode, gz_decoded, link_view, members_view, Member, MemberView, tar_listing, tar_members,
    utf8_decoded, utf8_text, xz_decode, xz_decoded, zst_decode, zst_decoded,
};
use crate::package::{block_fields, block_parses, package_from_fields, Package};
use crate::text::{
    chars_eq_str, chars_of, ends_with, ends_with_str, extend_str, lemma_names_push, names_of,
    parse_u64, parse_unsigned, slice_chars, starts_with, starts_with_str, string_of, strip_end,
    strip_end_chars, trim, trim_chars, CharClass, split_char,
};

verus! {

/// How a member of a `.deb` is compressed.
#[derive(Debug, Clone, Copy, PartialEq, Eq, Structural)]
pub enum Compression {
    Gz,
    Xz,
    Zst,
    Bz2,
    Plain,
}

/// The compression a member's name announces by its suffix.
pub open spec fn comp_of_name(n: Seq<char>) -> Compression {
    if ends_with(n, ".gz"@) {
        Compression::Gz
    } else if ends_with(n, ".xz"@) {
        Compression::Xz
    } else if ends_with(n, ".zst"@) {
        Compression::Zst
    } else if ends_with(n, ".bz2"@) {
        Compression::Bz2
    } else {
        Compression::Plain
    }
}

/// The compression a member's name announces by its suffix.
pub fn comp_from_name(name: &str) -> (r: Compression)
    ensures
        r == comp_of_name(name@),
{
    let v = chars_of(name);
    if ends_with_str(&v, ".gz") {
        Compression::Gz
    } else if ends_with_str(&v, ".xz") {
        Compression::Xz
    } else if ends_with_str(&v, ".zst") {
        Compression::Zst
    } else if ends_with_str(&v, ".bz2") {
        Compression::Bz2
    } else {
        Compression::Plain
    }
}

/// The bytes a compressed member holds (`None` where decoding fails).
pub open spec fn decoded(b: Seq<u8>, c: Compression) -> Option<Seq<u8>> {
    match c {
        Compression::Gz => gz_decoded(b),
        Compression::Xz => xz_decoded(b),
        Compression::Zst => zst_decoded(b),
        Compression::Bz2 => bz2_decoded(b),
        Compression::Plain => Some(b),
    }
}

/// Decompresses a member.
pub fn decompress(bytes: &[u8], comp: Compression) -> (r: Option<Vec<u8>>)
    ensures
        match r {
            Some(v) => decoded(bytes@, comp) == Some(v@),
            None => decoded(bytes@, comp) is None,
        },
{
    match comp {
        Compression::Gz => gz_decode(bytes),
        Compression::Xz => xz_decode(bytes),
        Compression::Zst => zst_decode(bytes),
        Compression::Bz2 => bz2_decode(bytes),
        Compression::Plain => {
            let mut v: Vec<u8> = Vec::new();
            let mut i: usize = 0;
            while i < bytes.len()
                invariant
                    i <= bytes@.len(),
                    v@ == bytes@.take(i as int),
                decreases bytes@.len() - i,
            {
                v.push(bytes[i]);
                assert(bytes@.take(i + 1) == bytes@.take(i as int).push(bytes@[i as int]));
                i = i + 1;
            }
            assert(bytes@.take(bytes@.len() as int) == bytes@);
            Some(v)
        },
    }
}

/// Why a `.deb` cannot be read.
#[derive(Debug)]
pub enum DebError {
    /// The file does not start with the `ar` magic.
    BadMagic,
    /// A member runs past the end of the file (its name).
    Truncated(String),
    /// The control archive cannot be decompressed (its member name).
    Decompress(String),
    /// The control archive is no readable tar archive.
    ControlArchive,
    /// The control archive has no `./control`.
    NoControlFile,
    /// `./control` is not UTF-8 text.
    ControlNotText,
    /// The package has no control archive.
    NoControlTar,
    /// The control stanza lacks a name or version.
    ParseControl,
}

/// The first member whose path is one of the two names.
pub open spec fn find_member(ms: Seq<MemberView>, a: Seq<char>, b: Seq<char>) -> Option<Seq<u8>>
    decreases ms.len(),
{
    if ms.len() == 0 {
        None
    } else if ms[0].0 == a || ms[0].0 == b {
        Some(ms[0].2)
    } else {
        find_member(ms.drop_first(), a, b)
    }
}

/// The text of a control archive's `./control` (or `control`).
pub open spec fn control_text(tar: Seq<u8>) -> Result<Seq<char>, DebError> {
    match tar_listing(tar) {
        None => Err(DebError::ControlArchive),
        Some(ms) => match find_member(ms, "./control"@, "control"@) {
            None => Err(DebError::NoControlFile),
            Some(d) => match utf8_decoded(d) {
                Some(t) => Ok(t),
                None => Err(DebError::ControlNotText),
            },
        },
    }
}

fn find_member_exec(ms: &Vec<Member>, a: &str, b: &str) -> (r: Option<usize>)
    ensures
        match r {
            Some(i) => i < ms@.len() && find_member(members_view(ms@), a@, b@) == Some(ms@[i as int].2@),
            None => find_member(members_view(ms@), a@, b@) is None,
        },
{
    let ghost mv = members_view(ms@);
    let mut i: usize = 0;
    assert(mv.skip(0) == mv);
    while i < ms.len()
        invariant
            i <= ms@.len(),
            mv == members_view(ms@),
            find_member(mv, a@, b@) == find_member(mv.skip(i as int), a@, b@),
        decreases ms@.len() - i,
    {
        assert(mv.skip(i as int)[0] == (ms@[i as int].0@, ms@[i as int].1, ms@[i as int].2@, link_view(ms@[i as int].3), ms@[i as int].4));
        assert(mv.skip(i as int).drop_first() == mv.skip(i + 1));
        let p = chars_of(ms[i].0.as_str());
        if chars_eq_str(&p, a) || chars_eq_str(&p, b) {
            return Some(i);
        }
        i = i + 1;
    }
    None
}

/// Reads `./control` out of a decompressed control archive.
fn extract_control_file(tar_bytes: &[u8]) -> (r: Result<String, DebError>)
    ensures
        match r {
            Ok(s) => control_text(tar_bytes@) == Ok::<Seq<char>, DebError>(s@),
            Err(e) => control_text(tar_bytes@) matches Err(e2) && e2 == e,
        },
{
    let ms = match tar_members(tar_bytes) {
        Some(ms) => ms,
        None => return Err(DebError::ControlArchive),
    };
    match find_member_exec(&ms, "./control", "control") {
        None => Err(DebError::NoControlFile),
        Some(i) => match utf8_text(ms[i].2.as_slice()) {
            Some(t) => Ok(t),
            None => Err(DebError::ControlNotText),
        },
    }
}

/// A path of a data archive as a file of the system: leading `./` pieces dropped.
pub open spec fn strip_dot_slash(s: Seq<char>) -> Seq<char>
    decreases s.len(),
{
    if starts_with(s, "./"@) && s.len() >= 2 {
        strip_dot_slash(s.skip(2))
    } else {
        s
    }
}

/// The regular files (type `0` or `7`) of a data archive, each as `/` followed by its
/// path without leading `./`; paths that are empty then are left out.
pub open spec fn regular_files(ms: Seq<MemberView>) -> Seq<Seq<char>>
    decreases ms.len(),
{
    if ms.len() == 0 {
        Seq::empty()
    } else {
        let rest = regular_files(ms.drop_last());
        let m = ms.last();
        let s = strip_dot_slash(m.0);
        if (m.1 == 48u8 || m.1 == 55u8) && s.len() > 0 {
            rest.push(seq!['/'] + s)
        } else {
            rest
        }
    }
}

fn strip_dot_slash_chars(v: &Vec<char>) -> (r: Vec<char>)
    ensures
        r@ == strip_dot_slash(v@),
{
    let mut i: usize = 0;
    proof {
        reveal_strlit("./");
    }
    assert(v@.skip(0) == v@);
    while i < v.len() && v.len() - i >= 2 && v[i] == '.' && v[i + 1] == '/'
        invariant
            i <= v@.len(),
            strip_dot_slash(v@) == strip_dot_slash(v@.skip(i as int)),
        decreases v@.len() - i,
    {
        proof {
            reveal_strlit("./");
            let s = v@.skip(i as int);
            assert(s.take(2) =~= "./"@);
            assert(s.skip(2) == v@.skip(i + 2));
        }
        i = i + 2;
    }
    proof {
        reveal_strlit("./");
        let s = v@.skip(i as int);
        if starts_with(s, "./"@) && s.len() >= 2 {
            assert(s.take(2)[0] == s[0] && s.take(2)[1] == s[1]);
            assert(v@[i as int] == s[0] && v@[i + 1] == s[1]);
        }
    }
    let r = slice_chars(v, i, v.len());
    assert(r@ == v@.skip(i as int));
    r
}

/// The regular files of a data archive (see `regular_files`).
pub fn list_regular_files(bytes: &[u8], comp: Compression) -> (r: Option<Vec<String>>)
    ensures
        match r {
            Some(v) => decoded(bytes@, comp) matches Some(t) && tar_listing(t) matches Some(ms)
                && names_of(v@) == regular_files(ms),
            None => decoded(bytes@, comp) is None || tar_listing(decoded(bytes@, comp)->0) is None,
        },
{
    let tar = match decompress(bytes, comp) {
        Some(t) => t,
        None => return None,
    };
    let ms = match tar_members(tar.as_slice()) {
        Some(ms) => ms,
        None => return None,
    };
    let ghost mv = members_view(ms@);
    let mut out: Vec<String> = Vec::new();
    let mut i: usize = 0;
    while i < ms.len()
        invariant
            i <= ms@.len(),
            mv == members_view(ms@),
            names_of(out@) == regular_files(mv.take(i as int)),
        decreases ms@.len() - i,
    {
        proof {
            assert(mv.take(i + 1).drop_last() == mv.take(i as int));
            assert(mv.take(i + 1).last() == mv[i as int]);
            assert(mv[i as int] == (ms@[i as int].0@, ms@[i as int].1, ms@[i as int].2@, link_view(ms@[i as int].3), ms@[i as int].4));
        }
        let kind = ms[i].1;
        let s = strip_dot_slash_chars(&chars_of(ms[i].0.as_str()));
        if (kind == 48u8 || kind == 55u8) && s.len() > 0 {
            let mut f: Vec<char> = Vec::new();
            f.push('/');
            crate::text::extend_chars(&mut f, &s);
            let fs = string_of(&f);
            let ghost before = out@;
            out.push(fs);
            proof {
                lemma_names_push(before, fs);
                assert(f@ =~= seq!['/'] + s@);
            }
        }
        i = i + 1;
    }
    assert(mv.take(mv.len() as int) == mv);
    Some(out)
}

// ─────────────────────────────────────────────────────────────
//  The ar container
// ─────────────────────────────────────────────────────────────

/// The 8 bytes an `ar` archive starts with: `!<arch>\n`.
pub open spec fn ar_magic() -> Seq<u8> {
    seq![0x21u8, 0x3cu8, 0x61u8, 0x72u8, 0x63u8, 0x68u8, 0x3eu8, 0x0au8]
}

/// The name of a member from its 60-byte header: the first 16 bytes as UTF-8 (empty where
/// they are not), trimmed, trailing `/` dropped.
pub open spec fn member_name(h: Seq<u8>) -> Seq<char> {
    strip_end(trim(match utf8_decoded(h.subrange(0, 16)) {
        Some(t) => t,
        None => Seq::empty(),
    }), CharClass::Exactly('/'))
}

/// The size of a member from its header: bytes 48 to 58 as a decimal number, trimmed; 0
/// where they are no number.
pub open spec fn member_size(h: Seq<u8>) -> int {
    match utf8_decoded(h.subrange(48, 58)) {
        Some(t) => match parse_unsigned(trim(t), usize::MAX as int) {
            Some(n) => n,
            None => 0,
        },
        None => 0,
    }
}

/// What a scan of the members has kept: the control text, the control archive and its
/// compression, the data archive and its compression.
pub type ScanState = (Seq<char>, Seq<u8>, Compression, Seq<u8>, Compression);

/// Why a scan of the members stops, as plain values.
pub enum ScanFailure {
    Truncated(Seq<char>),
    Decompress(Seq<char>),
    Control(DebError),
}

/// An error is the one a scan failure stands for.
pub open spec fn error_is(e: DebError, f: ScanFailure) -> bool {
    match f {
        ScanFailure::Truncated(n) => e matches DebError::Truncated(s) && s@ == n,
        ScanFailure::Decompress(n) => e matches DebError::Decompress(s) && s@ == n,
        ScanFailure::Control(c) => e == c,
    }
}

/// Scans the members from byte `pos` on: a member header needs 60 bytes; a member's
/// contents follow it and the next member starts at an even offset. The last
/// `control.tar*` and the last `data.tar*` member are kept.
pub open spec fn ar_scan(b: Seq<u8>, pos: int, st: ScanState) -> Result<ScanState, ScanFailure>
    decreases b.len() + 1 - pos,
{
    if pos < 0 || pos + 60 > b.len() {
        Ok(st)
    } else {
        let h = b.subrange(pos, pos + 60);
        let name = member_name(h);
        let start = pos + 60;
        let end = start + member_size(h);
        if member_size(h) < 0 {
            Ok(st)
        } else if end > b.len() {
            Err(ScanFailure::Truncated(name))
        } else {
            let m = b.subrange(start, end);
            let next = end + end % 2;
            if name == "debian-binary"@ {
                ar_scan(b, next, st)
            } else if starts_with(name, "control.tar"@) {
                let c = comp_of_name(name);
                match decoded(m, c) {
                    None => Err(ScanFailure::Decompress(name)),
                    Some(t) => match control_text(t) {
                        Err(e) => Err(ScanFailure::Control(e)),
                        Ok(raw) => ar_scan(b, next, (raw, m, c, st.3, st.4)),
                    },
                }
            } else if starts_with(name, "data.tar"@) {
                ar_scan(b, next, (st.0, st.1, st.2, m, comp_of_name(name)))
            } else {
                ar_scan(b, next, st)
            }
        }
    }
}


/// A `.deb` file read into memory.
pub struct DebPackage {
    pub control: Package,
    pub control_raw: String,
    /// The raw (compressed) control archive, from which maintainer scripts are read
    pub control_tar: Vec<u8>,
    pub control_comp: Compression,
    pub data_bytes: Vec<u8>,
    pub data_compression: Compression,
    /// Regular files only, as recorded in the database
    pub file_list: Vec<String>,
}

/// Why a file is refused: no `ar` magic, a failed scan, no control archive, or a control
/// stanza without name or version.
pub open spec fn parse_refused(b: Seq<u8>, e: DebError) -> bool {
    if b.len() < 8 || b.take(8) != ar_magic() {
        e is BadMagic
    } else {
        match deb_scan(b) {
            Err(f) => error_is(e, f),
            Ok(st) => if st.0.len() == 0 {
                e is NoControlTar
            } else {
                !block_parses(st.0) && e is ParseControl
            },
        }
    }
}

/// The scan of a whole file, from the first member on.
pub open spec fn deb_scan(b: Seq<u8>) -> Result<ScanState, ScanFailure> {
    ar_scan(b, 8, (Seq::empty(), Seq::empty(), Compression::Plain, Seq::empty(), Compression::Plain))
}

fn header_name(h: &[u8]) -> (r: String)
    requires
        h@.len() == 60,
    ensures
        r@ == member_name(h@),
{
    let t = match utf8_text(&h[0..16]) {
        Some(t) => chars_of(t.as_str()),
        None => Vec::new(),
    };
    let tt = trim_chars(&t);
    string_of(&strip_end_chars(&tt, &CharClass::Exactly('/')))
}

fn header_size(h: &[u8]) -> (r: usize)
    requires
        h@.len() == 60,
    ensures
        r == member_size(h@),
{
    match utf8_text(&h[48..58]) {
        Some(t) => {
            let tt = trim_chars(&chars_of(t.as_str()));
            match parse_u64(&tt) {
                Some(n) => if n <= usize::MAX as u64 {
                    n as usize
                } else {
                    0
                },
                None => 0,
            }
        },
        None => 0,
    }
}

fn copy_bytes(b: &[u8], from: usize, to: usize) -> (r: Vec<u8>)
    requires
        from <= to <= b@.len(),
    ensures
        r@ == b@.subrange(from as int, to as int),
{
    let mut v: Vec<u8> = Vec::new();
    let mut i = from;
    while i < to
        invariant
            from <= i <= to,
            to <= b@.len(),
            v@ == b@.subrange(from as int, i as int),
        decreases to - i,
    {
        v.push(b[i]);
        assert(b@.subrange(from as int, i + 1) == b@.subrange(from as int, i as int).push(b@[i as int]));
        i = i + 1;
    }
    v
}

impl DebPackage {
    /// Reads a `.deb` file: its `ar` members, the control stanza, and the list of regular
    /// files of its data archive (empty where that archive cannot be read).
    pub fn parse(deb_bytes: &[u8]) -> (r: Result<DebPackage, DebError>)
        requires
            deb_bytes@.len() < usize::MAX,
        ensures
            match r {
                Ok(d) => deb_bytes@.take(8) == ar_magic() && (deb_scan(deb_bytes@) matches Ok(st) && {
                    &&& st.0.len() > 0
                    &&& block_parses(st.0)
                    &&& d.control_raw@ == st.0
                    &&& package_from_fields(d.control, block_fields(st.0))
                    &&& d.control_tar@ == st.1
                    &&& d.control_comp == st.2
                    &&& d.data_bytes@ == st.3
                    &&& d.data_compression == st.4
                    &&& names_of(d.file_list@) == match decoded(st.3, st.4) {
                        Some(t) => match tar_listing(t) {
                            Some(ms) => regular_files(ms),
                            None => Seq::empty(),
                        },
                        None => Seq::empty(),
                    }
                }),
                Err(e) => parse_refused(deb_bytes@, e),
            },
    {
        let b = deb_bytes;
        if b.len() < 8 || b[0] != 0x21 || b[1] != 0x3c || b[2] != 0x61 || b[3] != 0x72 || b[4] != 0x63
            || b[5] != 0x68 || b[6] != 0x3e || b[7] != 0x0a {
            proof {
                if b@.len() >= 8 && b@.take(8) == ar_magic() {
                    assert(b@[0] == b@.take(8)[0] && b@[1] == b@.take(8)[1] && b@[2] == b@.take(8)[2]
                        && b@[3] == b@.take(8)[3] && b@[4] == b@.take(8)[4] && b@[5] == b@.take(8)[5]
                        && b@[6] == b@.take(8)[6] && b@[7] == b@.take(8)[7]);
                }
            }
            return Err(DebError::BadMagic);
        }
        assert(b@.take(8) =~= ar_magic());
        let mut control_raw: String = String::new();
        let mut control_tar: Vec<u8> = Vec::new();
        let mut control_comp = Compression::Plain;
        let mut data_bytes: Vec<u8> = Vec::new();
        let mut data_comp = Compression::Plain;
        let mut pos: usize = 8;
        proof {
            reveal_strlit("");
        }
        while pos <= b.len() && b.len() - pos >= 60
            invariant
                8 <= pos <= b@.len() + 1,
                b@ == deb_bytes@,
                b@.len() < usize::MAX,
                b@.take(8) == ar_magic(),
                ar_scan(b@, 8, (Seq::empty(), Seq::empty(), Compression::Plain, Seq::empty(), Compression::Plain))
                    == ar_scan(b@, pos as int, (control_raw@, control_tar@, control_comp, data_bytes@, data_comp)),
            decreases b@.len() + 1 - pos,
        {
            let ghost st = (control_raw@, control_tar@, control_comp, data_bytes@, data_comp);
            let header = &b[pos..pos + 60];
            assert(header@ == b@.subrange(pos as int, pos + 60));
            let name = header_name(header);
            let size = header_size(header);
            let start = pos + 60;
            if size > b.len() - start {
                proof {
                    let h = b@.subrange(pos as int, pos + 60);
                    assert(member_name(h) == name@);
                    assert(member_size(h) == size);
                    assert(ar_scan(b@, pos as int, st) == Err::<ScanState, ScanFailure>(ScanFailure::Truncated(name@)));
                    assert(deb_scan(b@) == Err::<ScanState, ScanFailure>(ScanFailure::Truncated(name@)));
                }
                return Err(DebError::Truncated(name));
            }
            let end = start + size;
            let member = copy_bytes(b, start, end);
            let next = end + (end % 2);
            let nc = chars_of(name.as_str());
            proof {
                reveal_strlit("debian-binary");
                reveal_strlit("control.tar");
                reveal_strlit("data.tar");
            }
            if chars_eq_str(&nc, "debian-binary") {
            } else if starts_with_str(&nc, "control.tar") {
                let comp = comp_from_name(name.as_str());
                let tar = match decompress(member.as_slice(), comp) {
                    Some(t) => t,
                    None => {
                        return Err(DebError::Decompress(name));
                    },
                };
                match extract_control_file(tar.as_slice()) {
                    Ok(raw) => {
                        control_raw = raw;
                        control_tar = member;
                        control_comp = comp;
                    },
                    Err(e) => {
                        return Err(e);
                    },
                }
            } else if starts_with_str(&nc, "data.tar") {
                data_comp = comp_from_name(name.as_str());
                data_bytes = member;
            }
            pos = next;
        }
        if chars_of(control_raw.as_str()).len() == 0 {
            return Err(DebError::NoControlTar);
        }
        let control = match Package::parse_block(control_raw.as_str()) {
            Some(p) => p,
            None => {
                return Err(DebError::ParseControl);
            },
        };
        let file_list = match list_regular_files(data_bytes.as_slice(), data_comp) {
            Some(v) => v,
            None => Vec::new(),
        };
        Ok(DebPackage {
            control,
            control_raw,
            control_tar,
            control_comp,
            data_bytes,
            data_compression: data_comp,
            file_list,
        })
    }

    /// A maintainer script (`preinst`, `postinst`, `prerm`, `postrm`) of the package: the
    /// control archive's member `./name` (or `name`), as text.
    pub fn extract_script(&self, name: &str) -> (r: Option<String>)
        ensures
            match r {
                Some(s) => decoded(self.control_tar@, self.control_comp) matches Some(t)
                    && tar_listing(t) matches Some(ms)
                    && find_member(ms, "./"@ + name@, name@) matches Some(d)
                    && utf8_decoded(d) == Some(s@),
                None => match decoded(self.control_tar@, self.control_comp) {
                    Some(t) => match tar_listing(t) {
                        Some(ms) => match find_member(ms, "./"@ + name@, name@) {
                            Some(d) => utf8_decoded(d) is None,
                            None => true,
                        },
                        None => true,
                    },
                    None => true,
                },
            },
    {
        let tar = decompress(self.control_tar.as_slice(), self.control_comp)?;
        let ms = tar_members(tar.as_slice())?;
        let mut dotted: Vec<char> = Vec::new();
        extend_str(&mut dotted, "./");
        extend_str(&mut dotted, name);
        let ds = string_of(&dotted);
        match find_member_exec(&ms, ds.as_str(), name) {
            Some(i) => utf8_text(ms[i].2.as_slice()),
            None => None,
        }
    }
}

impl DebError {
    pub open spec fn text(&self) -> Seq<char> {
        match self {
            DebError::BadMagic => "Not a valid .deb file (bad ar magic)"@,
            DebError::Truncated(n) => "Truncated .deb at ar member '"@ + n@ + "'"@,
            DebError::Decompress(n) => "Decompressing "@ + n@,
            DebError::ControlArchive => "Extracting ./control"@,
            DebError::NoControlFile => "Extracting ./control: ./control not found in control.tar"@,
            DebError::ControlNotText => "Extracting ./control"@,
            DebError::NoControlTar => "No control.tar found in .deb"@,
            DebError::ParseControl => "Parsing control"@,
        }
    }

    /// The message for the error.
    pub fn message(&self) -> (r: String)
        ensures
            r@ == self.text(),
    {
        match self {
            DebError::BadMagic => String::from_str("Not a valid .deb file (bad ar magic)"),
            DebError::Truncated(n) => {
                let mut v: Vec<char> = chars_of("Truncated .deb at ar member '");
                extend_str(&mut v, n.as_str());
                extend_str(&mut v, "'");
                string_of(&v)
            },
            DebError::Decompress(n) => {
                let mut v: Vec<char> = chars_of("Decompressing ");
                extend_str(&mut v, n.as_str());
                string_of(&v)
            },
            DebError::ControlArchive => String::from_str("Extracting ./control"),
            DebError::NoControlFile => String::from_str("Extracting ./control: ./control not found in control.tar"),
            DebError::ControlNotText => String::from_str("Extracting ./control"),
            DebError::NoControlTar => String::from_str("No control.tar found in .deb"),
            DebError::ParseControl => String::from_str("Parsing control"),
        }
    }
}

impl DebPackage {
    /// The data archive, decompressed, ready to be unpacked; `None` where it does not
    /// decompress.
    pub fn data_archive(&self) -> (r: Option<Vec<u8>>)
        ensures
            match r {
                Some(v) => decoded(self.data_bytes@, self.data_compression) == Some(v@),
                None => decoded(self.data_bytes@, self.data_compression) is None,
            },
    {
        decompress(self.data_bytes.as_slice(), self.data_compression)
    }
}


// ─────────────────────────────────────────────────────────────
//  Unpacking a data archive
// ─────────────────────────────────────────────────────────────

/// The pieces of a path that name something: empty pieces and `.` left out.
pub open spec fn path_pieces(ps: Seq<Seq<char>>) -> Seq<Seq<char>>
    decreases ps.len(),
{
    if ps.len() == 0 {
        Seq::empty()
    } else {
        let r = path_pieces(ps.drop_last());
        let p = ps.last();
        if p.len() == 0 || p == seq!['.'] {
            r
        } else {
            r.push(p)
        }
    }
}

/// A member's path as it is unpacked under the root, as `Path::components` reads it with
/// the leading `.` left out: repeated and trailing `/` and `.` pieces dropped, a leading
/// `/` kept.
pub open spec fn rel_path(s: Seq<char>) -> Seq<char> {
    let j = crate::text::join(path_pieces(split_char(s, '/')), "/"@);
    if s.len() > 0 && s[0] == '/' {
        seq!['/'] + j
    } else {
        j
    }
}

/// What unpacking does for a member.
#[derive(Debug)]
pub enum ExtractAction {
    /// Make the directory.
    Dir,
    /// Write the contents, with the header's mode where there is one.
    File { data: Vec<u8>, mode: Option<u32> },
    /// Make a symbolic link to the target.
    Symlink { target: String },
    /// Make a hard link to the target (nothing where there is none).
    HardLink { target: Option<String> },
}

/// One member to unpack: its path under the root, what to do, and whether it counts among
/// the regular files and among all unpacked files.
#[derive(Debug)]
pub struct ExtractStep {
    pub path: String,
    pub action: ExtractAction,
    pub regular: bool,
    pub listed: bool,
}

/// Whether a member is unpacked: its path names something, and it is a directory, a
/// regular file (`0` or `7`), a hard link (`1`), or a symbolic link (`2`) with a target.
pub open spec fn takes_step(m: MemberView) -> bool {
    &&& rel_path(m.0).len() > 0
    &&& (m.1 == 53u8 || m.1 == 48u8 || m.1 == 55u8 || m.1 == 49u8 || (m.1 == 50u8 && m.3 is Some))
}

/// The step unpacks the member: directories are made; regular files written and counted
/// among the regular files and all files; symbolic links made and counted among all files;
/// hard links made and counted among both.
pub open spec fn step_for(st: ExtractStep, m: MemberView) -> bool {
    &&& st.path@ == rel_path(m.0)
    &&& match st.action {
        ExtractAction::Dir => m.1 == 53u8,
        ExtractAction::File { data, mode } => (m.1 == 48u8 || m.1 == 55u8) && data@ == m.2 && mode == m.4,
        ExtractAction::Symlink { target } => m.1 == 50u8 && m.3 == Some(target@),
        ExtractAction::HardLink { target } => m.1 == 49u8 && link_view(target) == m.3,
    }
    &&& st.regular == (m.1 == 48u8 || m.1 == 55u8 || m.1 == 49u8)
    &&& st.listed == (m.1 != 53u8)
}

/// The members that are unpacked, in order.
pub open spec fn planned(ms: Seq<MemberView>) -> Seq<MemberView>
    decreases ms.len(),
{
    if ms.len() == 0 {
        Seq::empty()
    } else {
        let r = planned(ms.drop_last());
        if takes_step(ms.last()) {
            r.push(ms.last())
        } else {
            r
        }
    }
}

/// A member's path as it is unpacked (see `rel_path`).
pub fn rel_path_of(s: &str) -> (r: String)
    ensures
        r@ == rel_path(s@),
{
    string_of(&rel_chars(s))
}

fn rel_chars(s: &str) -> (r: Vec<char>)
    ensures
        r@ == rel_path(s@),
{
    let v = chars_of(s);
    let parts = crate::text::split_chars(&v, '/');
    let ghost sp = split_char(s@, '/');
    let mut kept: Vec<Vec<char>> = Vec::new();
    let mut i: usize = 0;
    assert(sp.take(0) == Seq::<Seq<char>>::empty());
    assert(crate::text::char_views(kept@) =~= Seq::<Seq<char>>::empty());
    while i < parts.len()
        invariant
            i <= parts@.len(),
            parts@.len() == sp.len(),
            forall|j: int| 0 <= j < parts@.len() ==> (#[trigger] parts@[j])@ == sp[j],
            crate::text::char_views(kept@) == path_pieces(sp.take(i as int)),
        decreases parts.len() - i,
    {
        assert(sp.take(i + 1).drop_last() == sp.take(i as int));
        assert(sp.take(i + 1).last() == parts@[i as int]@);
        let p = &parts[i];
        let dot = p.len() == 1 && p[0] == '.';
        assert(dot == (p@ == seq!['.'])) by {
            if p@.len() == 1 && p@[0] == '.' {
                assert(p@ =~= seq!['.']);
            }
        }
        if p.len() > 0 && !dot {
            let ghost before = kept@;
            kept.push(p.clone());
            assert(crate::text::char_views(kept@) =~= crate::text::char_views(before).push(p@));
        }
        i = i + 1;
    }
    assert(sp.take(parts@.len() as int) == sp);
    assert(crate::text::char_views(kept@) =~= kept@.map_values(|q: Vec<char>| q@));
    let j = crate::text::join_chars(&kept, "/");
    if v.len() > 0 && v[0] == '/' {
        let mut out: Vec<char> = Vec::new();
        out.push('/');
        crate::text::extend_chars(&mut out, &j);
        assert(out@ =~= seq!['/'] + j@);
        out
    } else {
        j
    }
}

fn copy_link(o: &Option<String>) -> (r: Option<String>)
    ensures
        link_view(r) == link_view(*o),
{
    match o {
        Some(t) => Some(t.clone()),
        None => None,
    }
}

/// What unpacking a data archive does, member by member (see `step_for`); `None` where
/// the archive cannot be read.
pub fn extraction_plan(tar: &[u8]) -> (r: Option<Vec<ExtractStep>>)
    ensures
        match r {
            Some(v) => tar_listing(tar@) matches Some(ms) && v@.len() == planned(ms).len()
                && forall|k: int| 0 <= k < v@.len() ==> step_for(#[trigger] v@[k], planned(ms)[k]),
            None => tar_listing(tar@) is None,
        },
{
    let ms = match tar_members(tar) {
        Some(ms) => ms,
        None => return None,
    };
    let ghost mv = members_view(ms@);
    let mut out: Vec<ExtractStep> = Vec::new();
    let mut i: usize = 0;
    while i < ms.len()
        invariant
            i <= ms@.len(),
            mv == members_view(ms@),
            out@.len() == planned(mv.take(i as int)).len(),
            forall|k: int| 0 <= k < out@.len() ==> step_for(#[trigger] out@[k], planned(mv.take(i as int))[k]),
        decreases ms@.len() - i,
    {
        proof {
            assert(mv.take(i + 1).drop_last() == mv.take(i as int));
            assert(mv.take(i + 1).last() == mv[i as int]);
        }
        let ghost m = mv[i as int];
        assert(m == (ms@[i as int].0@, ms@[i as int].1, ms@[i as int].2@, link_view(ms@[i as int].3), ms@[i as int].4));
        let pc = rel_chars(ms[i].0.as_str());
        let kind = ms[i].1;
        let mut step: Option<ExtractStep> = None;
        if pc.len() > 0 {
            let path = string_of(&pc);
            if kind == 53u8 {
                step = Some(ExtractStep { path, action: ExtractAction::Dir, regular: false, listed: false });
            } else if kind == 48u8 || kind == 55u8 {
                let data = copy_bytes(ms[i].2.as_slice(), 0, ms[i].2.len());
                assert(data@ == ms@[i as int].2@.subrange(0, ms@[i as int].2@.len() as int));
                assert(ms@[i as int].2@.subrange(0, ms@[i as int].2@.len() as int) == ms@[i as int].2@);
                step = Some(ExtractStep { path, action: ExtractAction::File { data, mode: ms[i].4 }, regular: true, listed: true });
            } else if kind == 49u8 {
                let target = copy_link(&ms[i].3);
                step = Some(ExtractStep { path, action: ExtractAction::HardLink { target }, regular: true, listed: true });
            } else if kind == 50u8 {
                match &ms[i].3 {
                    Some(t) => {
                        step = Some(ExtractStep { path, action: ExtractAction::Symlink { target: t.clone() }, regular: false, listed: true });
                    },
                    None => {},
                }
            }
        }
        assert(step is Some <==> takes_step(m));
        match step {
            Some(st) => {
                assert(step_for(st, m));
                let ghost before = out@;
                out.push(st);
                proof {
                    assert forall|k: int| 0 <= k < out@.len() implies step_for(#[trigger] out@[k], planned(mv.take(i + 1))[k]) by {
                        if k < before.len() {
                            assert(out@[k] == before[k]);
                        }
                    }
                }
            },
            None => {},
        }
        i = i + 1;
    }
    assert(mv.take(mv.len() as int) == mv);
    Some(out)
}

} // verus!
