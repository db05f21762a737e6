//! Decoding bytes: the compressed streams of packages and indexes, tar archives, and UTF-8
//! text. The decoders themselves are outside crates and the standard library; each result
//! is named here as a function of the input bytes.
use vstd::prelude::*;

verus! {

/// What `flate2::read::GzDecoder` reads from the bytes (`None` where it fails).
pub uninterp spec fn gz_decoded(b: Seq<u8>) -> Option<Seq<u8>>;

/// What `xz2::read::XzDecoder` reads from the bytes (`None` where it fails).
pub uninterp spec fn xz_decoded(b: Seq<u8>) -> Option<Seq<u8>>;

/// What `zstd::stream::Decoder` reads from the bytes (`None` where it fails).
pub uninterp spec fn zst_decoded(b: Seq<u8>) -> Option<Seq<u8>>;

/// What `bzip2::read::BzDecoder` reads from the bytes (`None` where it fails).
pub uninterp spec fn bz2_decoded(b: Seq<u8>) -> Option<Seq<u8>>;

/// The text `std::str::from_utf8` reads from the bytes (`None` where they are not UTF-8).
pub uninterp spec fn utf8_decoded(b: Seq<u8>) -> Option<Seq<char>>;

/// The text `String::from_utf8_lossy` reads from the bytes.
pub uninterp spec fn utf8_lossy(b: Seq<u8>) -> Seq<char>;

/// A member of a tar archive: its path (as text), its type byte, its contents, the target
/// of a link, and its mode where the header gives one.
pub type Member = (String, u8, Vec<u8>, Option<String>, Option<u32>);

/// A member of a tar archive as plain values.
pub type MemberView = (Seq<char>, u8, Seq<u8>, Option<Seq<char>>, Option<u32>);

/// The members of a tar archive as `tar::Archive::entries` reads them from the bytes
/// (`None` where reading fails).
pub uninterp spec fn tar_listing(b: Seq<u8>) -> Option<Seq<MemberView>>;

/// A link target as plain text.
pub open spec fn link_view(o: Option<String>) -> Option<Seq<char>> {
    match o {
        Some(s) => Some(s@),
        None => None,
    }
}

/// Members of a tar archive as plain values.
pub open spec fn members_view(v: Seq<Member>) -> Seq<MemberView> {
    v.map_values(|m: Member| (m.0@, m.1, m.2@, link_view(m.3), m.4))
}

/// Decompresses gzip data with `flate2::read::GzDecoder` and `read_to_end`: the contract
/// names the result `gz_decoded` of the input and says nothing more of it.
#[verifier::external_body]
pub(crate) fn gz_decode(b: &[u8]) -> (r: Option<Vec<u8>>)
    ensures
        match r {
            Some(v) => gz_decoded(b@) == Some(v@),
            None => gz_decoded(b@) is None,
        },
{
    let mut v = Vec::new();
    match std::io::Read::read_to_end(&mut flate2::read::GzDecoder::new(b), &mut v) {
        Ok(_) => Some(v),
        Err(_) => None,
    }
}

/// Decompresses xz data with `xz2::read::XzDecoder` and `read_to_end`: the contract names
/// the result `xz_decoded` of the input and says nothing more of it.
#[verifier::external_body]
pub(crate) fn xz_decode(b: &[u8]) -> (r: Option<Vec<u8>>)
    ensures
        match r {
            Some(v) => xz_decoded(b@) == Some(v@),
            None => xz_decoded(b@) is None,
        },
{
    let mut v = Vec::new();
    match std::io::Read::read_to_end(&mut xz2::read::XzDecoder::new(b), &mut v) {
        Ok(_) => Some(v),
        Err(_) => None,
    }
}

/// Decompresses zstd data with `zstd::stream::Decoder` and `read_to_end`: the contract
/// names the result `zst_decoded` of the input and says nothing more of it.
#[verifier::external_body]
pub(crate) fn zst_decode(b: &[u8]) -> (r: Option<Vec<u8>>)
    ensures
        match r {
            Some(v) => zst_decoded(b@) == Some(v@),
            None => zst_decoded(b@) is None,
        },
{
    let mut d = match zstd::stream::Decoder::new(b) {
        Ok(d) => d,
        Err(_) => return None,
    };
    let mut v = Vec::new();
    match std::io::Read::read_to_end(&mut d, &mut v) {
        Ok(_) => Some(v),
        Err(_) => None,
    }
}

/// Decompresses bzip2 data with `bzip2::read::BzDecoder` and `read_to_end`: the contract
/// names the result `bz2_decoded` of the input and says nothing more of it.
#[verifier::external_body]
pub(crate) fn bz2_decode(b: &[u8]) -> (r: Option<Vec<u8>>)
    ensures
        match r {
            Some(v) => bz2_decoded(b@) == Some(v@),
            None => bz2_decoded(b@) is None,
        },
{
    let mut v = Vec::new();
    match std::io::Read::read_to_end(&mut bzip2::read::BzDecoder::new(b), &mut v) {
        Ok(_) => Some(v),
        Err(_) => None,
    }
}

/// Reads bytes as UTF-8 with `std::str::from_utf8`: the contract names the result
/// `utf8_decoded` of the input and says nothing more of it.
#[verifier::external_body]
pub(crate) fn utf8_text(b: &[u8]) -> (r: Option<String>)
    ensures
        match r {
            Some(s) => utf8_decoded(b@) == Some(s@),
            None => utf8_decoded(b@) is None,
        },
{
    match std::str::from_utf8(b) {
        Ok(s) => Some(s.to_string()),
        Err(_) => None,
    }
}

/// Reads bytes as UTF-8 with `String::from_utf8_lossy` (bad sequences become U+FFFD): the
/// contract names the result `utf8_lossy` of the input and says nothing more of it.
#[verifier::external_body]
pub(crate) fn utf8_text_lossy(b: &[u8]) -> (r: String)
    ensures
        r@ == utf8_lossy(b@),
{
    String::from_utf8_lossy(b).to_string()
}

/// Reads the members of a tar archive with `tar::Archive::entries`: for each member its
/// path (`to_string_lossy`), its type byte (`EntryType::as_byte`), its contents
/// (`read_to_end`), its link target (`link_name`, `to_string_lossy`) and its mode
/// (`Header::mode`). The contract names the result `tar_listing` of the input and says
/// nothing more of it.
#[verifier::external_body]
pub(crate) fn tar_members(b: &[u8]) -> (r: Option<Vec<Member>>)
    ensures
        match r {
            Some(v) => tar_listing(b@) == Some(members_view(v@)),
            None => tar_listing(b@) is None,
        },
{
    let mut archive = tar::Archive::new(std::io::Cursor::new(b));
    let mut out = Vec::new();
    for entry in archive.entries().ok()? {
        let mut e = entry.ok()?;
        let path = e.path().ok()?.to_string_lossy().to_string();
        let kind = e.header().entry_type().as_byte();
        let link = e.link_name().ok()?.map(|l| l.to_string_lossy().to_string());
        let mode = e.header().mode().ok();
        let mut data = Vec::new();
        std::io::Read::read_to_end(&mut e, &mut data).ok()?;
        out.push((path, kind, data, link, mode));
    }
    Some(out)
}

} // verus!
