//! Where keys of the keyring are kept and which files are keys.
use vstd::prelude::*;
use crate::alternatives::{file_name, file_name_of};
use crate::commands::extension;
use crate::text::{
    chars_eq_str, chars_of, join_path, lemma_rfind_char, path_join, rfind_char, rfind_char_in,
    slice_chars, starts_with, starts_with_str, string_of,
};

verus! {

/// The keyring of trusted repository keys.
pub struct Keyring;

/// The directory of the keyring.
pub open spec fn keyring_dir() -> Seq<char> {
    "/etc/apt/trusted.gpg.d"@
}

/// Where a key taken from `source` (a file or a URL) is kept: `lpm_` and the source's file
/// name (`unknown` without one) in the keyring directory.
pub open spec fn key_dest(source: Seq<char>) -> Seq<char> {
    path_join(keyring_dir(), "lpm_"@ + match file_name(source) {
        Some(n) => n,
        None => "unknown"@,
    })
}

impl Keyring {
    pub fn key_destination(source: &str) -> (r: String)
        ensures
            r@ == key_dest(source@),
    {
        let mut name: Vec<char> = chars_of("lpm_");
        match file_name_of(source) {
            Some(n) => crate::text::extend_str(&mut name, n.as_str()),
            None => crate::text::extend_str(&mut name, "unknown"),
        }
        let d = chars_of("/etc/apt/trusted.gpg.d");
        string_of(&join_path(&d, &name))
    }
}

/// Whether a key is named by URL: it starts with `http://` or `https://`.
pub open spec fn remote_key(path: Seq<char>) -> bool {
    starts_with(path, "http://"@) || starts_with(path, "https://"@)
}

impl Keyring {
    pub fn is_remote_key(path: &str) -> (r: bool)
        ensures
            r == remote_key(path@),
    {
        let c = chars_of(path);
        starts_with_str(&c, "http://") || starts_with_str(&c, "https://")
    }
}

/// Whether a file of the keyring directory is a key: its extension is `gpg`.
pub open spec fn keyring_file(path: Seq<char>) -> bool {
    match file_name(path) {
        Some(n) => extension(n) == Some("gpg"@),
        None => false,
    }
}

impl Keyring {
    pub fn is_keyring_file(path: &str) -> (r: bool)
        ensures
            r == keyring_file(path@),
    {
        match file_name_of(path) {
            Some(n) => {
                let c = chars_of(n.as_str());
                proof {
                    lemma_rfind_char(c@, '.');
                }
                match rfind_char_in(&c, '.') {
                    Some(i) => {
                        let len = c.len();
                        assert(rfind_char(c@, '.') == Some(i as int));
                        assert(i < len);
                        if i == 0 {
                            false
                        } else {
                            let e = slice_chars(&c, i + 1, len);
                            assert(e@ == c@.skip(i + 1));
                            chars_eq_str(&e, "gpg")
                        }
                    },
                    None => false,
                }
            },
            None => false,
        }
    }
}

/// Where the key of the given name lies in the keyring.
impl Keyring {
    pub fn key_path(name: &str) -> (r: String)
        ensures
            r@ == path_join(keyring_dir(), name@),
    {
        let d = chars_of("/etc/apt/trusted.gpg.d");
        string_of(&join_path(&d, &chars_of(name)))
    }
}

} // verus!
