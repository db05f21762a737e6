//! Managing repositories: the text of a new `[[repo]]` table, and of the configuration
//! rewritten after a repository is removed, enabled or disabled. Which file exists, and
//! reading and writing it, is the application's part.
use vstd::prelude::*;
use crate::apt_sources::{same_entry, EntryKind, SourceEntry};
use crate::package::ov;
use crate::text::{
    chars_of, extend_chars, extend_str, join, join_strings, last_segment, last_segment_of, names_of,
    quoted, quoted_list, string_of, strip_end, strip_end_chars, CharClass,
};

verus! {

/// Operations on the configured repositories.
pub struct RepoManager;

/// A change to one repository.
#[derive(Debug, Clone, Copy, PartialEq, Eq, Structural)]
pub enum RepoEdit {
    Remove,
    Enable,
    Disable,
}

/// The configuration file that is rewritten.
#[derive(Debug, Clone, Copy, PartialEq, Eq, Structural)]
pub enum ConfigFile {
    /// `/etc/lpm/sources-list.toml`
    Toml,
    /// `/etc/lpm/sources.list`
    List,
}

/// Why a repository cannot be changed.
#[derive(Debug, Clone, Copy, PartialEq, Eq, Structural)]
pub enum RepoError {
    /// There is no repository with that index.
    NoSuchId(usize),
    /// Neither configuration file exists.
    NoConfigFile,
}

/// The text of an error, as shown to the user.
pub open spec fn repo_error_text(e: RepoError) -> Seq<char> {
    match e {
        RepoError::NoSuchId(id) => "No repository with ID "@ + crate::text::decimal(id as nat)
            + ". Run `lpm repo list` to see available."@,
        RepoError::NoConfigFile => "Cannot find config file to modify. Check /etc/lpm/"@,
    }
}

impl RepoError {
    /// The text of the error.
    pub fn message(&self) -> (r: String)
        ensures
            r@ == repo_error_text(*self),
    {
        let mut v: Vec<char> = Vec::new();
        match self {
            RepoError::NoSuchId(id) => {
                extend_str(&mut v, "No repository with ID ");
                let d = crate::text::decimal_of(*id as u64);
                extend_chars(&mut v, &d);
                extend_str(&mut v, ". Run `lpm repo list` to see available.");
            },
            RepoError::NoConfigFile => {
                extend_str(&mut v, "Cannot find config file to modify. Check /etc/lpm/");
            },
        }
        assert(v@ =~= repo_error_text(*self));
        string_of(&v)
    }
}

// ─────────────────────────────────────────────────────────────
//  Adding
// ─────────────────────────────────────────────────────────────

/// The name of a new repository: the last path segment of its URI (trailing slashes
/// dropped), a hyphen, and the suite.
pub open spec fn new_repo_name(uri: Seq<char>, suite: Seq<char>) -> Seq<char> {
    last_segment(strip_end(uri, CharClass::Exactly('/'))) + "-"@ + suite
}

/// The `[[repo]]` table appended for a new repository (for `amd64`, enabled).
pub open spec fn new_repo_block(uri: Seq<char>, suite: Seq<char>, components: Seq<Seq<char>>) -> Seq<char> {
    "\n[[repo]]\nname       = \""@ + new_repo_name(uri, suite) + "\"\nbaseurl    = \""@ + uri
        + "\"\nsuite      = \""@ + suite + "\"\ncomponents = ["@ + join(quoted(components), ", "@)
        + "]\narch       = [\"amd64\"]\nenabled    = true\n"@
}

/// A `true`/`false` literal.
pub open spec fn bool_text(b: bool) -> Seq<char> {
    if b {
        "true"@
    } else {
        "false"@
    }
}

/// The table written for an entry when the TOML file is rewritten; an entry without
/// label is named `repo`, one without architectures gets `amd64`.
pub open spec fn toml_table(e: SourceEntry) -> Seq<char> {
    "[[repo]]\nname       = \""@ + match ov(e.label) {
        Some(l) => l,
        None => "repo"@,
    } + "\"\nbaseurl    = \""@ + e.uri@ + "\"\nsuite      = \""@ + e.suite@ + "\"\ncomponents = ["@
        + join(quoted(names_of(e.components@)), ", "@) + "]\narch       = ["@ + if e.arches@.len() == 0 {
        "\"amd64\""@
    } else {
        join(quoted(names_of(e.arches@)), ", "@)
    } + "]\nenabled    = "@ + bool_text(e.enabled) + "\n\n"@
}

/// The one-line entry written when the list file is rewritten; a disabled entry is
/// commented out.
pub open spec fn list_line(e: SourceEntry) -> Seq<char> {
    (if e.enabled {
        Seq::empty()
    } else {
        "# "@
    }) + (if e.kind == EntryKind::Deb {
        "deb"@
    } else {
        "deb-src"@
    }) + " "@ + e.uri@ + " "@ + e.suite@ + " "@ + join(names_of(e.components@), " "@) + "\n"@
}

/// An entry after an edit: removed, or enabled or disabled.
pub open spec fn edited(e: SourceEntry, edit: RepoEdit) -> Option<SourceEntry> {
    match edit {
        RepoEdit::Remove => None,
        RepoEdit::Enable => Some(SourceEntry { enabled: true, ..e }),
        RepoEdit::Disable => Some(SourceEntry { enabled: false, ..e }),
    }
}

/// The entry `i` after editing entry `id`.
pub open spec fn entry_after(entries: Seq<SourceEntry>, id: int, edit: RepoEdit, i: int) -> Option<SourceEntry> {
    if i == id {
        edited(entries[i], edit)
    } else {
        Some(entries[i])
    }
}

/// The tables of the rewritten TOML file for the first `n` entries: source entries are
/// left out.
pub open spec fn toml_tables(entries: Seq<SourceEntry>, id: int, edit: RepoEdit, n: int) -> Seq<char>
    decreases n,
{
    if n <= 0 {
        Seq::empty()
    } else {
        toml_tables(entries, id, edit, n - 1) + if entries[n - 1].kind != EntryKind::Deb {
            Seq::empty()
        } else {
            match entry_after(entries, id, edit, n - 1) {
                Some(e) => toml_table(e),
                None => Seq::empty(),
            }
        }
    }
}

/// The lines of the rewritten list file for the first `n` entries.
pub open spec fn list_lines(entries: Seq<SourceEntry>, id: int, edit: RepoEdit, n: int) -> Seq<char>
    decreases n,
{
    if n <= 0 {
        Seq::empty()
    } else {
        list_lines(entries, id, edit, n - 1) + match entry_after(entries, id, edit, n - 1) {
            Some(e) => list_line(e),
            None => Seq::empty(),
        }
    }
}

pub open spec fn toml_file(entries: Seq<SourceEntry>, id: int, edit: RepoEdit) -> Seq<char> {
    "# /etc/lpm/sources-list.toml \u{2014} managed by lpm\n\n"@ + toml_tables(entries, id, edit, entries.len() as int)
}

pub open spec fn list_file(entries: Seq<SourceEntry>, id: int, edit: RepoEdit) -> Seq<char> {
    "# /etc/lpm/sources.list \u{2014} managed by lpm\n"@ + list_lines(entries, id, edit, entries.len() as int)
}

fn edit_entry(e: &SourceEntry, edit: RepoEdit) -> (r: Option<SourceEntry>)
    ensures
        match (r, edited(*e, edit)) {
            (Some(a), Some(b)) => same_entry(a, b),
            (None, None) => true,
            _ => false,
        },
{
    match edit {
        RepoEdit::Remove => None,
        RepoEdit::Enable => {
            let mut c = e.duplicate();
            c.enabled = true;
            Some(c)
        },
        RepoEdit::Disable => {
            let mut c = e.duplicate();
            c.enabled = false;
            Some(c)
        },
    }
}

proof fn lemma_same_entry_texts(a: SourceEntry, b: SourceEntry)
    requires
        same_entry(a, b),
    ensures
        toml_table(a) == toml_table(b),
        list_line(a) == list_line(b),
{
}

fn toml_table_of(e: &SourceEntry) -> (r: Vec<char>)
    ensures
        r@ == toml_table(*e),
{
    let mut v: Vec<char> = Vec::new();
    extend_str(&mut v, "[[repo]]\nname       = \"");
    match &e.label {
        Some(l) => extend_str(&mut v, l.as_str()),
        None => extend_str(&mut v, "repo"),
    }
    extend_str(&mut v, "\"\nbaseurl    = \"");
    extend_str(&mut v, e.uri.as_str());
    extend_str(&mut v, "\"\nsuite      = \"");
    extend_str(&mut v, e.suite.as_str());
    extend_str(&mut v, "\"\ncomponents = [");
    let cl = quoted_list(&e.components);
    extend_chars(&mut v, &cl);
    extend_str(&mut v, "]\narch       = [");
    if e.arches.len() == 0 {
        extend_str(&mut v, "\"amd64\"");
    } else {
        let al = quoted_list(&e.arches);
        extend_chars(&mut v, &al);
    }
    extend_str(&mut v, "]\nenabled    = ");
    if e.enabled {
        extend_str(&mut v, "true");
    } else {
        extend_str(&mut v, "false");
    }
    extend_str(&mut v, "\n\n");
    assert(v@ =~= toml_table(*e));
    v
}

fn list_line_of(e: &SourceEntry) -> (r: Vec<char>)
    ensures
        r@ == list_line(*e),
{
    let mut v: Vec<char> = Vec::new();
    if !e.enabled {
        extend_str(&mut v, "# ");
    }
    if e.kind == EntryKind::Deb {
        extend_str(&mut v, "deb");
    } else {
        extend_str(&mut v, "deb-src");
    }
    extend_str(&mut v, " ");
    extend_str(&mut v, e.uri.as_str());
    extend_str(&mut v, " ");
    extend_str(&mut v, e.suite.as_str());
    extend_str(&mut v, " ");
    let cs = join_strings(e.components.as_slice(), " ");
    assert(e.components@.map_values(|p: String| p@) =~= names_of(e.components@));
    extend_str(&mut v, cs.as_str());
    extend_str(&mut v, "\n");
    assert(v@ =~= list_line(*e));
    v
}

impl RepoManager {
    /// The repositories, numbered from 0 in the order they are configured.
    pub fn list(entries: &[SourceEntry]) -> (r: Vec<(usize, SourceEntry)>)
        ensures
            r@.len() == entries@.len(),
            forall|i: int| 0 <= i < r@.len() ==> (#[trigger] r@[i]).0 == i && same_entry(r@[i].1, entries@[i]),
    {
        let mut out: Vec<(usize, SourceEntry)> = Vec::new();
        let mut i: usize = 0;
        while i < entries.len()
            invariant
                i <= entries@.len(),
                out@.len() == i,
                forall|k: int| 0 <= k < i ==> (#[trigger] out@[k]).0 == k && same_entry(out@[k].1, entries@[k]),
            decreases entries@.len() - i,
        {
            let ghost before = out@;
            out.push((i, entries[i].duplicate()));
            assert forall|k: int| 0 <= k < i + 1 implies (#[trigger] out@[k]).0 == k && same_entry(out@[k].1, entries@[k]) by {
                if k < i {
                    assert(out@[k] == before[k]);
                }
            }
            i = i + 1;
        }
        out
    }

    /// Adds a repository to the TOML configuration text `existing`: returns the new
    /// repository's name and the new text.
    pub fn add(existing: &str, uri: &str, suite: &str, components: &Vec<String>) -> (r: (String, String))
        ensures
            r.0@ == new_repo_name(uri@, suite@),
            r.1@ == existing@ + new_repo_block(uri@, suite@, names_of(components@)),
    {
        let trimmed = strip_end_chars(&chars_of(uri), &CharClass::Exactly('/'));
        let mut name = last_segment_of(&trimmed);
        extend_str(&mut name, "-");
        extend_str(&mut name, suite);
        let mut v: Vec<char> = chars_of(existing);
        extend_str(&mut v, "\n[[repo]]\nname       = \"");
        extend_chars(&mut v, &name);
        extend_str(&mut v, "\"\nbaseurl    = \"");
        extend_str(&mut v, uri);
        extend_str(&mut v, "\"\nsuite      = \"");
        extend_str(&mut v, suite);
        extend_str(&mut v, "\"\ncomponents = [");
        let cl = quoted_list(components);
        extend_chars(&mut v, &cl);
        extend_str(&mut v, "]\narch       = [\"amd64\"]\nenabled    = true\n");
        assert(name@ =~= new_repo_name(uri@, suite@));
        assert(v@ =~= existing@ + new_repo_block(uri@, suite@, names_of(components@)));
        (string_of(&name), string_of(&v))
    }

    /// The TOML configuration after editing repository `id`: a header line, then a table
    /// for each binary entry that remains. The format keeps only name, URI, suite,
    /// components, architectures and whether the entry is enabled: a signing key, `deb-src`
    /// entries and entries without architectures do not survive a rewrite.
    pub fn rewrite_toml(id: usize, entries: &[SourceEntry], edit: RepoEdit) -> (r: String)
        ensures
            r@ == toml_file(entries@, id as int, edit),
    {
        let mut v: Vec<char> = Vec::new();
        extend_str(&mut v, "# /etc/lpm/sources-list.toml \u{2014} managed by lpm\n\n");
        let ghost head = v@;
        let mut i: usize = 0;
        while i < entries.len()
            invariant
                i <= entries@.len(),
                v@ == head + toml_tables(entries@, id as int, edit, i as int),
                head == "# /etc/lpm/sources-list.toml \u{2014} managed by lpm\n\n"@,
            decreases entries@.len() - i,
        {
            let e = &entries[i];
            if e.kind == EntryKind::Deb {
                if i == id {
                    match edit_entry(e, edit) {
                        Some(c) => {
                            let t = toml_table_of(&c);
                            proof {
                                lemma_same_entry_texts(c, edited(*e, edit)->0);
                            }
                            extend_chars(&mut v, &t);
                        },
                        None => {},
                    }
                } else {
                    let t = toml_table_of(e);
                    extend_chars(&mut v, &t);
                }
            }
            assert(v@ =~= head + toml_tables(entries@, id as int, edit, i + 1));
            i = i + 1;
        }
        string_of(&v)
    }

    /// The list configuration after editing repository `id`: a header line, then a line
    /// for each entry that remains.
    pub fn rewrite_list(id: usize, entries: &[SourceEntry], edit: RepoEdit) -> (r: String)
        ensures
            r@ == list_file(entries@, id as int, edit),
    {
        let mut v: Vec<char> = Vec::new();
        extend_str(&mut v, "# /etc/lpm/sources.list \u{2014} managed by lpm\n");
        let ghost head = v@;
        let mut i: usize = 0;
        while i < entries.len()
            invariant
                i <= entries@.len(),
                v@ == head + list_lines(entries@, id as int, edit, i as int),
                head == "# /etc/lpm/sources.list \u{2014} managed by lpm\n"@,
            decreases entries@.len() - i,
        {
            let e = &entries[i];
            if i == id {
                match edit_entry(e, edit) {
                    Some(c) => {
                        let t = list_line_of(&c);
                        proof {
                            lemma_same_entry_texts(c, edited(*e, edit)->0);
                        }
                        extend_chars(&mut v, &t);
                    },
                    None => {},
                }
            } else {
                let t = list_line_of(e);
                extend_chars(&mut v, &t);
            }
            assert(v@ =~= head + list_lines(entries@, id as int, edit, i + 1));
            i = i + 1;
        }
        string_of(&v)
    }

    /// Edits repository `id`: the TOML file is rewritten where it exists, else the list
    /// file; returns which file and its new text.
    pub fn modify_by_id(id: usize, entries: &[SourceEntry], toml_exists: bool, list_exists: bool, edit: RepoEdit) -> (r: Result<(ConfigFile, String), RepoError>)
        ensures
            match r {
                Ok((f, text)) => id < entries@.len() && if toml_exists {
                    f == ConfigFile::Toml && text@ == toml_file(entries@, id as int, edit)
                } else {
                    list_exists && f == ConfigFile::List && text@ == list_file(entries@, id as int, edit)
                },
                Err(e) => if id >= entries@.len() {
                    e == RepoError::NoSuchId(id)
                } else {
                    !toml_exists && !list_exists && e == RepoError::NoConfigFile
                },
            },
    {
        if id >= entries.len() {
            return Err(RepoError::NoSuchId(id));
        }
        if toml_exists {
            return Ok((ConfigFile::Toml, Self::rewrite_toml(id, entries, edit)));
        }
        if list_exists {
            return Ok((ConfigFile::List, Self::rewrite_list(id, entries, edit)));
        }
        Err(RepoError::NoConfigFile)
    }

    /// Removes repository `id` (see `modify_by_id`).
    pub fn remove(id: usize, entries: &[SourceEntry], toml_exists: bool, list_exists: bool) -> (r: Result<(ConfigFile, String), RepoError>)
        ensures
            match r {
                Ok((f, text)) => id < entries@.len() && if toml_exists {
                    f == ConfigFile::Toml && text@ == toml_file(entries@, id as int, RepoEdit::Remove)
                } else {
                    list_exists && f == ConfigFile::List && text@ == list_file(entries@, id as int, RepoEdit::Remove)
                },
                Err(e) => if id >= entries@.len() {
                    e == RepoError::NoSuchId(id)
                } else {
                    !toml_exists && !list_exists && e == RepoError::NoConfigFile
                },
            },
    {
        Self::modify_by_id(id, entries, toml_exists, list_exists, RepoEdit::Remove)
    }

    /// Enables repository `id` (see `modify_by_id`).
    pub fn enable(id: usize, entries: &[SourceEntry], toml_exists: bool, list_exists: bool) -> (r: Result<(ConfigFile, String), RepoError>)
        ensures
            match r {
                Ok((f, text)) => id < entries@.len() && if toml_exists {
                    f == ConfigFile::Toml && text@ == toml_file(entries@, id as int, RepoEdit::Enable)
                } else {
                    list_exists && f == ConfigFile::List && text@ == list_file(entries@, id as int, RepoEdit::Enable)
                },
                Err(e) => if id >= entries@.len() {
                    e == RepoError::NoSuchId(id)
                } else {
                    !toml_exists && !list_exists && e == RepoError::NoConfigFile
                },
            },
    {
        Self::modify_by_id(id, entries, toml_exists, list_exists, RepoEdit::Enable)
    }

    /// Disables repository `id` (see `modify_by_id`).
    pub fn disable(id: usize, entries: &[SourceEntry], toml_exists: bool, list_exists: bool) -> (r: Result<(ConfigFile, String), RepoError>)
        ensures
            match r {
                Ok((f, text)) => id < entries@.len() && if toml_exists {
                    f == ConfigFile::Toml && text@ == toml_file(entries@, id as int, RepoEdit::Disable)
                } else {
                    list_exists && f == ConfigFile::List && text@ == list_file(entries@, id as int, RepoEdit::Disable)
                },
                Err(e) => if id >= entries@.len() {
                    e == RepoError::NoSuchId(id)
                } else {
                    !toml_exists && !list_exists && e == RepoError::NoConfigFile
                },
            },
    {
        Self::modify_by_id(id, entries, toml_exists, list_exists, RepoEdit::Disable)
    }
}

} // verus!
