//! Character-level text handling: the `str` operations that the parsers of
//! this crate are written with, each stated over `Seq<char>`.
use vstd::prelude::*;

verus! {

// ─────────────────────────────────────────────────────────────
//  Conversions between strings and character vectors
// ─────────────────────────────────────────────────────────────

/// Appends one character to a `String` (std's `String::push`).
#[verifier::external_body]
pub(crate) fn push_char(s: &mut String, c: char)
    ensures
        final(s)@ == old(s)@.push(c),
{
    s.push(c);
}

/// The characters of `s`, in order.
pub fn chars_of(s: &str) -> (v: Vec<char>)
    ensures
        v@ == s@,
{
    let mut v: Vec<char> = Vec::new();
    for c in it: s.chars()
        invariant
            v@ == it.seq().take(it.index() as int),
            it.seq() == s@,
    {
        v.push(c);
    }
    v
}

/// A `String` holding exactly the given characters.
pub fn string_of(v: &[char]) -> (s: String)
    ensures
        s@ == v@,
{
    let mut s = String::new();
    let mut i: usize = 0;
    while i < v.len()
        invariant
            i <= v.len(),
            s@ == v@.take(i as int),
        decreases v.len() - i,
    {
        push_char(&mut s, v[i]);
        assert(v@.take(i + 1) == v@.take(i as int).push(v@[i as int]));
        i = i + 1;
    }
    assert(v@.take(v.len() as int) == v@);
    s
}

/// Appends all characters of `t` to `v`.
pub fn extend_chars(v: &mut Vec<char>, t: &[char])
    ensures
        final(v)@ == old(v)@ + t@,
{
    let mut i: usize = 0;
    while i < t.len()
        invariant
            i <= t.len(),
            v@ == old(v)@ + t@.take(i as int),
        decreases t.len() - i,
    {
        v.push(t[i]);
        assert(t@.take(i + 1) == t@.take(i as int).push(t@[i as int]));
        i = i + 1;
    }
    assert(t@.take(t.len() as int) == t@);
}

/// Appends all characters of `t` to `v`.
pub fn extend_str(v: &mut Vec<char>, t: &str)
    ensures
        final(v)@ == old(v)@ + t@,
{
    let tc = chars_of(t);
    extend_chars(v, &tc);
}

/// The characters `v[from..to]`.
pub fn slice_chars(v: &[char], from: usize, to: usize) -> (r: Vec<char>)
    requires
        from <= to <= v.len(),
    ensures
        r@ == v@.subrange(from as int, to as int),
{
    let mut r: Vec<char> = Vec::new();
    let mut i = from;
    while i < to
        invariant
            from <= i <= to,
            to <= v.len(),
            r@ == v@.subrange(from as int, i as int),
        decreases to - i,
    {
        r.push(v[i]);
        assert(v@.subrange(from as int, i + 1) == v@.subrange(from as int, i as int).push(v@[i as int]));
        i = i + 1;
    }
    r
}

/// Whether two character slices are equal.
pub fn chars_eq(a: &[char], b: &[char]) -> (r: bool)
    ensures
        r == (a@ == b@),
{
    if a.len() != b.len() {
        return false;
    }
    let mut i: usize = 0;
    while i < a.len()
        invariant
            i <= a.len(),
            a.len() == b.len(),
            a@.take(i as int) == b@.take(i as int),
        decreases a.len() - i,
    {
        if a[i] != b[i] {
            assert(a@[i as int] != b@[i as int]);
            return false;
        }
        assert(a@.take(i + 1) == a@.take(i as int).push(a@[i as int]));
        assert(b@.take(i + 1) == b@.take(i as int).push(b@[i as int]));
        i = i + 1;
    }
    assert(a@.take(a.len() as int) == a@);
    assert(b@.take(b.len() as int) == b@);
    true
}

/// Whether the characters of `a` equal those of the string `b`.
pub fn chars_eq_str(a: &[char], b: &str) -> (r: bool)
    ensures
        r == (a@ == b@),
{
    let bc = chars_of(b);
    chars_eq(a, &bc)
}

// ─────────────────────────────────────────────────────────────
//  Character classes
// ─────────────────────────────────────────────────────────────

/// Unicode `White_Space`, the set that `char::is_whitespace` and `str::trim` use.
pub open spec fn is_ws(c: char) -> bool {
    ||| ('\u{9}' <= c && c <= '\u{d}')
    ||| c == ' '
    ||| c == '\u{85}'
    ||| c == '\u{a0}'
    ||| c == '\u{1680}'
    ||| ('\u{2000}' <= c && c <= '\u{200a}')
    ||| c == '\u{2028}'
    ||| c == '\u{2029}'
    ||| c == '\u{202f}'
    ||| c == '\u{205f}'
    ||| c == '\u{3000}'
}

pub fn is_whitespace(c: char) -> (r: bool)
    ensures
        r == is_ws(c),
{
    ('\u{9}' <= c && c <= '\u{d}') || c == ' ' || c == '\u{85}' || c == '\u{a0}' || c == '\u{1680}'
        || ('\u{2000}' <= c && c <= '\u{200a}') || c == '\u{2028}' || c == '\u{2029}' || c
        == '\u{202f}' || c == '\u{205f}' || c == '\u{3000}'
}

/// `char::is_ascii_digit`.
pub open spec fn is_digit(c: char) -> bool {
    '0' <= c && c <= '9'
}

/// `char::is_ascii_alphabetic`.
pub open spec fn is_alpha(c: char) -> bool {
    ('A' <= c && c <= 'Z') || ('a' <= c && c <= 'z')
}

/// A set of characters that the trimming functions strip.
pub enum CharClass {
    Whitespace,
    Exactly(char),
}

pub open spec fn in_class(cls: CharClass, c: char) -> bool {
    match cls {
        CharClass::Whitespace => is_ws(c),
        CharClass::Exactly(d) => c == d,
    }
}

pub fn class_contains(cls: &CharClass, c: char) -> (r: bool)
    ensures
        r == in_class(*cls, c),
{
    match cls {
        CharClass::Whitespace => is_whitespace(c),
        CharClass::Exactly(d) => c == *d,
    }
}

// ─────────────────────────────────────────────────────────────
//  Trimming
// ─────────────────────────────────────────────────────────────

/// `s` without its leading characters of the class.
pub open spec fn strip_start(s: Seq<char>, cls: CharClass) -> Seq<char>
    decreases s.len(),
{
    if s.len() > 0 && in_class(cls, s[0]) {
        strip_start(s.drop_first(), cls)
    } else {
        s
    }
}

/// `s` without its trailing characters of the class.
pub open spec fn strip_end(s: Seq<char>, cls: CharClass) -> Seq<char>
    decreases s.len(),
{
    if s.len() > 0 && in_class(cls, s.last()) {
        strip_end(s.drop_last(), cls)
    } else {
        s
    }
}

/// `str::trim_start`.
pub open spec fn trim_start(s: Seq<char>) -> Seq<char> {
    strip_start(s, CharClass::Whitespace)
}

/// `str::trim_end`.
pub open spec fn trim_end(s: Seq<char>) -> Seq<char> {
    strip_end(s, CharClass::Whitespace)
}

/// `str::trim`.
pub open spec fn trim(s: Seq<char>) -> Seq<char> {
    trim_end(trim_start(s))
}

proof fn lemma_strip_start_skip(s: Seq<char>, cls: CharClass, i: int)
    requires
        0 <= i <= s.len(),
        forall|j: int| 0 <= j < i ==> in_class(cls, #[trigger] s[j]),
        i == s.len() || !in_class(cls, s[i]),
    ensures
        strip_start(s, cls) == s.skip(i),
    decreases i,
{
    if i > 0 {
        assert forall|j: int| 0 <= j < i - 1 implies in_class(cls, #[trigger] s.drop_first()[j]) by {
            assert(s.drop_first()[j] == s[j + 1]);
        }
        lemma_strip_start_skip(s.drop_first(), cls, i - 1);
        assert(s.drop_first().skip(i - 1) == s.skip(i));
    } else {
        assert(s.skip(0) == s);
    }
}

proof fn lemma_strip_end_take(s: Seq<char>, cls: CharClass, i: int)
    requires
        0 <= i <= s.len(),
        forall|j: int| i <= j < s.len() ==> in_class(cls, #[trigger] s[j]),
        i == 0 || !in_class(cls, s[i - 1]),
    ensures
        strip_end(s, cls) == s.take(i),
    decreases s.len() - i,
{
    if i < s.len() {
        assert forall|j: int| i <= j < s.len() - 1 implies in_class(cls, #[trigger] s.drop_last()[j]) by {
            assert(s.drop_last()[j] == s[j]);
        }
        lemma_strip_end_take(s.drop_last(), cls, i);
        assert(s.drop_last().take(i) == s.take(i));
    } else {
        assert(s.take(s.len() as int) == s);
    }
}

/// Strips leading characters of the class (`trim_start`, `trim_start_matches`).
pub fn strip_start_chars(v: &[char], cls: &CharClass) -> (r: Vec<char>)
    ensures
        r@ == strip_start(v@, *cls),
{
    let mut i: usize = 0;
    while i < v.len() && class_contains(cls, v[i])
        invariant
            i <= v.len(),
            forall|j: int| 0 <= j < i ==> in_class(*cls, #[trigger] v@[j]),
        decreases v.len() - i,
    {
        i = i + 1;
    }
    proof {
        lemma_strip_start_skip(v@, *cls, i as int);
    }
    slice_chars(v, i, v.len())
}

/// Strips trailing characters of the class (`trim_end`, `trim_end_matches`).
pub fn strip_end_chars(v: &[char], cls: &CharClass) -> (r: Vec<char>)
    ensures
        r@ == strip_end(v@, *cls),
{
    let mut i: usize = v.len();
    while i > 0 && class_contains(cls, v[i - 1])
        invariant
            i <= v.len(),
            forall|j: int| i <= j < v.len() ==> in_class(*cls, #[trigger] v@[j]),
        decreases i,
    {
        i = i - 1;
    }
    proof {
        lemma_strip_end_take(v@, *cls, i as int);
    }
    slice_chars(v, 0, i)
}

/// `str::trim`.
pub fn trim_chars(v: &[char]) -> (r: Vec<char>)
    ensures
        r@ == trim(v@),
{
    let a = strip_start_chars(v, &CharClass::Whitespace);
    strip_end_chars(&a, &CharClass::Whitespace)
}

/// `str::trim_start`.
pub fn trim_start_chars(v: &[char]) -> (r: Vec<char>)
    ensures
        r@ == trim_start(v@),
{
    strip_start_chars(v, &CharClass::Whitespace)
}

/// `str::trim_end`.
pub fn trim_end_chars(v: &[char]) -> (r: Vec<char>)
    ensures
        r@ == trim_end(v@),
{
    strip_end_chars(v, &CharClass::Whitespace)
}

// ─────────────────────────────────────────────────────────────
//  Searching
// ─────────────────────────────────────────────────────────────

/// Index of the first `c` in `s` (`str::find` with a `char`, counted in characters).
pub open spec fn find_char(s: Seq<char>, c: char) -> Option<int>
    decreases s.len(),
{
    if s.len() == 0 {
        None
    } else if s[0] == c {
        Some(0)
    } else {
        match find_char(s.drop_first(), c) {
            Some(i) => Some(i + 1),
            None => None,
        }
    }
}

/// Index of the last `c` in `s` (`str::rfind` with a `char`, counted in characters).
pub open spec fn rfind_char(s: Seq<char>, c: char) -> Option<int>
    decreases s.len(),
{
    if s.len() == 0 {
        None
    } else if s.last() == c {
        Some(s.len() - 1)
    } else {
        rfind_char(s.drop_last(), c)
    }
}

pub proof fn lemma_find_char(s: Seq<char>, c: char)
    ensures
        match find_char(s, c) {
            Some(i) => 0 <= i < s.len() && s[i] == c && forall|j: int| 0 <= j < i ==> s[j] != c,
            None => forall|j: int| 0 <= j < s.len() ==> s[j] != c,
        },
    decreases s.len(),
{
    if s.len() > 0 {
        lemma_find_char(s.drop_first(), c);
        if s[0] != c {
            match find_char(s.drop_first(), c) {
                Some(i) => {
                    assert forall|j: int| 0 <= j < i + 1 implies s[j] != c by {
                        if j > 0 {
                            assert(s[j] == s.drop_first()[j - 1]);
                        }
                    }
                },
                None => {
                    assert forall|j: int| 0 <= j < s.len() implies s[j] != c by {
                        if j > 0 {
                            assert(s[j] == s.drop_first()[j - 1]);
                        }
                    }
                },
            }
        }
    }
}

pub proof fn lemma_find_char_at(s: Seq<char>, c: char, i: int)
    requires
        0 <= i <= s.len(),
        forall|j: int| 0 <= j < i ==> s[j] != c,
        i == s.len() || s[i] == c,
    ensures
        find_char(s, c) == (if i == s.len() { None } else { Some(i) }),
{
    lemma_find_char(s, c);
    match find_char(s, c) {
        Some(k) => {
            if k < i {
            } else if k > i {
                assert(s[i] != c);
            }
        },
        None => {
            if i < s.len() {
                assert(s[i] != c);
            }
        },
    }
}

pub proof fn lemma_rfind_char(s: Seq<char>, c: char)
    ensures
        match rfind_char(s, c) {
            Some(i) => 0 <= i < s.len() && s[i] == c && forall|j: int| i < j < s.len() ==> s[j] != c,
            None => forall|j: int| 0 <= j < s.len() ==> s[j] != c,
        },
    decreases s.len(),
{
    if s.len() > 0 {
        lemma_rfind_char(s.drop_last(), c);
        if s.last() != c {
            match rfind_char(s.drop_last(), c) {
                Some(i) => {
                    assert forall|j: int| i < j < s.len() implies s[j] != c by {
                        if j < s.len() - 1 {
                            assert(s[j] == s.drop_last()[j]);
                        }
                    }
                },
                None => {
                    assert forall|j: int| 0 <= j < s.len() implies s[j] != c by {
                        if j < s.len() - 1 {
                            assert(s[j] == s.drop_last()[j]);
                        }
                    }
                },
            }
        }
    }
}

/// `str::find` with a `char` pattern, as a character index.
pub fn find_char_in(v: &[char], c: char) -> (r: Option<usize>)
    ensures
        match r {
            Some(i) => find_char(v@, c) == Some(i as int),
            None => find_char(v@, c) is None,
        },
{
    let mut i: usize = 0;
    while i < v.len()
        invariant
            i <= v.len(),
            forall|j: int| 0 <= j < i ==> v@[j] != c,
        decreases v.len() - i,
    {
        if v[i] == c {
            proof {
                lemma_find_char_at(v@, c, i as int);
            }
            return Some(i);
        }
        i = i + 1;
    }
    proof {
        lemma_find_char_at(v@, c, i as int);
    }
    None
}

/// `str::rfind` with a `char` pattern, as a character index.
pub fn rfind_char_in(v: &[char], c: char) -> (r: Option<usize>)
    ensures
        match r {
            Some(i) => rfind_char(v@, c) == Some(i as int),
            None => rfind_char(v@, c) is None,
        },
{
    let mut i: usize = v.len();
    while i > 0
        invariant
            i <= v.len(),
            forall|j: int| i <= j < v.len() ==> v@[j] != c,
        decreases i,
    {
        if v[i - 1] == c {
            proof {
                lemma_rfind_char(v@, c);
                match rfind_char(v@, c) {
                    Some(k) => {
                        if k < i - 1 {
                            assert(v@[i - 1] != c);
                        }
                    },
                    None => {
                        assert(v@[i - 1] != c);
                    },
                }
            }
            return Some(i - 1);
        }
        i = i - 1;
    }
    proof {
        lemma_rfind_char(v@, c);
        match rfind_char(v@, c) {
            Some(k) => {
                assert(v@[k] != c);
            },
            None => {},
        }
    }
    None
}

/// `s` begins with `p`.
pub open spec fn starts_with(s: Seq<char>, p: Seq<char>) -> bool {
    p.len() <= s.len() && s.take(p.len() as int) == p
}

/// `s` ends with `p`.
pub open spec fn ends_with(s: Seq<char>, p: Seq<char>) -> bool {
    p.len() <= s.len() && s.skip(s.len() - p.len()) == p
}

/// `s` contains `t` as a contiguous part.
pub open spec fn contains_sub(s: Seq<char>, t: Seq<char>) -> bool {
    exists|i: int| 0 <= i && i + t.len() <= s.len() && #[trigger] s.subrange(i, i + t.len()) == t
}

/// Whether `v` begins with `p`.
pub fn starts_with_chars(v: &[char], p: &[char]) -> (r: bool)
    ensures
        r == starts_with(v@, p@),
{
    if p.len() > v.len() {
        return false;
    }
    let head = slice_chars(v, 0, p.len());
    chars_eq(&head, p)
}

/// Whether `v` begins with the string `p`.
pub fn starts_with_str(v: &[char], p: &str) -> (r: bool)
    ensures
        r == starts_with(v@, p@),
{
    let pc = chars_of(p);
    starts_with_chars(v, &pc)
}

/// Whether `v` ends with the string `p`.
pub fn ends_with_str(v: &[char], p: &str) -> (r: bool)
    ensures
        r == ends_with(v@, p@),
{
    let pc = chars_of(p);
    if pc.len() > v.len() {
        return false;
    }
    let tail = slice_chars(v, v.len() - pc.len(), v.len());
    assert(v@.subrange(v.len() - pc.len(), v.len() as int) == v@.skip(v.len() - pc.len()));
    chars_eq(&tail, &pc)
}

/// Whether `t` occurs in `v`.
pub fn contains_chars(v: &[char], t: &[char]) -> (r: bool)
    ensures
        r == contains_sub(v@, t@),
{
    if t.len() > v.len() {
        return false;
    }
    if t.len() == 0 {
        assert(v@.subrange(0int, 0int + t@.len()) == t@);
        return true;
    }
    let mut i: usize = 0;
    while i <= v.len() - t.len()
        invariant
            0 < t.len() <= v.len(),
            i <= v.len() - t.len() + 1,
            forall|k: int| 0 <= k < i ==> #[trigger] v@.subrange(k, k + t.len()) != t@,
        decreases v.len() - t.len() + 1 - i,
    {
        let part = slice_chars(v, i, i + t.len());
        if chars_eq(&part, t) {
            return true;
        }
        i = i + 1;
    }
    proof {
        if contains_sub(v@, t@) {
            let k = choose|k: int| 0 <= k && k + t.len() <= v.len() && #[trigger] v@.subrange(k, k + t.len()) == t@;
            assert(v@.subrange(k, k + t.len()) != t@);
        }
    }
    false
}


// ─────────────────────────────────────────────────────────────
//  Sequences of names
// ─────────────────────────────────────────────────────────────

/// The texts of a sequence of strings.
pub open spec fn names_of(v: Seq<String>) -> Seq<Seq<char>> {
    v.map_values(|x: String| x@)
}

pub proof fn lemma_names_push(v: Seq<String>, x: String)
    ensures
        names_of(v.push(x)) == names_of(v).push(x@),
        forall|y: Seq<char>| #[trigger] names_of(v.push(x)).contains(y) <==> (names_of(v).contains(y) || y == x@),
{
    assert(names_of(v.push(x)) =~= names_of(v).push(x@));
    lemma_push_contains(names_of(v), x@);
}

pub proof fn lemma_push_contains(s: Seq<Seq<char>>, a: Seq<char>)
    ensures
        forall|x: Seq<char>| #[trigger] s.push(a).contains(x) <==> (s.contains(x) || x == a),
{
    assert forall|x: Seq<char>| #[trigger] s.push(a).contains(x) <==> (s.contains(x) || x == a) by {
        if s.push(a).contains(x) && x != a {
            let j = choose|j: int| 0 <= j < s.push(a).len() && s.push(a)[j] == x;
            assert(s[j] == x);
        }
        if s.contains(x) {
            let j = choose|j: int| 0 <= j < s.len() && s[j] == x;
            assert(s.push(a)[j] == x);
        }
        if x == a {
            assert(s.push(a)[s.len() as int] == x);
        }
    }
}

/// The texts of a vector of character vectors.
pub open spec fn char_views(v: Seq<Vec<char>>) -> Seq<Seq<char>> {
    v.map_values(|x: Vec<char>| x@)
}

/// Strings with the given characters, one for each vector.
pub fn strings_of(v: &Vec<Vec<char>>) -> (r: Vec<String>)
    ensures
        names_of(r@) == char_views(v@),
{
    let mut out: Vec<String> = Vec::new();
    let mut i: usize = 0;
    while i < v.len()
        invariant
            i <= v@.len(),
            names_of(out@) == char_views(v@.take(i as int)),
        decreases v@.len() - i,
    {
        let ghost before = out@;
        out.push(string_of(&v[i]));
        proof {
            lemma_names_push(before, out@.last());
            assert(char_views(v@.take(i + 1)) =~= char_views(v@.take(i as int)).push(v@[i as int]@));
        }
        i = i + 1;
    }
    assert(v@.take(v@.len() as int) == v@);
    out
}

/// Index of the first occurrence of `p` in `s` (`str::find` with a string pattern, counted
/// in characters).
pub open spec fn find_sub(s: Seq<char>, p: Seq<char>) -> Option<int>
    decreases s.len(),
{
    if starts_with(s, p) {
        Some(0)
    } else if s.len() == 0 {
        None
    } else {
        match find_sub(s.drop_first(), p) {
            Some(i) => Some(i + 1),
            None => None,
        }
    }
}

proof fn lemma_find_sub_skip(s: Seq<char>, p: Seq<char>, i: int)
    requires
        0 <= i <= s.len(),
        forall|j: int| 0 <= j < i ==> !starts_with(#[trigger] s.skip(j), p),
    ensures
        find_sub(s, p) == match find_sub(s.skip(i), p) {
            Some(k) => Some(k + i),
            None => None,
        },
    decreases i,
{
    if i == 0 {
        assert(s.skip(0) == s);
    } else {
        lemma_find_sub_skip(s, p, i - 1);
        assert(s.skip(i - 1).drop_first() == s.skip(i));
        assert(!starts_with(s.skip(i - 1), p));
    }
}

pub proof fn lemma_find_sub(s: Seq<char>, p: Seq<char>)
    ensures
        match find_sub(s, p) {
            Some(i) => 0 <= i <= s.len() - p.len() && starts_with(s.skip(i), p),
            None => true,
        },
    decreases s.len(),
{
    if !starts_with(s, p) && s.len() > 0 {
        lemma_find_sub(s.drop_first(), p);
        match find_sub(s.drop_first(), p) {
            Some(i) => {
                assert(s.skip(i + 1) == s.drop_first().skip(i));
            },
            None => {},
        }
    } else if starts_with(s, p) {
        assert(s.skip(0) == s);
    }
}

/// `str::find` with a string pattern, as a character index.
pub fn find_str_in(v: &[char], p: &str) -> (r: Option<usize>)
    ensures
        match r {
            Some(i) => find_sub(v@, p@) == Some(i as int),
            None => find_sub(v@, p@) is None,
        },
{
    let pc = chars_of(p);
    let mut i: usize = 0;
    while i < v.len()
        invariant
            i <= v.len(),
            pc@ == p@,
            forall|j: int| 0 <= j < i ==> !starts_with(#[trigger] v@.skip(j), p@),
        decreases v.len() - i,
    {
        let rest = slice_chars(v, i, v.len());
        assert(rest@ == v@.skip(i as int));
        if starts_with_chars(&rest, &pc) {
            proof {
                lemma_find_sub_skip(v@, p@, i as int);
            }
            return Some(i);
        }
        i = i + 1;
    }
    let n = v.len();
    proof {
        lemma_find_sub_skip(v@, p@, n as int);
        assert(v@.skip(n as int).len() == 0);
    }
    if pc.len() == 0 {
        assert(v@.skip(n as int).take(0) =~= p@);
        return Some(n);
    }
    None
}


/// What follows the last `/` of `s`, or all of `s` (`s.split('/').last()`).
pub open spec fn last_segment(s: Seq<char>) -> Seq<char> {
    match rfind_char(s, '/') {
        Some(i) => s.skip(i + 1),
        None => s,
    }
}

/// The part after the last `/`.
pub fn last_segment_of(v: &[char]) -> (r: Vec<char>)
    ensures
        r@ == last_segment(v@),
{
    proof {
        lemma_rfind_char(v@, '/');
    }
    match rfind_char_in(v, '/') {
        Some(i) => {
            assert(i < v.len());
            let r = slice_chars(v, i + 1, v.len());
            assert(r@ == v@.skip(i + 1));
            r
        },
        None => {
            let r = slice_chars(v, 0, v.len());
            assert(r@ == v@);
            r
        },
    }
}

/// Each text in double quotes.
pub open spec fn quoted(cs: Seq<Seq<char>>) -> Seq<Seq<char>>
    decreases cs.len(),
{
    if cs.len() == 0 {
        Seq::empty()
    } else {
        quoted(cs.drop_last()).push(seq!['"'] + cs.last() + seq!['"'])
    }
}

/// The texts in double quotes, separated by `, ` (as in a TOML array).
pub fn quoted_list(cs: &Vec<String>) -> (r: Vec<char>)
    ensures
        r@ == join(quoted(names_of(cs@)), ", "@),
{
    let mut parts: Vec<Vec<char>> = Vec::new();
    let mut i: usize = 0;
    while i < cs.len()
        invariant
            i <= cs@.len(),
            char_views(parts@) == quoted(names_of(cs@).take(i as int)),
        decreases cs@.len() - i,
    {
        proof {
            assert(names_of(cs@).take(i + 1).drop_last() == names_of(cs@).take(i as int));
            assert(names_of(cs@).take(i + 1).last() == cs@[i as int]@);
        }
        let mut q: Vec<char> = Vec::new();
        q.push('"');
        extend_str(&mut q, cs[i].as_str());
        q.push('"');
        assert(q@ =~= seq!['"'] + cs@[i as int]@ + seq!['"']);
        let ghost before = parts@;
        parts.push(q);
        assert(char_views(parts@) =~= char_views(before).push(seq!['"'] + cs@[i as int]@ + seq!['"']));
        i = i + 1;
    }
    assert(names_of(cs@).take(cs@.len() as int) == names_of(cs@));
    let r = join_chars(&parts, ", ");
    assert(parts@.map_values(|p: Vec<char>| p@) =~= char_views(parts@));
    r
}


/// Whether `char::is_alphanumeric` holds of the character (Unicode `Alphabetic` or
/// `Numeric`).
pub uninterp spec fn alphanumeric(c: char) -> bool;

/// `char::is_alphanumeric`: the contract names the answer `alphanumeric` of the character
/// and says nothing more of it.
#[verifier::external_body]
pub(crate) fn is_alphanumeric(c: char) -> (r: bool)
    ensures
        r == alphanumeric(c),
{
    c.is_alphanumeric()
}

/// The number of bytes of a character in UTF-8.
pub open spec fn utf8_width(c: char) -> int {
    if (c as u32) < 0x80 {
        1
    } else if (c as u32) < 0x800 {
        2
    } else if (c as u32) < 0x10000 {
        3
    } else {
        4
    }
}

/// The number of bytes of a text in UTF-8 (`str::len`).
pub open spec fn utf8_len(s: Seq<char>) -> int
    decreases s.len(),
{
    if s.len() == 0 {
        0
    } else {
        utf8_len(s.drop_last()) + utf8_width(s.last())
    }
}

/// The longest beginning of `s` that takes at most `max` bytes in UTF-8.
pub open spec fn prefix_within(s: Seq<char>, max: int) -> Seq<char>
    decreases s.len(),
{
    if s.len() == 0 || utf8_width(s[0]) > max {
        Seq::empty()
    } else {
        seq![s[0]] + prefix_within(s.drop_first(), max - utf8_width(s[0]))
    }
}

fn char_width(c: char) -> (r: usize)
    ensures
        r == utf8_width(c),
{
    let n = c as u32;
    if n < 0x80 {
        1
    } else if n < 0x800 {
        2
    } else if n < 0x10000 {
        3
    } else {
        4
    }
}

proof fn lemma_utf8_len_front(s: Seq<char>)
    requires
        s.len() > 0,
    ensures
        utf8_len(s) == utf8_width(s[0]) + utf8_len(s.drop_first()),
    decreases s.len(),
{
    if s.len() > 1 {
        lemma_utf8_len_front(s.drop_last());
        assert(s.drop_last().drop_first() == s.drop_first().drop_last());
        assert(s.drop_last()[0] == s[0]);
        assert(s.drop_first().last() == s.last());
        assert(utf8_len(s) == utf8_len(s.drop_last()) + utf8_width(s.last()));
        assert(utf8_len(s.drop_first()) == utf8_len(s.drop_first().drop_last()) + utf8_width(s.drop_first().last()));
    } else {
        assert(s.drop_first().len() == 0);
        assert(s.drop_last().len() == 0);
        assert(s.last() == s[0]);
        assert(utf8_len(s.drop_last()) == 0);
        assert(utf8_len(s.drop_first()) == 0);
        assert(utf8_len(s) == utf8_len(s.drop_last()) + utf8_width(s.last()));
    }
}

/// The bytes of `v` in UTF-8, if they fit in a `usize`, and the characters that fit in
/// `max` bytes.
pub fn prefix_bytes(v: &[char], max: usize) -> (r: (Vec<char>, bool))
    ensures
        r.0@ == prefix_within(v@, max as int),
        r.1 == (utf8_len(v@) <= max),
{
    let mut i: usize = 0;
    let mut used: usize = 0;
    assert(v@.skip(0) == v@);
    while i < v.len() && char_width(v[i]) <= max - used
        invariant
            i <= v@.len(),
            used <= max,
            prefix_within(v@, max as int) == v@.take(i as int) + prefix_within(v@.skip(i as int), max - used),
            utf8_len(v@) == used + utf8_len(v@.skip(i as int)),
        decreases v@.len() - i,
    {
        proof {
            let s = v@.skip(i as int);
            lemma_utf8_len_front(s);
            assert(s[0] == v@[i as int]);
            assert(s.drop_first() == v@.skip(i + 1));
            assert(v@.take(i + 1) == v@.take(i as int).push(v@[i as int]));
            assert(v@.take(i as int) + prefix_within(s, max - used) =~= v@.take(i + 1) + prefix_within(v@.skip(i + 1), max - used - utf8_width(v@[i as int])));
        }
        used = used + char_width(v[i]);
        i = i + 1;
    }
    proof {
        let s = v@.skip(i as int);
        if s.len() > 0 {
            lemma_utf8_len_front(s);
            assert(s[0] == v@[i as int]);
            lemma_utf8_len_nonneg(s.drop_first());
        }
        assert(prefix_within(s, max - used) =~= Seq::<char>::empty());
        assert(v@.take(i as int) + Seq::<char>::empty() =~= v@.take(i as int));
    }
    let r = slice_chars(v, 0, i);
    assert(r@ == v@.take(i as int));
    (r, i == v.len())
}

pub proof fn lemma_utf8_len_nonneg(s: Seq<char>)
    ensures
        utf8_len(s) >= 0,
    decreases s.len(),
{
    if s.len() > 0 {
        lemma_utf8_len_nonneg(s.drop_last());
    }
}

// ─────────────────────────────────────────────────────────────
//  Splitting and joining
// ─────────────────────────────────────────────────────────────

/// The pieces of `cur + s` between occurrences of `c` (`str::split` with a `char`).
pub open spec fn split_char_from(cur: Seq<char>, s: Seq<char>, c: char) -> Seq<Seq<char>>
    decreases s.len(),
{
    if s.len() == 0 {
        seq![cur]
    } else if s[0] == c {
        seq![cur] + split_char_from(Seq::empty(), s.drop_first(), c)
    } else {
        split_char_from(cur.push(s[0]), s.drop_first(), c)
    }
}

/// `str::split` with a `char` pattern.
pub open spec fn split_char(s: Seq<char>, c: char) -> Seq<Seq<char>> {
    split_char_from(Seq::empty(), s, c)
}

/// `str::split` with a `char` pattern.
pub fn split_chars(v: &[char], c: char) -> (r: Vec<Vec<char>>)
    ensures
        r@.len() == split_char(v@, c).len(),
        forall|i: int| 0 <= i < r@.len() ==> (#[trigger] r@[i])@ == split_char(v@, c)[i],
{
    let mut out: Vec<Vec<char>> = Vec::new();
    let mut cur: Vec<char> = Vec::new();
    let ghost done: Seq<Seq<char>> = Seq::empty();
    let mut i: usize = 0;
    assert(v@.skip(0) == v@);
    assert(forall|x: Seq<Seq<char>>| done + x == x);
    while i < v.len()
        invariant
            i <= v.len(),
            out@.len() == done.len(),
            forall|k: int| 0 <= k < out@.len() ==> (#[trigger] out@[k])@ == done[k],
            split_char(v@, c) == done + split_char_from(cur@, v@.skip(i as int), c),
        decreases v.len() - i,
    {
        assert(v@.skip(i as int).drop_first() == v@.skip(i + 1));
        assert(v@.skip(i as int)[0] == v@[i as int]);
        if v[i] == c {
            proof {
                done = done.push(cur@);
                assert(done + split_char_from(Seq::empty(), v@.skip(i + 1), c) == done.drop_last() + (
                seq![cur@] + split_char_from(Seq::empty(), v@.skip(i + 1), c)));
            }
            out.push(cur);
            cur = Vec::new();
        } else {
            cur.push(v[i]);
        }
        i = i + 1;
    }
    proof {
        done = done.push(cur@);
    }
    out.push(cur);
    out
}

/// The pieces of `cur + s` between occurrences of `sep` (`str::split` with a `&str`),
/// matching leftmost occurrences first.
pub open spec fn split_str_from(cur: Seq<char>, s: Seq<char>, sep: Seq<char>) -> Seq<Seq<char>>
    decreases s.len(),
{
    if s.len() == 0 {
        seq![cur]
    } else if sep.len() > 0 && starts_with(s, sep) {
        seq![cur] + split_str_from(Seq::empty(), s.skip(sep.len() as int), sep)
    } else {
        split_str_from(cur.push(s[0]), s.drop_first(), sep)
    }
}

/// `str::split` with a non-empty `&str` pattern.
pub open spec fn split_str(s: Seq<char>, sep: Seq<char>) -> Seq<Seq<char>> {
    split_str_from(Seq::empty(), s, sep)
}

/// `str::split` with a non-empty `&str` pattern.
pub fn split_on_str(v: &[char], sep: &str) -> (r: Vec<Vec<char>>)
    requires
        sep@.len() > 0,
    ensures
        r@.len() == split_str(v@, sep@).len(),
        forall|i: int| 0 <= i < r@.len() ==> (#[trigger] r@[i])@ == split_str(v@, sep@)[i],
{
    let sc = chars_of(sep);
    let mut out: Vec<Vec<char>> = Vec::new();
    let mut cur: Vec<char> = Vec::new();
    let ghost done: Seq<Seq<char>> = Seq::empty();
    let mut i: usize = 0;
    assert(v@.skip(0) == v@);
    assert(forall|x: Seq<Seq<char>>| done + x == x);
    while i < v.len()
        invariant
            i <= v.len(),
            sc@ == sep@,
            sc@.len() > 0,
            out@.len() == done.len(),
            forall|k: int| 0 <= k < out@.len() ==> (#[trigger] out@[k])@ == done[k],
            split_str(v@, sep@) == done + split_str_from(cur@, v@.skip(i as int), sep@),
        decreases v.len() - i,
    {
        assert(v@.skip(i as int)[0] == v@[i as int]);
        let rest = slice_chars(v, i, v.len());
        assert(rest@ == v@.skip(i as int));
        if starts_with_chars(&rest, &sc) {
            proof {
                assert(v@.skip(i as int).skip(sc@.len() as int) == v@.skip(i + sc@.len()));
                done = done.push(cur@);
                assert(done + split_str_from(Seq::empty(), v@.skip(i + sc@.len()), sep@)
                    == done.drop_last() + (seq![cur@] + split_str_from(Seq::empty(), v@.skip(i + sc@.len()), sep@)));
            }
            out.push(cur);
            cur = Vec::new();
            i = i + sc.len();
        } else {
            assert(v@.skip(i as int).drop_first() == v@.skip(i + 1));
        assert(v@.skip(i as int)[0] == v@[i as int]);
            cur.push(v[i]);
            i = i + 1;
        }
    }
    proof {
        done = done.push(cur@);
    }
    out.push(cur);
    out
}

/// Drops one trailing `'\r'`.
pub open spec fn strip_cr(s: Seq<char>) -> Seq<char> {
    if s.len() > 0 && s.last() == '\r' {
        s.drop_last()
    } else {
        s
    }
}

/// The lines of `cur + s` (`str::lines`): split at `'\n'`, a `'\r'` just before a `'\n'`
/// dropped, and no empty last line after a final `'\n'`.
pub open spec fn lines_from(cur: Seq<char>, s: Seq<char>) -> Seq<Seq<char>>
    decreases s.len(),
{
    if s.len() == 0 {
        if cur.len() == 0 {
            Seq::empty()
        } else {
            seq![cur]
        }
    } else if s[0] == '\n' {
        seq![strip_cr(cur)] + lines_from(Seq::empty(), s.drop_first())
    } else {
        lines_from(cur.push(s[0]), s.drop_first())
    }
}

/// `str::lines`.
pub open spec fn lines(s: Seq<char>) -> Seq<Seq<char>> {
    lines_from(Seq::empty(), s)
}

pub fn strip_cr_chars(v: Vec<char>) -> (r: Vec<char>)
    ensures
        r@ == strip_cr(v@),
{
    let mut v = v;
    if v.len() > 0 && v[v.len() - 1] == '\r' {
        v.pop();
    }
    v
}

/// `str::lines`.
pub fn lines_of(v: &[char]) -> (r: Vec<Vec<char>>)
    ensures
        r@.len() == lines(v@).len(),
        forall|i: int| 0 <= i < r@.len() ==> (#[trigger] r@[i])@ == lines(v@)[i],
{
    let mut out: Vec<Vec<char>> = Vec::new();
    let mut cur: Vec<char> = Vec::new();
    let ghost done: Seq<Seq<char>> = Seq::empty();
    let mut i: usize = 0;
    assert(v@.skip(0) == v@);
    assert(forall|x: Seq<Seq<char>>| done + x == x);
    while i < v.len()
        invariant
            i <= v.len(),
            out@.len() == done.len(),
            forall|k: int| 0 <= k < out@.len() ==> (#[trigger] out@[k])@ == done[k],
            lines(v@) == done + lines_from(cur@, v@.skip(i as int)),
        decreases v.len() - i,
    {
        assert(v@.skip(i as int).drop_first() == v@.skip(i + 1));
        assert(v@.skip(i as int)[0] == v@[i as int]);
        if v[i] == '\n' {
            let line = strip_cr_chars(cur);
            proof {
                done = done.push(line@);
                assert(done + lines_from(Seq::empty(), v@.skip(i + 1)) == done.drop_last() + (
                seq![line@] + lines_from(Seq::empty(), v@.skip(i + 1))));
            }
            out.push(line);
            cur = Vec::new();
        } else {
            cur.push(v[i]);
        }
        i = i + 1;
    }
    if cur.len() > 0 {
        proof {
            done = done.push(cur@);
        }
        out.push(cur);
    } else {
        assert(done + Seq::<Seq<char>>::empty() == done);
    }
    out
}

/// The whitespace-separated words of `cur + s` (`str::split_whitespace`).
pub open spec fn words_from(cur: Seq<char>, s: Seq<char>) -> Seq<Seq<char>>
    decreases s.len(),
{
    if s.len() == 0 {
        if cur.len() == 0 {
            Seq::empty()
        } else {
            seq![cur]
        }
    } else if is_ws(s[0]) {
        if cur.len() == 0 {
            words_from(Seq::empty(), s.drop_first())
        } else {
            seq![cur] + words_from(Seq::empty(), s.drop_first())
        }
    } else {
        words_from(cur.push(s[0]), s.drop_first())
    }
}

/// `str::split_whitespace`.
pub open spec fn words(s: Seq<char>) -> Seq<Seq<char>> {
    words_from(Seq::empty(), s)
}

/// `str::split_whitespace`.
pub fn words_of(v: &[char]) -> (r: Vec<Vec<char>>)
    ensures
        r@.len() == words(v@).len(),
        forall|i: int| 0 <= i < r@.len() ==> (#[trigger] r@[i])@ == words(v@)[i],
{
    let mut out: Vec<Vec<char>> = Vec::new();
    let mut cur: Vec<char> = Vec::new();
    let ghost done: Seq<Seq<char>> = Seq::empty();
    let mut i: usize = 0;
    assert(v@.skip(0) == v@);
    assert(forall|x: Seq<Seq<char>>| done + x == x);
    while i < v.len()
        invariant
            i <= v.len(),
            out@.len() == done.len(),
            forall|k: int| 0 <= k < out@.len() ==> (#[trigger] out@[k])@ == done[k],
            words(v@) == done + words_from(cur@, v@.skip(i as int)),
        decreases v.len() - i,
    {
        assert(v@.skip(i as int).drop_first() == v@.skip(i + 1));
        assert(v@.skip(i as int)[0] == v@[i as int]);
        if is_whitespace(v[i]) {
            if cur.len() > 0 {
                proof {
                    done = done.push(cur@);
                    assert(done + words_from(Seq::empty(), v@.skip(i + 1)) == done.drop_last() + (
                    seq![cur@] + words_from(Seq::empty(), v@.skip(i + 1))));
                }
                out.push(cur);
                cur = Vec::new();
            } else {
                assert(cur@ == Seq::<char>::empty());
            }
        } else {
            cur.push(v[i]);
        }
        i = i + 1;
    }
    if cur.len() > 0 {
        proof {
            done = done.push(cur@);
        }
        out.push(cur);
    } else {
        assert(done + Seq::<Seq<char>>::empty() == done);
    }
    out
}

/// The pieces joined with `sep` between them (`[T]::join`).
pub open spec fn join(parts: Seq<Seq<char>>, sep: Seq<char>) -> Seq<char>
    decreases parts.len(),
{
    if parts.len() == 0 {
        Seq::empty()
    } else if parts.len() == 1 {
        parts[0]
    } else {
        join(parts.drop_last(), sep) + sep + parts.last()
    }
}

/// `[T]::join` of character vectors with a separator.
pub fn join_chars(parts: &Vec<Vec<char>>, sep: &str) -> (r: Vec<char>)
    ensures
        r@ == join(parts@.map_values(|p: Vec<char>| p@), sep@),
{
    let ghost pv = parts@.map_values(|p: Vec<char>| p@);
    let mut r: Vec<char> = Vec::new();
    let mut i: usize = 0;
    while i < parts.len()
        invariant
            i <= parts.len(),
            pv == parts@.map_values(|p: Vec<char>| p@),
            r@ == join(pv.take(i as int), sep@),
        decreases parts.len() - i,
    {
        assert(pv.take(i + 1).drop_last() == pv.take(i as int));
        if i > 0 {
            extend_str(&mut r, sep);
        }
        extend_chars(&mut r, &parts[i]);
        i = i + 1;
    }
    assert(pv.take(parts.len() as int) == pv);
    r
}

// ─────────────────────────────────────────────────────────────
//  Numbers
// ─────────────────────────────────────────────────────────────

/// All characters are ASCII digits.
pub open spec fn all_digits(s: Seq<char>) -> bool {
    forall|i: int| 0 <= i < s.len() ==> is_digit(#[trigger] s[i])
}

/// The value of one ASCII digit.
pub open spec fn digit_value(c: char) -> int {
    (c as int) - ('0' as int)
}

/// The value of a string of ASCII digits, read in base ten.
pub open spec fn digits_value(s: Seq<char>) -> int
    decreases s.len(),
{
    if s.len() == 0 {
        0
    } else {
        digits_value(s.drop_last()) * 10 + digit_value(s.last())
    }
}

/// What `str::parse` gives for an unsigned integer type whose largest value is `max`:
/// an optional `+` followed by at least one digit, and a value that fits.
pub open spec fn parse_unsigned(s: Seq<char>, max: int) -> Option<int> {
    let d = if s.len() > 0 && s[0] == '+' {
        s.drop_first()
    } else {
        s
    };
    if d.len() > 0 && all_digits(d) && digits_value(d) <= max {
        Some(digits_value(d))
    } else {
        None
    }
}

pub proof fn lemma_digits_value_nonneg(s: Seq<char>)
    requires
        all_digits(s),
    ensures
        digits_value(s) >= 0,
    decreases s.len(),
{
    if s.len() > 0 {
        lemma_digits_value_nonneg(s.drop_last());
    }
}

/// `str::parse::<u64>()`, `None` where it fails.
pub fn parse_u64(v: &[char]) -> (r: Option<u64>)
    ensures
        match r {
            Some(n) => parse_unsigned(v@, u64::MAX as int) == Some(n as int),
            None => parse_unsigned(v@, u64::MAX as int) is None,
        },
{
    let start: usize = if v.len() > 0 && v[0] == '+' { 1 } else { 0 };
    let ghost d = if v@.len() > 0 && v@[0] == '+' { v@.drop_first() } else { v@ };
    assert(d == v@.skip(start as int));
    if start >= v.len() {
        assert(d.len() == 0);
        return None;
    }
    let mut acc: u64 = 0;
    let mut i: usize = start;
    while i < v.len()
        invariant
            start <= i <= v.len(),
            d == v@.skip(start as int),
            d == (if v@.len() > 0 && v@[0] == '+' { v@.drop_first() } else { v@ }),
            all_digits(d.take(i - start)),
            acc as int == digits_value(d.take(i - start)),
        decreases v.len() - i,
    {
        let c = v[i];
        assert(d.take(i - start + 1).drop_last() == d.take(i - start));
        if !('0' <= c && c <= '9') {
            assert(d[i - start] == c);
            assert(!is_digit(d[i - start]));
            assert(!all_digits(d));
            return None;
        }
        let dv = (c as u32 - '0' as u32) as u64;
        assert(dv as int == digit_value(c));
        match acc.checked_mul(10) {
            None => {
                proof {
                    assert(all_digits(d.take(i - start + 1)));
                    lemma_digits_prefix_grows(d, i - start + 1);
                }
                return None;
            },
            Some(m) => match m.checked_add(dv) {
                None => {
                    proof {
                        assert(all_digits(d.take(i - start + 1)));
                        lemma_digits_prefix_grows(d, i - start + 1);
                    }
                    return None;
                },
                Some(n) => {
                    acc = n;
                },
            },
        }
        i = i + 1;
    }
    assert(d.take(i - start) == d);
    Some(acc)
}

/// Once a digit prefix of `d` is past a bound, every longer digit prefix is too.
proof fn lemma_digits_prefix_grows(d: Seq<char>, k: int)
    requires
        0 < k <= d.len(),
        all_digits(d.take(k)),
    ensures
        all_digits(d) ==> digits_value(d) >= digits_value(d.take(k)),
    decreases d.len() - k,
{
    if k < d.len() && all_digits(d) {
        assert(all_digits(d.take(k + 1)));
        lemma_digits_prefix_grows(d, k + 1);
        assert(d.take(k + 1).drop_last() == d.take(k));
        lemma_digits_value_nonneg(d.take(k));
    } else if k == d.len() {
        assert(d.take(k) == d);
    }
}

/// The ASCII digit of a value below ten.
pub open spec fn digit_char(n: int) -> char {
    (n + ('0' as int)) as char
}

/// The decimal representation of `n` (`Display` of an unsigned integer).
pub open spec fn decimal(n: nat) -> Seq<char>
    decreases n,
{
    if n < 10 {
        seq![digit_char(n as int)]
    } else {
        decimal(n / 10).push(digit_char((n % 10) as int))
    }
}

/// The decimal representation of `n`.
pub fn decimal_of(n: u64) -> (r: Vec<char>)
    ensures
        r@ == decimal(n as nat),
    decreases n,
{
    let d: u8 = (n % 10) as u8;
    let c: char = (('0' as u8) + d) as char;
    assert(c == digit_char((n % 10) as int));
    if n < 10 {
        let mut r: Vec<char> = Vec::new();
        r.push(c);
        r
    } else {
        let mut r = decimal_of(n / 10);
        r.push(c);
        r
    }
}

} // verus!

verus! {

// ─────────────────────────────────────────────────────────────
//  Case mapping
// ─────────────────────────────────────────────────────────────

/// What std's `str::to_lowercase` returns: each character replaced by its Unicode
/// lowercase mapping.
pub uninterp spec fn lowercase(s: Seq<char>) -> Seq<char>;

/// std's `str::to_lowercase`.
#[verifier::external_body]
pub(crate) fn to_lowercase(s: &str) -> (r: String)
    ensures
        r@ == lowercase(s@),
{
    s.to_lowercase()
}

/// `to_lowercase` of a character sequence, as characters.
pub fn lowercase_chars(v: &[char]) -> (r: Vec<char>)
    ensures
        r@ == lowercase(v@),
{
    let s = string_of(v);
    let l = to_lowercase(s.as_str());
    chars_of(l.as_str())
}

} // verus!

verus! {

/// `[String]::join` with a separator.
pub fn join_strings(parts: &[String], sep: &str) -> (r: String)
    ensures
        r@ == join(parts@.map_values(|p: String| p@), sep@),
{
    let mut vs: Vec<Vec<char>> = Vec::new();
    let mut i: usize = 0;
    while i < parts.len()
        invariant
            i <= parts@.len(),
            vs@.map_values(|p: Vec<char>| p@) == parts@.take(i as int).map_values(|p: String| p@),
        decreases parts@.len() - i,
    {
        let ghost before = vs@;
        vs.push(chars_of(parts[i].as_str()));
        assert(vs@.map_values(|p: Vec<char>| p@) == before.map_values(|p: Vec<char>| p@).push(parts@[i as int]@));
        assert(parts@.take(i + 1).map_values(|p: String| p@) == parts@.take(i as int).map_values(|p: String| p@).push(parts@[i as int]@));
        i = i + 1;
    }
    assert(parts@.take(parts@.len() as int) == parts@);
    let j = join_chars(&vs, sep);
    string_of(&j)
}

/// `Path::join` on Unix: an absolute `name` replaces `dir`; otherwise the two are joined
/// with one `/` between them, none being added after an empty `dir` or one that ends in `/`.
pub open spec fn path_join(dir: Seq<char>, name: Seq<char>) -> Seq<char> {
    if name.len() > 0 && name[0] == '/' {
        name
    } else if dir.len() == 0 || dir.last() == '/' {
        dir + name
    } else {
        dir + seq!['/'] + name
    }
}

/// Joins a path and a name as `Path::join` does on Unix.
pub fn join_path(dir: &[char], name: &[char]) -> (r: Vec<char>)
    ensures
        r@ == path_join(dir@, name@),
{
    if name.len() > 0 && name[0] == '/' {
        let r = slice_chars(name, 0, name.len());
        assert(r@ == name@);
        r
    } else {
        let mut r = slice_chars(dir, 0, dir.len());
        assert(r@ == dir@);
        if !(dir.len() == 0 || dir[dir.len() - 1] == '/') {
            r.push('/');
        }
        extend_chars(&mut r, name);
        r
    }
}

} // verus!
