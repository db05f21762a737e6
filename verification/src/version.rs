//! Debian version ordering: epochs, upstream versions and revisions.
use vstd::prelude::*;
use std::cmp::Ordering;
use crate::text::{
    chars_of, find_char, find_char_in, is_alpha, is_digit, parse_u64, parse_unsigned, rfind_char,
    rfind_char_in, slice_chars, strip_start, strip_start_chars, CharClass, lemma_find_char,
};

verus! {

// ─────────────────────────────────────────────────────────────
//  Specification
// ─────────────────────────────────────────────────────────────

/// The sign of `x - y`.
pub open spec fn sign_diff(x: int, y: int) -> int {
    if x < y {
        -1
    } else if x > y {
        1
    } else {
        0
    }
}

/// Sort weight of a character in the non-digit parts of a version:
/// `~` before everything, then letters by code, then every other character.
pub open spec fn char_weight(c: char) -> int {
    if c == '~' {
        -1
    } else if is_alpha(c) {
        (c as u32) as int
    } else {
        (c as u32) as int + 256
    }
}

/// Comparison of two non-digit runs: character by character by weight, where the end of
/// a run sorts after `~` and before every other character.
pub open spec fn order_nondigit(a: Seq<char>, b: Seq<char>) -> int
    decreases a.len(),
{
    if a.len() == 0 && b.len() == 0 {
        0
    } else if a.len() == 0 {
        if b[0] == '~' {
            1
        } else {
            -1
        }
    } else if b.len() == 0 {
        if a[0] == '~' {
            -1
        } else {
            1
        }
    } else if char_weight(a[0]) != char_weight(b[0]) {
        sign_diff(char_weight(a[0]), char_weight(b[0]))
    } else {
        order_nondigit(a.drop_first(), b.drop_first())
    }
}

/// Lexicographic comparison by character code, a proper prefix first.
pub open spec fn order_lex(a: Seq<char>, b: Seq<char>) -> int
    decreases a.len(),
{
    if a.len() == 0 || b.len() == 0 {
        sign_diff(a.len() as int, b.len() as int)
    } else if a[0] != b[0] {
        sign_diff(a[0] as int, b[0] as int)
    } else {
        order_lex(a.drop_first(), b.drop_first())
    }
}

/// A digit run without its leading zeros.
pub open spec fn strip_zeros(s: Seq<char>) -> Seq<char> {
    strip_start(s, CharClass::Exactly('0'))
}

/// Comparison of two digit runs by the numbers they write: the one with more significant
/// digits is larger, and between equally long ones the first differing digit decides.
pub open spec fn order_digits(a: Seq<char>, b: Seq<char>) -> int {
    let p = strip_zeros(a);
    let q = strip_zeros(b);
    if p.len() != q.len() {
        sign_diff(p.len() as int, q.len() as int)
    } else {
        order_lex(p, q)
    }
}

/// Length of the leading run of digits (`digits`) or of non-digits (`!digits`).
pub open spec fn run_len(s: Seq<char>, digits: bool) -> nat
    decreases s.len(),
{
    if s.len() > 0 && is_digit(s[0]) == digits {
        1 + run_len(s.drop_first(), digits)
    } else {
        0
    }
}

pub proof fn lemma_run_len(s: Seq<char>, digits: bool)
    ensures
        run_len(s, digits) <= s.len(),
        forall|i: int| 0 <= i < run_len(s, digits) ==> is_digit(#[trigger] s[i]) == digits,
        run_len(s, digits) < s.len() ==> is_digit(s[run_len(s, digits) as int]) != digits,
    decreases s.len(),
{
    if s.len() > 0 && is_digit(s[0]) == digits {
        lemma_run_len(s.drop_first(), digits);
        assert forall|i: int| 0 <= i < run_len(s, digits) implies is_digit(#[trigger] s[i]) == digits by {
            if i > 0 {
                assert(s[i] == s.drop_first()[i - 1]);
            }
        }
        if run_len(s, digits) < s.len() {
            assert(s[run_len(s, digits) as int] == s.drop_first()[run_len(s.drop_first(), digits) as int]);
        }
    }
}

/// Comparison of two upstream versions (or two revisions) in the Debian way: alternately
/// a non-digit run and a digit run of each, the first difference deciding.
pub open spec fn order_part(a: Seq<char>, b: Seq<char>) -> int
    decreases a.len() + b.len(),
{
    if a.len() == 0 && b.len() == 0 {
        0
    } else {
        let an = run_len(a, false);
        let bn = run_len(b, false);
        let c = order_nondigit(a.take(an as int), b.take(bn as int));
        if c != 0 {
            c
        } else {
            let a2 = a.skip(an as int);
            let b2 = b.skip(bn as int);
            let ad = run_len(a2, true);
            let bd = run_len(b2, true);
            let nc = order_digits(a2.take(ad as int), b2.take(bd as int));
            if nc != 0 {
                nc
            } else {
                proof {
                    lemma_run_len(a, false);
                    lemma_run_len(b, false);
                    lemma_run_len(a2, true);
                    lemma_run_len(b2, true);
                    if a.len() > 0 && an == 0 {
                        assert(a2[0] == a[0]);
                    }
                    if b.len() > 0 && bn == 0 {
                        assert(b2[0] == b[0]);
                    }
                }
                order_part(a2.skip(ad as int), b2.skip(bd as int))
            }
        }
    }
}

/// The epoch of a version and the rest after it: the number before the first `:` where
/// that parses as a `u32`, else `0` and the whole version.
pub open spec fn epoch_split(v: Seq<char>) -> (int, Seq<char>) {
    match find_char(v, ':') {
        Some(c) => match parse_unsigned(v.take(c), u32::MAX as int) {
            Some(e) => (e, v.skip(c + 1)),
            None => (0, v),
        },
        None => (0, v),
    }
}

/// Upstream version and revision: split at the last `-`, the revision `"0"` where there is none.
pub open spec fn revision_split(v: Seq<char>) -> (Seq<char>, Seq<char>) {
    match rfind_char(v, '-') {
        Some(d) => (v.take(d), v.skip(d + 1)),
        None => (v, seq!['0']),
    }
}

/// The sign of the comparison of two Debian versions: epoch, then upstream version,
/// then revision.
pub open spec fn version_order(a: Seq<char>, b: Seq<char>) -> int {
    let (ae, arest) = epoch_split(a);
    let (be, brest) = epoch_split(b);
    if ae != be {
        sign_diff(ae, be)
    } else {
        let (au, ar) = revision_split(arest);
        let (bu, br) = revision_split(brest);
        let uc = order_part(au, bu);
        if uc != 0 {
            uc
        } else {
            order_part(ar, br)
        }
    }
}

/// The sign that an `Ordering` stands for.
pub open spec fn ordering_sign(o: Ordering) -> int {
    match o {
        Ordering::Less => -1,
        Ordering::Equal => 0,
        Ordering::Greater => 1,
    }
}

/// Relational operator of a dependency's version constraint
/// (`=`, `<<`, `<=`, `>>`, `>=`).
#[derive(PartialEq, Eq, Structural, Clone, Copy, Debug)]
pub enum VersionOp {
    Eq,
    Lt,
    Le,
    Gt,
    Ge,
}

/// Whether a comparison sign meets the operator.
pub open spec fn op_holds(op: VersionOp, sign: int) -> bool {
    match op {
        VersionOp::Eq => sign == 0,
        VersionOp::Ge => sign != -1,
        VersionOp::Le => sign != 1,
        VersionOp::Gt => sign == 1,
        VersionOp::Lt => sign == -1,
    }
}


// ─────────────────────────────────────────────────────────────
//  Range of the comparisons
// ─────────────────────────────────────────────────────────────

pub open spec fn is_sign(x: int) -> bool {
    x == -1 || x == 0 || x == 1
}

proof fn lemma_order_nondigit_range(a: Seq<char>, b: Seq<char>)
    ensures
        is_sign(order_nondigit(a, b)),
    decreases a.len(),
{
    if a.len() > 0 && b.len() > 0 && char_weight(a[0]) == char_weight(b[0]) {
        lemma_order_nondigit_range(a.drop_first(), b.drop_first());
    }
}

proof fn lemma_order_lex_range(a: Seq<char>, b: Seq<char>)
    ensures
        is_sign(order_lex(a, b)),
    decreases a.len(),
{
    if a.len() > 0 && b.len() > 0 && a[0] == b[0] {
        lemma_order_lex_range(a.drop_first(), b.drop_first());
    }
}

proof fn lemma_order_part_range(a: Seq<char>, b: Seq<char>)
    ensures
        is_sign(order_part(a, b)),
    decreases a.len() + b.len(),
{
    if !(a.len() == 0 && b.len() == 0) {
        let an = run_len(a, false);
        let bn = run_len(b, false);
        lemma_order_nondigit_range(a.take(an as int), b.take(bn as int));
        let a2 = a.skip(an as int);
        let b2 = b.skip(bn as int);
        let ad = run_len(a2, true);
        let bd = run_len(b2, true);
        lemma_order_lex_range(strip_zeros(a2.take(ad as int)), strip_zeros(b2.take(bd as int)));
        lemma_run_len(a, false);
        lemma_run_len(b, false);
        lemma_run_len(a2, true);
        lemma_run_len(b2, true);
        if a.len() > 0 && an == 0 {
            assert(a2[0] == a[0]);
        }
        if b.len() > 0 && bn == 0 {
            assert(b2[0] == b[0]);
        }
        lemma_order_part_range(a2.skip(ad as int), b2.skip(bd as int));
    }
}

pub proof fn lemma_version_order_range(a: Seq<char>, b: Seq<char>)
    ensures
        is_sign(version_order(a, b)),
{
    let (ae, arest) = epoch_split(a);
    let (be, brest) = epoch_split(b);
    let (au, ar) = revision_split(arest);
    let (bu, br) = revision_split(brest);
    lemma_order_part_range(au, bu);
    lemma_order_part_range(ar, br);
}

// ─────────────────────────────────────────────────────────────
//  Order properties of the comparisons
// ─────────────────────────────────────────────────────────────

proof fn lemma_weight_injective(x: char, y: char)
    ensures
        char_weight(x) == char_weight(y) ==> x == y,
{
}

proof fn lemma_nondigit_props(a: Seq<char>, b: Seq<char>)
    ensures
        order_nondigit(a, b) == -order_nondigit(b, a),
        order_nondigit(a, b) == 0 <==> a == b,
    decreases a.len(),
{
    if a.len() > 0 && b.len() > 0 {
        lemma_weight_injective(a[0], b[0]);
        lemma_nondigit_props(a.drop_first(), b.drop_first());
        if a.drop_first() == b.drop_first() && a[0] == b[0] {
            assert(a == seq![a[0]] + a.drop_first());
            assert(b == seq![b[0]] + b.drop_first());
        }
    } else if a.len() == 0 && b.len() == 0 {
        assert(a == b);
    }
}

proof fn lemma_nondigit_trans(a: Seq<char>, b: Seq<char>, c: Seq<char>)
    requires
        order_nondigit(a, b) <= 0,
        order_nondigit(b, c) <= 0,
    ensures
        order_nondigit(a, c) <= 0,
    decreases a.len(),
{
    lemma_nondigit_props(a, b);
    lemma_nondigit_props(b, c);
    lemma_nondigit_props(a, c);
    if a.len() == 0 || b.len() == 0 || c.len() == 0 {
        if a.len() > 0 {
            assert(char_weight(a[0]) >= -1);
        }
        if b.len() > 0 {
            assert(b[0] != '~' ==> char_weight(b[0]) > 0);
        }
        if c.len() > 0 {
            assert(c[0] != '~' ==> char_weight(c[0]) > 0);
            assert(c[0] == '~' ==> char_weight(c[0]) == -1);
        }
        if a.len() > 0 && c.len() > 0 {
            assert(a[0] == '~' ==> char_weight(a[0]) == -1);
            assert(a[0] != '~' ==> char_weight(a[0]) > 0);
        }
    } else {
        lemma_weight_injective(a[0], b[0]);
        lemma_weight_injective(b[0], c[0]);
        if char_weight(a[0]) == char_weight(b[0]) && char_weight(b[0]) == char_weight(c[0]) {
            lemma_nondigit_trans(a.drop_first(), b.drop_first(), c.drop_first());
        }
    }
}

proof fn lemma_lex_props(a: Seq<char>, b: Seq<char>)
    ensures
        order_lex(a, b) == -order_lex(b, a),
        order_lex(a, b) == 0 <==> a == b,
    decreases a.len(),
{
    if a.len() > 0 && b.len() > 0 {
        lemma_lex_props(a.drop_first(), b.drop_first());
        if a.drop_first() == b.drop_first() && a[0] == b[0] {
            assert(a == seq![a[0]] + a.drop_first());
            assert(b == seq![b[0]] + b.drop_first());
        }
    } else if a.len() == 0 && b.len() == 0 {
        assert(a == b);
    }
}

pub proof fn lemma_lex_trans(a: Seq<char>, b: Seq<char>, c: Seq<char>)
    requires
        order_lex(a, b) <= 0,
        order_lex(b, c) <= 0,
    ensures
        order_lex(a, c) <= 0,
    decreases a.len(),
{
    lemma_lex_props(a, b);
    lemma_lex_props(b, c);
    lemma_lex_props(a, c);
    if a.len() > 0 && b.len() > 0 && c.len() > 0 {
        if a[0] == b[0] && b[0] == c[0] {
            lemma_lex_trans(a.drop_first(), b.drop_first(), c.drop_first());
        }
    }
}

pub proof fn lemma_lex_antisym(a: Seq<char>, b: Seq<char>)
    ensures
        order_lex(a, b) == -order_lex(b, a),
        order_lex(a, b) == 0 <==> a == b,
{
    lemma_lex_props(a, b);
}

/// A strict chain in the lexicographic order is strict.
pub proof fn lemma_lex_lt_trans(a: Seq<char>, b: Seq<char>, c: Seq<char>)
    requires
        order_lex(a, b) <= 0,
        order_lex(b, c) <= 0,
        order_lex(a, b) < 0 || order_lex(b, c) < 0,
    ensures
        order_lex(a, c) < 0,
{
    lemma_lex_trans(a, b, c);
    lemma_lex_props(a, b);
    lemma_lex_props(b, c);
    lemma_lex_props(a, c);
}

proof fn lemma_digits_props(a: Seq<char>, b: Seq<char>)
    ensures
        order_digits(a, b) == -order_digits(b, a),
        order_digits(a, b) == 0 <==> strip_zeros(a) == strip_zeros(b),
{
    lemma_lex_props(strip_zeros(a), strip_zeros(b));
}

proof fn lemma_digits_trans(a: Seq<char>, b: Seq<char>, c: Seq<char>)
    requires
        order_digits(a, b) <= 0,
        order_digits(b, c) <= 0,
    ensures
        order_digits(a, c) <= 0,
{
    let p = strip_zeros(a);
    let q = strip_zeros(b);
    let r = strip_zeros(c);
    lemma_lex_props(p, q);
    lemma_lex_props(q, r);
    lemma_lex_props(p, r);
    if p.len() == q.len() && q.len() == r.len() {
        lemma_lex_trans(p, q, r);
    }
}

/// The pieces that `order_part` compares first, and what it recurses on.
pub open spec fn part_head(a: Seq<char>) -> (Seq<char>, Seq<char>, Seq<char>) {
    let an = run_len(a, false);
    let a2 = a.skip(an as int);
    let ad = run_len(a2, true);
    (a.take(an as int), a2.take(ad as int), a2.skip(ad as int))
}

proof fn lemma_part_head(a: Seq<char>)
    ensures
        a.len() > 0 ==> part_head(a).2.len() < a.len(),
        order_part(a, a) == 0,
    decreases a.len(),
{
    let an = run_len(a, false);
    let a2 = a.skip(an as int);
    let ad = run_len(a2, true);
    lemma_run_len(a, false);
    lemma_run_len(a2, true);
    if a.len() > 0 && an == 0 {
        assert(a2[0] == a[0]);
    }
    if a.len() > 0 {
        lemma_nondigit_props(a.take(an as int), a.take(an as int));
        lemma_digits_props(a2.take(ad as int), a2.take(ad as int));
        lemma_part_head(a2.skip(ad as int));
    }
}

proof fn lemma_part_unfold(a: Seq<char>, b: Seq<char>)
    requires
        !(a.len() == 0 && b.len() == 0),
    ensures
        order_part(a, b) == (if order_nondigit(part_head(a).0, part_head(b).0) != 0 {
            order_nondigit(part_head(a).0, part_head(b).0)
        } else if order_digits(part_head(a).1, part_head(b).1) != 0 {
            order_digits(part_head(a).1, part_head(b).1)
        } else {
            order_part(part_head(a).2, part_head(b).2)
        }),
{
}

proof fn lemma_part_antisym(a: Seq<char>, b: Seq<char>)
    ensures
        order_part(a, b) == -order_part(b, a),
    decreases a.len() + b.len(),
{
    if !(a.len() == 0 && b.len() == 0) {
        lemma_part_unfold(a, b);
        lemma_part_unfold(b, a);
        lemma_part_head(a);
        lemma_part_head(b);
        lemma_nondigit_props(part_head(a).0, part_head(b).0);
        lemma_digits_props(part_head(a).1, part_head(b).1);
        lemma_part_antisym(part_head(a).2, part_head(b).2);
    }
}

proof fn lemma_part_trans(a: Seq<char>, b: Seq<char>, c: Seq<char>)
    requires
        order_part(a, b) <= 0,
        order_part(b, c) <= 0,
    ensures
        order_part(a, c) <= 0,
    decreases a.len() + b.len() + c.len(),
{
    lemma_part_head(a);
    lemma_part_head(b);
    lemma_part_head(c);
    lemma_part_antisym(a, b);
    lemma_part_antisym(b, c);
    lemma_part_antisym(a, c);
    let (an, ad, ar) = part_head(a);
    let (bn, bd, br) = part_head(b);
    let (cn, cd, cr) = part_head(c);
    if a.len() == 0 && b.len() == 0 {
        assert(a == b);
    } else if b.len() == 0 && c.len() == 0 {
        assert(b == c);
    } else if a.len() == 0 && c.len() == 0 {
    } else {
        lemma_part_unfold(a, b);
        lemma_part_unfold(b, c);
        lemma_part_unfold(a, c);
        lemma_nondigit_props(an, bn);
        lemma_nondigit_props(bn, cn);
        lemma_nondigit_props(an, cn);
        lemma_digits_props(ad, bd);
        lemma_digits_props(bd, cd);
        lemma_digits_props(ad, cd);
        if order_nondigit(an, bn) <= 0 && order_nondigit(bn, cn) <= 0 {
            lemma_nondigit_trans(an, bn, cn);
        }
        if order_digits(ad, bd) <= 0 && order_digits(bd, cd) <= 0 {
            lemma_digits_trans(ad, bd, cd);
        }
        if order_nondigit(an, bn) == 0 && order_nondigit(bn, cn) == 0 && order_digits(ad, bd) == 0
            && order_digits(bd, cd) == 0 {
            lemma_part_trans(ar, br, cr);
        }
    }
}

// ─────────────────────────────────────────────────────────────
//  Laws of the version order
// ─────────────────────────────────────────────────────────────

/// Every version compares equal to itself.
pub proof fn law_version_order_reflexive(a: Seq<char>)
    ensures
        version_order(a, a) == 0,
{
    let (ae, arest) = epoch_split(a);
    let (au, ar) = revision_split(arest);
    lemma_part_head(au);
    lemma_part_head(ar);
}

/// Swapping the two versions reverses the comparison.
pub proof fn law_version_order_antisymmetric(a: Seq<char>, b: Seq<char>)
    ensures
        version_order(a, b) == -version_order(b, a),
{
    let (ae, arest) = epoch_split(a);
    let (be, brest) = epoch_split(b);
    let (au, ar) = revision_split(arest);
    let (bu, br) = revision_split(brest);
    lemma_part_antisym(au, bu);
    lemma_part_antisym(ar, br);
}

/// The version order is transitive: `a <= b` and `b <= c` give `a <= c`.
pub proof fn law_version_order_transitive(a: Seq<char>, b: Seq<char>, c: Seq<char>)
    requires
        version_order(a, b) <= 0,
        version_order(b, c) <= 0,
    ensures
        version_order(a, c) <= 0,
{
    let (ae, arest) = epoch_split(a);
    let (be, brest) = epoch_split(b);
    let (ce, crest) = epoch_split(c);
    let (au, ar) = revision_split(arest);
    let (bu, br) = revision_split(brest);
    let (cu, cr) = revision_split(crest);
    lemma_part_antisym(au, bu);
    lemma_part_antisym(bu, cu);
    lemma_part_antisym(au, cu);
    if ae == be && be == ce {
        if order_part(au, bu) <= 0 && order_part(bu, cu) <= 0 {
            lemma_part_trans(au, bu, cu);
        }
        if order_part(au, bu) <= 0 && order_part(bu, cu) <= 0 && order_part(au, cu) == 0 {
            lemma_part_trans(cu, au, bu);
            lemma_part_trans(bu, cu, au);
            lemma_part_trans(ar, br, cr);
        }
    }
}

// ─────────────────────────────────────────────────────────────
//  Implementation
// ─────────────────────────────────────────────────────────────

fn weight(c: char) -> (w: i64)
    ensures
        w == char_weight(c),
{
    if c == '~' {
        -1
    } else if ('A' <= c && c <= 'Z') || ('a' <= c && c <= 'z') {
        c as u32 as i64
    } else {
        c as u32 as i64 + 256
    }
}

fn sign_len(x: usize, y: usize) -> (r: i8)
    ensures
        r == sign_diff(x as int, y as int),
{
    if x < y {
        -1
    } else if x > y {
        1
    } else {
        0
    }
}

fn sign_of(x: i64, y: i64) -> (r: i8)
    ensures
        r == sign_diff(x as int, y as int),
{
    if x < y {
        -1
    } else if x > y {
        1
    } else {
        0
    }
}

/// Compares two non-digit runs (`compare_non_digit`).
fn order_nondigit_runs(a: &[char], b: &[char]) -> (r: i8)
    ensures
        r == order_nondigit(a@, b@),
{
    let mut k: usize = 0;
    assert(a@.skip(0) == a@ && b@.skip(0) == b@);
    loop
        invariant
            k <= a.len(),
            k <= b.len(),
            order_nondigit(a@, b@) == order_nondigit(a@.skip(k as int), b@.skip(k as int)),
        decreases a.len() - k,
    {
        let ghost sa = a@.skip(k as int);
        let ghost sb = b@.skip(k as int);
        if k == a.len() && k == b.len() {
            return 0;
        } else if k == a.len() {
            assert(sb[0] == b@[k as int]);
            return if b[k] == '~' { 1 } else { -1 };
        } else if k == b.len() {
            assert(sa[0] == a@[k as int]);
            return if a[k] == '~' { -1 } else { 1 };
        }
        assert(sa[0] == a@[k as int] && sb[0] == b@[k as int]);
        let wa = weight(a[k]);
        let wb = weight(b[k]);
        if wa != wb {
            return sign_of(wa, wb);
        }
        assert(sa.drop_first() == a@.skip(k + 1) && sb.drop_first() == b@.skip(k + 1));
        k = k + 1;
    }
}

/// Compares two character sequences lexicographically by code.
pub fn order_lex_chars(a: &[char], b: &[char]) -> (r: i8)
    ensures
        r == order_lex(a@, b@),
{
    let mut k: usize = 0;
    assert(a@.skip(0) == a@ && b@.skip(0) == b@);
    loop
        invariant
            k <= a.len(),
            k <= b.len(),
            order_lex(a@, b@) == order_lex(a@.skip(k as int), b@.skip(k as int)),
        decreases a.len() - k,
    {
        let ghost sa = a@.skip(k as int);
        let ghost sb = b@.skip(k as int);
        if k == a.len() || k == b.len() {
            return sign_len(a.len() - k, b.len() - k);
        }
        assert(sa[0] == a@[k as int] && sb[0] == b@[k as int]);
        if a[k] != b[k] {
            return if a[k] < b[k] { -1 } else { 1 };
        }
        assert(sa.drop_first() == a@.skip(k + 1) && sb.drop_first() == b@.skip(k + 1));
        k = k + 1;
    }
}

/// Compares two digit runs by the numbers they write.
fn order_digit_runs(a: &[char], b: &[char]) -> (r: i8)
    ensures
        r == order_digits(a@, b@),
{
    let p = strip_start_chars(a, &CharClass::Exactly('0'));
    let q = strip_start_chars(b, &CharClass::Exactly('0'));
    if p.len() != q.len() {
        sign_len(p.len(), q.len())
    } else {
        order_lex_chars(&p, &q)
    }
}

/// Length of the run of digits (or non-digits) that starts at `from`.
fn run_end(v: &[char], from: usize, digits: bool) -> (end: usize)
    requires
        from <= v.len(),
    ensures
        end == from + run_len(v@.skip(from as int), digits),
        end <= v.len(),
{
    let mut i = from;
    while i < v.len() && (('0' <= v[i] && v[i] <= '9') == digits)
        invariant
            from <= i <= v.len(),
            run_len(v@.skip(from as int), digits) == (i - from) + run_len(v@.skip(i as int), digits),
        decreases v.len() - i,
    {
        assert(v@.skip(i as int)[0] == v@[i as int]);
        assert(v@.skip(i as int).drop_first() == v@.skip(i + 1));
        i = i + 1;
    }
    proof {
        if i < v.len() {
            assert(v@.skip(i as int)[0] == v@[i as int]);
        }
    }
    i
}

/// Compares two upstream versions or two revisions (`compare_upstream`).
fn order_parts(a: &[char], b: &[char]) -> (r: i8)
    ensures
        r == order_part(a@, b@),
{
    let mut i: usize = 0;
    let mut j: usize = 0;
    assert(a@.skip(0) == a@ && b@.skip(0) == b@);
    loop
        invariant
            i <= a.len(),
            j <= b.len(),
            order_part(a@, b@) == order_part(a@.skip(i as int), b@.skip(j as int)),
        decreases a.len() - i + b.len() - j,
    {
        let ghost sa = a@.skip(i as int);
        let ghost sb = b@.skip(j as int);
        if i == a.len() && j == b.len() {
            return 0;
        }
        let ai = run_end(a, i, false);
        let bj = run_end(b, j, false);
        let an = slice_chars(a, i, ai);
        let bn = slice_chars(b, j, bj);
        assert(an@ == sa.take(ai - i) && bn@ == sb.take(bj - j));
        let c = order_nondigit_runs(&an, &bn);
        if c != 0 {
            return c;
        }
        assert(sa.skip(ai - i) == a@.skip(ai as int) && sb.skip(bj - j) == b@.skip(bj as int));
        let ad = run_end(a, ai, true);
        let bd = run_end(b, bj, true);
        let adg = slice_chars(a, ai, ad);
        let bdg = slice_chars(b, bj, bd);
        assert(adg@ == a@.skip(ai as int).take(ad - ai) && bdg@ == b@.skip(bj as int).take(bd - bj));
        let nc = order_digit_runs(&adg, &bdg);
        if nc != 0 {
            return nc;
        }
        assert(a@.skip(ai as int).skip(ad - ai) == a@.skip(ad as int));
        assert(b@.skip(bj as int).skip(bd - bj) == b@.skip(bd as int));
        proof {
            lemma_run_len(sa, false);
            lemma_run_len(a@.skip(ai as int), true);
            if sa.len() > 0 && ai == i {
                assert(sa[0] == a@.skip(ai as int)[0]);
            }
            lemma_run_len(sb, false);
            lemma_run_len(b@.skip(bj as int), true);
            if sb.len() > 0 && bj == j {
                assert(sb[0] == b@.skip(bj as int)[0]);
            }
        }
        i = ad;
        j = bd;
    }
}

/// `str::parse::<u32>()`, `None` where it fails.
fn parse_u32(v: &[char]) -> (r: Option<u32>)
    ensures
        match r {
            Some(n) => parse_unsigned(v@, u32::MAX as int) == Some(n as int),
            None => parse_unsigned(v@, u32::MAX as int) is None,
        },
{
    match parse_u64(v) {
        Some(n) => {
            if n <= u32::MAX as u64 {
                Some(n as u32)
            } else {
                None
            }
        },
        None => None,
    }
}

/// Splits off the epoch (`split_epoch`).
fn split_epoch(v: &[char]) -> (r: (u32, Vec<char>))
    ensures
        r.0 as int == epoch_split(v@).0,
        r.1@ == epoch_split(v@).1,
{
    match find_char_in(v, ':') {
        Some(c) => {
            proof {
                lemma_find_char(v@, ':');
            }
            let head = slice_chars(v, 0, c);
            assert(head@ == v@.take(c as int));
            match parse_u32(&head) {
                Some(e) => {
                    let rest = slice_chars(v, c + 1, v.len());
                    assert(rest@ == v@.skip(c + 1));
                    (e, rest)
                },
                None => (0, slice_chars(v, 0, v.len())),
            }
        },
        None => (0, slice_chars(v, 0, v.len())),
    }
}

/// Splits off the revision (`split_revision`).
fn split_revision(v: &[char]) -> (r: (Vec<char>, Vec<char>))
    ensures
        r.0@ == revision_split(v@).0,
        r.1@ == revision_split(v@).1,
{
    match rfind_char_in(v, '-') {
        Some(d) => {
            proof {
                crate::text::lemma_rfind_char(v@, '-');
            }
            let up = slice_chars(v, 0, d);
            let rev = slice_chars(v, d + 1, v.len());
            assert(up@ == v@.take(d as int));
            assert(rev@ == v@.skip(d + 1));
            (up, rev)
        },
        None => {
            let mut zero: Vec<char> = Vec::new();
            zero.push('0');
            assert(zero@ == seq!['0']);
            (slice_chars(v, 0, v.len()), zero)
        },
    }
}

/// The sign of the comparison of two versions: `-1`, `0` or `1`.
pub fn version_sign(a: &str, b: &str) -> (r: i8)
    ensures
        r == version_order(a@, b@),
{
    let av = chars_of(a);
    let bv = chars_of(b);
    assert(av@.subrange(0, av@.len() as int) == av@ && bv@.subrange(0, bv@.len() as int) == bv@);
    let (ae, arest) = split_epoch(&av);
    let (be, brest) = split_epoch(&bv);
    if ae != be {
        return sign_of(ae as i64, be as i64);
    }
    let (au, ar) = split_revision(&arest);
    let (bu, br) = split_revision(&brest);
    let uc = order_parts(&au, &bu);
    if uc != 0 {
        return uc;
    }
    order_parts(&ar, &br)
}

/// Compares two Debian versions.
pub fn version_cmp(a: &str, b: &str) -> (r: Ordering)
    ensures
        ordering_sign(r) == version_order(a@, b@),
{
    let s = version_sign(a, b);
    proof {
        lemma_version_order_range(a@, b@);
    }
    if s < 0 {
        Ordering::Less
    } else if s > 0 {
        Ordering::Greater
    } else {
        Ordering::Equal
    }
}

/// Whether the version `installed` meets the constraint `op required`.
pub fn version_satisfies(installed: &str, op: &VersionOp, required: &str) -> (r: bool)
    ensures
        r == op_holds(*op, version_order(installed@, required@)),
{
    let c = version_sign(installed, required);
    match op {
        VersionOp::Eq => c == 0,
        VersionOp::Ge => c != -1,
        VersionOp::Le => c != 1,
        VersionOp::Gt => c == 1,
        VersionOp::Lt => c == -1,
    }
}


// ─────────────────────────────────────────────────────────────
//  A longer version is newer
// ─────────────────────────────────────────────────────────────

proof fn lemma_run_len_concat(a: Seq<char>, s: Seq<char>, d: bool)
    ensures
        run_len(a + s, d) == if run_len(a, d) < a.len() { run_len(a, d) } else { a.len() + run_len(s, d) },
    decreases a.len(),
{
    if a.len() == 0 {
        assert(a + s == s);
    } else {
        assert((a + s)[0] == a[0]);
        assert((a + s).drop_first() == a.drop_first() + s);
        lemma_run_len_concat(a.drop_first(), s, d);
    }
}

/// A non-digit run is older than itself followed by anything but `~`, and newer than
/// itself followed by `~`.
proof fn lemma_nondigit_prefix(a: Seq<char>, t: Seq<char>)
    requires
        t.len() > 0,
    ensures
        order_nondigit(a, a + t) == if t[0] == '~' { 1int } else { -1int },
    decreases a.len(),
{
    if a.len() == 0 {
        assert(a + t == t);
    } else {
        assert((a + t)[0] == a[0]);
        assert((a + t).drop_first() == a.drop_first() + t);
        lemma_nondigit_prefix(a.drop_first(), t);
    }
}

/// An upstream version or revision is older than itself followed by a character that is
/// neither a digit nor `~` and then anything, and newer than itself followed by `~` and
/// anything.
proof fn lemma_part_suffix(a: Seq<char>, s: Seq<char>)
    requires
        s.len() > 0,
        !is_digit(s[0]),
    ensures
        order_part(a, a + s) == if s[0] == '~' { 1int } else { -1int },
    decreases a.len(),
{
    let b = a + s;
    assert(b.len() > 0);
    lemma_part_unfold(a, b);
    let an = run_len(a, false);
    lemma_run_len(a, false);
    lemma_run_len_concat(a, s, false);
    assert(run_len(s, false) >= 1) by {
        assert(s.len() > 0 && is_digit(s[0]) == false);
    }
    if an == a.len() {
        let k = run_len(s, false);
        lemma_run_len(s, false);
        assert(b.take((a.len() + k) as int) == a + s.take(k as int));
        assert(a.take(an as int) == a);
        assert(s.take(k as int)[0] == s[0]);
        lemma_nondigit_prefix(a, s.take(k as int));
    } else {
        assert(b.take(an as int) == a.take(an as int));
        lemma_nondigit_props(a.take(an as int), a.take(an as int));
        let a2 = a.skip(an as int);
        assert(b.skip(an as int) == a2 + s);
        assert(a2[0] == a[an as int]);
        let ad = run_len(a2, true);
        lemma_run_len(a2, true);
        lemma_run_len_concat(a2, s, true);
        assert(run_len(s, true) == 0) by {
            assert(is_digit(s[0]) == false);
        }
        assert(ad >= 1) by {
            assert(is_digit(a2[0]));
        }
        if ad < a2.len() {
            assert((a2 + s).take(ad as int) == a2.take(ad as int));
            lemma_digits_props(a2.take(ad as int), a2.take(ad as int));
            assert((a2 + s).skip(ad as int) == a2.skip(ad as int) + s);
            lemma_part_suffix(a2.skip(ad as int), s);
        } else {
            assert((a2 + s).take(ad as int) == a2);
            assert(a2.take(ad as int) == a2);
            lemma_digits_props(a2, a2);
            assert((a2 + s).skip(ad as int) == s);
            assert(a2.skip(ad as int) == Seq::<char>::empty());
            assert(Seq::<char>::empty() + s == s);
            lemma_part_suffix(Seq::<char>::empty(), s);
        }
    }
}

/// Appending to a version without epoch or revision something that starts with neither a
/// digit nor `~`, and holds no `:` or `-`, makes it strictly newer: `1.0` is older than
/// `1.0.1` and than `1.0+dfsg`.
pub proof fn law_suffix_makes_newer(v: Seq<char>, s: Seq<char>)
    requires
        s.len() > 0,
        !is_digit(s[0]),
        s[0] != '~',
        !v.contains(':'),
        !v.contains('-'),
        !s.contains(':'),
        !s.contains('-'),
    ensures
        version_order(v, v + s) == -1,
        version_order(v + s, v) == 1,
{
    let w = v + s;
    assert(!w.contains(':') && !w.contains('-')) by {
        if w.contains(':') {
            let i = choose|i: int| 0 <= i < w.len() && w[i] == ':';
            if i < v.len() {
                assert(v[i] == ':');
            } else {
                assert(s[i - v.len()] == ':');
            }
        }
        if w.contains('-') {
            let i = choose|i: int| 0 <= i < w.len() && w[i] == '-';
            if i < v.len() {
                assert(v[i] == '-');
            } else {
                assert(s[i - v.len()] == '-');
            }
        }
    }
    crate::text::lemma_find_char(v, ':');
    crate::text::lemma_find_char(w, ':');
    crate::text::lemma_rfind_char(v, '-');
    crate::text::lemma_rfind_char(w, '-');
    if find_char(v, ':') is Some {
        assert(v.contains(':'));
    }
    if find_char(w, ':') is Some {
        assert(w.contains(':'));
    }
    if rfind_char(v, '-') is Some {
        assert(v.contains('-'));
    }
    if rfind_char(w, '-') is Some {
        assert(w.contains('-'));
    }
    lemma_part_suffix(v, s);
    law_version_order_antisymmetric(v, w);
}


/// Appending `~` and anything (without `:` or `-`) to a version without epoch or revision
/// makes it strictly older: `1.0~rc1` is older than `1.0`.
pub proof fn law_tilde_makes_older(v: Seq<char>, s: Seq<char>)
    requires
        s.len() > 0,
        s[0] == '~',
        !v.contains(':'),
        !v.contains('-'),
        !s.contains(':'),
        !s.contains('-'),
    ensures
        version_order(v + s, v) == -1,
        version_order(v, v + s) == 1,
{
    let w = v + s;
    assert(!w.contains(':') && !w.contains('-')) by {
        if w.contains(':') {
            let i = choose|i: int| 0 <= i < w.len() && w[i] == ':';
            if i < v.len() {
                assert(v[i] == ':');
            } else {
                assert(s[i - v.len()] == ':');
            }
        }
        if w.contains('-') {
            let i = choose|i: int| 0 <= i < w.len() && w[i] == '-';
            if i < v.len() {
                assert(v[i] == '-');
            } else {
                assert(s[i - v.len()] == '-');
            }
        }
    }
    crate::text::lemma_find_char(v, ':');
    crate::text::lemma_find_char(w, ':');
    crate::text::lemma_rfind_char(v, '-');
    crate::text::lemma_rfind_char(w, '-');
    if find_char(v, ':') is Some {
        assert(v.contains(':'));
    }
    if find_char(w, ':') is Some {
        assert(w.contains(':'));
    }
    if rfind_char(v, '-') is Some {
        assert(v.contains('-'));
    }
    if rfind_char(w, '-') is Some {
        assert(w.contains('-'));
    }
    lemma_part_suffix(v, s);
    law_version_order_antisymmetric(v, w);
}

} // verus!
