//! Ranking of search hits.
use vstd::prelude::*;
use crate::text::{chars_eq, chars_of, contains_chars, contains_sub, lowercase, lowercase_chars, starts_with, starts_with_chars};

verus! {

/// How well a name matches a search term: 100 when its lower-case form is the term, 80 when
/// it starts with it, 60 when it holds it, 0 otherwise.
pub open spec fn score(name: Seq<char>, term: Seq<char>) -> i32 {
    let n = lowercase(name);
    if n == term {
        100
    } else if starts_with(n, term) {
        80
    } else if contains_sub(n, term) {
        60
    } else {
        0
    }
}

/// How well a name matches a search term.
pub fn get_score(name: &str, term: &str) -> (r: i32)
    ensures
        r == score(name@, term@),
{
    let n = lowercase_chars(&chars_of(name));
    let t = chars_of(term);
    if chars_eq(&n, &t) {
        100
    } else if starts_with_chars(&n, &t) {
        80
    } else if contains_chars(&n, &t) {
        60
    } else {
        0
    }
}

} // verus!
