#![verifier::loop_isolation(false)]
//! Executable pieces of the structural scanner, each proved against the
//! tag grammar.

use vstd::prelude::*;
use vstd::slice::slice_subrange;
use super::grammar::{is_ws, find_from, name_end, comment_close, cdata_close, pi_close, open_close, lemma_find_from, GT, SLASH, QUESTION, DASH, RBRACKET, DQUOTE, SQUOTE};

verus! {

/// `memchr::memchr`: the index of the first occurrence of `needle` in
/// `haystack`, or `None` when it does not occur.
#[verifier::external_body]
fn memchr(needle: u8, haystack: &[u8]) -> (r: Option<usize>)
    ensures
        match r {
            Some(i) => i < haystack@.len() && haystack@[i as int] == needle
                && forall|j: int| 0 <= j < i ==> haystack@[j] != needle,
            None => forall|j: int| 0 <= j < haystack@.len() ==> haystack@[j] != needle,
        },
{
    memchr::memchr(needle, haystack)
}

pub proof fn lemma_find_from_is(s: Seq<u8>, b: u8, p: int, g: int)
    requires
        0 <= p <= g < s.len(),
        s[g] == b,
        forall|j: int| p <= j < g ==> s[j] != b,
    ensures
        find_from(s, b, p) == Some(g),
    decreases g - p,
{
    if p < g {
        lemma_find_from_is(s, b, p + 1, g);
    }
}

pub proof fn lemma_find_from_none(s: Seq<u8>, b: u8, p: int)
    requires
        0 <= p,
        forall|j: int| p <= j < s.len() ==> s[j] != b,
    ensures
        find_from(s, b, p) is None,
    decreases s.len() - p,
{
    if p < s.len() {
        lemma_find_from_none(s, b, p + 1);
    }
}

/// The first position at or after `p` holding `b`.
pub fn find_byte(s: &[u8], b: u8, p: usize) -> (r: Option<usize>)
    requires
        p <= s@.len(),
        s@.len() < usize::MAX,
    ensures
        match r {
            Some(g) => find_from(s@, b, p as int) == Some(g as int),
            None => find_from(s@, b, p as int) is None,
        },
{
    let rest = slice_subrange(s, p, s.len());
    match memchr(b, rest) {
        Some(i) => {
            proof {
                assert forall|j: int| p <= j < p + i implies s@[j] != b by {
                    assert(rest@[j - p] == s@[j]);
                }
                assert(rest@[i as int] == s@[p + i]);
                lemma_find_from_is(s@, b, p as int, p + i);
            }
            Some(p + i)
        },
        None => {
            proof {
                assert forall|j: int| p <= j < s@.len() implies s@[j] != b by {
                    assert(rest@[j - p] == s@[j]);
                }
                lemma_find_from_none(s@, b, p as int);
            }
            None
        },
    }
}

/// `u8::is_ascii_whitespace`.
pub fn ascii_ws(b: u8) -> (r: bool)
    ensures
        r == is_ws(b),
{
    b == 0x20u8 || b == 0x09u8 || b == 0x0au8 || b == 0x0cu8 || b == 0x0du8
}

/// End of the tag name starting at `p`.
pub fn scan_name(s: &[u8], kind: u8, p: usize) -> (r: usize)
    requires
        p <= s@.len(),
        s@.len() < usize::MAX,
    ensures
        r == name_end(s@, kind, p as int),
        p <= r <= s@.len(),
{
    let mut i = p;
    while i < s.len() && !(ascii_ws(s[i]) || s[i] == GT || (kind == 1 && s[i] == QUESTION)
        || (kind == 2 && s[i] == SLASH))
        invariant
            p <= i <= s@.len(),
            name_end(s@, kind, i as int) == name_end(s@, kind, p as int),
        decreases s@.len() - i,
    {
        i = i + 1;
    }
    i
}

proof fn lemma_comment_skip(s: Seq<u8>, p: int, d: int)
    requires
        0 <= p <= d,
        forall|j: int| p <= j < d && j < s.len() ==> s[j] != DASH,
    ensures
        comment_close(s, p) == (if d < s.len() { comment_close(s, d) } else { s.len() as int }),
    decreases d - p,
{
    if p < d && p < s.len() {
        lemma_comment_skip(s, p + 1, d);
    }
}

/// Position of the `>` ending a comment whose body starts at `p`.
pub fn scan_comment(s: &[u8], p: usize) -> (r: usize)
    requires
        p <= s@.len(),
        s@.len() < usize::MAX,
    ensures
        r == comment_close(s@, p as int),
        p <= r <= s@.len(),
{
    let mut i = p;
    loop
        invariant
            p <= i <= s@.len(),
            comment_close(s@, i as int) == comment_close(s@, p as int),
        decreases s@.len() - i,
    {
        match find_byte(s, DASH, i) {
            Some(d) => {
                proof {
                    lemma_find_from(s@, DASH, i as int);
                    lemma_comment_skip(s@, i as int, d as int);
                }
                if d + 2 < s.len() && s[d + 1] == DASH && s[d + 2] == GT {
                    return d + 2;
                }
                i = d + 1;
            },
            None => {
                proof {
                    lemma_find_from(s@, DASH, i as int);
                    lemma_comment_skip(s@, i as int, s@.len() as int);
                }
                return s.len();
            },
        }
    }
}

proof fn lemma_cdata_skip(s: Seq<u8>, p: int, d: int, cur: int)
    requires
        0 <= p <= d,
        forall|j: int| p <= j < d && j < s.len() ==> s[j] != RBRACKET,
    ensures
        cdata_close(s, p, cur) == (if d < s.len() { cdata_close(s, d, cur) } else { (cur, false) }),
    decreases d - p,
{
    if p < d && p < s.len() {
        lemma_cdata_skip(s, p + 1, d, cur);
    }
}

/// Searching for `]]>` from `p`, as `cdata_close(s, p, p)`.
pub fn scan_cdata(s: &[u8], p: usize) -> (r: (usize, bool))
    requires
        p <= s@.len(),
        s@.len() < usize::MAX,
    ensures
        (r.0 as int, r.1) == cdata_close(s@, p as int, p as int),
        p <= r.0 <= s@.len(),
        r.1 ==> r.0 + 2 < s@.len(),
{
    let mut i = p;
    let mut cur = p;
    loop
        invariant
            p <= cur <= i <= s@.len(),
            cdata_close(s@, i as int, cur as int) == cdata_close(s@, p as int, p as int),
        decreases s@.len() - i,
    {
        match find_byte(s, RBRACKET, i) {
            Some(d) => {
                proof {
                    lemma_find_from(s@, RBRACKET, i as int);
                    lemma_cdata_skip(s@, i as int, d as int, cur as int);
                }
                if d + 2 < s.len() && s[d + 1] == RBRACKET && s[d + 2] == GT {
                    return (d, true);
                }
                i = d + 1;
                cur = d + 1;
            },
            None => {
                proof {
                    lemma_find_from(s@, RBRACKET, i as int);
                    lemma_cdata_skip(s@, i as int, s@.len() as int, cur as int);
                }
                return (cur, false);
            },
        }
    }
}

/// Position of the `>` ending a processing instruction, searched from `p`.
pub fn scan_pi(s: &[u8], p: usize) -> (r: usize)
    requires
        p <= s@.len(),
        s@.len() < usize::MAX,
    ensures
        r == pi_close(s@, p as int),
        p <= r <= s@.len(),
{
    let mut i = p;
    while i + 1 < s.len()
        invariant
            p <= i <= s@.len(),
            pi_close(s@, i as int) == pi_close(s@, p as int),
        decreases s@.len() - i,
    {
        if s[i] == QUESTION && s[i + 1] == GT {
            return i + 1;
        }
        i = i + 1;
    }
    i
}

/// The end of an open tag whose attributes start at `p`, and whether it
/// is self-closing.
pub fn scan_open(s: &[u8], p: usize) -> (r: (usize, bool))
    requires
        p <= s@.len(),
        s@.len() < usize::MAX,
    ensures
        (r.0 as int, r.1) == open_close(s@, p as int),
        p <= r.0,
        r.0 < s@.len() ==> r.0 >= p,
{
    let mut i = p;
    while i < s.len() && s[i] != GT
        invariant
            p <= i,
            open_close(s@, i as int) == open_close(s@, p as int),
        decreases s@.len() + 1 - i,
    {
        if s[i] == SLASH && i + 1 < s.len() && s[i + 1] == GT {
            return (i + 1, true);
        }
        if s[i] == DQUOTE || s[i] == SQUOTE {
            let q = s[i];
            match find_byte(s, q, i + 1) {
                Some(g) => {
                    proof { lemma_find_from(s@, q, i + 1); }
                    i = g + 1;
                },
                None => {
                    i = i + 2;
                },
            }
        } else {
            i = i + 1;
        }
    }
    (i, false)
}

} // verus!
