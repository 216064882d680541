//! Scanning a document in chunks, cut where the sequential scan resumes
//! between constructs, records what scanning it whole records.

use vstd::prelude::*;
use crate::index::structural::{indexable, parsed_view};
use super::merge::{tokens_valid, depth_fits, kinds_of, document_view, all_tags, all_texts};
use super::ChunkResult;
use crate::index::TagType;
use super::grammar::{ChunkModel, Step, TagTok, TextTok, step_at, record, scan, scan_chunk, find_from,
    lemma_find_from, name_end, ends_name, comment_close, cdata_close, pi_close, open_close,
    comment_open_at, cdata_open_at, LT, GT, SLASH, BANG, QUESTION, DASH, RBRACKET, DQUOTE, SQUOTE};

verus! {

// ---------------------------------------------------------------------------
// The grammar read from an offset: each rule on the bytes from `a` on gives
// what it gives on the whole input, shifted by `a`.
// ---------------------------------------------------------------------------

proof fn lemma_shift_find(s: Seq<u8>, a: int, b: u8, x: int)
    requires
        0 <= a <= s.len(),
        0 <= x,
    ensures
        find_from(s, b, a + x) == (match find_from(s.subrange(a, s.len() as int), b, x) {
            Some(g) => Some(a + g),
            None => None,
        }),
    decreases s.len() - a - x,
{
    let t = s.subrange(a, s.len() as int);
    if x < t.len() && t[x] != b {
        lemma_shift_find(s, a, b, x + 1);
    }
}

proof fn lemma_shift_name(s: Seq<u8>, a: int, k: u8, x: int)
    requires
        0 <= a <= s.len(),
        0 <= x,
    ensures
        name_end(s, k, a + x) == a + name_end(s.subrange(a, s.len() as int), k, x),
    decreases s.len() - a - x,
{
    let t = s.subrange(a, s.len() as int);
    if x < t.len() && !ends_name(k, t[x]) {
        lemma_shift_name(s, a, k, x + 1);
    }
}

proof fn lemma_shift_comment(s: Seq<u8>, a: int, x: int)
    requires
        0 <= a <= s.len(),
        0 <= x,
    ensures
        comment_close(s, a + x) == a + comment_close(s.subrange(a, s.len() as int), x),
    decreases s.len() - a - x,
{
    let t = s.subrange(a, s.len() as int);
    if x < t.len() && !(t[x] == DASH && x + 2 < t.len() && t[x + 1] == DASH && t[x + 2] == GT) {
        lemma_shift_comment(s, a, x + 1);
    }
}

proof fn lemma_shift_cdata(s: Seq<u8>, a: int, x: int, c: int)
    requires
        0 <= a <= s.len(),
        0 <= x,
    ensures
        cdata_close(s, a + x, a + c) == ({
            let r = cdata_close(s.subrange(a, s.len() as int), x, c);
            (a + r.0, r.1)
        }),
    decreases s.len() - a - x,
{
    let t = s.subrange(a, s.len() as int);
    if x < t.len() {
        if t[x] == RBRACKET {
            if !(x + 2 < t.len() && t[x + 1] == RBRACKET && t[x + 2] == GT) {
                lemma_shift_cdata(s, a, x + 1, x + 1);
            }
        } else {
            lemma_shift_cdata(s, a, x + 1, c);
        }
    }
}

proof fn lemma_shift_pi(s: Seq<u8>, a: int, x: int)
    requires
        0 <= a <= s.len(),
        0 <= x,
    ensures
        pi_close(s, a + x) == a + pi_close(s.subrange(a, s.len() as int), x),
    decreases s.len() - a - x,
{
    let t = s.subrange(a, s.len() as int);
    if x + 1 < t.len() && !(t[x] == QUESTION && t[x + 1] == GT) {
        lemma_shift_pi(s, a, x + 1);
    }
}

proof fn lemma_shift_open(s: Seq<u8>, a: int, x: int)
    requires
        0 <= a <= s.len(),
        0 <= x,
    ensures
        open_close(s, a + x) == ({
            let r = open_close(s.subrange(a, s.len() as int), x);
            (a + r.0, r.1)
        }),
    decreases s.len() + 1 - a - x,
{
    let t = s.subrange(a, s.len() as int);
    if x < t.len() && t[x] != GT {
        if t[x] == SLASH && x + 1 < t.len() && t[x + 1] == GT {
        } else if t[x] == DQUOTE || t[x] == SQUOTE {
            lemma_shift_find(s, a, t[x], x + 1);
            match find_from(t, t[x], x + 1) {
                Some(g) => {
                    lemma_find_from(t, t[x], x + 1);
                    lemma_shift_open(s, a, g + 1);
                },
                None => {
                    lemma_shift_open(s, a, x + 2);
                },
            }
        } else {
            lemma_shift_open(s, a, x + 1);
        }
    }
}

/// A construct read from offset `a` is the construct read in the whole
/// input, its end shifted by `a`.
proof fn lemma_shift_step(s: Seq<u8>, b: int, a: int, q: int)
    requires
        0 <= a <= s.len(),
        0 <= q,
        q + 1 < s.len() - a,
    ensures
        ({
            let t = s.subrange(a, s.len() as int);
            let w = step_at(s, b, a + q);
            let c = step_at(t, b + a, q);
            w.tag == c.tag && w.text == c.text && w.stop == c.stop && w.end == a + c.end
        }),
{
    let t = s.subrange(a, s.len() as int);
    assert(s[a + q + 1] == t[q + 1]);
    lemma_shift_name(s, a, 0, q + 2);
    lemma_shift_name(s, a, 1, q + 2);
    lemma_shift_name(s, a, 2, q + 1);
    lemma_shift_comment(s, a, q + 4);
    lemma_shift_cdata(s, a, q + 9, q + 9);
    lemma_shift_find(s, a, GT, q);
    let ne0 = name_end(t, 0, q + 2);
    if ne0 >= 0 {
        lemma_shift_find(s, a, GT, ne0);
    }
    let ne1 = name_end(t, 1, q + 2);
    if ne1 >= 0 {
        lemma_shift_pi(s, a, ne1);
    }
    let ne2 = name_end(t, 2, q + 1);
    if ne2 >= 0 {
        lemma_shift_open(s, a, ne2);
    }
    lemma_name_at_least(t, 0, q + 2);
    lemma_name_at_least(t, 1, q + 2);
    lemma_name_at_least(t, 2, q + 1);
    assert(comment_open_at(s, a + q) == comment_open_at(t, q));
    assert(cdata_open_at(s, a + q) == cdata_open_at(t, q));
}

// ---------------------------------------------------------------------------
// The rules never move backward.
// ---------------------------------------------------------------------------

proof fn lemma_name_at_least(s: Seq<u8>, k: u8, x: int)
    requires
        0 <= x,
    ensures
        name_end(s, k, x) >= x,
    decreases s.len() - x,
{
    if x < s.len() && !ends_name(k, s[x]) {
        lemma_name_at_least(s, k, x + 1);
    }
}

proof fn lemma_comment_at_least(s: Seq<u8>, x: int)
    requires
        0 <= x <= s.len(),
    ensures
        comment_close(s, x) >= x,
    decreases s.len() - x,
{
    if x < s.len() && !(s[x] == DASH && x + 2 < s.len() && s[x + 1] == DASH && s[x + 2] == GT) {
        lemma_comment_at_least(s, x + 1);
    }
}

proof fn lemma_cdata_shape(s: Seq<u8>, x: int, c: int)
    requires
        0 <= x,
    ensures
        cdata_close(s, x, c).1 ==> cdata_close(s, x, c).0 >= x,
        !cdata_close(s, x, c).1 ==> (cdata_close(s, x, c).0 == c || cdata_close(s, x, c).0 > x),
    decreases s.len() - x,
{
    if x < s.len() {
        if s[x] == RBRACKET {
            if !(x + 2 < s.len() && s[x + 1] == RBRACKET && s[x + 2] == GT) {
                lemma_cdata_shape(s, x + 1, x + 1);
            }
        } else {
            lemma_cdata_shape(s, x + 1, c);
        }
    }
}

proof fn lemma_pi_at_least(s: Seq<u8>, x: int)
    requires
        0 <= x,
    ensures
        pi_close(s, x) >= x,
    decreases s.len() - x,
{
    if x + 1 < s.len() && !(s[x] == QUESTION && s[x + 1] == GT) {
        lemma_pi_at_least(s, x + 1);
    }
}

proof fn lemma_open_at_least(s: Seq<u8>, x: int)
    requires
        0 <= x,
    ensures
        open_close(s, x).0 >= x,
    decreases s.len() + 1 - x,
{
    if x < s.len() && s[x] != GT {
        if s[x] == SLASH && x + 1 < s.len() && s[x + 1] == GT {
        } else if s[x] == DQUOTE || s[x] == SQUOTE {
            match find_from(s, s[x], x + 1) {
                Some(g) => {
                    lemma_find_from(s, s[x], x + 1);
                    lemma_open_at_least(s, g + 1);
                },
                None => {
                    lemma_open_at_least(s, x + 2);
                },
            }
        } else {
            lemma_open_at_least(s, x + 1);
        }
    }
}

// ---------------------------------------------------------------------------
// The grammar read on a prefix: a rule whose answer lies inside the prefix
// gives the same answer on the prefix alone.
// ---------------------------------------------------------------------------

proof fn lemma_prefix_find(s: Seq<u8>, a: int, b: u8, x: int)
    requires
        0 <= a <= s.len(),
        0 <= x,
    ensures
        forall|g: int| find_from(s, b, x) == Some(g) && g < a ==> find_from(s.subrange(0, a), b, x) == Some(g),
        find_from(s, b, x) is None ==> find_from(s.subrange(0, a), b, x) is None,
    decreases s.len() - x,
{
    lemma_find_from(s, b, x);
    if x < a && s[x] != b {
        lemma_prefix_find(s, a, b, x + 1);
    }
}

proof fn lemma_prefix_name(s: Seq<u8>, a: int, k: u8, x: int)
    requires
        0 <= a <= s.len(),
        0 <= x,
    ensures
        name_end(s, k, x) < a ==> name_end(s.subrange(0, a), k, x) == name_end(s, k, x),
    decreases s.len() - x,
{
    if x < s.len() && !ends_name(k, s[x]) {
        lemma_prefix_name(s, a, k, x + 1);
    }
}

proof fn lemma_prefix_comment(s: Seq<u8>, a: int, x: int)
    requires
        0 <= a <= s.len(),
        0 <= x,
    ensures
        comment_close(s, x) < a ==> comment_close(s.subrange(0, a), x) == comment_close(s, x),
    decreases s.len() - x,
{
    if x < s.len() && !(s[x] == DASH && x + 2 < s.len() && s[x + 1] == DASH && s[x + 2] == GT) {
        lemma_prefix_comment(s, a, x + 1);
    }
}

proof fn lemma_prefix_cdata(s: Seq<u8>, a: int, x: int, c: int)
    requires
        0 <= a <= s.len(),
        0 <= x,
    ensures
        ({
            let r = cdata_close(s, x, c);
            (r.1 && r.0 + 2 < a) || (!r.1 && r.0 < a)
        }) ==> cdata_close(s.subrange(0, a), x, c) == cdata_close(s, x, c),
    decreases s.len() - x,
{
    lemma_cdata_shape(s, x, c);
    if x < s.len() {
        if s[x] == RBRACKET {
            if !(x + 2 < s.len() && s[x + 1] == RBRACKET && s[x + 2] == GT) {
                lemma_prefix_cdata(s, a, x + 1, x + 1);
            }
        } else {
            lemma_prefix_cdata(s, a, x + 1, c);
        }
    }
}

proof fn lemma_prefix_pi(s: Seq<u8>, a: int, x: int)
    requires
        0 <= a <= s.len(),
        0 <= x,
    ensures
        pi_close(s, x) < a ==> pi_close(s.subrange(0, a), x) == pi_close(s, x),
    decreases s.len() - x,
{
    if x + 1 < s.len() && !(s[x] == QUESTION && s[x + 1] == GT) {
        lemma_prefix_pi(s, a, x + 1);
        lemma_pi_at_least(s, x + 1);
    }
}

proof fn lemma_prefix_open(s: Seq<u8>, a: int, x: int)
    requires
        0 <= a <= s.len(),
        0 <= x,
    ensures
        open_close(s, x).0 < a ==> open_close(s.subrange(0, a), x) == open_close(s, x),
    decreases s.len() + 1 - x,
{
    if x < s.len() && s[x] != GT {
        if s[x] == SLASH && x + 1 < s.len() && s[x + 1] == GT {
        } else if s[x] == DQUOTE || s[x] == SQUOTE {
            lemma_prefix_find(s, a, s[x], x + 1);
            match find_from(s, s[x], x + 1) {
                Some(g) => {
                    lemma_find_from(s, s[x], x + 1);
                    lemma_open_at_least(s, g + 1);
                    lemma_prefix_open(s, a, g + 1);
                },
                None => {
                    lemma_open_at_least(s, x + 2);
                    lemma_prefix_open(s, a, x + 2);
                },
            }
        } else {
            lemma_open_at_least(s, x + 1);
            lemma_prefix_open(s, a, x + 1);
        }
    }
}

/// A construct that ends inside a prefix reads the same on the prefix.
proof fn lemma_prefix_step(s: Seq<u8>, b: int, a: int, q: int)
    requires
        0 <= q,
        q + 1 < a <= s.len(),
        !step_at(s, b, q).stop,
        step_at(s, b, q).end < a,
    ensures
        step_at(s.subrange(0, a), b, q) == step_at(s, b, q),
{
    let p = s.subrange(0, a);
    assert(p[q + 1] == s[q + 1]);
    let c = s[q + 1];
    if c == SLASH {
        let ne = name_end(s, 0, q + 2);
        lemma_name_at_least(s, 0, q + 2);
        lemma_find_from(s, GT, ne);
        lemma_prefix_name(s, a, 0, q + 2);
        lemma_prefix_find(s, a, GT, ne);
    } else if c == BANG {
        if comment_open_at(s, q) {
            lemma_comment_at_least(s, q + 4);
            lemma_prefix_comment(s, a, q + 4);
            assert(comment_open_at(p, q));
        } else if cdata_open_at(s, q) {
            lemma_cdata_shape(s, q + 9, q + 9);
            lemma_prefix_cdata(s, a, q + 9, q + 9);
            assert(cdata_open_at(p, q));
            assert(!comment_open_at(p, q));
        } else {
            assert(!comment_open_at(p, q));
            assert(!cdata_open_at(p, q));
            lemma_find_from(s, GT, q);
            lemma_prefix_find(s, a, GT, q);
        }
    } else if c == QUESTION {
        let ne = name_end(s, 1, q + 2);
        lemma_name_at_least(s, 1, q + 2);
        lemma_pi_at_least(s, ne);
        lemma_prefix_name(s, a, 1, q + 2);
        lemma_prefix_pi(s, a, ne);
    } else {
        let ne = name_end(s, 2, q + 1);
        lemma_name_at_least(s, 2, q + 1);
        lemma_open_at_least(s, ne);
        lemma_prefix_name(s, a, 2, q + 1);
        lemma_prefix_open(s, a, ne);
    }
}

/// A construct that does not stop the scan ends at or after its `<`, and
/// exactly there only when it is a `<!` declaration that no `>` closes.
proof fn lemma_step_end(t: Seq<u8>, base: int, q: int)
    requires
        0 <= q,
        q + 1 < t.len(),
        t[q] == LT,
        !step_at(t, base, q).stop,
    ensures
        step_at(t, base, q).end >= q,
        step_at(t, base, q).end == q ==> find_from(t, GT, q) is None,
        step_at(t, base, q).end == q ==> step_at(t, base, q).tag is None && step_at(t, base, q).text is None,
{
    let c = t[q + 1];
    lemma_find_from(t, GT, q);
    if c == SLASH {
        lemma_name_at_least(t, 0, q + 2);
        lemma_find_from(t, GT, name_end(t, 0, q + 2));
    } else if c == BANG {
        if comment_open_at(t, q) {
            lemma_comment_at_least(t, q + 4);
        } else if cdata_open_at(t, q) {
            lemma_cdata_shape(t, q + 9, q + 9);
        }
    } else if c == QUESTION {
        lemma_name_at_least(t, 1, q + 2);
        lemma_pi_at_least(t, name_end(t, 1, q + 2));
    } else {
        lemma_name_at_least(t, 2, q + 1);
        lemma_open_at_least(t, name_end(t, 2, q + 1));
    }
}

// ---------------------------------------------------------------------------
// Whole scans.
// ---------------------------------------------------------------------------

/// The sequential scan, from `pos` with the last construct ending at
/// `last`, reaches `a` with a construct ending just before it: a point where
/// it resumes between constructs.
pub open spec fn passes(s: Seq<u8>, pos: int, last: int, a: int) -> bool
    decreases s.len() - pos,
{
    if pos < 0 || pos > a {
        false
    } else if pos == a {
        last == a - 1
    } else {
        match find_from(s, LT, pos) {
            None => false,
            Some(q) => {
                proof { lemma_find_from(s, LT, pos); }
                if q + 1 >= s.len() {
                    false
                } else {
                    let st = step_at(s, 0, q);
                    if st.stop || st.end >= s.len() || st.end < q {
                        false
                    } else {
                        passes(s, st.end + 1, st.end, a)
                    }
                }
            }
        }
    }
}

/// Where a construct ends, and whether it stops the scan, does not depend
/// on the chunk's offset.
proof fn lemma_step_base(s: Seq<u8>, b: int, q: int)
    ensures
        step_at(s, b, q).end == step_at(s, 0, q).end,
        step_at(s, b, q).stop == step_at(s, 0, q).stop,
{
}

/// A point the scan reaches lies no further than the target.
proof fn lemma_passes_bound(s: Seq<u8>, pos: int, last: int, a: int)
    requires
        passes(s, pos, last, a),
    ensures
        pos <= a,
{
}

/// What a first chunk recorded, followed by what a second one records.
pub open spec fn join(pre: ChunkModel, m: ChunkModel) -> ChunkModel {
    ChunkModel { tags: pre.tags + m.tags, texts: pre.texts + m.texts, overrun: m.overrun }
}

/// Up to a point where it resumes between constructs, scanning the whole
/// input records what scanning the prefix before that point records.
proof fn lemma_prefix_scan(s: Seq<u8>, b: int, a: int, pos: int, last: int, acc: ChunkModel)
    requires
        a <= s.len(),
        0 <= pos,
        passes(s, pos, last, a),
    ensures
        scan(s, b, pos, last, acc) == scan(s, b, a, a - 1, scan(s.subrange(0, a), b, pos, last, acc)),
        scan(s.subrange(0, a), b, pos, last, acc).overrun == acc.overrun,
    decreases s.len() - pos,
{
    let p = s.subrange(0, a);
    if pos == a {
        lemma_find_from(p, LT, pos);
    } else {
        lemma_find_from(s, LT, pos);
        let q = find_from(s, LT, pos)->Some_0;
        let st = step_at(s, b, q);
        lemma_step_base(s, b, q);
        lemma_prefix_find(s, a, LT, pos);
        lemma_step_end(s, b, q);
        let text_start = if last > 0 { last + 1 } else { 0 };
        let acc1 = if text_start < q {
            ChunkModel { texts: acc.texts.push(TextTok { start: b + text_start, end: b + q }), ..acc }
        } else {
            acc
        };
        let acc2 = record(acc1, st);
        lemma_prefix_scan(s, b, a, st.end + 1, st.end, acc2);
        lemma_passes_bound(s, st.end + 1, st.end, a);
        if q + 1 >= a {
            assert(st.end == q);
            assert(st.tag is None && st.text is None);
            assert(acc2 == acc1);
        } else {
            lemma_prefix_step(s, b, a, q);
        }
    }
}

/// Scanning the whole input from a point `a` on records what scanning the
/// bytes from `a` on records, positions shifted by `a`; `l` is the end of
/// the last construct in the later chunk (0 before its first), which the
/// whole scan knows as `a + l` (as `a - 1` before the first).
proof fn lemma_shift_scan(s: Seq<u8>, b: int, a: int, x: int, l: int, pre: ChunkModel, acc: ChunkModel)
    requires
        2 <= a <= s.len(),
        0 <= x,
        0 <= l,
        pre.overrun is None,
        !(a < s.len() && s[a] == LT) || find_from(s, GT, a) is Some,
    ensures
        scan(s, b, a + x, if l > 0 { a + l } else { a - 1 }, join(pre, acc))
            == join(pre, scan(s.subrange(a, s.len() as int), b + a, x, l, acc)),
    decreases s.len() - a - x,
{
    let t = s.subrange(a, s.len() as int);
    let w_last = if l > 0 { a + l } else { a - 1 };
    lemma_shift_find(s, a, LT, x);
    lemma_find_from(t, LT, x);
    match find_from(t, LT, x) {
        None => {},
        Some(q) => {
            let text_start = if l > 0 { l + 1 } else { 0 };
            let acc1 = if text_start < q {
                ChunkModel { texts: acc.texts.push(TextTok { start: b + a + text_start, end: b + a + q }), ..acc }
            } else {
                acc
            };
            let w_start = if w_last > 0 { w_last + 1 } else { 0 };
            assert(w_start == a + text_start);
            let wacc1 = if w_start < a + q {
                ChunkModel { texts: join(pre, acc).texts.push(TextTok { start: b + w_start, end: b + (a + q) }), ..join(pre, acc) }
            } else {
                join(pre, acc)
            };
            assert(wacc1 == join(pre, acc1)) by {
                if text_start < q {
                    assert((pre.texts + acc.texts).push(TextTok { start: b + a + text_start, end: b + a + q })
                        =~= pre.texts + acc.texts.push(TextTok { start: b + a + text_start, end: b + a + q }));
                }
            }
            if q + 1 < t.len() {
                lemma_shift_step(s, b, a, q);
                let st = step_at(t, b + a, q);
                let wst = step_at(s, b, a + q);
                let acc2 = record(acc1, st);
                assert(record(wacc1, wst) == join(pre, acc2)) by {
                    match st.tag {
                        Some(tg) => { assert((pre.tags + acc1.tags).push(tg) =~= pre.tags + acc1.tags.push(tg)); },
                        None => {},
                    }
                    match st.text {
                        Some(tx) => { assert((pre.texts + acc1.texts).push(tx) =~= pre.texts + acc1.texts.push(tx)); },
                        None => {},
                    }
                }
                if !st.stop && st.end < t.len() && st.end >= q {
                    assert(t[q] == LT);
                    lemma_step_end(t, b + a, q);
                    if st.end == 0 {
                        assert(q == 0);
                        lemma_shift_find(s, a, GT, 0);
                        assert(s[a] == LT);
                    }
                    lemma_shift_scan(s, b, a, st.end + 1, st.end, pre, acc2);
                }
            }
        },
    }
}

/// Splitting a chunk at offset `b` where the sequential scan resumes between
/// constructs, and scanning the two parts apart (the second at its offset),
/// records the tags and texts that scanning it whole records, in the same
/// order; the first chunk never runs past its end. (The second chunk must
/// not begin with a `<` that no `>` follows: the scanner would take it for
/// a declaration ending at the chunk's first byte.)
pub proof fn law_split_scan(s: Seq<u8>, b: int, a: int)
    requires
        2 <= a <= s.len(),
        passes(s, 0, 0, a),
        !(a < s.len() && s[a] == LT) || find_from(s, GT, a) is Some,
    ensures
        scan_chunk(s.subrange(0, a), b).overrun is None,
        scan_chunk(s, b) == join(scan_chunk(s.subrange(0, a), b), scan_chunk(s.subrange(a, s.len() as int), b + a)),
{
    let e = ChunkModel { tags: seq![], texts: seq![], overrun: None };
    lemma_prefix_scan(s, b, a, 0, 0, e);
    let pre = scan_chunk(s.subrange(0, a), b);
    lemma_shift_scan(s, b, a, 0, 0, pre, e);
    assert(join(pre, e) =~= pre) by {
        assert(pre.tags + Seq::<TagTok>::empty() =~= pre.tags);
        assert(pre.texts + Seq::<TextTok>::empty() =~= pre.texts);
    }
}

/// From a point the scan reaches between constructs, it goes on exactly as
/// it did on the way there: a later point it reaches is reached from there.
proof fn lemma_passes_on(s: Seq<u8>, pos: int, last: int, c: int, d: int)
    requires
        c <= d,
        passes(s, pos, last, c),
        passes(s, pos, last, d),
    ensures
        passes(s, c, c - 1, d),
    decreases s.len() - pos,
{
    if pos != c {
        let q = find_from(s, LT, pos)->Some_0;
        lemma_find_from(s, LT, pos);
        let st = step_at(s, 0, q);
        lemma_passes_on(s, st.end + 1, st.end, c, d);
    }
}

/// The scan of the whole input, resumed at `a + x` after a construct ending
/// at `a + l` (at `a - 1` before the first), reaches `a + y` exactly as the
/// scan of the bytes from `a` on reaches `y`.
proof fn lemma_shift_passes(s: Seq<u8>, a: int, x: int, l: int, y: int)
    requires
        2 <= a <= s.len(),
        0 <= x,
        0 <= l,
        0 < y,
        !(a < s.len() && s[a] == LT) || find_from(s, GT, a) is Some,
        passes(s, a + x, if l > 0 { a + l } else { a - 1 }, a + y),
    ensures
        passes(s.subrange(a, s.len() as int), x, l, y),
    decreases s.len() - a - x,
{
    let t = s.subrange(a, s.len() as int);
    if x < y {
        lemma_shift_find(s, a, LT, x);
        lemma_find_from(t, LT, x);
        let q = find_from(t, LT, x)->Some_0;
        lemma_shift_step(s, -a, a, q);
        lemma_step_base(s, -a, a + q);
        let c = step_at(t, 0, q);
        assert(t[q] == LT);
        lemma_step_end(t, 0, q);
        if c.end == 0 {
            lemma_shift_find(s, a, GT, 0);
        }
        lemma_shift_passes(s, a, c.end + 1, c.end, y);
    }
}

/// Where chunk `i` of a document cut at `cuts` begins: at 0 for the first,
/// at the cut before it for the others.
pub open spec fn chunk_start(cuts: Seq<int>, i: int) -> int {
    if i <= 0 { 0 } else { cuts[i - 1] }
}

/// The scans of chunks `i` onward of `s` cut at `cuts`, each scanned at its
/// offset, joined in order; the last chunk runs to the end of `s`.
pub open spec fn joined_scans(s: Seq<u8>, cuts: Seq<int>, i: int) -> ChunkModel
    decreases cuts.len() - i,
{
    let st = chunk_start(cuts, i);
    if i < 0 || i >= cuts.len() {
        scan_chunk(s.subrange(st, s.len() as int), st)
    } else {
        join(scan_chunk(s.subrange(st, cuts[i]), st), joined_scans(s, cuts, i + 1))
    }
}

/// Cuts that the sequential scan resumes at, between constructs, at least
/// two bytes apart and in order; none of them followed by a `<` that no
/// `>` follows.
pub open spec fn resumable_cuts(s: Seq<u8>, cuts: Seq<int>) -> bool {
    &&& forall|i: int| 0 <= i < cuts.len() ==> 2 <= #[trigger] cuts[i] <= s.len()
    &&& forall|i: int| 0 < i < cuts.len() ==> cuts[i - 1] + 2 <= #[trigger] cuts[i]
    &&& forall|i: int| 0 <= i < cuts.len() ==> passes(s, 0, 0, #[trigger] cuts[i])
    &&& forall|i: int| 0 <= i < cuts.len() ==>
        !(#[trigger] cuts[i] < s.len() && s[cuts[i]] == LT) || find_from(s, GT, cuts[i]) is Some
}

/// Chunks `i` onward, scanned apart and joined, record what scanning the
/// bytes from chunk `i` on records.
#[verifier::spinoff_prover]
proof fn lemma_tail_scans(s: Seq<u8>, cuts: Seq<int>, i: int)
    requires
        resumable_cuts(s, cuts),
        0 <= i <= cuts.len(),
    ensures
        ({
            let st = chunk_start(cuts, i);
            scan_chunk(s.subrange(st, s.len() as int), st) == joined_scans(s, cuts, i)
        }),
        forall|j: int| i <= j < cuts.len() ==>
            (#[trigger] scan_chunk(s.subrange(chunk_start(cuts, j), cuts[j]), chunk_start(cuts, j))).overrun is None,
    decreases cuts.len() - i,
{
    if i < cuts.len() {
        let st = chunk_start(cuts, i);
        let t = s.subrange(st, s.len() as int);
        let c = cuts[i];
        let a = c - st;
        assert(passes(s, 0, 0, c));
        if i == 0 {
            assert(t =~= s);
        } else {
            assert(passes(s, 0, 0, cuts[i - 1]));
            assert(2 <= cuts[i - 1]);
            lemma_passes_on(s, 0, 0, st, c);
            assert(!(cuts[i - 1] < s.len() && s[cuts[i - 1]] == LT) || find_from(s, GT, cuts[i - 1]) is Some);
            lemma_shift_passes(s, st, 0, 0, a);
        }
        assert(!(cuts[i] < s.len() && s[cuts[i]] == LT) || find_from(s, GT, cuts[i]) is Some);
        lemma_shift_find(s, st, GT, a);
        if c < s.len() {
            assert(t[a] == s[c]);
        }
        law_split_scan(t, st, a);
        assert(t.subrange(0, a) =~= s.subrange(st, c));
        assert(t.subrange(a, t.len() as int) =~= s.subrange(c, s.len() as int));
        assert(chunk_start(cuts, i + 1) == c);
        lemma_tail_scans(s, cuts, i + 1);
    }
}

/// Cutting a document into any number of chunks where the sequential scan
/// resumes between constructs, scanning the chunks apart (each at its
/// offset) and joining what they record in order gives what scanning the
/// whole document records; no chunk but the last runs past its end.
pub proof fn law_chunked_scan(s: Seq<u8>, cuts: Seq<int>)
    requires
        resumable_cuts(s, cuts),
    ensures
        scan_chunk(s, 0) == joined_scans(s, cuts, 0),
        forall|j: int| 0 <= j < cuts.len() ==>
            (#[trigger] scan_chunk(s.subrange(chunk_start(cuts, j), cuts[j]), chunk_start(cuts, j))).overrun is None,
{
    lemma_tail_scans(s, cuts, 0);
    assert(s.subrange(0, s.len() as int) =~= s);
}

/// Merging the scans of the chunks gives the sequential parse: the document
/// is indexable exactly when the last chunk does not run past its end and
/// the joined tags and texts are valid and nest shallowly enough, and then
/// its index is the one built from the joined tags and texts.
pub proof fn law_chunked_parse(s: Seq<u8>, cuts: Seq<int>)
    requires
        resumable_cuts(s, cuts),
    ensures
        ({
            let j = joined_scans(s, cuts, 0);
            &&& indexable(s) == (s.len() < u32::MAX && j.overrun is None
                && tokens_valid(s.len() as int, j.tags, j.texts) && depth_fits(kinds_of(j.tags)))
            &&& parsed_view(s) == document_view(s, j.tags, j.texts)
        }),
{
    law_chunked_scan(s, cuts);
}

/// Where chunk `i` of `s` cut at `cuts` ends: at the cut after it, or at
/// the end of `s` for the last.
pub open spec fn chunk_end(s: Seq<u8>, cuts: Seq<int>, i: int) -> int {
    if i < cuts.len() { cuts[i] } else { s.len() as int }
}

/// The chunks hold, in order, what scanning each piece of `s` cut at
/// `cuts` records, each at its offset.
pub open spec fn chunks_scanned(s: Seq<u8>, cuts: Seq<int>, chunks: Seq<ChunkResult>) -> bool {
    &&& chunks.len() == cuts.len() + 1
    &&& forall|k: int| 0 <= k < chunks.len() ==> {
        let m = scan_chunk(s.subrange(chunk_start(cuts, k), chunk_end(s, cuts, k)), chunk_start(cuts, k));
        &&& (#[trigger] chunks[k]).tags_view() == m.tags
        &&& chunks[k].texts_view() == m.texts
    }
}

/// The chunks before `i`, then what the scans from chunk `i` on join to,
/// give all the chunks' tags and texts.
proof fn lemma_chunks_join(s: Seq<u8>, cuts: Seq<int>, chunks: Seq<ChunkResult>, i: int)
    requires
        chunks_scanned(s, cuts, chunks),
        0 <= i <= cuts.len(),
    ensures
        all_tags(chunks.take(i)) + joined_scans(s, cuts, i).tags == all_tags(chunks),
        all_texts(chunks.take(i)) + joined_scans(s, cuts, i).texts == all_texts(chunks),
    decreases cuts.len() - i,
{
    let c = chunks[i];
    assert(chunks.take(i + 1).drop_last() =~= chunks.take(i));
    assert(chunks.take(i + 1).last() == c);
    if i == cuts.len() {
        assert(chunks.take(i + 1) =~= chunks);
        assert(s.subrange(chunk_start(cuts, i), chunk_end(s, cuts, i))
            =~= s.subrange(chunk_start(cuts, i), s.len() as int));
    } else {
        lemma_chunks_join(s, cuts, chunks, i + 1);
        let j = joined_scans(s, cuts, i + 1);
        assert(all_tags(chunks.take(i)) + (c.tags_view() + j.tags)
            =~= (all_tags(chunks.take(i)) + c.tags_view()) + j.tags);
        assert(all_texts(chunks.take(i)) + (c.texts_view() + j.texts)
            =~= (all_texts(chunks.take(i)) + c.texts_view()) + j.texts);
    }
}

/// Merging the scans of the chunks of a document cut where the sequential
/// scan resumes gives what parsing it whole gives: the chunks' tags and
/// texts are the document's, the document is indexable exactly when the
/// last chunk does not run past its end and the merge's conditions hold,
/// and its index is the one the merge builds.
pub proof fn law_merged_chunks_parse(s: Seq<u8>, cuts: Seq<int>, chunks: Seq<ChunkResult>)
    requires
        resumable_cuts(s, cuts),
        chunks_scanned(s, cuts, chunks),
    ensures
        all_tags(chunks) == scan_chunk(s, 0).tags,
        all_texts(chunks) == scan_chunk(s, 0).texts,
        ({
            let last = cuts.len() as int;
            let tail = scan_chunk(s.subrange(chunk_start(cuts, last), s.len() as int), chunk_start(cuts, last));
            indexable(s) == (s.len() < u32::MAX && tail.overrun is None
                && tokens_valid(s.len() as int, all_tags(chunks), all_texts(chunks))
                && depth_fits(kinds_of(all_tags(chunks))))
        }),
        parsed_view(s) == document_view(s, all_tags(chunks), all_texts(chunks)),
{
    law_chunked_scan(s, cuts);
    lemma_chunks_join(s, cuts, chunks, 0);
    assert(chunks.take(0) =~= Seq::<ChunkResult>::empty());
    assert(all_tags(chunks.take(0)) + joined_scans(s, cuts, 0).tags =~= joined_scans(s, cuts, 0).tags);
    assert(all_texts(chunks.take(0)) + joined_scans(s, cuts, 0).texts =~= joined_scans(s, cuts, 0).texts);
    lemma_joined_overrun(s, cuts, 0);
}

/// What the joined scans leave open is what the last chunk leaves open.
proof fn lemma_joined_overrun(s: Seq<u8>, cuts: Seq<int>, i: int)
    requires
        0 <= i <= cuts.len(),
    ensures
        joined_scans(s, cuts, i).overrun == scan_chunk(
            s.subrange(chunk_start(cuts, cuts.len() as int), s.len() as int), chunk_start(cuts, cuts.len() as int)).overrun,
    decreases cuts.len() - i,
{
    if i < cuts.len() {
        lemma_joined_overrun(s, cuts, i + 1);
    }
}

// ---------------------------------------------------------------------------
// Scanning at an offset.
// ---------------------------------------------------------------------------

/// A tag recorded `b` bytes further on: its positions moved by `b` (a
/// comment's or CDATA section's name stays at 0).
pub open spec fn shift_tag(t: TagTok, b: int) -> TagTok {
    TagTok {
        start: t.start + b,
        end: t.end + b,
        kind: t.kind,
        name_start: if t.kind == TagType::Comment || t.kind == TagType::CData { t.name_start } else { t.name_start + b },
        name_len: t.name_len,
    }
}

/// A text range `b` bytes further on.
pub open spec fn shift_text(t: TextTok, b: int) -> TextTok {
    TextTok { start: t.start + b, end: t.end + b }
}

/// What a scan records, every position moved by `b`.
pub open spec fn shift_model(m: ChunkModel, b: int) -> ChunkModel {
    ChunkModel {
        tags: m.tags.map_values(|t: TagTok| shift_tag(t, b)),
        texts: m.texts.map_values(|t: TextTok| shift_text(t, b)),
        overrun: match m.overrun { Some(o) => Some(o + b), None => None },
    }
}

/// The construct at `q` read at offset `b` is the one read at 0, moved.
proof fn lemma_step_shift(s: Seq<u8>, b: int, q: int)
    ensures
        step_at(s, b, q).tag == (match step_at(s, 0, q).tag { Some(t) => Some(shift_tag(t, b)), None => None }),
        step_at(s, b, q).text == (match step_at(s, 0, q).text { Some(t) => Some(shift_text(t, b)), None => None }),
        step_at(s, b, q).end == step_at(s, 0, q).end,
        step_at(s, b, q).stop == step_at(s, 0, q).stop,
{
}

/// Scanning at offset `b` records what scanning at 0 records, moved by `b`.
proof fn lemma_scan_shift(s: Seq<u8>, b: int, pos: int, last: int, acc: ChunkModel)
    ensures
        scan(s, b, pos, last, shift_model(acc, b)) == shift_model(scan(s, 0, pos, last, acc), b),
    decreases s.len() - pos,
{
    if pos >= 0 {
        match find_from(s, LT, pos) {
            None => {},
            Some(q) => {
                lemma_find_from(s, LT, pos);
                let text_start = if last > 0 { last + 1 } else { 0 };
                let acc1 = if text_start < q {
                    ChunkModel { texts: acc.texts.push(TextTok { start: text_start, end: q }), ..acc }
                } else {
                    acc
                };
                let sacc = shift_model(acc, b);
                let sacc1 = if text_start < q {
                    ChunkModel { texts: sacc.texts.push(TextTok { start: b + text_start, end: b + q }), ..sacc }
                } else {
                    sacc
                };
                assert(sacc1 == shift_model(acc1, b)) by {
                    if text_start < q {
                        assert(sacc.texts.push(TextTok { start: b + text_start, end: b + q })
                            =~= acc1.texts.map_values(|t: TextTok| shift_text(t, b)));
                    }
                }
                if q + 1 < s.len() {
                    lemma_step_shift(s, b, q);
                    let st = step_at(s, 0, q);
                    let acc2 = record(acc1, st);
                    assert(record(sacc1, step_at(s, b, q)) == shift_model(acc2, b)) by {
                        match st.tag {
                            Some(t) => {
                                assert(sacc1.tags.push(shift_tag(t, b)) =~= acc2.tags.map_values(|x: TagTok| shift_tag(x, b)));
                            },
                            None => {},
                        }
                        match st.text {
                            Some(t) => {
                                assert(sacc1.texts.push(shift_text(t, b)) =~= acc2.texts.map_values(|x: TextTok| shift_text(x, b)));
                            },
                            None => {},
                        }
                    }
                    if !st.stop && st.end < s.len() && st.end >= q {
                        lemma_scan_shift(s, b, st.end + 1, st.end, acc2);
                    }
                }
            },
        }
    }
}

/// Scanning a chunk at offset `b` of a document records what scanning the
/// same bytes at offset 0 records, every position moved by `b`: where the
/// chunk lies changes only its offsets.
pub proof fn law_chunk_offset(s: Seq<u8>, b: int)
    ensures
        scan_chunk(s, b) == shift_model(scan_chunk(s, 0), b),
{
    let e = ChunkModel { tags: seq![], texts: seq![], overrun: None };
    assert(shift_model(e, b) =~= e) by {
        assert(e.tags.map_values(|t: TagTok| shift_tag(t, b)) =~= Seq::<TagTok>::empty());
        assert(e.texts.map_values(|t: TextTok| shift_text(t, b)) =~= Seq::<TextTok>::empty());
    }
    lemma_scan_shift(s, b, 0, 0, e);
}

} // verus!
