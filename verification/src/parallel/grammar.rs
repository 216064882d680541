//! The tag grammar of the structural scanner, as mathematics.
//!
//! Positions are relative to the scanned chunk; the recorded tags and texts
//! carry absolute offsets (chunk base added), as the index stores them.

use vstd::prelude::*;
use crate::index::TagType;

verus! {

/// Bytes of the tag grammar.
pub const LT: u8 = 0x3cu8;
pub const GT: u8 = 0x3eu8;
pub const SLASH: u8 = 0x2fu8;
pub const BANG: u8 = 0x21u8;
pub const QUESTION: u8 = 0x3fu8;
pub const DASH: u8 = 0x2du8;
pub const LBRACKET: u8 = 0x5bu8;
pub const RBRACKET: u8 = 0x5du8;
pub const DQUOTE: u8 = 0x22u8;
pub const SQUOTE: u8 = 0x27u8;
pub const UPPER_C: u8 = 0x43u8;
pub const UPPER_D: u8 = 0x44u8;
pub const UPPER_A: u8 = 0x41u8;
pub const UPPER_T: u8 = 0x54u8;

/// `u8::is_ascii_whitespace`: space, tab, line feed, form feed, carriage return.
pub open spec fn is_ws(b: u8) -> bool {
    b == 0x20u8 || b == 0x09u8 || b == 0x0au8 || b == 0x0cu8 || b == 0x0du8
}

/// The bytes that end a tag name: of a close tag (0), a processing
/// instruction (1) and an open tag (2).
pub open spec fn ends_name(kind: u8, b: u8) -> bool {
    ||| is_ws(b)
    ||| b == GT
    ||| (kind == 1 && b == QUESTION)
    ||| (kind == 2 && b == SLASH)
}

/// First position at or after `p` holding byte `b`.
pub open spec fn find_from(s: Seq<u8>, b: u8, p: int) -> Option<int>
    decreases s.len() - p,
{
    if p < 0 || p >= s.len() {
        None
    } else if s[p] == b {
        Some(p)
    } else {
        find_from(s, b, p + 1)
    }
}

/// End of the tag name that starts at `p` (first byte that ends it, or the end).
pub open spec fn name_end(s: Seq<u8>, kind: u8, p: int) -> int
    decreases s.len() - p,
{
    if p < 0 || p >= s.len() || ends_name(kind, s[p]) {
        p
    } else {
        name_end(s, kind, p + 1)
    }
}

/// Position of the `>` of the first `-->` at or after `p`, or the end of input.
pub open spec fn comment_close(s: Seq<u8>, p: int) -> int
    decreases s.len() - p,
{
    if p < 0 || p >= s.len() {
        s.len() as int
    } else if s[p] == DASH && p + 2 < s.len() && s[p + 1] == DASH && s[p + 2] == GT {
        p + 2
    } else {
        comment_close(s, p + 1)
    }
}

/// Searching for `]]>` from `p`: `(position of its first ']', true)` when
/// found; otherwise `(cur, false)`, where `cur` is one past the last `]`
/// seen (or where the search began).
pub open spec fn cdata_close(s: Seq<u8>, p: int, cur: int) -> (int, bool)
    decreases s.len() - p,
{
    if p < 0 || p >= s.len() {
        (cur, false)
    } else if s[p] == RBRACKET {
        if p + 2 < s.len() && s[p + 1] == RBRACKET && s[p + 2] == GT {
            (p, true)
        } else {
            cdata_close(s, p + 1, p + 1)
        }
    } else {
        cdata_close(s, p + 1, cur)
    }
}

/// Position of the `>` of the first `?>` at or after `p`; when there is none,
/// the last position examined (`p` itself if nothing was left to examine).
pub open spec fn pi_close(s: Seq<u8>, p: int) -> int
    decreases s.len() - p,
{
    if p < 0 || p + 1 >= s.len() {
        p
    } else if s[p] == QUESTION && s[p + 1] == GT {
        p + 1
    } else {
        pi_close(s, p + 1)
    }
}

pub proof fn lemma_find_from(s: Seq<u8>, b: u8, p: int)
    requires
        0 <= p,
    ensures
        match find_from(s, b, p) {
            Some(g) => p <= g < s.len() && s[g] == b && forall|j: int| p <= j < g ==> s[j] != b,
            None => forall|j: int| p <= j < s.len() ==> s[j] != b,
        },
    decreases s.len() - p,
{
    if p < s.len() && s[p] != b {
        lemma_find_from(s, b, p + 1);
    }
}

/// The end of an open or self-closing tag: the position of its `>` and
/// whether it closes with `/>`, skipping quoted attribute values; a value
/// whose closing quote is missing is skipped by its opening quote alone.
pub open spec fn open_close(s: Seq<u8>, p: int) -> (int, bool)
    decreases s.len() + 1 - p,
{
    if p < 0 || p >= s.len() || s[p] == GT {
        (p, false)
    } else if s[p] == SLASH && p + 1 < s.len() && s[p + 1] == GT {
        (p + 1, true)
    } else if s[p] == DQUOTE || s[p] == SQUOTE {
        match find_from(s, s[p], p + 1) {
            Some(g) => {
                proof { lemma_find_from(s, s[p], p + 1); }
                open_close(s, g + 1)
            },
            None => open_close(s, p + 2),
        }
    } else {
        open_close(s, p + 1)
    }
}

/// `<![CDATA[` begins at `q`.
pub open spec fn cdata_open_at(s: Seq<u8>, q: int) -> bool {
    &&& q + 9 <= s.len()
    &&& s[q + 2] == LBRACKET && s[q + 3] == UPPER_C && s[q + 4] == UPPER_D
    &&& s[q + 5] == UPPER_A && s[q + 6] == UPPER_T && s[q + 7] == UPPER_A && s[q + 8] == LBRACKET
}

/// `<!--` begins at `q`.
pub open spec fn comment_open_at(s: Seq<u8>, q: int) -> bool {
    q + 4 <= s.len() && s[q + 2] == DASH && s[q + 3] == DASH
}

/// One recorded tag, with absolute offsets.
pub struct TagTok {
    pub start: int,
    pub end: int,
    pub kind: TagType,
    pub name_start: int,
    pub name_len: int,
}

/// One recorded text range, with absolute offsets.
pub struct TextTok {
    pub start: int,
    pub end: int,
}

/// What scanning a chunk records: its tags and texts, in document order,
/// and the start of a construct left open at the end of the chunk, if the
/// scan ran past the end.
pub struct ChunkModel {
    pub tags: Seq<TagTok>,
    pub texts: Seq<TextTok>,
    pub overrun: Option<int>,
}

/// What the construct beginning with `<` at `q` contributes: the tag it
/// records, the CDATA content it records, the position of its last byte,
/// and whether scanning stops there (an unterminated close or open tag).
pub struct Step {
    pub tag: Option<TagTok>,
    pub text: Option<TextTok>,
    pub end: int,
    pub stop: bool,
}

/// Name length as the index stores it (16 bits).
pub open spec fn name_len16(len: int) -> int {
    (len as u16) as int
}

/// The construct that begins with `<` at `q` (`q + 1` inside the chunk).
pub open spec fn step_at(s: Seq<u8>, base: int, q: int) -> Step {
    let c = s[q + 1];
    if c == SLASH {
        let ne = name_end(s, 0, q + 2);
        match find_from(s, GT, ne) {
            None => Step { tag: None, text: None, end: q, stop: true },
            Some(g) => Step {
                tag: Some(TagTok { start: base + q, end: base + g, kind: TagType::Close,
                    name_start: base + q + 2, name_len: name_len16(ne - (q + 2)) }),
                text: None,
                end: g,
                stop: false,
            },
        }
    } else if c == BANG {
        if comment_open_at(s, q) {
            let e = comment_close(s, q + 4);
            Step {
                tag: Some(TagTok { start: base + q, end: base + e, kind: TagType::Comment,
                    name_start: 0, name_len: 0 }),
                text: None,
                end: e,
                stop: false,
            }
        } else if cdata_open_at(s, q) {
            let (p, found) = cdata_close(s, q + 9, q + 9);
            let e = if found { p + 2 } else { p };
            Step {
                tag: Some(TagTok { start: base + q, end: base + e, kind: TagType::CData,
                    name_start: 0, name_len: 0 }),
                text: if found && p > q + 9 { Some(TextTok { start: base + q + 9, end: base + p }) } else { None },
                end: e,
                stop: false,
            }
        } else {
            let e = match find_from(s, GT, q) { Some(g) => g, None => q };
            Step { tag: None, text: None, end: e, stop: false }
        }
    } else if c == QUESTION {
        let ne = name_end(s, 1, q + 2);
        let e = pi_close(s, ne);
        Step {
            tag: Some(TagTok { start: base + q, end: base + e, kind: TagType::PI,
                name_start: base + q + 2, name_len: name_len16(ne - (q + 2)) }),
            text: None,
            end: e,
            stop: false,
        }
    } else {
        let ne = name_end(s, 2, q + 1);
        let (e, self_closing) = open_close(s, ne);
        if e >= s.len() {
            Step { tag: None, text: None, end: q, stop: true }
        } else {
            Step {
                tag: Some(TagTok { start: base + q, end: base + e,
                    kind: if self_closing { TagType::SelfClose } else { TagType::Open },
                    name_start: base + q + 1, name_len: name_len16(ne - (q + 1)) }),
                text: None,
                end: e,
                stop: false,
            }
        }
    }
}

/// Appends what one step records.
pub open spec fn record(m: ChunkModel, st: Step) -> ChunkModel {
    ChunkModel {
        tags: match st.tag { Some(t) => m.tags.push(t), None => m.tags },
        texts: match st.text { Some(t) => m.texts.push(t), None => m.texts },
        overrun: m.overrun,
    }
}

/// Scanning from `pos`, the previous construct having ended at `last`
/// (0 before the first), with `acc` recorded so far.
pub open spec fn scan(s: Seq<u8>, base: int, pos: int, last: int, acc: ChunkModel) -> ChunkModel
    decreases s.len() - pos,
{
    if pos < 0 {
        acc
    } else {
        match find_from(s, LT, pos) {
            None => acc,
            Some(q) => {
                proof { lemma_find_from(s, LT, pos); }
                let text_start = if last > 0 { last + 1 } else { 0 };
                let acc1 = if text_start < q {
                    ChunkModel { texts: acc.texts.push(TextTok { start: base + text_start, end: base + q }), ..acc }
                } else {
                    acc
                };
                if q + 1 >= s.len() {
                    acc1
                } else {
                    let st = step_at(s, base, q);
                    let acc2 = record(acc1, st);
                    if st.stop {
                        acc2
                    } else if st.end >= s.len() {
                        ChunkModel { overrun: Some(base + q), ..acc2 }
                    } else if st.end < q {
                        acc2
                    } else {
                        scan(s, base, st.end + 1, st.end, acc2)
                    }
                }
            }
        }
    }
}

/// The whole chunk scanned.
pub open spec fn scan_chunk(s: Seq<u8>, base: int) -> ChunkModel {
    scan(s, base, 0, 0, ChunkModel { tags: seq![], texts: seq![], overrun: None })
}

} // verus!
