//! Chunked parsing: split a document at safe boundaries, scan each chunk for
//! its structural positions, then merge the chunks and compute depth and
//! parent relationships in one sequential pass.

pub mod grammar;
pub mod scanner;
pub mod merge;
pub mod split;
pub mod laws;

use vstd::prelude::*;
use crate::index::{TagType, TextRange};
use self::grammar::{ChunkModel, Step, TagTok, TextTok, step_at, record, scan, scan_chunk,
    find_from, lemma_find_from, name_end, comment_close, cdata_close, pi_close, open_close,
    comment_open_at, cdata_open_at, name_len16, LT, GT, SLASH, BANG, QUESTION, DASH, LBRACKET,
    UPPER_C, UPPER_D, UPPER_A, UPPER_T};
use self::scanner::{find_byte, scan_name, scan_comment, scan_cdata, scan_pi, scan_open};

verus! {

/// A single chunk's parse results (no depth/parent — those need global state).
pub struct ChunkResult {
    pub(crate) tag_starts: Vec<u32>,
    pub(crate) tag_ends: Vec<u32>,
    pub(crate) tag_types: Vec<TagType>,
    pub(crate) tag_names: Vec<(u32, u16)>,
    pub(crate) text_ranges: Vec<TextRange>,
}

impl ChunkResult {
    /// The tags recorded, in order.
    pub closed spec fn tags_view(&self) -> Seq<TagTok> {
        Seq::new(self.tag_starts@.len(), |i: int| TagTok {
            start: self.tag_starts@[i] as int,
            end: self.tag_ends@[i] as int,
            kind: self.tag_types@[i],
            name_start: self.tag_names@[i].0 as int,
            name_len: self.tag_names@[i].1 as int,
        })
    }

    /// The text ranges recorded, in order.
    pub closed spec fn texts_view(&self) -> Seq<TextTok> {
        Seq::new(self.text_ranges@.len(), |i: int| TextTok {
            start: self.text_ranges@[i].start as int,
            end: self.text_ranges@[i].end as int,
        })
    }

    /// No text range has a parent yet: each holds `u32::MAX`, which the
    /// merge replaces with the innermost open element.
    pub closed spec fn text_parents_unset(&self) -> bool {
        forall|i: int| 0 <= i < self.text_ranges@.len() ==> (#[trigger] self.text_ranges@[i]).parent_tag == u32::MAX
    }

    /// The four tag arrays have one entry per tag, and no text range has a
    /// parent yet.
    pub closed spec fn wf(&self) -> bool {
        &&& self.text_parents_unset()
        &&& self.tag_ends@.len() == self.tag_starts@.len()
        &&& self.tag_types@.len() == self.tag_starts@.len()
        &&& self.tag_names@.len() == self.tag_starts@.len()
    }

    pub closed spec fn model(&self) -> ChunkModel {
        ChunkModel { tags: self.tags_view(), texts: self.texts_view(), overrun: None }
    }
}

impl ChunkResult {
    fn empty() -> (r: ChunkResult)
        ensures
            r.wf(),
            r.model() == (ChunkModel { tags: seq![], texts: seq![], overrun: None }),
    {
        let r = ChunkResult {
            tag_starts: Vec::new(),
            tag_ends: Vec::new(),
            tag_types: Vec::new(),
            tag_names: Vec::new(),
            text_ranges: Vec::new(),
        };
        assert(r.tags_view() =~= seq![]);
        assert(r.texts_view() =~= seq![]);
        r
    }

    fn push_text(&mut self, start: u32, end: u32)
        requires
            old(self).wf(),
        ensures
            final(self).wf(),
            final(self).tags_view() == old(self).tags_view(),
            final(self).texts_view() == old(self).texts_view().push(TextTok { start: start as int, end: end as int }),
    {
        self.text_ranges.push(TextRange { start, end, parent_tag: u32::MAX });
        assert(self.tags_view() =~= old(self).tags_view());
        assert(self.texts_view() =~= old(self).texts_view().push(TextTok { start: start as int, end: end as int }));
    }

    fn push_tag(&mut self, t: (u32, u32, TagType, u32, u16))
        requires
            old(self).wf(),
        ensures
            final(self).wf(),
            final(self).texts_view() == old(self).texts_view(),
            final(self).tags_view() == old(self).tags_view().push(TagTok { start: t.0 as int,
                end: t.1 as int, kind: t.2, name_start: t.3 as int, name_len: t.4 as int }),
    {
        self.tag_starts.push(t.0);
        self.tag_ends.push(t.1);
        self.tag_types.push(t.2);
        self.tag_names.push((t.3, t.4));
        assert(self.texts_view() =~= old(self).texts_view());
        assert(self.tags_view() =~= old(self).tags_view().push(TagTok { start: t.0 as int,
                end: t.1 as int, kind: t.2, name_start: t.3 as int, name_len: t.4 as int }));
    }
}

/// Scans a chunk whose first byte is at offset `chunk_start` of the
/// document; also reports the start of a construct that runs past the end
/// of the chunk, where the scan stops.
pub fn scan_chunk_exec(chunk: &[u8], chunk_start: usize) -> (r: (ChunkResult, Option<usize>))
    requires
        chunk_start + chunk@.len() < u32::MAX,
    ensures
        r.0.wf(),
        r.0.text_parents_unset(),
        r.0.tags_view() == scan_chunk(chunk@, chunk_start as int).tags,
        r.0.texts_view() == scan_chunk(chunk@, chunk_start as int).texts,
        scan_chunk(chunk@, chunk_start as int).overrun == match r.1 {
            Some(o) => Some(o as int),
            None => None::<int>,
        },
{
    let len = chunk.len();
    let mut result = ChunkResult::empty();
    let mut pos: usize = 0;
    let mut last: usize = 0;
    loop
        invariant
            result.wf(),
            pos <= len,
            last <= len,
            len == chunk@.len(),
            chunk_start + len < u32::MAX,
            scan(chunk@, chunk_start as int, pos as int, last as int, result.model())
                == scan_chunk(chunk@, chunk_start as int),
        decreases len - pos,
    {
        let ghost m0 = result.model();
        match find_byte(chunk, LT, pos) {
            None => {
                return (result, None);
            },
            Some(q) => {
                proof { lemma_find_from(chunk@, LT, pos as int); }
                let text_start = if last > 0 { last + 1 } else { 0 };
                if text_start < q {
                    result.push_text((chunk_start + text_start) as u32, (chunk_start + q) as u32);
                }
                let ghost m1 = result.model();
                assert(m1 == (if text_start < q {
                    ChunkModel { texts: m0.texts.push(TextTok { start: chunk_start + text_start,
                        end: chunk_start + q }), ..m0 }
                } else {
                    m0
                }));
                if q + 1 >= len {
                    return (result, None);
                }
                let st = scan_step(chunk, chunk_start, q);
                match st.tag {
                    Some(t) => { result.push_tag(t); },
                    None => {},
                }
                match st.text {
                    Some(t) => { result.push_text(t.0, t.1); },
                    None => {},
                }
                assert(result.model() == record(m1, st.view()));
                if st.stop {
                    return (result, None);
                }
                if st.end >= len {
                    return (result, Some(chunk_start + q));
                }
                last = st.end;
                pos = st.end + 1;
            },
        }
    }
}

/// Parse a single chunk, extracting structural positions.
///
/// `full_input` is the complete XML, `chunk` the slice being parsed and
/// `chunk_start` the byte offset of `chunk` within `full_input`. The chunk
/// must not end inside a comment, CDATA section or processing instruction.
pub fn parse_chunk(full_input: &[u8], chunk: &[u8], chunk_start: usize) -> (r: ChunkResult)
    requires
        chunk_start + chunk@.len() < u32::MAX,
        scan_chunk(chunk@, chunk_start as int).overrun is None,
    ensures
        r.wf(),
        r.text_parents_unset(),
        r.tags_view() == scan_chunk(chunk@, chunk_start as int).tags,
        r.texts_view() == scan_chunk(chunk@, chunk_start as int).texts,
{
    let (r, _) = scan_chunk_exec(chunk, chunk_start);
    r
}

/// What one construct contributes, as the scanner computes it.
struct ScanStep {
    tag: Option<(u32, u32, TagType, u32, u16)>,
    text: Option<(u32, u32)>,
    end: usize,
    stop: bool,
}

impl ScanStep {
    spec fn view(&self) -> Step {
        Step {
            tag: match self.tag {
                Some(t) => Some(TagTok { start: t.0 as int, end: t.1 as int, kind: t.2,
                    name_start: t.3 as int, name_len: t.4 as int }),
                None => None,
            },
            text: match self.text {
                Some(t) => Some(TextTok { start: t.0 as int, end: t.1 as int }),
                None => None,
            },
            end: self.end as int,
            stop: self.stop,
        }
    }
}

/// A name length as the index stores it.
fn name16(len: usize) -> (r: u16)
    ensures
        r as int == name_len16(len as int),
{
    #[verifier::truncate] (len as u16)
}

/// Scans the construct that begins with `<` at `q`.
fn scan_step(chunk: &[u8], base: usize, q: usize) -> (r: ScanStep)
    requires
        q + 1 < chunk@.len(),
        base + chunk@.len() < u32::MAX,
    ensures
        r.view() == step_at(chunk@, base as int, q as int),
        r.end <= chunk@.len(),
        !r.stop ==> q <= r.end,
{
    let len = chunk.len();
    let c = chunk[q + 1];
    if c == SLASH {
        let ne = scan_name(chunk, 0, q + 2);
        match find_byte(chunk, GT, ne) {
            None => ScanStep { tag: None, text: None, end: q, stop: true },
            Some(g) => {
                proof { lemma_find_from(chunk@, GT, ne as int); }
                ScanStep {
                    tag: Some(((base + q) as u32, (base + g) as u32, TagType::Close,
                        (base + q + 2) as u32, name16(ne - (q + 2)))),
                    text: None,
                    end: g,
                    stop: false,
                }
            },
        }
    } else if c == BANG {
        if len - q >= 4 && chunk[q + 2] == DASH && chunk[q + 3] == DASH {
            let e = scan_comment(chunk, q + 4);
            ScanStep {
                tag: Some(((base + q) as u32, (base + e) as u32, TagType::Comment, 0, 0)),
                text: None,
                end: e,
                stop: false,
            }
        } else if len - q >= 9 && chunk[q + 2] == LBRACKET && chunk[q + 3] == UPPER_C
            && chunk[q + 4] == UPPER_D && chunk[q + 5] == UPPER_A && chunk[q + 6] == UPPER_T
            && chunk[q + 7] == UPPER_A && chunk[q + 8] == LBRACKET {
            let (p, found) = scan_cdata(chunk, q + 9);
            let e = if found { p + 2 } else { p };
            let text = if found && p > q + 9 {
                Some(((base + q + 9) as u32, (base + p) as u32))
            } else {
                None
            };
            ScanStep {
                tag: Some(((base + q) as u32, (base + e) as u32, TagType::CData, 0, 0)),
                text: text,
                end: e,
                stop: false,
            }
        } else {
            let e = match find_byte(chunk, GT, q) {
                Some(g) => {
                    proof { lemma_find_from(chunk@, GT, q as int); }
                    g
                },
                None => q,
            };
            ScanStep { tag: None, text: None, end: e, stop: false }
        }
    } else if c == QUESTION {
        let ne = scan_name(chunk, 1, q + 2);
        let e = scan_pi(chunk, ne);
        ScanStep {
            tag: Some(((base + q) as u32, (base + e) as u32, TagType::PI,
                (base + q + 2) as u32, name16(ne - (q + 2)))),
            text: None,
            end: e,
            stop: false,
        }
    } else {
        let ne = scan_name(chunk, 2, q + 1);
        let (e, self_closing) = scan_open(chunk, ne);
        if e >= len {
            ScanStep { tag: None, text: None, end: q, stop: true }
        } else {
            let kind = if self_closing { TagType::SelfClose } else { TagType::Open };
            ScanStep {
                tag: Some(((base + q) as u32, (base + e) as u32, kind,
                    (base + q + 1) as u32, name16(ne - (q + 1)))),
                text: None,
                end: e,
                stop: false,
            }
        }
    }
}

} // verus!
