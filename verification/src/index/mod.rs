//! The structural index: flat arrays describing every tag and text range of
//! an XML document, with no DOM tree.

pub mod model;
pub mod csr;
pub mod structural;
pub mod tags;

use vstd::prelude::*;
use vstd::slice::slice_subrange;
use vstd::string::StringSliceAdditionalSpecFns;
use crate::text::{utf8_str, push_char};
use self::model::{IndexView, TagInfo, TextInfo, utf8_or_empty, strip_tags, open_stack, closes, model_close,
    lemma_open_stack, lemma_model_close_is};
use self::csr::{group, group_by_key, filled};

verus! {

/// Kind of a tag in the structural index.
#[derive(Debug, Clone, Copy, PartialEq, Eq, Structural)]
pub enum TagType {
    /// `<tag>`
    Open,
    /// `</tag>`
    Close,
    /// `<tag/>`
    SelfClose,
    /// `<!-- ... -->`
    Comment,
    /// `<![CDATA[ ... ]]>`
    CData,
    /// `<?target ... ?>`
    PI,
}

/// A text content node between tags.
#[derive(Debug, Clone, Copy, PartialEq, Eq, Structural)]
pub struct TextRange {
    /// Byte offset of text start
    pub start: u32,
    /// Byte offset of text end (exclusive)
    pub end: u32,
    /// Index of the parent open tag, `u32::MAX` at the top level
    pub parent_tag: u32,
}

/// The structural index — flat arrays, no DOM tree.
///
/// Built from XML bytes in one pass. Enables random-access evaluation of the
/// XPath axes via array operations instead of pointer-chasing through a DOM.
pub struct XmlIndex<'a> {
    /// Original XML bytes (borrowed, not copied)
    pub(crate) input: &'a [u8],
    /// Byte offset of each '<' (start of each tag/comment/PI)
    pub(crate) tag_starts: Vec<u32>,
    /// Byte offset of each '>' (end of each tag/comment/PI)
    pub(crate) tag_ends: Vec<u32>,
    /// Tag type classification
    pub tag_types: Vec<TagType>,
    /// Tag name: (byte offset, length) into input
    pub(crate) tag_names: Vec<(u32, u16)>,
    /// Nesting depth of each tag (0 = root level)
    pub(crate) depths: Vec<u16>,
    /// Index of parent tag. Root-level tags have parent = u32::MAX.
    pub(crate) parents: Vec<u32>,
    /// Text content ranges between tags
    pub(crate) text_ranges: Vec<TextRange>,
    /// CSR children: offsets[i]..offsets[i+1] into child_data gives children of tag i.
    pub(crate) child_offsets: Vec<u32>,
    /// Flat array of child tag indices, referenced by child_offsets.
    pub(crate) child_data: Vec<u32>,
    /// CSR text children: text_child_offsets[i]..text_child_offsets[i+1] into text_child_data.
    pub(crate) text_child_offsets: Vec<u32>,
    /// Flat array of text range indices, referenced by text_child_offsets.
    pub(crate) text_child_data: Vec<u32>,
    /// Matching close tag for each open tag. u32::MAX = no match.
    pub(crate) close_map: Vec<u32>,
}

/// `u32::MAX` stands for "none" in the index arrays.
pub open spec fn opt_index(x: u32) -> Option<nat> {
    if x == u32::MAX { None } else { Some(x as nat) }
}

impl<'a> View for XmlIndex<'a> {
    type V = IndexView;

    closed spec fn view(&self) -> IndexView {
        IndexView {
            input: self.input@,
            tags: Seq::new(self.tag_starts@.len(), |i: int| TagInfo {
                start: self.tag_starts@[i] as nat,
                end: self.tag_ends@[i] as nat,
                kind: self.tag_types@[i],
                name_start: self.tag_names@[i].0 as nat,
                name_len: self.tag_names@[i].1 as nat,
                depth: self.depths@[i] as nat,
                parent: opt_index(self.parents@[i]),
                close: opt_index(self.close_map@[i]),
            }),
            texts: Seq::new(self.text_ranges@.len(), |t: int| TextInfo {
                start: self.text_ranges@[t].start as nat,
                end: self.text_ranges@[t].end as nat,
                parent: opt_index(self.text_ranges@[t].parent_tag),
            }),
        }
    }
}

impl<'a> XmlIndex<'a> {
    /// The arrays agree in length, every position lies inside the input and
    /// parents precede their children (the precomputed indices aside).
    pub(crate) closed spec fn pre_wf(&self) -> bool {
        let n = self.tag_starts@.len();
        &&& self.input@.len() < u32::MAX
        &&& n < u32::MAX
        &&& self.tag_ends@.len() == n
        &&& self.tag_types@.len() == n
        &&& self.tag_names@.len() == n
        &&& self.depths@.len() == n
        &&& self.parents@.len() == n
        &&& self.text_ranges@.len() < u32::MAX
        &&& self@.positions_ok()
        &&& self@.links_ok()
    }

    /// The children index (CSR) holds, for every tag, its child tags.
    closed spec fn children_ok(&self) -> bool {
        let n = self.tag_starts@.len();
        let off = self.child_offsets@;
        &&& off.len() == n + 1
        &&& off[n as int] == self.child_data@.len()
        &&& forall|a: int, b: int| 0 <= a <= b <= n ==> off[a] <= off[b]
        &&& forall|p: int| 0 <= p < n ==> (#[trigger] off[p + 1]) - off[p] == self@.tag_children(p).len()
        &&& forall|p: int, j: int| 0 <= p < n && 0 <= j < self@.tag_children(p).len() ==>
            self.child_data@[off[p] + j] as int == #[trigger] self@.tag_children(p)[j]
    }

    /// The text index (CSR) holds, for every tag, the texts directly under it.
    closed spec fn text_children_ok(&self) -> bool {
        let n = self.tag_starts@.len();
        let off = self.text_child_offsets@;
        &&& off.len() == n + 1
        &&& off[n as int] == self.text_child_data@.len()
        &&& forall|a: int, b: int| 0 <= a <= b <= n ==> off[a] <= off[b]
        &&& forall|p: int| 0 <= p < n ==> (#[trigger] off[p + 1]) - off[p] == self@.text_children(p).len()
        &&& forall|p: int, j: int| 0 <= p < n && 0 <= j < self@.text_children(p).len() ==>
            self.text_child_data@[off[p] + j] as int == #[trigger] self@.text_children(p)[j]
    }

    /// The index is complete and consistent.
    pub closed spec fn wf(&self) -> bool {
        &&& self.pre_wf()
        &&& self.close_map@.len() == self.tag_starts@.len()
        &&& self@.wf()
        &&& self.children_ok()
        &&& self.text_children_ok()
    }

    pub(crate) proof fn lemma_wf_view(&self)
        requires
            self.pre_wf(),
        ensures
            self@.positions_ok(),
            self@.links_ok(),
            self@.input == self.input@,
            self@.tags.len() == self.tag_starts@.len(),
            self@.texts.len() == self.text_ranges@.len(),
    {
    }

    /// What a complete index guarantees of its view and public arrays.
    pub(crate) proof fn lemma_wf(&self)
        requires
            self.wf(),
        ensures
            self@.wf(),
            self@.input.len() < u32::MAX,
            self@.tags.len() < u32::MAX,
            self@.texts.len() < u32::MAX,
            self.tag_types@.len() == self@.tags.len(),
            forall|i: int| 0 <= i < self@.tags.len() ==> #[trigger] self.tag_types@[i] == self@.tags[i].kind,
    {
    }

    /// Nesting depth of tag `i`.
    pub(crate) fn depth_at(&self, i: usize) -> (r: u16)
        requires
            self.wf(),
            i < self@.tags.len(),
        ensures
            r as nat == self@.tags[i as int].depth,
    {
        self.depths[i]
    }

    /// Parent of tag `i`, `u32::MAX` at the top level.
    pub(crate) fn parent_at(&self, i: usize) -> (r: u32)
        requires
            self.wf(),
            i < self@.tags.len(),
        ensures
            opt_index(r) == self@.tags[i as int].parent,
    {
        self.parents[i]
    }

    /// Text range `t`.
    pub(crate) fn text_range_at(&self, t: usize) -> (r: &TextRange)
        requires
            self.wf(),
            t < self@.texts.len(),
        ensures
            r.start as nat == self@.texts[t as int].start,
            r.end as nat == self@.texts[t as int].end,
            opt_index(r.parent_tag) == self@.texts[t as int].parent,
    {
        &self.text_ranges[t]
    }

    /// Number of tags in the index.
    pub fn tag_count(&self) -> (n: usize)
        ensures
            n == self@.tags.len(),
    {
        self.tag_starts.len()
    }

    /// Number of text content ranges.
    pub fn text_count(&self) -> (n: usize)
        ensures
            n == self@.texts.len(),
    {
        self.text_ranges.len()
    }

    /// Get the tag name as a string slice; empty when the index is out of
    /// range or the name is not valid UTF-8.
    pub fn tag_name(&self, tag_idx: usize) -> (r: &'a str)
        requires
            self.wf(),
        ensures
            r@ == (if tag_idx < self@.tags.len() {
                utf8_or_empty(self@.name_bytes(tag_idx as int))
            } else {
                Seq::<char>::empty()
            }),
    {
        proof { reveal_strlit(""); }
        if tag_idx >= self.tag_names.len() {
            return "";
        }
        let (offset, len) = self.tag_names[tag_idx];
        assert(self@.tags[tag_idx as int].name_start == offset);
        let bytes = slice_subrange(self.input, offset as usize, (offset + len as u32) as usize);
        match utf8_str(bytes) {
            Some(s) => s,
            None => "",
        }
    }

    /// Fast tag name comparison on bytes (no UTF-8 validation).
    pub fn tag_name_eq(&self, tag_idx: usize, name: &str) -> (r: bool)
        requires
            self.wf(),
            tag_idx < self@.tags.len(),
        ensures
            r == (self@.name_bytes(tag_idx as int) == name.spec_bytes()),
    {
        let (off, len) = self.tag_names[tag_idx];
        assert(self@.tags[tag_idx as int].name_start == off);
        let name_bytes = name.as_bytes();
        if name_bytes.len() != len as usize {
            return false;
        }
        let stored = slice_subrange(self.input, off as usize, off as usize + len as usize);
        bytes_eq(stored, name_bytes)
    }

    /// Get the text content of a text range; empty when it is not valid UTF-8.
    pub fn text_content(&self, range: &TextRange) -> (r: &'a str)
        requires
            range.start <= range.end <= self@.input.len(),
        ensures
            r@ == utf8_or_empty(self@.input.subrange(range.start as int, range.end as int)),
    {
        proof { reveal_strlit(""); }
        let bytes = slice_subrange(self.input, range.start as usize, range.end as usize);
        match utf8_str(bytes) {
            Some(s) => s,
            None => "",
        }
    }

    /// Find the index of the close tag matching an open tag (a self-closing
    /// tag is its own match).
    pub fn matching_close(&self, open_idx: usize) -> (r: Option<usize>)
        requires
            self.wf(),
        ensures
            r == (if open_idx < self@.tags.len() {
                match self@.tags[open_idx as int].close {
                    Some(c) => Some(c as usize),
                    None => None,
                }
            } else {
                None::<usize>
            }),
    {
        if open_idx >= self.tag_count() {
            return None;
        }
        let close = self.close_map[open_idx];
        if close != u32::MAX { Some(close as usize) } else { None }
    }
}

impl<'a> XmlIndex<'a> {
    /// An index of the given arrays, with its precomputed indices built.
    pub(crate) fn assemble(
        input: &'a [u8],
        tag_starts: Vec<u32>,
        tag_ends: Vec<u32>,
        tag_types: Vec<TagType>,
        tag_names: Vec<(u32, u16)>,
        depths: Vec<u16>,
        parents: Vec<u32>,
        text_ranges: Vec<TextRange>,
    ) -> (r: XmlIndex<'a>)
        requires
            input@.len() < u32::MAX,
            tag_starts@.len() < u32::MAX,
            tag_ends@.len() == tag_starts@.len(),
            tag_types@.len() == tag_starts@.len(),
            tag_names@.len() == tag_starts@.len(),
            depths@.len() == tag_starts@.len(),
            parents@.len() == tag_starts@.len(),
            text_ranges@.len() < u32::MAX,
            forall|i: int| 0 <= i < tag_starts@.len() ==> {
                &&& tag_starts@[i] <= #[trigger] tag_ends@[i] < input@.len()
                &&& tag_names@[i].0 + tag_names@[i].1 <= input@.len()
                &&& (parents@[i] == u32::MAX || parents@[i] < i)
            },
            forall|t: int| 0 <= t < text_ranges@.len() ==> {
                let x = #[trigger] text_ranges@[t];
                &&& x.start <= x.end <= input@.len()
                &&& (x.parent_tag == u32::MAX || x.parent_tag < tag_starts@.len())
            },
        ensures
            r.wf(),
            r@.input == input@,
            r@.tags.len() == tag_starts@.len(),
            forall|i: int| 0 <= i < tag_starts@.len() ==> #[trigger] r@.tags[i] == (TagInfo {
                start: tag_starts@[i] as nat,
                end: tag_ends@[i] as nat,
                kind: tag_types@[i],
                name_start: tag_names@[i].0 as nat,
                name_len: tag_names@[i].1 as nat,
                depth: depths@[i] as nat,
                parent: opt_index(parents@[i]),
                close: model_close(tag_types@, i),
            }),
            r@.texts.len() == text_ranges@.len(),
            forall|t: int| 0 <= t < text_ranges@.len() ==> #[trigger] r@.texts[t] == (TextInfo {
                start: text_ranges@[t].start as nat,
                end: text_ranges@[t].end as nat,
                parent: opt_index(text_ranges@[t].parent_tag),
            }),
    {
        let mut index = XmlIndex {
            input,
            tag_starts,
            tag_ends,
            tag_types,
            tag_names,
            depths,
            parents,
            text_ranges,
            child_offsets: Vec::new(),
            child_data: Vec::new(),
            text_child_offsets: Vec::new(),
            text_child_data: Vec::new(),
            close_map: Vec::new(),
        };
        proof {
            assert(index@.kinds() =~= index.tag_types@);
        }
        index.build_indices();
        index
    }
}

impl<'a> XmlIndex<'a> {
    /// Child tag indices of a tag (from the precomputed index); empty for an
    /// index out of range.
    pub(crate) fn child_tag_slice(&self, parent_idx: usize) -> (r: &[u32])
        requires
            self.wf(),
        ensures
            r@.len() == (if parent_idx < self@.tags.len() { self@.tag_children(parent_idx as int).len() } else { 0 }),
            forall|j: int| 0 <= j < r@.len() ==> r@[j] as int == #[trigger] self@.tag_children(parent_idx as int)[j],
    {
        if parent_idx >= self.child_offsets.len() - 1 {
            return slice_subrange(self.child_data.as_slice(), 0, 0);
        }
        let start = self.child_offsets[parent_idx] as usize;
        let end = self.child_offsets[parent_idx + 1] as usize;
        proof {
            assert(self.child_offsets@[parent_idx as int + 1] <= self.child_offsets@[self@.tags.len() as int]);
        }
        let r = slice_subrange(self.child_data.as_slice(), start, end);
        proof {
            assert forall|j: int| 0 <= j < r@.len() implies r@[j] as int == #[trigger] self@.tag_children(parent_idx as int)[j] by {
                assert(r@[j] == self.child_data@[start + j]);
            }
        }
        r
    }

    /// Text range indices directly under a tag (from the precomputed index);
    /// empty for an index out of range.
    pub(crate) fn child_text_slice(&self, parent_idx: usize) -> (r: &[u32])
        requires
            self.wf(),
        ensures
            r@.len() == (if parent_idx < self@.tags.len() { self@.text_children(parent_idx as int).len() } else { 0 }),
            forall|j: int| 0 <= j < r@.len() ==> r@[j] as int == #[trigger] self@.text_children(parent_idx as int)[j],
    {
        if parent_idx >= self.text_child_offsets.len() - 1 {
            return slice_subrange(self.text_child_data.as_slice(), 0, 0);
        }
        let start = self.text_child_offsets[parent_idx] as usize;
        let end = self.text_child_offsets[parent_idx + 1] as usize;
        proof {
            assert(self.text_child_offsets@[parent_idx as int + 1] <= self.text_child_offsets@[self@.tags.len() as int]);
        }
        let r = slice_subrange(self.text_child_data.as_slice(), start, end);
        proof {
            assert forall|j: int| 0 <= j < r@.len() implies r@[j] as int == #[trigger] self@.text_children(parent_idx as int)[j] by {
                assert(r@[j] == self.text_child_data@[start + j]);
            }
        }
        r
    }

    /// Get children (direct child elements: open and self-closing tags) of
    /// a tag, in document order; empty for an index out of range.
    pub fn children(&self, parent_idx: usize) -> (r: Vec<usize>)
        requires
            self.wf(),
        ensures
            r@.map_values(|x: usize| x as int)
                == (if parent_idx < self@.tags.len() { self@.element_children(parent_idx as int) } else { seq![] }),
    {
        let s = self.child_tag_slice(parent_idx);
        let ghost cs: Seq<int> = if parent_idx < self@.tags.len() { self@.tag_children(parent_idx as int) } else { seq![] };
        proof {
            if parent_idx < self@.tags.len() {
                lemma_children_below(self@, parent_idx as int, self@.tags.len() as int);
            }
            assert(s@.len() == cs.len());
            assert(cs.take(0) =~= seq![]);
        }
        let mut r: Vec<usize> = Vec::with_capacity(s.len());
        let mut j: usize = 0;
        while j < s.len()
            invariant
                self.wf(),
                j <= s@.len(),
                s@.len() == cs.len(),
                forall|x: int| 0 <= x < s@.len() ==> s@[x] as int == #[trigger] cs[x],
                forall|x: int| 0 <= x < cs.len() ==> 0 <= #[trigger] cs[x] < self@.tags.len(),
                r@.map_values(|x: usize| x as int) == self@.elements_of(cs.take(j as int)),
            decreases s@.len() - j,
        {
            let c = s[j] as usize;
            proof {
                assert(cs[j as int] == c);
                assert(cs.take(j + 1).drop_last() =~= cs.take(j as int));
                assert(cs.take(j + 1).last() == c);
                assert(self@.tags[c as int].kind == self.tag_types@[c as int]);
            }
            let ghost before = r@.map_values(|x: usize| x as int);
            let k = self.tag_types[c];
            if k == TagType::Open || k == TagType::SelfClose {
                r.push(c);
                proof { assert(r@.map_values(|x: usize| x as int) =~= before.push(c as int)); }
            }
            j = j + 1;
        }
        proof {
            assert(cs.take(j as int) =~= cs);
            if parent_idx >= self@.tags.len() {
                assert(self@.elements_of(seq![]) == Seq::<int>::empty());
            }
        }
        r
    }

    /// Get text content directly under a tag (not nested), in document order.
    pub fn direct_text(&self, tag_idx: usize) -> (r: Vec<&'a str>)
        requires
            self.wf(),
        ensures
            r@.len() == (if tag_idx < self@.tags.len() { self@.text_children(tag_idx as int).len() } else { 0 }),
            forall|j: int| 0 <= j < r@.len() ==> (#[trigger] r@[j])@
                == utf8_or_empty(self@.text_bytes(self@.text_children(tag_idx as int)[j])),
    {
        let s = self.child_text_slice(tag_idx);
        let mut r: Vec<&'a str> = Vec::with_capacity(s.len());
        let mut j: usize = 0;
        while j < s.len()
            invariant
                self.wf(),
                j <= s@.len(),
                r@.len() == j,
                forall|x: int| 0 <= x < s@.len() ==> s@[x] as int == #[trigger] self@.text_children(tag_idx as int)[x],
                s@.len() == (if tag_idx < self@.tags.len() { self@.text_children(tag_idx as int).len() } else { 0 }),
                forall|x: int| 0 <= x < j ==> (#[trigger] r@[x])@
                    == utf8_or_empty(self@.text_bytes(self@.text_children(tag_idx as int)[x])),
            decreases s@.len() - j,
        {
            let ti = s[j] as usize;
            proof {
                assert(s@[j as int] as int == self@.text_children(tag_idx as int)[j as int]);
                lemma_text_children_bounds(self@, tag_idx as int, self@.texts.len() as int);
                assert(self@.text_children(tag_idx as int) == self@.text_children_upto(tag_idx as int, self@.texts.len() as int));
                assert(0 <= self@.text_children_upto(tag_idx as int, self@.texts.len() as int)[j as int] < self@.texts.len());
                assert(0 <= ti < self@.texts.len());
                assert(self@.texts[ti as int].start == self.text_ranges@[ti as int].start);
            }
            let text = self.text_content(&self.text_ranges[ti]);
            r.push(text);
            j = j + 1;
        }
        r
    }
}

/// The texts under a tag are texts of the index.
proof fn lemma_text_children_bounds(v: IndexView, p: int, k: int)
    requires
        0 <= k <= v.texts.len(),
    ensures
        forall|j: int| 0 <= j < v.text_children_upto(p, k).len() ==>
            0 <= #[trigger] v.text_children_upto(p, k)[j] < k,
    decreases k,
{
    if k > 0 {
        lemma_text_children_bounds(v, p, k - 1);
        let r = v.text_children_upto(p, k - 1);
        assert forall|j: int| 0 <= j < v.text_children_upto(p, k).len() implies
            0 <= #[trigger] v.text_children_upto(p, k)[j] < k by {
            if j < r.len() {
                assert(v.text_children_upto(p, k)[j] == r[j]);
            }
        }
    }
}

impl<'a> XmlIndex<'a> {
    /// Get all text content under a tag (including nested), tags stripped,
    /// read as UTF-8 (each byte as the character with its value when the
    /// text is not UTF-8).
    pub fn all_text(&self, tag_idx: usize) -> (r: String)
        requires
            self.wf(),
            tag_idx < self@.tags.len(),
        ensures
            r@ == self@.all_text(tag_idx as int),
    {
        let close_idx = match self.matching_close(tag_idx) {
            Some(c) => c,
            None => tag_idx,
        };
        proof {
            assert(self@.tags[tag_idx as int].end == self.tag_ends@[tag_idx as int]);
            assert(self@.tags[close_idx as int].start == self.tag_starts@[close_idx as int]);
        }
        let start = self.tag_ends[tag_idx] as usize + 1;
        let end = self.tag_starts[close_idx] as usize;
        if start >= end || start >= self.input.len() {
            return String::new();
        }
        let mut bytes: Vec<u8> = Vec::new();
        let stop = if end < self.input.len() { end } else { self.input.len() };
        let slice = slice_subrange(self.input, start, stop);
        let mut in_tag = false;
        let mut k: usize = 0;
        proof { assert(slice@.skip(0) =~= slice@); }
        while k < slice.len()
            invariant
                k <= slice@.len(),
                bytes@ + strip_tags(slice@.skip(k as int), in_tag) == strip_tags(slice@, false),
            decreases slice@.len() - k,
        {
            let b = slice[k];
            proof {
                assert(slice@.skip(k as int).drop_first() =~= slice@.skip(k + 1));
                assert(slice@.skip(k as int)[0] == b);
            }
            let ghost before = bytes@;
            if b == 0x3cu8 {
                in_tag = true;
            } else if b == 0x3eu8 {
                in_tag = false;
            } else if !in_tag {
                bytes.push(b);
                proof {
                    assert(before + (seq![b] + strip_tags(slice@.skip(k + 1), in_tag))
                        =~= bytes@ + strip_tags(slice@.skip(k + 1), in_tag));
                }
            }
            k = k + 1;
        }
        proof { assert(slice@.skip(k as int) =~= seq![]); assert(bytes@ =~= strip_tags(slice@, false)); }
        match utf8_str(bytes.as_slice()) {
            Some(text) => text.to_owned(),
            None => {
                let mut result = String::new();
                let mut j: usize = 0;
                while j < bytes.len()
                    invariant
                        j <= bytes@.len(),
                        result@ == bytes@.take(j as int).map_values(|x: u8| (x as u32) as char),
                    decreases bytes@.len() - j,
                {
                    let ghost before = result@;
                    push_char(&mut result, bytes[j] as char);
                    proof {
                        assert(bytes@.take(j + 1) =~= bytes@.take(j as int).push(bytes@[j as int]));
                        assert(result@ =~= bytes@.take(j + 1).map_values(|x: u8| (x as u32) as char));
                    }
                    j = j + 1;
                }
                proof { assert(bytes@.take(j as int) =~= bytes@); }
                result
            },
        }
    }
}

/// The child tags of a tag among the first `k` tags are below `k`.
proof fn lemma_children_below(v: IndexView, p: int, k: int)
    requires
        0 <= k <= v.tags.len(),
    ensures
        forall|x: int| 0 <= x < v.tag_children_upto(p, k).len() ==> 0 <= #[trigger] v.tag_children_upto(p, k)[x] < k,
    decreases k,
{
    if k > 0 {
        lemma_children_below(v, p, k - 1);
        let r = v.tag_children_upto(p, k - 1);
        assert forall|x: int| 0 <= x < v.tag_children_upto(p, k).len() implies
            0 <= #[trigger] v.tag_children_upto(p, k)[x] < k by {
            if x < r.len() {
                assert(v.tag_children_upto(p, k)[x] == r[x]);
            }
        }
    }
}

/// The group of key `p` is the children of tag `p` when each tag's key is
/// its parent (close and CDATA tags having none).
proof fn lemma_children_group(v: IndexView, keys: Seq<u32>, p: int, k: int)
    requires
        0 <= p,
        0 <= k <= keys.len() == v.tags.len(),
        forall|i: int| 0 <= i < keys.len() ==> ((#[trigger] keys[i]) as int == p <==>
            (v.tags[i].kind != TagType::Close && v.tags[i].kind != TagType::CData
                && v.tags[i].parent == Some(p as nat))),
    ensures
        group(keys, p, k) == v.tag_children_upto(p, k),
    decreases k,
{
    if k > 0 {
        lemma_children_group(v, keys, p, k - 1);
    }
}

/// The group of key `p` is the texts directly under tag `p` when each
/// text's key is its parent.
proof fn lemma_text_group(v: IndexView, keys: Seq<u32>, p: int, k: int)
    requires
        0 <= p,
        0 <= k <= keys.len() == v.texts.len(),
        forall|i: int| 0 <= i < keys.len() ==> ((#[trigger] keys[i]) as int == p <==>
            v.texts[i].parent == Some(p as nat)),
    ensures
        group(keys, p, k) == v.text_children_upto(p, k),
    decreases k,
{
    if k > 0 {
        lemma_text_group(v, keys, p, k - 1);
    }
}

impl<'a> XmlIndex<'a> {
    /// Build precomputed indices for fast XPath evaluation: the children and
    /// text-children indices and the matching close tag of each open tag.
    #[verifier::loop_isolation(false)]
    pub(crate) fn build_indices(&mut self)
        requires
            old(self).pre_wf(),
        ensures
            final(self).wf(),
            final(self)@.input == old(self)@.input,
            final(self)@.texts == old(self)@.texts,
            final(self)@.tags.len() == old(self)@.tags.len(),
            forall|i: int| 0 <= i < final(self)@.tags.len() ==> #[trigger] final(self)@.tags[i] == (TagInfo {
                close: model_close(old(self)@.kinds(), i), ..old(self)@.tags[i] }),
    {
        proof { self.lemma_wf_view(); }
        let ghost v = self@;
        let ghost kinds = v.kinds();
        let n = self.tag_count();

        // 1. Children: each tag grouped under its parent (close and CDATA tags under none).
        let mut keys: Vec<u32> = Vec::with_capacity(n);
        let mut i: usize = 0;
        while i < n
            invariant
                i <= n,
                n == self.tag_starts@.len(),
                self.pre_wf(),
                keys@.len() == i,
                forall|j: int| 0 <= j < i ==> (#[trigger] keys@[j]) == (if self.tag_types@[j] == TagType::Close
                    || self.tag_types@[j] == TagType::CData { u32::MAX } else { self.parents@[j] }),
            decreases n - i,
        {
            let tt = self.tag_types[i];
            if tt == TagType::Close || tt == TagType::CData {
                keys.push(u32::MAX);
            } else {
                keys.push(self.parents[i]);
            }
            i = i + 1;
        }
        let (child_offsets, child_data) = group_by_key(&keys, n);
        proof {
            assert forall|p: int| 0 <= p < n implies group(keys@, p, n as int) == v.tag_children(p) by {
                assert forall|j: int| 0 <= j < n implies ((#[trigger] keys@[j]) as int == p <==>
                    (v.tags[j].kind != TagType::Close && v.tags[j].kind != TagType::CData
                        && v.tags[j].parent == Some(p as nat))) by {
                    assert(v.tags[j].parent == opt_index(self.parents@[j]));
                }
                lemma_children_group(v, keys@, p, n as int);
            }
        }

        // 2. Texts grouped under their parent.
        let m = self.text_count();
        let mut tkeys: Vec<u32> = Vec::with_capacity(m);
        let mut t: usize = 0;
        while t < m
            invariant
                t <= m,
                m == self.text_ranges@.len(),
                tkeys@.len() == t,
                forall|j: int| 0 <= j < t ==> (#[trigger] tkeys@[j]) == self.text_ranges@[j].parent_tag,
            decreases m - t,
        {
            tkeys.push(self.text_ranges[t].parent_tag);
            t = t + 1;
        }
        let (text_child_offsets, text_child_data) = group_by_key(&tkeys, n);
        proof {
            assert forall|p: int| 0 <= p < n implies group(tkeys@, p, m as int) == v.text_children(p) by {
                assert forall|j: int| 0 <= j < m implies ((#[trigger] tkeys@[j]) as int == p <==>
                    v.texts[j].parent == Some(p as nat)) by {
                    assert(v.texts[j].parent == opt_index(self.text_ranges@[j].parent_tag));
                }
                lemma_text_group(v, tkeys@, p, m as int);
            }
        }

        // 3. Close map using a stack.
        let mut close_map = filled(n, u32::MAX);
        let mut stack: Vec<usize> = Vec::new();
        let mut i: usize = 0;
        while i < n
            invariant
                i <= n,
                n == self.tag_starts@.len(),
                n < u32::MAX,
                self.tag_types@ == kinds,
                kinds.len() == n,
                close_map@.len() == n,
                stack@.len() == open_stack(kinds, i as int).len(),
                forall|x: int| 0 <= x < stack@.len() ==> stack@[x] as nat == #[trigger] open_stack(kinds, i as int)[x],
                forall|a: int| 0 <= a < n ==> {
                    let cm = #[trigger] close_map@[a];
                    if kinds[a] == TagType::SelfClose {
                        cm == (if a < i { a as u32 } else { u32::MAX })
                    } else if kinds[a] == TagType::Open {
                        &&& cm == u32::MAX ==> forall|j: int| j < i ==> !closes(kinds, j, a)
                        &&& cm != u32::MAX ==> cm < i && closes(kinds, cm as int, a)
                    } else {
                        cm == u32::MAX
                    }
                },
            decreases n - i,
        {
            proof { lemma_open_stack(kinds, i as int); }
            let ghost old_cm = close_map@;
            match self.tag_types[i] {
                TagType::Open => {
                    stack.push(i);
                },
                TagType::Close => {
                    let ghost old_stack = stack@;
                    if let Some(open_idx) = stack.pop() {
                        proof {
                            assert(old_stack[old_stack.len() - 1] as nat
                                == open_stack(kinds, i as int)[old_stack.len() - 1]);
                        }
                        close_map.set(open_idx, i as u32);
                    }
                },
                TagType::SelfClose => {
                    close_map.set(i, i as u32);
                },
                _ => {},
            }
            proof {
                let st = open_stack(kinds, i as int);
                assert forall|a: int| 0 <= a < n && kinds[a] == TagType::Open && old_cm[a] == u32::MAX
                    && !(kinds[i as int] == TagType::Close && st.len() > 0 && st.last() == a)
                    implies !closes(kinds, i as int, a) by {}
            }
            i = i + 1;
        }
        proof {
            assert forall|a: int| 0 <= a < n implies opt_index(#[trigger] close_map@[a]) == model_close(kinds, a) by {
                if kinds[a] == TagType::Open && close_map@[a] != u32::MAX {
                    lemma_model_close_is(kinds, close_map@[a] as int, a);
                }
            }
        }

        self.child_offsets = child_offsets;
        self.child_data = child_data;
        self.text_child_offsets = text_child_offsets;
        self.text_child_data = text_child_data;
        self.close_map = close_map;
        proof {
            assert forall|j: int| 0 <= j < self@.tags.len() implies #[trigger] self@.tags[j] == (TagInfo {
                close: model_close(v.kinds(), j), ..v.tags[j] }) by {
                assert(self.close_map@[j] == close_map@[j]);
            }
            assert forall|p: int, k: int| 0 <= k <= n implies self@.tag_children_upto(p, k) == v.tag_children_upto(p, k) by {
                lemma_children_upto_congruent(self@, v, p, k);
            }
            assert(self.pre_wf());
            assert(self@.wf());
            assert forall|p: int| 0 <= p < n implies
                (#[trigger] self.child_offsets@[p + 1]) - self.child_offsets@[p] == self@.tag_children(p).len() by {
                lemma_children_upto_congruent(self@, v, p, n as int);
                assert(group(keys@, p, n as int) == v.tag_children(p));
            }
            assert forall|p: int, j: int| 0 <= p < n && 0 <= j < self@.tag_children(p).len() implies
                self.child_data@[self.child_offsets@[p] + j] as int == #[trigger] self@.tag_children(p)[j] by {
                lemma_children_upto_congruent(self@, v, p, n as int);
                assert(group(keys@, p, n as int) == v.tag_children(p));
                assert(self.child_data@[self.child_offsets@[p] + j] as int == group(keys@, p, n as int)[j]);
            }
            assert(self.children_ok());
            assert(self@.texts =~= v.texts);
            assert forall|p: int| 0 <= p < n implies
                (#[trigger] self.text_child_offsets@[p + 1]) - self.text_child_offsets@[p] == self@.text_children(p).len() by {
                assert(group(tkeys@, p, m as int) == v.text_children(p));
                lemma_text_children_congruent(self@, v, p, m as int);
                assert(tkeys@.len() == m);
                assert(text_child_offsets@[p + 1] - text_child_offsets@[p] == group(tkeys@, p, tkeys@.len() as int).len());
            }
            assert forall|p: int, j: int| 0 <= p < n && 0 <= j < self@.text_children(p).len() implies
                self.text_child_data@[self.text_child_offsets@[p] + j] as int == #[trigger] self@.text_children(p)[j] by {
                assert(group(tkeys@, p, m as int) == v.text_children(p));
                lemma_text_children_congruent(self@, v, p, m as int);
                assert(self.text_child_data@[self.text_child_offsets@[p] + j] as int == group(tkeys@, p, m as int)[j]);
            }
            assert(self.text_children_ok());
        }
    }
}

/// The children of a tag depend only on kinds and parents.
proof fn lemma_children_upto_congruent(v1: IndexView, v2: IndexView, p: int, k: int)
    requires
        0 <= k <= v1.tags.len() == v2.tags.len(),
        forall|i: int| 0 <= i < v1.tags.len() ==> (#[trigger] v1.tags[i]).kind == v2.tags[i].kind
            && v1.tags[i].parent == v2.tags[i].parent,
    ensures
        v1.tag_children_upto(p, k) == v2.tag_children_upto(p, k),
    decreases k,
{
    if k > 0 {
        lemma_children_upto_congruent(v1, v2, p, k - 1);
    }
}

/// The texts under a tag depend only on the texts.
proof fn lemma_text_children_congruent(v1: IndexView, v2: IndexView, p: int, k: int)
    requires
        0 <= k <= v1.texts.len(),
        v1.texts == v2.texts,
    ensures
        v1.text_children_upto(p, k) == v2.text_children_upto(p, k),
    decreases k,
{
    if k > 0 {
        lemma_text_children_congruent(v1, v2, p, k - 1);
    }
}

/// Byte-wise equality of two slices.
pub fn bytes_eq(a: &[u8], b: &[u8]) -> (r: bool)
    ensures
        r == (a@ == b@),
{
    if a.len() != b.len() {
        return false;
    }
    let mut i: usize = 0;
    while i < a.len()
        invariant
            a@.len() == b@.len(),
            i <= a@.len(),
            forall|j: int| 0 <= j < i ==> a@[j] == b@[j],
        decreases a@.len() - i,
    {
        if a[i] != b[i] {
            return false;
        }
        i = i + 1;
    }
    assert(a@ =~= b@);
    true
}

} // verus!
