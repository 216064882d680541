#![verifier::loop_isolation(false)]
//! Merging chunk results into one structural index.

use vstd::prelude::*;
use crate::error::SimdXmlError;
use crate::index::{XmlIndex, TagType, TextRange, opt_index};
use crate::index::model::{IndexView, TagInfo, TextInfo, open_stack, stack_top, nest_point,
    model_parent, model_depth, model_close, model_text_parent, text_slot, lemma_open_stack};
use super::ChunkResult;
use super::grammar::{TagTok, TextTok};

verus! {

/// The tags of the chunks, in order.
pub open spec fn all_tags(chunks: Seq<ChunkResult>) -> Seq<TagTok>
    decreases chunks.len(),
{
    if chunks.len() == 0 {
        seq![]
    } else {
        all_tags(chunks.drop_last()) + chunks.last().tags_view()
    }
}

/// The texts of the chunks, in order.
pub open spec fn all_texts(chunks: Seq<ChunkResult>) -> Seq<TextTok>
    decreases chunks.len(),
{
    if chunks.len() == 0 {
        seq![]
    } else {
        all_texts(chunks.drop_last()) + chunks.last().texts_view()
    }
}

/// The kinds of a sequence of tags.
pub open spec fn kinds_of(tags: Seq<TagTok>) -> Seq<TagType> {
    tags.map_values(|t: TagTok| t.kind)
}

/// The starts of a sequence of tags.
pub open spec fn starts_of(tags: Seq<TagTok>) -> Seq<nat> {
    tags.map_values(|t: TagTok| t.start as nat)
}

/// `p` names the innermost tag open at the slot of a text starting at `x`.
pub open spec fn parent_at_slot(kinds: Seq<TagType>, starts: Seq<nat>, x: nat, p: u32) -> bool {
    exists|k: int| #[trigger] text_slot(starts, x, k) && opt_index(p) == stack_top(open_stack(kinds, k))
}

/// Tags and texts lie inside an input of `len` bytes, in document order,
/// with counts that fit the index.
pub open spec fn tokens_valid(len: int, tags: Seq<TagTok>, texts: Seq<TextTok>) -> bool {
    &&& len < u32::MAX
    &&& tags.len() < u32::MAX
    &&& texts.len() < u32::MAX
    &&& forall|i: int| 0 <= i < tags.len() ==> {
        let t = #[trigger] tags[i];
        &&& 0 <= t.start <= t.end < len
        &&& 0 <= t.name_start
        &&& 0 <= t.name_len
        &&& t.name_start + t.name_len <= len
    }
    &&& forall|i: int, j: int| 0 <= i < j < tags.len() ==> (#[trigger] tags[i]).start < (#[trigger] tags[j]).start
    &&& forall|t: int| 0 <= t < texts.len() ==> {
        let x = #[trigger] texts[t];
        0 <= x.start <= x.end <= len
    }
    &&& forall|t: int, u: int| 0 <= t < u < texts.len() ==> (#[trigger] texts[t]).start <= (#[trigger] texts[u]).start
}

/// Nesting never goes deeper than a 16-bit depth can say.
pub open spec fn depth_fits(kinds: Seq<TagType>) -> bool {
    forall|k: int| 0 <= k <= kinds.len() ==> #[trigger] open_stack(kinds, k).len() <= u16::MAX
}

/// The index of a document with the given tags and texts: depths, parents
/// and matching tags follow the nesting of open and close tags; a text's
/// parent is the innermost tag open where it starts.
pub open spec fn document_view(input: Seq<u8>, tags: Seq<TagTok>, texts: Seq<TextTok>) -> IndexView {
    let kinds = kinds_of(tags);
    let starts = starts_of(tags);
    IndexView {
        input: input,
        tags: Seq::new(tags.len(), |i: int| TagInfo {
            start: tags[i].start as nat,
            end: tags[i].end as nat,
            kind: tags[i].kind,
            name_start: tags[i].name_start as nat,
            name_len: tags[i].name_len as nat,
            depth: model_depth(kinds, i),
            parent: model_parent(kinds, i),
            close: model_close(kinds, i),
        }),
        texts: Seq::new(texts.len(), |t: int| TextInfo {
            start: texts[t].start as nat,
            end: texts[t].end as nat,
            parent: model_text_parent(kinds, starts, texts[t].start as nat),
        }),
    }
}

impl ChunkResult {
    fn append_chunk(&mut self, other: &ChunkResult)
        requires
            old(self).wf(),
            other.wf(),
        ensures
            final(self).wf(),
            final(self).tags_view() == old(self).tags_view() + other.tags_view(),
            final(self).texts_view() == old(self).texts_view() + other.texts_view(),
    {
        let n = other.tag_starts.len();
        let mut i: usize = 0;
        while i < n
            invariant
                i <= n,
                n == other.tag_starts@.len(),
                other.wf(),
                self.wf(),
                self.tags_view() == old(self).tags_view() + other.tags_view().take(i as int),
                self.texts_view() == old(self).texts_view(),
            decreases n - i,
        {
            let ghost before = self.tags_view();
            self.tag_starts.push(other.tag_starts[i]);
            self.tag_ends.push(other.tag_ends[i]);
            self.tag_types.push(other.tag_types[i]);
            self.tag_names.push(other.tag_names[i]);
            proof {
                assert(other.tags_view().take(i + 1) =~= other.tags_view().take(i as int).push(other.tags_view()[i as int]));
                assert(self.tags_view() =~= before.push(other.tags_view()[i as int]));
                assert(self.texts_view() =~= old(self).texts_view());
            }
            i = i + 1;
        }
        let m = other.text_ranges.len();
        let mut t: usize = 0;
        while t < m
            invariant
                t <= m,
                m == other.text_ranges@.len(),
                other.wf(),
                self.wf(),
                self.tags_view() == old(self).tags_view() + other.tags_view(),
                self.texts_view() == old(self).texts_view() + other.texts_view().take(t as int),
            decreases m - t,
        {
            let ghost before = self.texts_view();
            let ghost tags_before = self.tags_view();
            self.text_ranges.push(other.text_ranges[t]);
            proof {
                assert(other.texts_view().take(t + 1) =~= other.texts_view().take(t as int).push(other.texts_view()[t as int]));
                assert(self.texts_view() =~= before.push(other.texts_view()[t as int]));
                assert(self.tags_view() =~= tags_before);
            }
            t = t + 1;
        }
        proof {
            assert(other.tags_view().take(n as int) =~= other.tags_view());
            assert(other.texts_view().take(m as int) =~= other.texts_view());
        }
    }
}

/// At most one number of tags precedes a text start when tags are sorted.
proof fn lemma_slot_unique(starts: Seq<nat>, x: nat, k1: int, k2: int)
    requires
        forall|a: int, b: int| 0 <= a < b < starts.len() ==> #[trigger] starts[a] < #[trigger] starts[b],
        text_slot(starts, x, k1),
        text_slot(starts, x, k2),
    ensures
        k1 == k2,
{
    if k1 < k2 {
        if k1 < k2 - 1 {
            assert(starts[k1] < starts[k2 - 1]);
        }
    } else if k2 < k1 {
        if k2 < k1 - 1 {
            assert(starts[k2] < starts[k1 - 1]);
        }
    }
}

/// The innermost open tag, `u32::MAX` for none.
fn stack_last(stack: &Vec<u32>) -> (r: u32)
    ensures
        r == (if stack@.len() == 0 { u32::MAX } else { stack@[stack@.len() - 1] }),
{
    if stack.len() > 0 { stack[stack.len() - 1] } else { u32::MAX }
}

/// The chunks concatenated, in order.
fn concat_chunks(chunks: &Vec<ChunkResult>) -> (r: ChunkResult)
    requires
        forall|k: int| 0 <= k < chunks@.len() ==> (#[trigger] chunks@[k]).wf(),
    ensures
        r.wf(),
        r.tags_view() == all_tags(chunks@),
        r.texts_view() == all_texts(chunks@),
{
    let mut merged = ChunkResult {
        tag_starts: Vec::new(),
        tag_ends: Vec::new(),
        tag_types: Vec::new(),
        tag_names: Vec::new(),
        text_ranges: Vec::new(),
    };
    proof {
        assert(merged.tags_view() =~= seq![]);
        assert(merged.texts_view() =~= seq![]);
        assert(chunks@.take(0) =~= seq![]);
    }
    let mut k: usize = 0;
    while k < chunks.len()
        invariant
            k <= chunks@.len(),
            forall|j: int| 0 <= j < chunks@.len() ==> (#[trigger] chunks@[j]).wf(),
            merged.wf(),
            merged.tags_view() == all_tags(chunks@.take(k as int)),
            merged.texts_view() == all_texts(chunks@.take(k as int)),
        decreases chunks@.len() - k,
    {
        merged.append_chunk(&chunks[k]);
        proof {
            assert(chunks@.take(k + 1).drop_last() =~= chunks@.take(k as int));
        }
        k = k + 1;
    }
    proof {
        assert(chunks@.take(chunks@.len() as int) =~= chunks@);
    }
    merged
}

impl ChunkResult {
    /// Positions inside an input of `len` bytes, in document order.
    fn positions_valid(&self, len: usize) -> (r: bool)
        requires
            self.wf(),
        ensures
            r == tokens_valid(len as int, self.tags_view(), self.texts_view()),
    {
        let ghost tags = self.tags_view();
        let ghost texts = self.texts_view();
        let n = self.tag_starts.len();
        let m = self.text_ranges.len();
        if len >= u32::MAX as usize || n >= u32::MAX as usize || m >= u32::MAX as usize {
            return false;
        }
        let mut i: usize = 0;
        while i < n
            invariant
                i <= n,
                n == tags.len(),
                self.wf(),
                forall|j: int| 0 <= j < i ==> {
                    let t = #[trigger] tags[j];
                    &&& 0 <= t.start <= t.end < len
                    &&& 0 <= t.name_start
                    &&& 0 <= t.name_len
                    &&& t.name_start + t.name_len <= len
                },
                forall|a: int, b: int| 0 <= a < b <= i && b < n ==> (#[trigger] tags[a]).start < (#[trigger] tags[b]).start,
            decreases n - i,
        {
            let (ns, nl) = self.tag_names[i];
            if self.tag_starts[i] > self.tag_ends[i] || self.tag_ends[i] as usize >= len
                || ns as u64 + nl as u64 > len as u64
                || (i + 1 < n && self.tag_starts[i] >= self.tag_starts[i + 1]) {
                proof {
                    if i + 1 < n && self.tag_starts@[i as int] >= self.tag_starts@[i + 1] {
                        assert(tags[i as int].start >= tags[i + 1].start);
                    } else {
                        assert(tags[i as int].start == self.tag_starts@[i as int]);
                    }
                }
                return false;
            }
            proof {
                assert forall|a: int, b: int| 0 <= a < b <= i + 1 && b < n implies
                    (#[trigger] tags[a]).start < (#[trigger] tags[b]).start by {
                    if b == i + 1 && a < i {
                        assert(tags[a].start < tags[i as int].start);
                    }
                }
            }
            i = i + 1;
        }
        let mut t: usize = 0;
        while t < m
            invariant
                t <= m,
                m == texts.len(),
                forall|j: int| 0 <= j < t ==> {
                    let x = #[trigger] texts[j];
                    0 <= x.start <= x.end <= len
                },
                forall|a: int, b: int| 0 <= a < b <= t && b < m ==> (#[trigger] texts[a]).start <= (#[trigger] texts[b]).start,
            decreases m - t,
        {
            if self.text_ranges[t].start > self.text_ranges[t].end || self.text_ranges[t].end as usize > len
                || (t + 1 < m && self.text_ranges[t].start > self.text_ranges[t + 1].start) {
                proof {
                    if t + 1 < m && self.text_ranges@[t as int].start > self.text_ranges@[t + 1].start {
                        assert(texts[t as int].start > texts[t + 1].start);
                    } else {
                        assert(texts[t as int].start == self.text_ranges@[t as int].start);
                    }
                }
                return false;
            }
            proof {
                assert forall|a: int, b: int| 0 <= a < b <= t + 1 && b < m implies
                    (#[trigger] texts[a]).start <= (#[trigger] texts[b]).start by {
                    if b == t + 1 && a < t {
                        assert(texts[a].start <= texts[t as int].start);
                    }
                }
            }
            t = t + 1;
        }
        true
    }
}

/// Depth and parent of every tag, and the parent of every text, from the
/// nesting of open and close tags; `None` when nesting goes deeper than
/// 16 bits can count.
fn nest(tag_starts: &Vec<u32>, tag_types: &Vec<TagType>, text_ranges: Vec<TextRange>,
    Ghost(tags): Ghost<Seq<TagTok>>, Ghost(texts): Ghost<Seq<TextTok>>, Ghost(len): Ghost<int>)
    -> (r: Option<(Vec<u16>, Vec<u32>, Vec<TextRange>)>)
    requires
        tokens_valid(len, tags, texts),
        tags.len() == tag_starts@.len() == tag_types@.len(),
        forall|i: int| 0 <= i < tags.len() ==> (#[trigger] tags[i]).start == tag_starts@[i] as int
            && tags[i].kind == tag_types@[i],
        texts.len() == text_ranges@.len(),
        forall|x: int| 0 <= x < texts.len() ==> (#[trigger] text_ranges@[x]).start as int == texts[x].start
            && text_ranges@[x].end as int == texts[x].end,
    ensures
        match r {
            Some((depths, parents, out)) => {
                &&& depth_fits(kinds_of(tags))
                &&& depths@.len() == tags.len()
                &&& parents@.len() == tags.len()
                &&& out@.len() == texts.len()
                &&& forall|j: int| 0 <= j < tags.len() ==> #[trigger] depths@[j] as nat == model_depth(kinds_of(tags), j)
                    && opt_index(parents@[j]) == model_parent(kinds_of(tags), j)
                    && (parents@[j] == u32::MAX || parents@[j] < j)
                &&& forall|x: int| 0 <= x < texts.len() ==> (#[trigger] out@[x]).start as int == texts[x].start
                    && out@[x].end as int == texts[x].end
                    && opt_index(out@[x].parent_tag) == model_text_parent(kinds_of(tags), starts_of(tags), texts[x].start as nat)
                    && (out@[x].parent_tag == u32::MAX || out@[x].parent_tag < tags.len())
            },
            None => !depth_fits(kinds_of(tags)),
        },
{
    let ghost kinds = kinds_of(tags);
    let ghost starts = starts_of(tags);
    proof {
        assert forall|a: int, b: int| 0 <= a < b < starts.len() implies #[trigger] starts[a] < #[trigger] starts[b] by {
            assert(tags[a].start < tags[b].start);
        }
    }
    let n = tag_starts.len();
    let m = text_ranges.len();
    let mut text_ranges = text_ranges;
    let mut depths: Vec<u16> = Vec::with_capacity(n);
    let mut parents: Vec<u32> = Vec::with_capacity(n);
    let mut depth: u16 = 0;
    let mut parent_stack: Vec<u32> = Vec::new();
    let mut text_idx: usize = 0;
    let mut i: usize = 0;
    while i < n
        invariant
            i <= n,
            text_idx <= m,
            text_ranges@.len() == m,
            depths@.len() == i,
            parents@.len() == i,
            depth as int == open_stack(kinds, i as int).len(),
            parent_stack@.len() == open_stack(kinds, i as int).len(),
            forall|x: int| 0 <= x < parent_stack@.len() ==> parent_stack@[x] as nat == #[trigger] open_stack(kinds, i as int)[x],
            forall|k: int| 0 <= k <= i ==> #[trigger] open_stack(kinds, k).len() <= u16::MAX,
            forall|j: int| 0 <= j < i ==> #[trigger] depths@[j] as nat == model_depth(kinds, j),
            forall|j: int| 0 <= j < i ==> opt_index(#[trigger] parents@[j]) == model_parent(kinds, j),
            forall|x: int| 0 <= x < m ==> (#[trigger] text_ranges@[x]).start as int == texts[x].start
                && text_ranges@[x].end as int == texts[x].end,
            forall|x: int| 0 <= x < text_idx ==> parent_at_slot(kinds, starts, texts[x].start as nat,
                (#[trigger] text_ranges@[x]).parent_tag),
            forall|x: int| text_idx <= x < m ==> (i == 0 || starts[i - 1] <= #[trigger] texts[x].start),
        decreases n - i,
    {
        proof { lemma_open_stack(kinds, i as int); }
        let tag_pos = tag_starts[i];
        while text_idx < m && text_ranges[text_idx].start < tag_pos
            invariant
                text_idx <= m,
                text_ranges@.len() == m,
                forall|x: int| 0 <= x < m ==> (#[trigger] text_ranges@[x]).start as int == texts[x].start
                    && text_ranges@[x].end as int == texts[x].end,
                forall|x: int| 0 <= x < text_idx ==> parent_at_slot(kinds, starts, texts[x].start as nat,
                    (#[trigger] text_ranges@[x]).parent_tag),
                forall|x: int| text_idx <= x < m ==> (i == 0 || starts[i - 1] <= #[trigger] texts[x].start),
            decreases m - text_idx,
        {
            let mut r = text_ranges[text_idx];
            r.parent_tag = stack_last(&parent_stack);
            proof {
                assert(text_slot(starts, texts[text_idx as int].start as nat, i as int));
                if parent_stack@.len() > 0 {
                    assert(parent_stack@[parent_stack@.len() - 1] as nat
                        == open_stack(kinds, i as int)[parent_stack@.len() - 1]);
                }
            }
            text_ranges.set(text_idx, r);
            text_idx = text_idx + 1;
        }
        proof {
            assert forall|x: int| text_idx <= x < m implies starts[i as int] <= #[trigger] texts[x].start by {
                if text_idx < m && text_idx < x {
                    assert(texts[text_idx as int].start <= texts[x].start);
                }
            }
        }
        let ghost old_stack = parent_stack@;
        let ghost old_depths = depths@;
        let ghost old_parents = parents@;
        match tag_types[i] {
            TagType::Close => {
                if depth > 0 {
                    depth = depth - 1;
                }
                parent_stack.pop();
                depths.push(depth);
                parents.push(stack_last(&parent_stack));
            },
            TagType::Open => {
                if depth == u16::MAX {
                    proof { assert(open_stack(kinds, i + 1).len() > u16::MAX); }
                    return None;
                }
                depths.push(depth);
                parents.push(stack_last(&parent_stack));
                parent_stack.push(i as u32);
                depth = depth + 1;
            },
            _ => {
                depths.push(depth);
                parents.push(stack_last(&parent_stack));
            },
        }
        proof {
            let st1 = open_stack(kinds, i + 1);
            assert(parent_stack@.len() == st1.len());
            assert forall|x: int| 0 <= x < parent_stack@.len() implies parent_stack@[x] as nat == #[trigger] st1[x] by {
                if x < old_stack.len() {
                    assert(old_stack[x] as nat == open_stack(kinds, i as int)[x]);
                }
            }
            if parent_stack@.len() > 0 {
                assert(parent_stack@[parent_stack@.len() - 1] as nat == st1[parent_stack@.len() - 1]);
            }
            if old_stack.len() > 0 {
                assert(old_stack[old_stack.len() - 1] as nat == open_stack(kinds, i as int)[old_stack.len() - 1]);
            }
            assert(depths@[i as int] as nat == model_depth(kinds, i as int));
            assert(opt_index(parents@[i as int]) == model_parent(kinds, i as int));
            assert forall|j: int| 0 <= j < i + 1 implies #[trigger] depths@[j] as nat == model_depth(kinds, j) by {
                if j < i {
                    assert(old_depths[j] as nat == model_depth(kinds, j));
                    assert(depths@[j] == old_depths[j]);
                }
            }
            assert forall|j: int| 0 <= j < i + 1 implies opt_index(#[trigger] parents@[j]) == model_parent(kinds, j) by {
                if j < i {
                    assert(opt_index(old_parents[j]) == model_parent(kinds, j));
                    assert(parents@[j] == old_parents[j]);
                }
            }
        }
        i = i + 1;
    }
    // Texts after the last tag.
    proof { lemma_open_stack(kinds, n as int); }
    while text_idx < m
        invariant
            text_idx <= m,
            text_ranges@.len() == m,
            forall|x: int| 0 <= x < m ==> (#[trigger] text_ranges@[x]).start as int == texts[x].start
                && text_ranges@[x].end as int == texts[x].end,
            forall|x: int| 0 <= x < text_idx ==> parent_at_slot(kinds, starts, texts[x].start as nat,
                (#[trigger] text_ranges@[x]).parent_tag),
            forall|x: int| text_idx <= x < m ==> (n == 0 || starts[n - 1] <= #[trigger] texts[x].start),
        decreases m - text_idx,
    {
        let mut r = text_ranges[text_idx];
        r.parent_tag = stack_last(&parent_stack);
        proof {
            assert(text_slot(starts, texts[text_idx as int].start as nat, n as int));
            if parent_stack@.len() > 0 {
                assert(parent_stack@[parent_stack@.len() - 1] as nat
                    == open_stack(kinds, n as int)[parent_stack@.len() - 1]);
            }
        }
        text_ranges.set(text_idx, r);
        text_idx = text_idx + 1;
    }
    assert(depth_fits(kinds));
    proof {
        assert forall|j: int| 0 <= j < n implies (parents@[j] == u32::MAX || parents@[j] < j) by {
            lemma_parent_before(kinds, j);
            assert(opt_index(parents@[j]) == model_parent(kinds, j));
        }
        assert forall|x: int| 0 <= x < m implies (#[trigger] text_ranges@[x]).parent_tag == u32::MAX
            || text_ranges@[x].parent_tag < n by {
            let k = choose|k: int| #[trigger] text_slot(starts, texts[x].start as nat, k)
                && opt_index(text_ranges@[x].parent_tag) == stack_top(open_stack(kinds, k));
            lemma_open_stack(kinds, k);
            if text_ranges@[x].parent_tag != u32::MAX {
                let st = open_stack(kinds, k);
                assert(st[st.len() - 1] < k);
            }
        }
        assert forall|x: int| 0 <= x < m implies opt_index((#[trigger] text_ranges@[x]).parent_tag)
            == model_text_parent(kinds, starts, texts[x].start as nat) by {
            let k = choose|k: int| #[trigger] text_slot(starts, texts[x].start as nat, k)
                && opt_index(text_ranges@[x].parent_tag) == stack_top(open_stack(kinds, k));
            let c = choose|k: int| #[trigger] text_slot(starts, texts[x].start as nat, k);
            lemma_slot_unique(starts, texts[x].start as nat, k, c);
        }
    }
    proof {
        assert forall|j: int| 0 <= j < tags.len() implies #[trigger] depths@[j] as nat == model_depth(kinds_of(tags), j)
            && opt_index(parents@[j]) == model_parent(kinds_of(tags), j)
            && (parents@[j] == u32::MAX || parents@[j] < j) by {
            assert(depths@[j] as nat == model_depth(kinds, j));
            assert(opt_index(parents@[j]) == model_parent(kinds, j));
            lemma_parent_before(kinds, j);
        }
        assert forall|x: int| 0 <= x < texts.len() implies (#[trigger] text_ranges@[x]).start as int == texts[x].start
            && text_ranges@[x].end as int == texts[x].end
            && opt_index(text_ranges@[x].parent_tag) == model_text_parent(kinds_of(tags), starts_of(tags), texts[x].start as nat)
            && (text_ranges@[x].parent_tag == u32::MAX || text_ranges@[x].parent_tag < tags.len()) by {
            assert(opt_index(text_ranges@[x].parent_tag) == model_text_parent(kinds, starts, texts[x].start as nat));
        }
    }
    Some((depths, parents, text_ranges))
}

/// Merge chunk results into a single XmlIndex.
///
/// Concatenates the structural arrays (the chunks being in document order),
/// then computes depth and parent relationships in a single sequential pass
/// and builds the precomputed indices. Chunks that point outside the input
/// or out of document order, and nesting deeper than 16 bits can count,
/// are rejected as invalid XML.
pub fn merge_chunks<'a>(input: &'a [u8], chunks: Vec<ChunkResult>) -> (r: Result<XmlIndex<'a>, SimdXmlError>)
    requires
        forall|k: int| 0 <= k < chunks@.len() ==> (#[trigger] chunks@[k]).wf(),
    ensures
        match r {
            Ok(index) => {
                &&& tokens_valid(input@.len() as int, all_tags(chunks@), all_texts(chunks@))
                &&& depth_fits(kinds_of(all_tags(chunks@)))
                &&& index.wf()
                &&& index@ == document_view(input@, all_tags(chunks@), all_texts(chunks@))
            },
            Err(_) => !tokens_valid(input@.len() as int, all_tags(chunks@), all_texts(chunks@))
                || !depth_fits(kinds_of(all_tags(chunks@))),
        },
{
    let merged = concat_chunks(&chunks);
    if !merged.positions_valid(input.len()) {
        return Err(SimdXmlError::InvalidXml("chunk positions out of order or out of range".to_string()));
    }
    let ghost tags = merged.tags_view();
    let ghost texts = merged.texts_view();
    let ChunkResult { tag_starts, tag_ends, tag_types, tag_names, text_ranges } = merged;
    proof {
        assert forall|i: int| 0 <= i < tags.len() implies #[trigger] tags[i] == (TagTok {
            start: tag_starts@[i] as int, end: tag_ends@[i] as int, kind: tag_types@[i],
            name_start: tag_names@[i].0 as int, name_len: tag_names@[i].1 as int }) by {}
        assert forall|t: int| 0 <= t < texts.len() implies #[trigger] texts[t] == (TextTok {
            start: text_ranges@[t].start as int, end: text_ranges@[t].end as int }) by {}
        assert(kinds_of(tags) =~= tag_types@);
    }
    let nested = nest(&tag_starts, &tag_types, text_ranges, Ghost(tags), Ghost(texts), Ghost(input@.len() as int));
    let (depths, parents, text_ranges) = match nested {
        Some(x) => x,
        None => {
            return Err(SimdXmlError::InvalidXml("nesting too deep".to_string()));
        },
    };
    proof {
        assert forall|i: int| 0 <= i < tag_starts@.len() implies {
                &&& tag_starts@[i] <= #[trigger] tag_ends@[i] < input@.len()
                &&& tag_names@[i].0 + tag_names@[i].1 <= input@.len()
                &&& (parents@[i] == u32::MAX || parents@[i] < i)
            } by {
            assert(tags[i].start == tag_starts@[i]);
            assert(depths@[i] as nat == model_depth(kinds_of(tags), i));
        }
    }
    let index = XmlIndex::assemble(input, tag_starts, tag_ends, tag_types, tag_names, depths, parents, text_ranges);
    proof {
        let doc = document_view(input@, tags, texts);
        assert(index@.texts =~= doc.texts);
        assert(index@.tags =~= doc.tags);
    }
    Ok(index)
}

proof fn lemma_parent_before(kinds: Seq<TagType>, i: int)
    requires
        0 <= i < kinds.len(),
    ensures
        model_parent(kinds, i) matches Some(p) ==> p < i,
{
    lemma_open_stack(kinds, i);
    lemma_open_stack(kinds, i + 1);
    let st = open_stack(kinds, i);
    if kinds[i] == TagType::Close && st.len() > 0 {
        assert(open_stack(kinds, i + 1) == st.drop_last());
        if st.len() > 1 {
            assert(st[st.len() - 2] < st[st.len() - 1]);
        }
    }
}

} // verus!
