//! Mathematical model of the structural index.

use vstd::prelude::*;
use vstd::utf8::*;
use super::TagType;

verus! {

/// What the index records of one tag.
pub struct TagInfo {
    pub start: nat,
    pub end: nat,
    pub kind: TagType,
    pub name_start: nat,
    pub name_len: nat,
    pub depth: nat,
    pub parent: Option<nat>,
    pub close: Option<nat>,
}

/// What the index records of one text range.
pub struct TextInfo {
    pub start: nat,
    pub end: nat,
    pub parent: Option<nat>,
}

/// The index as mathematics: the input bytes, the tags and the text ranges.
pub struct IndexView {
    pub input: Seq<u8>,
    pub tags: Seq<TagInfo>,
    pub texts: Seq<TextInfo>,
}

/// The characters the bytes encode, or nothing when they are not UTF-8.
pub open spec fn utf8_or_empty(b: Seq<u8>) -> Seq<char> {
    if valid_utf8(b) { decode_utf8(b) } else { Seq::empty() }
}

/// The open tags enclosing position `k` of the tag sequence: the indices of
/// the open tags among the first `k` tags not yet closed. A close tag closes
/// the innermost open tag; one with nothing to close changes nothing.
pub open spec fn open_stack(kinds: Seq<TagType>, k: int) -> Seq<nat>
    decreases k,
{
    if k <= 0 {
        seq![]
    } else {
        let st = open_stack(kinds, k - 1);
        if kinds[k - 1] == TagType::Open {
            st.push((k - 1) as nat)
        } else if kinds[k - 1] == TagType::Close {
            if st.len() > 0 { st.drop_last() } else { st }
        } else {
            st
        }
    }
}

/// The attributes of a tag from offset `p` on, by the offsets of their `=`:
/// past blanks, an attribute runs from its name to the first `=`, which a
/// quote follows, and its value to the next equal quote; the list ends at
/// `>`, `/`, `?` or anything that breaks this shape.
pub open spec fn attr_eqs(tag: Seq<u8>, p: int) -> Seq<int>
    decreases tag.len() - p,
{
    if p < 0 || p >= tag.len() {
        seq![]
    } else if crate::parallel::grammar::is_ws(tag[p]) {
        attr_eqs(tag, p + 1)
    } else if tag[p] == 0x3eu8 || tag[p] == 0x2fu8 || tag[p] == 0x3fu8 || tag[p] == 0x3du8 {
        seq![]
    } else {
        match crate::parallel::grammar::find_from(tag, 0x3du8, p) {
            None => seq![],
            Some(e) => if e + 1 < tag.len() && (tag[e + 1] == 0x22u8 || tag[e + 1] == 0x27u8) {
                match crate::parallel::grammar::find_from(tag, tag[e + 1], e + 2) {
                    None => seq![],
                    Some(c) => if p < c < tag.len() { seq![e] + attr_eqs(tag, c + 1) } else { seq![] },
                }
            } else {
                seq![]
            },
        }
    }
}

/// The innermost entry of a stack.
pub open spec fn stack_top(st: Seq<nat>) -> Option<nat> {
    if st.len() == 0 { None } else { Some(st.last()) }
}

/// A close tag is placed after the element it closes; every other tag
/// inside the elements open before it.
pub open spec fn nest_point(kinds: Seq<TagType>, i: int) -> int {
    if kinds[i] == TagType::Close { i + 1 } else { i }
}

/// Parent of tag `i`: the innermost enclosing open tag.
pub open spec fn model_parent(kinds: Seq<TagType>, i: int) -> Option<nat> {
    stack_top(open_stack(kinds, nest_point(kinds, i)))
}

/// Depth of tag `i`: the number of enclosing open tags.
pub open spec fn model_depth(kinds: Seq<TagType>, i: int) -> nat {
    open_stack(kinds, nest_point(kinds, i)).len()
}

/// Close tag `j` closes open tag `i`.
pub open spec fn closes(kinds: Seq<TagType>, j: int, i: int) -> bool {
    &&& 0 <= i < j < kinds.len()
    &&& kinds[j] == TagType::Close
    &&& open_stack(kinds, j).len() > 0
    &&& open_stack(kinds, j).last() == i
}

/// The tag matching tag `i`: itself when self-closing, the close tag that
/// closes it when it is an open tag that gets closed, none otherwise.
pub open spec fn model_close(kinds: Seq<TagType>, i: int) -> Option<nat> {
    if kinds[i] == TagType::SelfClose {
        Some(i as nat)
    } else if kinds[i] == TagType::Open && exists|j: int| closes(kinds, j, i) {
        Some((choose|j: int| closes(kinds, j, i)) as nat)
    } else {
        None
    }
}

/// `k` tags start at or before `x`, the tags being sorted by start.
pub open spec fn text_slot(starts: Seq<nat>, x: nat, k: int) -> bool {
    &&& 0 <= k <= starts.len()
    &&& (k == 0 || starts[k - 1] <= x)
    &&& (k == starts.len() || x < starts[k])
}

/// Parent of a text starting at `x`: the innermost open tag enclosing it.
pub open spec fn model_text_parent(kinds: Seq<TagType>, starts: Seq<nat>, x: nat) -> Option<nat> {
    stack_top(open_stack(kinds, choose|k: int| text_slot(starts, x, k)))
}

/// Entries of the stack are earlier tags, innermost last.
pub proof fn lemma_open_stack(kinds: Seq<TagType>, k: int)
    requires
        0 <= k <= kinds.len(),
    ensures
        open_stack(kinds, k).len() <= k,
        forall|a: int| 0 <= a < open_stack(kinds, k).len() ==> (#[trigger] open_stack(kinds, k)[a]) < k,
        forall|a: int, b: int| 0 <= a < b < open_stack(kinds, k).len() ==>
            (#[trigger] open_stack(kinds, k)[a]) < (#[trigger] open_stack(kinds, k)[b]),
        forall|a: int| 0 <= a < open_stack(kinds, k).len() ==>
            kinds[#[trigger] open_stack(kinds, k)[a] as int] == TagType::Open,
    decreases k,
{
    if k > 0 {
        lemma_open_stack(kinds, k - 1);
    }
}

proof fn lemma_stack_step_absent(kinds: Seq<TagType>, k: int, a: nat)
    requires
        0 <= k < kinds.len(),
        a < k,
        !open_stack(kinds, k).contains(a),
    ensures
        !open_stack(kinds, k + 1).contains(a),
{
    let st = open_stack(kinds, k);
    if kinds[k] == TagType::Open {
        assert forall|x: int| 0 <= x < st.push(k as nat).len() implies #[trigger] st.push(k as nat)[x] != a by {
            if x < st.len() {
                assert(st[x] != a);
            }
        }
    } else if kinds[k] == TagType::Close && st.len() > 0 {
        assert forall|x: int| 0 <= x < st.drop_last().len() implies #[trigger] st.drop_last()[x] != a by {
            assert(st[x] != a);
        }
    }
}

proof fn lemma_stack_absent_after(kinds: Seq<TagType>, k1: int, k2: int, a: nat)
    requires
        0 <= k1 <= k2 <= kinds.len(),
        a < k1,
        !open_stack(kinds, k1).contains(a),
    ensures
        !open_stack(kinds, k2).contains(a),
    decreases k2 - k1,
{
    if k1 < k2 {
        lemma_stack_step_absent(kinds, k1, a);
        lemma_stack_absent_after(kinds, k1 + 1, k2, a);
    }
}

/// An open tag is closed by at most one close tag.
pub proof fn lemma_closes_unique(kinds: Seq<TagType>, j1: int, j2: int, i: int)
    requires
        closes(kinds, j1, i),
        closes(kinds, j2, i),
    ensures
        j1 == j2,
{
    if j1 != j2 {
        let (a, b) = if j1 < j2 { (j1, j2) } else { (j2, j1) };
        lemma_open_stack(kinds, a);
        let st = open_stack(kinds, a);
        assert(open_stack(kinds, a + 1) == st.drop_last());
        assert forall|x: int| 0 <= x < st.drop_last().len() implies #[trigger] st.drop_last()[x] != i as nat by {
            assert(st[x] < st[st.len() - 1]);
        }
        lemma_stack_absent_after(kinds, a + 1, b, i as nat);
        assert(open_stack(kinds, b)[open_stack(kinds, b).len() - 1] == i);
    }
}

/// With a close tag at `j` that closes open tag `i`, the matching tag of `i` is `j`.
pub proof fn lemma_model_close_is(kinds: Seq<TagType>, j: int, i: int)
    requires
        closes(kinds, j, i),
    ensures
        model_close(kinds, i) == Some(j as nat),
{
    lemma_open_stack(kinds, j);
    let c = choose|x: int| closes(kinds, x, i);
    lemma_closes_unique(kinds, c, j, i);
}

/// The bytes outside tags: a `<` enters a tag and a `>` leaves it, neither
/// kept.
pub open spec fn strip_tags(s: Seq<u8>, in_tag: bool) -> Seq<u8>
    decreases s.len(),
{
    if s.len() == 0 {
        seq![]
    } else if s[0] == 0x3cu8 {
        strip_tags(s.drop_first(), true)
    } else if s[0] == 0x3eu8 {
        strip_tags(s.drop_first(), false)
    } else if !in_tag {
        seq![s[0]] + strip_tags(s.drop_first(), in_tag)
    } else {
        strip_tags(s.drop_first(), in_tag)
    }
}

/// Bytes read as text: the characters they encode when they are UTF-8,
/// otherwise each byte as the character with its value.
pub open spec fn bytes_text(b: Seq<u8>) -> Seq<char> {
    if valid_utf8(b) { decode_utf8(b) } else { b.map_values(|x: u8| (x as u32) as char) }
}

/// `needle` occurs in `hay` at `i`.
pub open spec fn occurs_at(hay: Seq<u8>, needle: Seq<u8>, i: int) -> bool {
    0 <= i && i + needle.len() <= hay.len() && hay.subrange(i, i + needle.len()) == needle
}

/// `needle` occurs in `hay` at `i` just after ASCII white space: there it
/// begins a whole attribute name, not the end of a longer one.
pub open spec fn name_at(hay: Seq<u8>, needle: Seq<u8>, i: int) -> bool {
    1 <= i && crate::parallel::grammar::is_ws(hay[i - 1]) && occurs_at(hay, needle, i)
}

/// The first position at or after `p` where `needle` occurs just after
/// ASCII white space.
pub open spec fn match_from(hay: Seq<u8>, needle: Seq<u8>, p: int) -> Option<int>
    decreases hay.len() + 1 - p,
{
    if p < 0 || p + needle.len() > hay.len() {
        None
    } else if name_at(hay, needle, p) {
        Some(p)
    } else {
        match_from(hay, needle, p + 1)
    }
}

impl IndexView {
    /// Every position recorded lies inside the input.
    pub open spec fn positions_ok(self) -> bool {
        &&& forall|i: int| 0 <= i < self.tags.len() ==> {
            let t = #[trigger] self.tags[i];
            &&& t.start <= t.end < self.input.len()
            &&& t.name_start + t.name_len <= self.input.len()
        }
        &&& forall|t: int| 0 <= t < self.texts.len() ==> {
            let x = #[trigger] self.texts[t];
            x.start <= x.end <= self.input.len()
        }
    }

    /// Parents precede their children; text parents are tags.
    pub open spec fn links_ok(self) -> bool {
        &&& forall|i: int| 0 <= i < self.tags.len() ==>
            ((#[trigger] self.tags[i]).parent matches Some(p) ==> p < i)
        &&& forall|t: int| 0 <= t < self.texts.len() ==>
            ((#[trigger] self.texts[t]).parent matches Some(p) ==> p < self.tags.len())
    }

    /// Matching tags are tags.
    pub open spec fn close_ok(self) -> bool {
        forall|i: int| 0 <= i < self.tags.len() ==>
            ((#[trigger] self.tags[i]).close matches Some(c) ==> c < self.tags.len())
    }

    pub open spec fn wf(self) -> bool {
        self.positions_ok() && self.links_ok() && self.close_ok()
    }

    /// The kinds of the tags, in order.
    pub open spec fn kinds(self) -> Seq<TagType> {
        self.tags.map_values(|t: TagInfo| t.kind)
    }

    /// Tags with parent `p` (close and CDATA tags excluded) among the first `k`.
    pub open spec fn tag_children_upto(self, p: int, k: int) -> Seq<int>
        decreases k,
    {
        if k <= 0 {
            seq![]
        } else {
            let t = self.tags[k - 1];
            let r = self.tag_children_upto(p, k - 1);
            if t.kind != TagType::Close && t.kind != TagType::CData && t.parent == Some(p as nat) {
                r.push(k - 1)
            } else {
                r
            }
        }
    }

    /// The child tags of tag `p`, in document order (close and CDATA tags
    /// excluded; comments and processing instructions included).
    pub open spec fn tag_children(self, p: int) -> Seq<int> {
        self.tag_children_upto(p, self.tags.len() as int)
    }

    /// The elements (open and self-closing tags) among the tags `cs`, in
    /// order.
    pub open spec fn elements_of(self, cs: Seq<int>) -> Seq<int>
        decreases cs.len(),
    {
        if cs.len() == 0 {
            seq![]
        } else {
            let r = self.elements_of(cs.drop_last());
            let c = cs.last();
            if 0 <= c < self.tags.len() && (self.tags[c].kind == TagType::Open || self.tags[c].kind == TagType::SelfClose) {
                r.push(c)
            } else {
                r
            }
        }
    }

    /// The child elements of tag `p`, in document order: its child tags
    /// without comments and processing instructions.
    pub open spec fn element_children(self, p: int) -> Seq<int> {
        self.elements_of(self.tag_children(p))
    }

    /// Texts with parent `p` among the first `k`.
    pub open spec fn text_children_upto(self, p: int, k: int) -> Seq<int>
        decreases k,
    {
        if k <= 0 {
            seq![]
        } else {
            let r = self.text_children_upto(p, k - 1);
            if self.texts[k - 1].parent == Some(p as nat) { r.push(k - 1) } else { r }
        }
    }

    /// The texts directly under tag `p`, in document order.
    pub open spec fn text_children(self, p: int) -> Seq<int> {
        self.text_children_upto(p, self.texts.len() as int)
    }

    /// The text under element `i`, tags stripped: the bytes between its end
    /// and the start of its matching tag (itself when it has none).
    pub open spec fn all_text(self, i: int) -> Seq<char> {
        let close = match self.tags[i].close { Some(c) => c as int, None => i };
        let start = self.tags[i].end + 1int;
        let end = self.tags[close].start as int;
        if start >= end || start >= self.input.len() {
            seq![]
        } else {
            bytes_text(strip_tags(self.input.subrange(start, if end < self.input.len() { end } else { self.input.len() as int }), false))
        }
    }

    /// Element `i` as written, from its `<` to the `>` of its matching tag
    /// (its own when it has none); empty when that is not UTF-8 or the
    /// positions are out of order.
    pub open spec fn element_raw(self, i: int) -> Seq<char> {
        let c = match self.tags[i].close { Some(c) => c as int, None => i };
        let a = self.tags[i].start as int;
        let b = self.tags[c].end + 1int;
        if a <= b <= self.input.len() { utf8_or_empty(self.input.subrange(a, b)) } else { seq![] }
    }

    /// The bytes of tag `i`, from its `<` to its `>`.
    pub open spec fn tag_bytes(self, i: int) -> Seq<u8> {
        self.input.subrange(self.tags[i].start as int, self.tags[i].end + 1int)
    }

    /// The attribute value of tag `i` whose opening quote is at offset `a`
    /// of the tag's bytes: it runs to the next equal quote and must be UTF-8.
    pub open spec fn value_at(self, i: int, a: int) -> Option<Seq<char>> {
        let start = self.tags[i].start as int;
        let tag = self.tag_bytes(i);
        if 0 <= a < tag.len() && (tag[a] == 0x22u8 || tag[a] == 0x27u8) {
            match crate::parallel::grammar::find_from(tag, tag[a], a + 1) {
                None => None,
                Some(q) => {
                    let val = self.input.subrange(start + a + 1, start + q);
                    if valid_utf8(val) { Some(decode_utf8(val)) } else { None }
                },
            }
        } else {
            None
        }
    }

    /// Where `name=` first occurs after white space in the bytes of tag
    /// `i`, which must be UTF-8: the offset of its `=`.
    pub open spec fn attribute_eq(self, i: int, name: Seq<u8>) -> Option<int> {
        let tag = self.tag_bytes(i);
        if !valid_utf8(tag) {
            None
        } else {
            match match_from(tag, name.push(0x3du8), 0) {
                None => None,
                Some(p) => Some(p + name.len()),
            }
        }
    }

    /// The value of attribute `name` of tag `i`: the first `name=` after
    /// white space in the tag's bytes (which must be UTF-8), followed by a quote; the value runs
    /// to the next equal quote and must be UTF-8.
    pub open spec fn attribute(self, i: int, name: Seq<u8>) -> Option<Seq<char>> {
        match self.attribute_eq(i, name) {
            None => None,
            Some(e) => self.value_at(i, e + 1),
        }
    }

    /// Offset, within the bytes of tag `i`, just after its name.
    pub open spec fn after_name(self, i: int) -> int {
        self.tags[i].name_start + self.tags[i].name_len - self.tags[i].start
    }

    /// The bytes of text `t`.
    pub open spec fn text_bytes(self, t: int) -> Seq<u8> {
        self.input.subrange(self.texts[t].start as int, self.texts[t].end as int)
    }

    /// The bytes of the name of tag `i`.
    pub open spec fn name_bytes(self, i: int) -> Seq<u8> {
        let t = self.tags[i];
        self.input.subrange(t.name_start as int, (t.name_start + t.name_len) as int)
    }
}

/// Comparing a tag's name bytes with a name's UTF-8 bytes agrees with
/// comparing the tag's decoded name with the name, when the name bytes are
/// UTF-8.
pub proof fn law_name_bytes_agree(v: IndexView, i: int, name: Seq<char>)
    requires
        valid_utf8(v.name_bytes(i)),
    ensures
        (v.name_bytes(i) == encode_utf8(name)) == (utf8_or_empty(v.name_bytes(i)) == name),
{
    vstd::utf8::encode_utf8_decode_utf8(name);
    vstd::utf8::decode_utf8_encode_utf8(v.name_bytes(i));
}

/// An attribute value opened by a quote is the text up to the next quote of
/// the same kind: the tag holds the opening quote, then the value's UTF-8
/// bytes, none of them that quote (a quote of the other kind is part of
/// the value), then the closing quote.
pub proof fn law_attribute_value_runs_to_same_quote(v: IndexView, i: int, a: int)
    requires
        0 <= i < v.tags.len(),
        v.positions_ok(),
        v.value_at(i, a) is Some,
    ensures
        ({
            let tag = v.tag_bytes(i);
            let b = encode_utf8(v.value_at(i, a)->Some_0);
            &&& (tag[a] == 0x22u8 || tag[a] == 0x27u8)
            &&& a + 1 + b.len() < tag.len()
            &&& tag.subrange(a + 1, a + 1 + b.len()) == b
            &&& tag[a + 1 + b.len()] == tag[a]
            &&& forall|k: int| 0 <= k < b.len() ==> b[k] != tag[a]
        }),
{
    let tag = v.tag_bytes(i);
    let start = v.tags[i].start as int;
    crate::parallel::grammar::lemma_find_from(tag, tag[a], a + 1);
    let q = crate::parallel::grammar::find_from(tag, tag[a], a + 1)->Some_0;
    let val = v.input.subrange(start + a + 1, start + q);
    assert(val =~= tag.subrange(a + 1, q));
    vstd::utf8::decode_utf8_encode_utf8(val);
    let b = encode_utf8(v.value_at(i, a)->Some_0);
    assert(b == val);
    assert forall|k: int| 0 <= k < b.len() implies b[k] != tag[a] by {
        assert(b[k] == tag[a + 1 + k]);
    }
}

/// Conversely, a quote in a tag followed later by a quote of the same kind,
/// with UTF-8 between, opens a value: the text between them.
pub proof fn law_quoted_text_is_a_value(v: IndexView, i: int, a: int, q: int)
    requires
        0 <= i < v.tags.len(),
        v.positions_ok(),
        0 <= a < q < v.tag_bytes(i).len(),
        v.tag_bytes(i)[a] == 0x22u8 || v.tag_bytes(i)[a] == 0x27u8,
        v.tag_bytes(i)[q] == v.tag_bytes(i)[a],
        forall|k: int| a < k < q ==> v.tag_bytes(i)[k] != v.tag_bytes(i)[a],
        valid_utf8(v.tag_bytes(i).subrange(a + 1, q)),
    ensures
        v.value_at(i, a) == Some(decode_utf8(v.tag_bytes(i).subrange(a + 1, q))),
{
    let tag = v.tag_bytes(i);
    let start = v.tags[i].start as int;
    crate::parallel::grammar::lemma_find_from(tag, tag[a], a + 1);
    let g = crate::parallel::grammar::find_from(tag, tag[a], a + 1)->Some_0;
    assert(g == q);
    assert(v.input.subrange(start + a + 1, start + q) =~= tag.subrange(a + 1, q));
}

/// Text before any markup is kept whole, byte for byte, ahead of what the
/// rest keeps.
pub proof fn law_text_is_kept(x: Seq<u8>, z: Seq<u8>)
    requires
        forall|k: int| 0 <= k < x.len() ==> x[k] != 0x3cu8 && x[k] != 0x3eu8,
    ensures
        strip_tags(x + z, false) == x + strip_tags(z, false),
    decreases x.len(),
{
    if x.len() > 0 {
        assert((x + z)[0] == x[0]);
        assert((x + z).drop_first() =~= x.drop_first() + z);
        law_text_is_kept(x.drop_first(), z);
        assert(seq![x[0]] + (x.drop_first() + strip_tags(z, false)) =~= x + strip_tags(z, false));
    } else {
        assert(x + z =~= z);
        assert(x + strip_tags(z, false) =~= strip_tags(z, false));
    }
}

/// A tag, from its `<` to the first `>`, is dropped whole.
pub proof fn law_tag_is_dropped(y: Seq<u8>, z: Seq<u8>)
    requires
        forall|k: int| 0 <= k < y.len() ==> y[k] != 0x3eu8,
    ensures
        strip_tags(seq![0x3cu8] + y + seq![0x3eu8] + z, false) == strip_tags(z, false),
{
    let s = seq![0x3cu8] + y + seq![0x3eu8] + z;
    assert(s.drop_first() =~= y + seq![0x3eu8] + z);
    lemma_inside_tag(y, z);
}

/// Inside a tag, everything up to the first `>` is dropped.
proof fn lemma_inside_tag(y: Seq<u8>, z: Seq<u8>)
    requires
        forall|k: int| 0 <= k < y.len() ==> y[k] != 0x3eu8,
    ensures
        strip_tags(y + seq![0x3eu8] + z, true) == strip_tags(z, false),
    decreases y.len(),
{
    let s = y + seq![0x3eu8] + z;
    if y.len() > 0 {
        assert(s[0] == y[0]);
        assert(s.drop_first() =~= y.drop_first() + seq![0x3eu8] + z);
        lemma_inside_tag(y.drop_first(), z);
    } else {
        assert(s[0] == 0x3eu8);
        assert(s.drop_first() =~= z);
    }
}

/// The text of an element whose content holds no markup is that content,
/// every byte of it.
pub proof fn law_plain_content_is_all_text(v: IndexView, i: int)
    requires
        0 <= i < v.tags.len(),
        ({
            let close = match v.tags[i].close { Some(c) => c as int, None => i };
            let start = v.tags[i].end + 1int;
            let end = v.tags[close].start as int;
            &&& start < end <= v.input.len()
            &&& forall|k: int| start <= k < end ==> v.input[k] != 0x3cu8 && v.input[k] != 0x3eu8
        }),
    ensures
        ({
            let close = match v.tags[i].close { Some(c) => c as int, None => i };
            let start = v.tags[i].end + 1int;
            let end = v.tags[close].start as int;
            v.all_text(i) == bytes_text(v.input.subrange(start, end))
        }),
{
    let close = match v.tags[i].close { Some(c) => c as int, None => i };
    let start = v.tags[i].end + 1int;
    let end = v.tags[close].start as int;
    let x = v.input.subrange(start, end);
    law_text_is_kept(x, seq![]);
    assert(x + Seq::<u8>::empty() =~= x);
    assert(strip_tags(Seq::<u8>::empty(), false) =~= Seq::<u8>::empty());
}

} // verus!
