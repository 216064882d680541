//! Tag-level utilities: attribute lookup.

use vstd::prelude::*;
use vstd::slice::slice_subrange;
use vstd::string::StringSliceAdditionalSpecFns;
use crate::index::XmlIndex;
use crate::index::model::{match_from, name_at, occurs_at, attr_eqs, utf8_or_empty};
use crate::index::bytes_eq;
use crate::parallel::scanner::{find_byte, ascii_ws};
use crate::text::utf8_str;

verus! {

/// The first occurrence of `needle` in `hay` just after ASCII white space.
pub fn find_subslice(hay: &[u8], needle: &[u8]) -> (r: Option<usize>)
    ensures
        match r {
            Some(i) => match_from(hay@, needle@, 0) == Some(i as int),
            None => match_from(hay@, needle@, 0) is None,
        },
{
    if needle.len() > hay.len() {
        return None;
    }
    let last = hay.len() - needle.len();
    let mut i: usize = 0;
    while i <= last
        invariant
            needle@.len() <= hay@.len(),
            hay@.len() == hay.len(),
            needle@.len() == needle.len(),
            last == hay@.len() - needle@.len(),
            match_from(hay@, needle@, i as int) == match_from(hay@, needle@, 0),
        decreases last + 1 - i,
    {
        assert(i + needle@.len() <= hay@.len());
        let window = slice_subrange(hay, i, i + needle.len());
        if i >= 1 && ascii_ws(hay[i - 1]) && bytes_eq(window, needle) {
            return Some(i);
        }
        if i == last {
            proof {
                assert(match_from(hay@, needle@, i + 1) is None);
            }
            return None;
        }
        i = i + 1;
    }
    None
}

impl<'a> XmlIndex<'a> {
    /// Extract an attribute value from a tag by attribute name.
    pub fn get_attribute(&self, tag_idx: usize, attr_name: &str) -> (r: Option<&'a str>)
        requires
            self.wf(),
            tag_idx < self@.tags.len(),
        ensures
            match r {
                Some(s) => self@.attribute(tag_idx as int, attr_name.spec_bytes()) == Some(s@),
                None => self@.attribute(tag_idx as int, attr_name.spec_bytes()) is None,
            },
    {
        match self.attribute_eq(tag_idx, attr_name) {
            None => None,
            Some(e) => self.attribute_value_at(tag_idx, e + 1),
        }
    }

    /// Where `attr_name=` first occurs after white space in the tag's bytes
    /// (which must be UTF-8): the offset of its `=`.
    pub(crate) fn attribute_eq(&self, tag_idx: usize, attr_name: &str) -> (r: Option<usize>)
        requires
            self.wf(),
            tag_idx < self@.tags.len(),
        ensures
            match r {
                Some(e) => self@.attribute_eq(tag_idx as int, attr_name.spec_bytes()) == Some(e as int)
                    && e < self@.tag_bytes(tag_idx as int).len() && e < u32::MAX,
                None => self@.attribute_eq(tag_idx as int, attr_name.spec_bytes()) is None,
            },
    {
        let tag_bytes = self.tag_slice(tag_idx);
        proof { self.lemma_wf(); }

        // Simple attribute parsing: find attr_name="value" or attr_name='value'
        let name = attr_name.as_bytes();
        let mut attr_search: Vec<u8> = Vec::new();
        let mut k: usize = 0;
        while k < name.len()
            invariant
                k <= name@.len(),
                attr_search@ == name@.take(k as int),
            decreases name@.len() - k,
        {
            attr_search.push(name[k]);
            proof { assert(name@.take(k + 1) =~= name@.take(k as int).push(name@[k as int])); }
            k = k + 1;
        }
        attr_search.push(0x3du8);
        proof { assert(name@.take(name@.len() as int) =~= name@); }
        if utf8_str(tag_bytes).is_none() {
            return None;
        }
        let attr_pos = match find_subslice(tag_bytes, attr_search.as_slice()) {
            Some(p) => p,
            None => { return None; },
        };
        proof {
            lemma_match_from_bounds(tag_bytes@, attr_search@, 0);
        }
        Some(attr_pos + name.len())
    }

    /// The bytes of tag `i`, from its `<` to its `>`.
    pub(crate) fn tag_slice(&self, tag_idx: usize) -> (r: &'a [u8])
        requires
            self.wf(),
            tag_idx < self@.tags.len(),
        ensures
            r@ == self@.tag_bytes(tag_idx as int),
    {
        proof {
            self.lemma_wf();
            assert(self@.tags[tag_idx as int].start == self.tag_starts@[tag_idx as int]);
            assert(self@.tags[tag_idx as int].end == self.tag_ends@[tag_idx as int]);
        }
        let start = self.tag_starts[tag_idx] as usize;
        let end = self.tag_ends[tag_idx] as usize;
        slice_subrange(self.input, start, end + 1)
    }

    /// Element `i` as written, from its `<` to the `>` of its matching tag;
    /// empty when that is not UTF-8.
    pub(crate) fn element_raw(&self, i: usize) -> (r: &'a str)
        requires
            self.wf(),
            i < self@.tags.len(),
        ensures
            r@ == self@.element_raw(i as int),
    {
        proof {
            self.lemma_wf();
            reveal_strlit("");
            assert(self@.tags[i as int].start == self.tag_starts@[i as int]);
        }
        let c = match self.matching_close(i) {
            Some(c) => c,
            None => i,
        };
        proof { assert(self@.tags[c as int].end == self.tag_ends@[c as int]); }
        let a = self.tag_starts[i] as usize;
        let b = self.tag_ends[c] as usize + 1;
        if a <= b && b <= self.input.len() {
            match utf8_str(slice_subrange(self.input, a, b)) {
                Some(s) => s,
                None => "",
            }
        } else {
            ""
        }
    }

    /// The attribute value of a tag whose opening quote is at offset `a` of
    /// the tag's bytes.
    pub(crate) fn attribute_value_at(&self, tag_idx: usize, a: usize) -> (r: Option<&'a str>)
        requires
            self.wf(),
            tag_idx < self@.tags.len(),
        ensures
            match r {
                Some(s) => self@.value_at(tag_idx as int, a as int) == Some(s@),
                None => self@.value_at(tag_idx as int, a as int) is None,
            },
    {
        proof {
            self.lemma_wf();
            assert(self@.tags[tag_idx as int].start == self.tag_starts@[tag_idx as int]);
        }
        let start = self.tag_starts[tag_idx] as usize;
        let tag_bytes = self.tag_slice(tag_idx);
        if a < tag_bytes.len() && (tag_bytes[a] == 0x22u8 || tag_bytes[a] == 0x27u8) {
            let quote = tag_bytes[a];
            match find_byte(tag_bytes, quote, a + 1) {
                None => None,
                Some(end_quote) => {
                    proof {
                        crate::parallel::grammar::lemma_find_from(tag_bytes@, quote, a + 1);
                        assert(self.input@.subrange(start + a + 1, start + end_quote)
                            =~= tag_bytes@.subrange(a + 1, end_quote as int));
                    }
                    let value = slice_subrange(self.input, start + a + 1, start + end_quote);
                    utf8_str(value)
                },
            }
        } else {
            None
        }
    }

    /// The attributes of a tag, by the offsets of their `=` within the
    /// tag's bytes, in order.
    pub(crate) fn attribute_eqs(&self, tag_idx: usize) -> (r: Vec<usize>)
        requires
            self.wf(),
            tag_idx < self@.tags.len(),
        ensures
            r@.map_values(|e: usize| e as int) == attr_eqs(self@.tag_bytes(tag_idx as int), self@.after_name(tag_idx as int)),
    {
        proof {
            self.lemma_wf();
            assert(self@.tags[tag_idx as int].start == self.tag_starts@[tag_idx as int]);
            assert(self@.tags[tag_idx as int].name_start == self.tag_names@[tag_idx as int].0);
            assert(self@.tags[tag_idx as int].name_len == self.tag_names@[tag_idx as int].1);
        }
        let tag = self.tag_slice(tag_idx);
        let ghost full = attr_eqs(tag@, self@.after_name(tag_idx as int));
        let mut r: Vec<usize> = Vec::new();
        let (off, len) = self.tag_names[tag_idx];
        let start = self.tag_starts[tag_idx];
        let name_end: u64 = off as u64 + len as u64;
        assert(self@.after_name(tag_idx as int) == name_end - start);
        if name_end < start as u64 {
            proof { assert(full =~= seq![]); }
            return r;
        }
        let p0: u64 = name_end - start as u64;
        if p0 >= tag.len() as u64 {
            proof { assert(full =~= seq![]); }
            return r;
        }
        let mut p: usize = p0 as usize;
        proof { assert(r@.map_values(|e: usize| e as int) =~= seq![]); assert(seq![] + full =~= full); }
        while p < tag.len()
            invariant
                tag@.len() == tag.len(),
                tag@.len() < usize::MAX,
                p <= tag@.len(),
                r@.map_values(|e: usize| e as int) + attr_eqs(tag@, p as int) == full,
                full == attr_eqs(self@.tag_bytes(tag_idx as int), self@.after_name(tag_idx as int)),
                tag@ == self@.tag_bytes(tag_idx as int),
            decreases tag@.len() - p,
        {
            let b = tag[p];
            if ascii_ws(b) {
                p = p + 1;
            } else if b == 0x3eu8 || b == 0x2fu8 || b == 0x3fu8 || b == 0x3du8 {
                proof {
                    assert(attr_eqs(tag@, p as int) =~= seq![]);
                    assert(r@.map_values(|e: usize| e as int) + seq![] =~= r@.map_values(|e: usize| e as int));
                }
                return r;
            } else {
                match find_byte(tag, 0x3du8, p) {
                    None => {
                        proof {
                    assert(attr_eqs(tag@, p as int) =~= seq![]);
                    assert(r@.map_values(|e: usize| e as int) + seq![] =~= r@.map_values(|e: usize| e as int));
                }
                        return r;
                    },
                    Some(e) => {
                        proof { crate::parallel::grammar::lemma_find_from(tag@, 0x3du8, p as int); }
                        if e + 1 < tag.len() && (tag[e + 1] == 0x22u8 || tag[e + 1] == 0x27u8) {
                            match find_byte(tag, tag[e + 1], e + 2) {
                                None => {
                                    proof {
                    assert(attr_eqs(tag@, p as int) =~= seq![]);
                    assert(r@.map_values(|e: usize| e as int) + seq![] =~= r@.map_values(|e: usize| e as int));
                }
                                    return r;
                                },
                                Some(c) => {
                                    proof {
                                        crate::parallel::grammar::lemma_find_from(tag@, tag@[e + 1], e + 2);
                                        let old_r = r@.map_values(|e: usize| e as int);
                                        assert(r@.push(e).map_values(|e: usize| e as int) =~= old_r.push(e as int));
                                        assert(attr_eqs(tag@, p as int) == seq![e as int] + attr_eqs(tag@, c + 1));
                                        assert(old_r + (seq![e as int] + attr_eqs(tag@, c + 1)) =~= old_r.push(e as int) + attr_eqs(tag@, c + 1));
                                    }
                                    r.push(e);
                                    p = c + 1;
                                },
                            }
                        } else {
                            proof {
                    assert(attr_eqs(tag@, p as int) =~= seq![]);
                    assert(r@.map_values(|e: usize| e as int) + seq![] =~= r@.map_values(|e: usize| e as int));
                }
                            return r;
                        }
                    },
                }
            }
        }
        proof {
                    assert(attr_eqs(tag@, p as int) =~= seq![]);
                    assert(r@.map_values(|e: usize| e as int) + seq![] =~= r@.map_values(|e: usize| e as int));
                }
        r
    }
}

/// A match lies inside the haystack.
pub proof fn lemma_match_from_bounds(hay: Seq<u8>, needle: Seq<u8>, p: int)
    requires
        0 <= p,
    ensures
        match_from(hay, needle, p) matches Some(i) ==> p <= i && i + needle.len() <= hay.len()
            && occurs_at(hay, needle, i),
    decreases hay.len() + 1 - p,
{
    if p + needle.len() <= hay.len() && !name_at(hay, needle, p) {
        lemma_match_from_bounds(hay, needle, p + 1);
    }
}

} // verus!
