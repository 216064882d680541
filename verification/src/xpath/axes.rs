//! The XPath axes as array operations on `XmlIndex`.

use vstd::prelude::*;
use vstd::utf8::*;
use crate::index::{XmlIndex, TagType, opt_index};
use crate::index::model::IndexView;
use crate::text::str_eq;
use super::ast::{Axis, NodeTest};
use super::semantics::{XPathNode, DOC_ROOT, is_element_kind, is_tree_kind, ancestor_ids, ElemFilter, keeps, elems_up, elems_down,
    TextFilter, texts_up, child_axis, descendant_axis, parent_axis, as_elements, ancestor_axis,
    following_sibling_axis, preceding_sibling_axis, following_axis, preceding_axis, attribute_nodes,
    attribute_axis, axis_nodes, matches_test, filter_test};

verus! {

broadcast use vstd::utf8::encode_utf8_decode_utf8;

/// Which tags an element scan keeps (the executable side of `ElemFilter`).
enum Sel {
    Top,
    ChildOf(usize),
    Any,
    SiblingOf(usize),
}

spec fn sel_filter(s: Sel) -> ElemFilter {
    match s {
        Sel::Top => ElemFilter::Top,
        Sel::ChildOf(p) => ElemFilter::ChildOf(p as nat),
        Sel::Any => ElemFilter::Any,
        Sel::SiblingOf(x) => ElemFilter::SiblingOf(x as nat),
    }
}

/// An open or self-closing tag.
fn is_element(k: TagType) -> (r: bool)
    ensures
        r == is_element_kind(k),
{
    k == TagType::Open || k == TagType::SelfClose
}

/// A tag that is a node of the tree.
fn is_tree_tag(k: TagType) -> (r: bool)
    ensures
        r == is_tree_kind(k),
{
    k == TagType::Open || k == TagType::SelfClose || k == TagType::Comment || k == TagType::PI
}

/// `opt_index(x) == Some(p)`, computed.
fn is_index(x: u32, p: usize) -> (r: bool)
    ensures
        r == (opt_index(x) == Some(p as nat)),
{
    x != u32::MAX && x as usize == p
}

fn sel_keeps(index: &XmlIndex, s: &Sel, i: usize) -> (r: bool)
    requires
        index.wf(),
        i < index@.tags.len(),
        s matches Sel::SiblingOf(x) ==> x < index@.tags.len(),
    ensures
        r == keeps(index@, sel_filter(*s), i as int),
{
    proof { index.lemma_wf(); }
    if !is_tree_tag(index.tag_types[i]) {
        return false;
    }
    match s {
        Sel::Top => index.depth_at(i) == 0,
        Sel::ChildOf(p) => is_index(index.parent_at(i), *p),
        Sel::Any => true,
        Sel::SiblingOf(x) => index.parent_at(i) == index.parent_at(*x) && index.depth_at(i) == index.depth_at(*x),
    }
}

/// The elements of `lo..hi` that pass the filter, ascending.
fn elems_up_exec(index: &XmlIndex, lo: usize, hi: usize, s: Sel) -> (r: Vec<XPathNode>)
    requires
        index.wf(),
        hi <= index@.tags.len(),
        s matches Sel::SiblingOf(x) ==> x < index@.tags.len(),
    ensures
        r@ == elems_up(index@, lo as int, hi as int, sel_filter(s)),
{
    let mut result: Vec<XPathNode> = Vec::new();
    if hi <= lo {
        return result;
    }
    let mut i = lo;
    while i < hi
        invariant
            index.wf(),
            lo <= i <= hi <= index@.tags.len(),
            s matches Sel::SiblingOf(x) ==> x < index@.tags.len(),
            result@ == elems_up(index@, lo as int, i as int, sel_filter(s)),
        decreases hi - i,
    {
        if sel_keeps(index, &s, i) {
            result.push(XPathNode::Element(i));
        }
        proof {
            assert(result@ =~= elems_up(index@, lo as int, i + 1, sel_filter(s)));
        }
        i = i + 1;
    }
    result
}

/// The elements of `0..hi` that pass the filter, descending.
fn elems_down_exec(index: &XmlIndex, hi: usize, s: Sel) -> (r: Vec<XPathNode>)
    requires
        index.wf(),
        hi <= index@.tags.len(),
        s matches Sel::SiblingOf(x) ==> x < index@.tags.len(),
    ensures
        r@ == elems_down(index@, 0, hi as int, sel_filter(s)),
{
    let mut result: Vec<XPathNode> = Vec::new();
    let mut i = hi;
    while i > 0
        invariant
            index.wf(),
            i <= hi <= index@.tags.len(),
            s matches Sel::SiblingOf(x) ==> x < index@.tags.len(),
            result@ == elems_down(index@, i as int, hi as int, sel_filter(s)),
        decreases i,
    {
        i = i - 1;
        if sel_keeps(index, &s, i) {
            result.push(XPathNode::Element(i));
        }
        proof {
            assert(result@ =~= elems_down(index@, i as int, hi as int, sel_filter(s)));
        }
    }
    result
}

/// Which texts a text scan keeps (the executable side of `TextFilter`).
enum TSel {
    Any,
    ChildOf(usize),
    Within(usize, usize),
}

spec fn tsel_filter(s: TSel) -> TextFilter {
    match s {
        TSel::Any => TextFilter::Any,
        TSel::ChildOf(p) => TextFilter::ChildOf(p as nat),
        TSel::Within(lo, hi) => TextFilter::Within(lo as nat, hi as nat),
    }
}

/// The texts that pass the filter, ascending.
fn texts_up_exec(index: &XmlIndex, s: TSel) -> (r: Vec<XPathNode>)
    requires
        index.wf(),
    ensures
        r@ == texts_up(index@, index@.texts.len() as int, tsel_filter(s)),
{
    let mut result: Vec<XPathNode> = Vec::new();
    let n = index.text_count();
    let mut t: usize = 0;
    while t < n
        invariant
            index.wf(),
            t <= n == index@.texts.len(),
            result@ == texts_up(index@, t as int, tsel_filter(s)),
        decreases n - t,
    {
        let parent = index.text_range_at(t).parent_tag;
        let keep = match s {
            TSel::Any => true,
            TSel::ChildOf(p) => is_index(parent, p),
            TSel::Within(lo, hi) => parent != u32::MAX && lo <= parent as usize && (parent as usize) < hi,
        };
        if keep {
            result.push(XPathNode::Text(t));
        }
        proof {
            assert(result@ =~= texts_up(index@, t + 1, tsel_filter(s)));
        }
        t = t + 1;
    }
    result
}

/// The ancestors of a tag chain starting at `cur`, innermost first.
fn ancestor_chain(index: &XmlIndex, cur: u32) -> (r: Vec<usize>)
    requires
        index.wf(),
        opt_index(cur) matches Some(p) ==> p < index@.tags.len(),
    ensures
        r@.map_values(|p: usize| p as nat) == ancestor_ids(index@, opt_index(cur)),
        forall|j: int| 0 <= j < r@.len() ==> r@[j] < index@.tags.len(),
{
    proof { index.lemma_wf(); }
    let ghost full = ancestor_ids(index@, opt_index(cur));
    let mut result: Vec<usize> = Vec::new();
    let mut c = cur;
    while c != u32::MAX
        invariant
            index.wf(),
            index@.wf(),
            opt_index(c) matches Some(p) ==> p < index@.tags.len(),
            result@.map_values(|p: usize| p as nat) + ancestor_ids(index@, opt_index(c)) == full,
            forall|j: int| 0 <= j < result@.len() ==> result@[j] < index@.tags.len(),
        decreases (if c == u32::MAX { 0 } else { c + 1 }),
    {
        let p = c as usize;
        let next = index.parent_at(p);
        proof {
            let old_r = result@.map_values(|q: usize| q as nat);
            assert(result@.push(p).map_values(|q: usize| q as nat) =~= old_r.push(p as nat));
            assert(opt_index(next) matches Some(q) ==> q < p);
            assert(ancestor_ids(index@, opt_index(c)) =~= seq![p as nat] + ancestor_ids(index@, opt_index(next)));
            assert(old_r + (seq![p as nat] + ancestor_ids(index@, opt_index(next)))
                =~= old_r.push(p as nat) + ancestor_ids(index@, opt_index(next)));
        }
        result.push(p);
        c = next;
    }
    proof {
        assert(result@.map_values(|p: usize| p as nat) + seq![] =~= result@.map_values(|p: usize| p as nat));
    }
    result
}

/// The `child` axis.
pub fn eval_child_axis(index: &XmlIndex, node: XPathNode) -> (r: Vec<XPathNode>)
    requires
        index.wf(),
    ensures
        r@ == child_axis(index@, node),
{
    let parent_idx = match node {
        XPathNode::Element(p) => p,
        _ => { return Vec::new(); },
    };
    let n = index.tag_count();
    if parent_idx == DOC_ROOT {
        // Document root's children are depth-0 elements
        return elems_up_exec(index, 0, n, Sel::Top);
    }
    // Child elements, then child text nodes
    let mut result = elems_up_exec(index, 0, n, Sel::ChildOf(parent_idx));
    let mut texts = texts_up_exec(index, TSel::ChildOf(parent_idx));
    result.append(&mut texts);
    result
}

/// The `descendant` axis, or `descendant-or-self` when `include_self`.
pub fn eval_descendant_axis(index: &XmlIndex, node: XPathNode, include_self: bool) -> (r: Vec<XPathNode>)
    requires
        index.wf(),
    ensures
        r@ == descendant_axis(index@, node, include_self),
{
    let mut result: Vec<XPathNode> = Vec::new();
    let start_idx = match node {
        XPathNode::Element(s) => s,
        _ => {
            if include_self {
                result.push(node);
            }
            return result;
        },
    };
    let n = index.tag_count();
    if start_idx == DOC_ROOT {
        // Descendants of document root = all tags + text nodes
        if include_self {
            result.push(node);
        }
        let mut elems = elems_up_exec(index, 0, n, Sel::Any);
        result.append(&mut elems);
        let mut texts = texts_up_exec(index, TSel::Any);
        result.append(&mut texts);
        return result;
    }
    if include_self {
        result.push(node);
    }
    if start_idx >= n {
        return result;
    }
    proof { index.lemma_wf(); }
    // All tags after start_idx until its matching close
    let close_idx = match index.matching_close(start_idx) {
        Some(c) => c,
        None => n,
    };
    let mut elems = elems_up_exec(index, start_idx + 1, close_idx, Sel::Any);
    result.append(&mut elems);
    // Descendant text nodes
    let mut texts = texts_up_exec(index, TSel::Within(start_idx, close_idx));
    result.append(&mut texts);
    result
}

/// The `parent` axis.
pub fn eval_parent_axis(index: &XmlIndex, node: XPathNode) -> (r: Vec<XPathNode>)
    requires
        index.wf(),
    ensures
        r@ == parent_axis(index@, node),
{
    let mut result: Vec<XPathNode> = Vec::new();
    let parent = match node {
        XPathNode::Element(idx) => if idx < index.tag_count() { index.parent_at(idx) } else { u32::MAX },
        XPathNode::Text(idx) => if idx < index.text_count() { index.text_range_at(idx).parent_tag } else { u32::MAX },
        _ => u32::MAX,
    };
    if parent != u32::MAX {
        result.push(XPathNode::Element(parent as usize));
    }
    result
}

/// The `ancestor` axis, or `ancestor-or-self` when `include_self`;
/// innermost first.
pub fn eval_ancestor_axis(index: &XmlIndex, node: XPathNode, include_self: bool) -> (r: Vec<XPathNode>)
    requires
        index.wf(),
    ensures
        r@ == ancestor_axis(index@, node, include_self),
{
    proof { index.lemma_wf(); }
    let mut result: Vec<XPathNode> = Vec::new();
    if include_self {
        result.push(node);
    }
    let current = match node {
        XPathNode::Element(idx) => if idx < index.tag_count() { index.parent_at(idx) } else { u32::MAX },
        XPathNode::Text(idx) => if idx < index.text_count() { index.text_range_at(idx).parent_tag } else { u32::MAX },
        _ => u32::MAX,
    };
    let chain = ancestor_chain(index, current);
    let ghost start = result@;
    let mut k: usize = 0;
    while k < chain.len()
        invariant
            k <= chain@.len(),
            result@ == start + as_elements(chain@.map_values(|p: usize| p as nat)).take(k as int),
        decreases chain@.len() - k,
    {
        result.push(XPathNode::Element(chain[k]));
        proof {
            let ids = chain@.map_values(|p: usize| p as nat);
            assert(as_elements(ids).take(k + 1) =~= as_elements(ids).take(k as int).push(XPathNode::Element(chain@[k as int])));
        }
        k = k + 1;
    }
    proof {
        let ids = chain@.map_values(|p: usize| p as nat);
        assert(as_elements(ids).take(chain@.len() as int) =~= as_elements(ids));
    }
    result
}

/// The `following-sibling` axis.
pub fn eval_following_sibling_axis(index: &XmlIndex, node: XPathNode) -> (r: Vec<XPathNode>)
    requires
        index.wf(),
    ensures
        r@ == following_sibling_axis(index@, node),
{
    match node {
        XPathNode::Element(idx) => {
            let n = index.tag_count();
            if idx < n {
                elems_up_exec(index, idx + 1, n, Sel::SiblingOf(idx))
            } else {
                Vec::new()
            }
        },
        _ => Vec::new(),
    }
}

/// The `preceding-sibling` axis, nearest first.
pub fn eval_preceding_sibling_axis(index: &XmlIndex, node: XPathNode) -> (r: Vec<XPathNode>)
    requires
        index.wf(),
    ensures
        r@ == preceding_sibling_axis(index@, node),
{
    match node {
        XPathNode::Element(idx) => {
            if idx < index.tag_count() {
                elems_down_exec(index, idx, Sel::SiblingOf(idx))
            } else {
                Vec::new()
            }
        },
        _ => Vec::new(),
    }
}

/// The `following` axis: elements after the node's matching tag.
pub fn eval_following_axis(index: &XmlIndex, node: XPathNode) -> (r: Vec<XPathNode>)
    requires
        index.wf(),
    ensures
        r@ == following_axis(index@, node),
{
    let idx = match node {
        XPathNode::Element(idx) => idx,
        _ => { return Vec::new(); },
    };
    let n = index.tag_count();
    if idx >= n {
        return Vec::new();
    }
    proof { index.lemma_wf(); }
    let close = match index.matching_close(idx) {
        Some(c) => c,
        None => idx,
    };
    elems_up_exec(index, close + 1, n, Sel::Any)
}

/// `x` occurs in `v`.
fn contains_index(v: &Vec<usize>, x: usize) -> (r: bool)
    ensures
        r == v@.contains(x),
{
    let mut k: usize = 0;
    while k < v.len()
        invariant
            k <= v@.len(),
            forall|j: int| 0 <= j < k ==> v@[j] != x,
        decreases v@.len() - k,
    {
        if v[k] == x {
            return true;
        }
        k = k + 1;
    }
    false
}

/// The `preceding` axis: elements before the node that are not its
/// ancestors, nearest first.
pub fn eval_preceding_axis(index: &XmlIndex, node: XPathNode) -> (r: Vec<XPathNode>)
    requires
        index.wf(),
    ensures
        r@ == preceding_axis(index@, node),
{
    let idx = match node {
        XPathNode::Element(idx) => idx,
        _ => { return Vec::new(); },
    };
    if idx >= index.tag_count() {
        return Vec::new();
    }
    proof { index.lemma_wf(); }
    // All elements before this one, excluding ancestors
    let ancestors = ancestor_chain(index, index.parent_at(idx));
    let ghost ids = ancestor_ids(index@, index@.tags[idx as int].parent);
    let ghost f = ElemFilter::NotAncestorOf(idx as nat);
    let mut result: Vec<XPathNode> = Vec::new();
    let mut i = idx;
    while i > 0
        invariant
            index.wf(),
            i <= idx < index@.tags.len(),
            ancestors@.map_values(|p: usize| p as nat) == ids,
            ids == ancestor_ids(index@, index@.tags[idx as int].parent),
            f == ElemFilter::NotAncestorOf(idx as nat),
            result@ == elems_down(index@, i as int, idx as int, f),
        decreases i,
    {
        i = i - 1;
        proof { index.lemma_wf(); }
        let anc = contains_index(&ancestors, i);
        proof {
            let m = ancestors@.map_values(|p: usize| p as nat);
            if anc {
                let j = choose|j: int| 0 <= j < ancestors@.len() && ancestors@[j] == i;
                assert(m[j] == i as nat);
            } else {
                assert forall|j: int| 0 <= j < m.len() implies m[j] != i as nat by {
                    assert(ancestors@[j] != i);
                }
            }
            assert(anc == ids.contains(i as nat));
        }
        if is_tree_tag(index.tag_types[i]) && !anc {
            result.push(XPathNode::Element(i));
        }
        proof {
            assert(result@ =~= elems_down(index@, i as int, idx as int, f));
        }
    }
    result
}

/// The attributes of a tag as nodes.
fn attribute_nodes_exec(index: &XmlIndex, idx: usize) -> (r: Vec<XPathNode>)
    requires
        index.wf(),
        idx < index@.tags.len(),
    ensures
        r@ == attribute_nodes(index@, idx as int),
{
    let eqs = index.attribute_eqs(idx);
    let ghost full = eqs@.map_values(|e: usize| e as int);
    let mut result: Vec<XPathNode> = Vec::new();
    let mut k: usize = 0;
    while k < eqs.len()
        invariant
            k <= eqs@.len(),
            result@ == full.take(k as int).map_values(|e: int| XPathNode::Attribute(idx, e as usize)),
            full == eqs@.map_values(|e: usize| e as int),
        decreases eqs@.len() - k,
    {
        result.push(XPathNode::Attribute(idx, eqs[k]));
        proof {
            assert(full.take(k + 1) =~= full.take(k as int).push(eqs@[k as int] as int));
            assert(result@ =~= full.take(k + 1).map_values(|e: int| XPathNode::Attribute(idx, e as usize)));
        }
        k = k + 1;
    }
    proof { assert(full.take(eqs@.len() as int) =~= full); }
    result
}

/// The `attribute` axis: for a name, the attribute when the tag has it;
/// for `*`, all of the tag's attributes.
pub fn eval_attribute_axis(index: &XmlIndex, node: XPathNode, test: &NodeTest) -> (r: Vec<XPathNode>)
    requires
        index.wf(),
    ensures
        r@ == attribute_axis(index@, node, test@),
{
    let idx = match node {
        XPathNode::Element(idx) => idx,
        _ => { return Vec::new(); },
    };
    if idx >= index.tag_count() {
        return Vec::new();
    }
    match test {
        NodeTest::Name(name) => {
            match index.attribute_eq(idx, name.as_str()) {
                Some(e) => {
                    if index.attribute_value_at(idx, e + 1).is_some() {
                        let mut r = Vec::new();
                        r.push(XPathNode::Attribute(idx, e));
                        r
                    } else {
                        Vec::new()
                    }
                },
                None => Vec::new(),
            }
        },
        NodeTest::Wildcard => attribute_nodes_exec(index, idx),
        _ => Vec::new(),
    }
}

/// The candidates of an axis from one node.
pub fn eval_axis(index: &XmlIndex, node: XPathNode, axis: Axis, test: &NodeTest) -> (r: Vec<XPathNode>)
    requires
        index.wf(),
    ensures
        r@ == axis_nodes(index@, node, axis, test@),
{
    match axis {
        Axis::Child => eval_child_axis(index, node),
        Axis::Descendant => eval_descendant_axis(index, node, false),
        Axis::DescendantOrSelf => eval_descendant_axis(index, node, true),
        Axis::Parent => eval_parent_axis(index, node),
        Axis::Ancestor => eval_ancestor_axis(index, node, false),
        Axis::AncestorOrSelf => eval_ancestor_axis(index, node, true),
        Axis::FollowingSibling => eval_following_sibling_axis(index, node),
        Axis::PrecedingSibling => eval_preceding_sibling_axis(index, node),
        Axis::Following => eval_following_axis(index, node),
        Axis::Preceding => eval_preceding_axis(index, node),
        Axis::SelfAxis => {
            let mut r = Vec::new();
            r.push(node);
            r
        },
        Axis::Attribute => eval_attribute_axis(index, node, test),
        Axis::Namespace => Vec::new(),
    }
}

/// The node passes the node test.
pub fn matches_node_test(index: &XmlIndex, node: XPathNode, test: &NodeTest) -> (r: bool)
    requires
        index.wf(),
    ensures
        r == matches_test(index@, node, test@),
{
    proof { index.lemma_wf(); }
    match test {
        NodeTest::Node => true,
        NodeTest::Wildcard => match node {
            XPathNode::Element(idx) => idx < index.tag_count() && is_element(index.tag_types[idx]),
            XPathNode::Attribute(_, _) => true,
            XPathNode::Text(_) => false,
        },
        NodeTest::Text => match node {
            XPathNode::Text(_) => true,
            _ => false,
        },
        NodeTest::Name(name) => match node {
            XPathNode::Element(idx) => idx < index.tag_count() && is_element(index.tag_types[idx])
                && str_eq(index.tag_name(idx), name.as_str()),
            XPathNode::Attribute(_, _) => true,
            XPathNode::Text(_) => false,
        },
        NodeTest::NamespacedName(_, _) => false,
        NodeTest::Comment => match node {
            XPathNode::Element(idx) => idx < index.tag_count() && index.tag_types[idx] == TagType::Comment,
            _ => false,
        },
        NodeTest::PI => match node {
            XPathNode::Element(idx) => idx < index.tag_count() && index.tag_types[idx] == TagType::PI,
            _ => false,
        },
    }
}

/// The nodes that pass the node test, in order.
pub fn filter_node_test(index: &XmlIndex, nodes: &Vec<XPathNode>, test: &NodeTest) -> (r: Vec<XPathNode>)
    requires
        index.wf(),
    ensures
        r@ == filter_test(index@, nodes@, test@),
{
    let mut result: Vec<XPathNode> = Vec::new();
    let mut k: usize = 0;
    while k < nodes.len()
        invariant
            index.wf(),
            k <= nodes@.len(),
            result@ == filter_test(index@, nodes@.take(k as int), test@),
        decreases nodes@.len() - k,
    {
        let node = nodes[k];
        if matches_node_test(index, node, test) {
            result.push(node);
        }
        proof {
            assert(nodes@.take(k + 1).drop_last() =~= nodes@.take(k as int));
            assert(result@ =~= filter_test(index@, nodes@.take(k + 1), test@));
        }
        k = k + 1;
    }
    proof { assert(nodes@.take(nodes@.len() as int) =~= nodes@); }
    result
}

} // verus!
