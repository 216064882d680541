//! What an XPath expression selects in an index, as mathematics: the axes
//! as sequences of nodes, node tests, predicates and their values.

use vstd::prelude::*;
use vstd::utf8::*;
use crate::index::TagType;
use crate::index::model::{IndexView, utf8_or_empty, attr_eqs};
use super::ast::{Axis, TestModel, StepModel, PathModel, ExprModel, Function, CompareOp};

verus! {

/// A node in the XPath result set.
#[derive(Debug, Clone, Copy, PartialEq, Eq, Structural)]
pub enum XPathNode {
    /// A tag, by its index; `usize::MAX` is the document root.
    Element(usize),
    /// A text range, by its index.
    Text(usize),
    /// An attribute: (tag index, offset of the attribute's `=` within the tag).
    Attribute(usize, usize),
}

/// Sentinel index for the virtual document root.
pub const DOC_ROOT: usize = usize::MAX;

/// An open or self-closing tag: an element.
pub open spec fn is_element_kind(k: TagType) -> bool {
    k == TagType::Open || k == TagType::SelfClose
}

/// A tag that is a node of the tree: an element, a comment or a
/// processing instruction (not a close tag, nor a CDATA section, whose
/// content is text).
pub open spec fn is_tree_kind(k: TagType) -> bool {
    k == TagType::Open || k == TagType::SelfClose || k == TagType::Comment || k == TagType::PI
}

/// The tag's matching tag, or `dflt` when it has none.
pub open spec fn close_or(v: IndexView, i: int, dflt: int) -> int {
    match v.tags[i].close {
        Some(c) => c as int,
        None => dflt,
    }
}

/// The chain of ancestors starting at `cur`, innermost first.
pub open spec fn ancestor_ids(v: IndexView, cur: Option<nat>) -> Seq<nat>
    decreases (match cur { Some(p) => p + 1, None => 0 }),
{
    match cur {
        None => seq![],
        Some(p) => seq![p] + (match v.tags[p as int].parent {
            Some(q) => if q < p { ancestor_ids(v, Some(q)) } else { seq![] },
            None => seq![],
        }),
    }
}

/// Which tags an axis over tags keeps (elements, comments and processing
/// instructions).
pub enum ElemFilter {
    /// Top-level elements.
    Top,
    /// Elements whose parent is the given tag.
    ChildOf(nat),
    /// All elements.
    Any,
    /// Elements with the same parent and depth as the given tag.
    SiblingOf(nat),
    /// Elements that are not ancestors of the given tag.
    NotAncestorOf(nat),
}

/// Tag `i` passes the filter.
pub open spec fn keeps(v: IndexView, f: ElemFilter, i: int) -> bool {
    is_tree_kind(v.tags[i].kind) && match f {
        ElemFilter::Top => v.tags[i].depth == 0,
        ElemFilter::ChildOf(p) => v.tags[i].parent == Some(p),
        ElemFilter::Any => true,
        ElemFilter::SiblingOf(x) => v.tags[i].parent == v.tags[x as int].parent
            && v.tags[i].depth == v.tags[x as int].depth,
        ElemFilter::NotAncestorOf(x) => !ancestor_ids(v, v.tags[x as int].parent).contains(i as nat),
    }
}

/// The elements `i` of `lo..hi` that pass the filter, ascending.
pub open spec fn elems_up(v: IndexView, lo: int, hi: int, f: ElemFilter) -> Seq<XPathNode>
    decreases hi - lo,
{
    if hi <= lo {
        seq![]
    } else {
        elems_up(v, lo, hi - 1, f) + (if keeps(v, f, hi - 1) { seq![XPathNode::Element((hi - 1) as usize)] } else { seq![] })
    }
}

/// The elements `i` of `lo..hi` that pass the filter, descending.
pub open spec fn elems_down(v: IndexView, lo: int, hi: int, f: ElemFilter) -> Seq<XPathNode>
    decreases hi - lo,
{
    if hi <= lo {
        seq![]
    } else {
        elems_down(v, lo + 1, hi, f) + (if keeps(v, f, lo) { seq![XPathNode::Element(lo as usize)] } else { seq![] })
    }
}

/// Which texts a text axis keeps.
pub enum TextFilter {
    /// Every text.
    Any,
    /// Texts directly under the given tag.
    ChildOf(nat),
    /// Texts whose parent lies in `lo..hi`.
    Within(nat, nat),
}

/// Text `t` passes the filter.
pub open spec fn text_keeps(v: IndexView, f: TextFilter, t: int) -> bool {
    match f {
        TextFilter::Any => true,
        TextFilter::ChildOf(p) => v.texts[t].parent == Some(p),
        TextFilter::Within(lo, hi) => v.texts[t].parent matches Some(q) && lo <= q < hi,
    }
}

/// The texts `t` of `0..hi` that pass the filter, ascending.
pub open spec fn texts_up(v: IndexView, hi: int, f: TextFilter) -> Seq<XPathNode>
    decreases hi,
{
    if hi <= 0 {
        seq![]
    } else {
        texts_up(v, hi - 1, f) + (if text_keeps(v, f, hi - 1) { seq![XPathNode::Text((hi - 1) as usize)] } else { seq![] })
    }
}

/// The parent of a node, as the index records it.
pub open spec fn parent_of(v: IndexView, node: XPathNode) -> Option<nat> {
    match node {
        XPathNode::Element(i) => if (i as int) < v.tags.len() { v.tags[i as int].parent } else { None },
        XPathNode::Text(t) => if (t as int) < v.texts.len() { v.texts[t as int].parent } else { None },
        XPathNode::Attribute(_, _) => None,
    }
}

/// The `child` axis: child tags (elements, comments, processing
/// instructions), then child texts; the root's children are the top-level
/// tags.
pub open spec fn child_axis(v: IndexView, node: XPathNode) -> Seq<XPathNode> {
    match node {
        XPathNode::Element(p) => if p == DOC_ROOT {
            elems_up(v, 0, v.tags.len() as int, ElemFilter::Top)
        } else {
            elems_up(v, 0, v.tags.len() as int, ElemFilter::ChildOf(p as nat))
                + texts_up(v, v.texts.len() as int, TextFilter::ChildOf(p as nat))
        },
        _ => seq![],
    }
}

/// The `descendant` (and `descendant-or-self`) axis: the node itself for
/// `descendant-or-self`, the tags between a tag and its matching tag, then
/// the texts inside; below the root, every tag and every text.
pub open spec fn descendant_axis(v: IndexView, node: XPathNode, include_self: bool) -> Seq<XPathNode> {
    let me = if include_self { seq![node] } else { seq![] };
    match node {
        XPathNode::Element(s) => if s == DOC_ROOT {
            me + elems_up(v, 0, v.tags.len() as int, ElemFilter::Any)
                + texts_up(v, v.texts.len() as int, TextFilter::Any)
        } else if (s as int) < v.tags.len() {
            let close = close_or(v, s as int, v.tags.len() as int);
            me + elems_up(v, s + 1, close, ElemFilter::Any)
                + texts_up(v, v.texts.len() as int, TextFilter::Within(s as nat, close as nat))
        } else {
            me
        },
        _ => me,
    }
}

/// The `parent` axis.
pub open spec fn parent_axis(v: IndexView, node: XPathNode) -> Seq<XPathNode> {
    match parent_of(v, node) {
        Some(p) => seq![XPathNode::Element(p as usize)],
        None => seq![],
    }
}

/// The ancestors of a chain as element nodes.
pub open spec fn as_elements(ids: Seq<nat>) -> Seq<XPathNode> {
    ids.map_values(|p: nat| XPathNode::Element(p as usize))
}

/// The `ancestor` (and `ancestor-or-self`) axis, innermost first.
pub open spec fn ancestor_axis(v: IndexView, node: XPathNode, include_self: bool) -> Seq<XPathNode> {
    (if include_self { seq![node] } else { seq![] }) + as_elements(ancestor_ids(v, parent_of(v, node)))
}

/// The `following-sibling` axis.
pub open spec fn following_sibling_axis(v: IndexView, node: XPathNode) -> Seq<XPathNode> {
    match node {
        XPathNode::Element(idx) => if (idx as int) < v.tags.len() {
            elems_up(v, idx + 1, v.tags.len() as int, ElemFilter::SiblingOf(idx as nat))
        } else {
            seq![]
        },
        _ => seq![],
    }
}

/// The `preceding-sibling` axis, nearest first.
pub open spec fn preceding_sibling_axis(v: IndexView, node: XPathNode) -> Seq<XPathNode> {
    match node {
        XPathNode::Element(idx) => if (idx as int) < v.tags.len() {
            elems_down(v, 0, idx as int, ElemFilter::SiblingOf(idx as nat))
        } else {
            seq![]
        },
        _ => seq![],
    }
}

/// The `following` axis: the elements after the tag's matching tag.
pub open spec fn following_axis(v: IndexView, node: XPathNode) -> Seq<XPathNode> {
    match node {
        XPathNode::Element(idx) => if (idx as int) < v.tags.len() {
            elems_up(v, close_or(v, idx as int, idx as int) + 1, v.tags.len() as int, ElemFilter::Any)
        } else {
            seq![]
        },
        _ => seq![],
    }
}

/// The `preceding` axis: the elements before the tag that are not its
/// ancestors, nearest first.
pub open spec fn preceding_axis(v: IndexView, node: XPathNode) -> Seq<XPathNode> {
    match node {
        XPathNode::Element(idx) => if (idx as int) < v.tags.len() {
            elems_down(v, 0, idx as int, ElemFilter::NotAncestorOf(idx as nat))
        } else {
            seq![]
        },
        _ => seq![],
    }
}

/// The attributes of tag `idx` as nodes.
pub open spec fn attribute_nodes(v: IndexView, idx: int) -> Seq<XPathNode> {
    attr_eqs(v.tag_bytes(idx), v.after_name(idx)).map_values(|e: int| XPathNode::Attribute(idx as usize, e as usize))
}

/// The `attribute` axis: for a name, the attribute when the tag has one
/// with a value; for `*`, all of the tag's attributes.
pub open spec fn attribute_axis(v: IndexView, node: XPathNode, test: TestModel) -> Seq<XPathNode> {
    match node {
        XPathNode::Element(idx) => if (idx as int) < v.tags.len() {
            match test {
                TestModel::Name(name) => match v.attribute_eq(idx as int, encode_utf8(name)) {
                    Some(e) => if v.value_at(idx as int, e + 1) is Some {
                        seq![XPathNode::Attribute(idx, e as usize)]
                    } else {
                        seq![]
                    },
                    None => seq![],
                },
                TestModel::Wildcard => attribute_nodes(v, idx as int),
                _ => seq![],
            }
        } else {
            seq![]
        },
        _ => seq![],
    }
}

/// The candidates of an axis from one node.
pub open spec fn axis_nodes(v: IndexView, node: XPathNode, axis: Axis, test: TestModel) -> Seq<XPathNode> {
    match axis {
        Axis::Child => child_axis(v, node),
        Axis::Descendant => descendant_axis(v, node, false),
        Axis::DescendantOrSelf => descendant_axis(v, node, true),
        Axis::Parent => parent_axis(v, node),
        Axis::Ancestor => ancestor_axis(v, node, false),
        Axis::AncestorOrSelf => ancestor_axis(v, node, true),
        Axis::FollowingSibling => following_sibling_axis(v, node),
        Axis::PrecedingSibling => preceding_sibling_axis(v, node),
        Axis::Following => following_axis(v, node),
        Axis::Preceding => preceding_axis(v, node),
        Axis::SelfAxis => seq![node],
        Axis::Attribute => attribute_axis(v, node, test),
        Axis::Namespace => seq![],
    }
}

/// The name of element `idx` (empty for the root or when not UTF-8).
pub open spec fn elem_name(v: IndexView, idx: usize) -> Seq<char> {
    if (idx as int) < v.tags.len() { utf8_or_empty(v.name_bytes(idx as int)) } else { Seq::<char>::empty() }
}

/// The tag `idx` is of the given kind.
pub open spec fn is_kind(v: IndexView, idx: usize, k: TagType) -> bool {
    (idx as int) < v.tags.len() && v.tags[idx as int].kind == k
}

/// Tag `idx` is an element (an open or self-closing tag).
pub open spec fn is_element_node(v: IndexView, idx: usize) -> bool {
    (idx as int) < v.tags.len() && is_element_kind(v.tags[idx as int].kind)
}

/// The node passes the node test. `*` passes elements and attributes; a
/// name passes elements of that name and every attribute (the attribute
/// axis has already matched it).
pub open spec fn matches_test(v: IndexView, node: XPathNode, test: TestModel) -> bool {
    match test {
        TestModel::Node => true,
        TestModel::Wildcard => match node {
            XPathNode::Element(idx) => is_element_node(v, idx),
            XPathNode::Attribute(_, _) => true,
            XPathNode::Text(_) => false,
        },
        TestModel::Text => node is Text,
        TestModel::Name(name) => match node {
            XPathNode::Element(idx) => is_element_node(v, idx) && elem_name(v, idx) == name,
            XPathNode::Attribute(_, _) => true,
            XPathNode::Text(_) => false,
        },
        TestModel::NamespacedName(_, _) => false,
        TestModel::Comment => match node {
            XPathNode::Element(idx) => is_kind(v, idx, TagType::Comment),
            _ => false,
        },
        TestModel::PI => match node {
            XPathNode::Element(idx) => is_kind(v, idx, TagType::PI),
            _ => false,
        },
    }
}

/// The nodes of `s` that pass the test, in order.
pub open spec fn filter_test(v: IndexView, s: Seq<XPathNode>, test: TestModel) -> Seq<XPathNode>
    decreases s.len(),
{
    if s.len() == 0 {
        seq![]
    } else {
        filter_test(v, s.drop_last(), test) + (if matches_test(v, s.last(), test) { seq![s.last()] } else { seq![] })
    }
}

/// The value of an expression inside a predicate.
pub enum Val {
    Nodes(Seq<XPathNode>),
    Num(int),
    Bool(bool),
    Str(Seq<char>),
}

/// XPath's `boolean()`: a node-set is true when it is not empty, a number
/// when it is not zero, a string when it is not empty.
pub open spec fn boolean(val: Val) -> bool {
    match val {
        Val::Nodes(s) => s.len() > 0,
        Val::Num(n) => n != 0,
        Val::Bool(b) => b,
        Val::Str(s) => s.len() > 0,
    }
}

/// A predicate keeps the node at `pos`: a number selects that position,
/// anything else goes by `boolean()`.
pub open spec fn pred_true(val: Val, pos: int) -> bool {
    match val {
        Val::Num(n) => n == pos,
        _ => boolean(val),
    }
}

/// The string value of a node: the text of an element, the characters of a
/// text, the value of an attribute (empty for the root or when malformed).
pub open spec fn string_value(v: IndexView, node: XPathNode) -> Seq<char> {
    match node {
        XPathNode::Element(i) => if (i as int) < v.tags.len() { v.all_text(i as int) } else { seq![] },
        XPathNode::Text(t) => if (t as int) < v.texts.len() { utf8_or_empty(v.text_bytes(t as int)) } else { seq![] },
        XPathNode::Attribute(i, e) => if (i as int) < v.tags.len() {
            match v.value_at(i as int, e + 1) {
                Some(s) => s,
                None => seq![],
            }
        } else {
            seq![]
        },
    }
}

/// An ordering comparison of two numbers.
pub open spec fn compare_int(op: CompareOp, a: int, b: int) -> bool {
    match op {
        CompareOp::Eq => a == b,
        CompareOp::Ne => a != b,
        CompareOp::Lt => a < b,
        CompareOp::Le => a <= b,
        CompareOp::Gt => a > b,
        CompareOp::Ge => a >= b,
    }
}

/// XPath white space: space, tab, carriage return, line feed.
pub open spec fn xpath_ws(c: char) -> bool {
    c == ' ' || c == '\t' || c == '\r' || c == '\n'
}

/// The first position at or after `i` that is not XPath white space.
pub open spec fn skip_ws(s: Seq<char>, i: int) -> int
    decreases s.len() - i,
{
    if 0 <= i < s.len() && xpath_ws(s[i]) { skip_ws(s, i + 1) } else { i }
}

/// Going back from `j`, not below `lo`, past XPath white space: one past
/// the last character of `lo..j` that is not white space.
pub open spec fn back_ws(s: Seq<char>, lo: int, j: int) -> int
    decreases j - lo,
{
    if lo < j && j <= s.len() && xpath_ws(s[j - 1]) { back_ws(s, lo, j - 1) } else { j }
}

/// A decimal digit.
pub open spec fn is_digit(c: char) -> bool {
    '0' <= c <= '9'
}

/// The value of a run of decimal digits (0 when empty).
pub open spec fn digits_value(d: Seq<char>) -> int
    decreases d.len(),
{
    if d.len() == 0 { 0 } else { digits_value(d.drop_last()) * 10 + ((d.last() as int) - 48) }
}

/// The first `.` at or after `i`, or the end.
pub open spec fn first_dot(u: Seq<char>, i: int) -> int
    decreases u.len() - i,
{
    if 0 <= i < u.len() && u[i] != '.' { first_dot(u, i + 1) } else { i }
}

/// A decimal number: its sign, its digits, and how many of them follow
/// the decimal point. Its value is the digits' value divided by 10 to the
/// power `scale`, negated when `neg`.
pub struct Dec {
    pub neg: bool,
    pub digits: Seq<char>,
    pub scale: nat,
}

/// An unsigned XPath number (`digits`, `digits.digits?` or `.digits`): its
/// digits without the point, and how many follow the point.
pub open spec fn unsigned_dec(u: Seq<char>) -> Option<(Seq<char>, nat)> {
    let d = first_dot(u, 0);
    if (forall|k: int| 0 <= k < d ==> is_digit(#[trigger] u[k]))
        && (forall|k: int| d < k < u.len() ==> is_digit(#[trigger] u[k]))
        && (d > 0 || d + 1 < u.len()) {
        if d < u.len() {
            Some((u.subrange(0, d) + u.subrange(d + 1, u.len() as int), (u.len() - d - 1) as nat))
        } else {
            Some((u, 0nat))
        }
    } else {
        None
    }
}

/// XPath's `number()` of a string: white space around it is ignored and a
/// `-` may lead; `None` when the string is not a number (NaN).
pub open spec fn string_number(s: Seq<char>) -> Option<Dec> {
    let a = skip_ws(s, 0);
    let b = back_ws(s, a, s.len() as int);
    let t = s.subrange(a, b);
    let neg = t.len() > 0 && t[0] == '-';
    match unsigned_dec(if neg { t.drop_first() } else { t }) {
        Some((d, k)) => Some(Dec { neg, digits: d, scale: k }),
        None => None,
    }
}

/// The digit character of `n` (below 10).
pub open spec fn digit_char(n: nat) -> char {
    ((n + 48) as u32) as char
}

/// The decimal digits of `n`.
pub open spec fn int_digits(n: nat) -> Seq<char>
    decreases n,
{
    if n < 10 { seq![digit_char(n)] } else { int_digits(n / 10).push(digit_char(n % 10)) }
}

/// A whole number as a decimal.
pub open spec fn int_dec(n: int) -> Dec {
    Dec { neg: n < 0, digits: int_digits((if n < 0 { -n } else { n }) as nat), scale: 0 }
}

/// XPath's `number()` of a boolean: 1 or 0.
pub open spec fn bool_dec(b: bool) -> Dec {
    Dec { neg: false, digits: if b { seq!['1'] } else { seq!['0'] }, scale: 0 }
}

/// `k` zero digits.
pub open spec fn zeros(k: nat) -> Seq<char> {
    Seq::new(k, |i: int| '0')
}

/// The value of a decimal times 10 to the power `l` (`l` at least its
/// scale): its digits followed by `l - scale` zeros, signed.
pub open spec fn scaled(d: Dec, l: nat) -> int {
    let m = digits_value(d.digits + zeros((l - d.scale) as nat));
    if d.neg { -m } else { m }
}

/// Two XPath numbers compared: exactly, both brought to the same number of
/// decimal places; a comparison with NaN holds only for `!=`.
pub open spec fn num_compare(op: CompareOp, a: Option<Dec>, b: Option<Dec>) -> bool {
    match (a, b) {
        (Some(x), Some(y)) => {
            let l = if x.scale >= y.scale { x.scale } else { y.scale };
            compare_int(op, scaled(x, l), scaled(y, l))
        },
        _ => op == CompareOp::Ne,
    }
}

/// XPath's `number()` of a value: a node-set by the string value of its
/// first node (NaN when empty).
pub open spec fn val_number(v: IndexView, x: Val) -> Option<Dec> {
    match x {
        Val::Num(n) => Some(int_dec(n)),
        Val::Bool(b) => Some(bool_dec(b)),
        Val::Str(s) => string_number(s),
        Val::Nodes(ns) => if ns.len() > 0 { string_number(string_value(v, ns[0])) } else { None },
    }
}

/// `=` or `!=`.
pub open spec fn is_equality(op: CompareOp) -> bool {
    op == CompareOp::Eq || op == CompareOp::Ne
}

/// A node's string value `s` compared with a value that is not a node-set
/// (`s` on the left unless `swapped`): with a string by `=` and `!=` as
/// strings, otherwise as numbers.
pub open spec fn string_vs(v: IndexView, op: CompareOp, s: Seq<char>, other: Val, swapped: bool) -> bool {
    if is_equality(op) && other is Str {
        (s == other->Str_0) == (op == CompareOp::Eq)
    } else if swapped {
        num_compare(op, val_number(v, other), string_number(s))
    } else {
        num_compare(op, string_number(s), val_number(v, other))
    }
}

/// Two node-sets compared: some pair of their nodes compares, as strings
/// for `=` and `!=`, as numbers otherwise.
pub open spec fn nodes_vs_nodes(v: IndexView, op: CompareOp, xs: Seq<XPathNode>, ys: Seq<XPathNode>) -> bool {
    exists|i: int, j: int| 0 <= i < xs.len() && 0 <= j < ys.len()
        && #[trigger] pair_compares(v, op, xs[i], ys[j])
}

/// One node of each side compares.
pub open spec fn pair_compares(v: IndexView, op: CompareOp, x: XPathNode, y: XPathNode) -> bool {
    string_vs(v, op, string_value(v, x), Val::Str(string_value(v, y)), false)
}

/// A node-set compared with a number or a string: some node's string value
/// compares with it.
pub open spec fn nodes_vs_value(v: IndexView, op: CompareOp, ns: Seq<XPathNode>, other: Val, swapped: bool) -> bool {
    exists|j: int| 0 <= j < ns.len() && string_vs(v, op, string_value(v, #[trigger] ns[j]), other, swapped)
}

/// Two values neither of which is a node-set: `=` and `!=` as booleans when
/// either is one, else as numbers when either is one, else as strings;
/// `<`, `<=`, `>`, `>=` as numbers.
pub open spec fn plain_compare(v: IndexView, op: CompareOp, a: Val, b: Val) -> bool {
    if is_equality(op) {
        if a is Bool || b is Bool {
            (boolean(a) == boolean(b)) == (op == CompareOp::Eq)
        } else if a is Num || b is Num {
            num_compare(op, val_number(v, a), val_number(v, b))
        } else {
            (a == b) == (op == CompareOp::Eq)
        }
    } else {
        num_compare(op, val_number(v, a), val_number(v, b))
    }
}

/// A comparison, converting as XPath 1.0 does: two whole numbers directly;
/// two node-sets by some pair of nodes; a node-set and a boolean by the
/// node-set's boolean; a node-set and a number or string by some node;
/// anything else by `plain_compare`.
pub open spec fn compares(v: IndexView, op: CompareOp, a: Val, b: Val) -> bool {
    match (a, b) {
        (Val::Num(x), Val::Num(y)) => compare_int(op, x, y),
        (Val::Nodes(xs), Val::Nodes(ys)) => nodes_vs_nodes(v, op, xs, ys),
        (Val::Nodes(xs), Val::Bool(y)) => num_compare(op, Some(bool_dec(xs.len() > 0)), Some(bool_dec(y))),
        (Val::Bool(x), Val::Nodes(ys)) => num_compare(op, Some(bool_dec(x)), Some(bool_dec(ys.len() > 0))),
        (Val::Nodes(xs), y) => nodes_vs_value(v, op, xs, y, false),
        (x, Val::Nodes(ys)) => nodes_vs_value(v, op, ys, x, true),
        _ => plain_compare(v, op, a, b),
    }
}

/// A comparison's value: always a boolean.
pub open spec fn compare_vals(v: IndexView, op: CompareOp, a: Val, b: Val) -> Option<Val> {
    Some(Val::Bool(compares(v, op, a, b)))
}

/// The value of `e` at a context node, its position and the context size;
/// `None` when the expression is not supported.
pub open spec fn expr_value(v: IndexView, e: ExprModel, node: XPathNode, pos: int, size: int) -> Option<Val>
    decreases e, 0int,
{
    match e {
        ExprModel::LocationPath(p) => match path_nodes(v, p, node) {
            Some(ns) => Some(Val::Nodes(ns)),
            None => None,
        },
        ExprModel::Union(es) => match union_nodes(v, es, es.len() as int, node, pos, size) {
            Some(ns) => Some(Val::Nodes(ns)),
            None => None,
        },
        ExprModel::Number(n) => Some(Val::Num(n as int)),
        ExprModel::Literal(s) => Some(Val::Str(s)),
        ExprModel::FunctionCall(f, args) => match f {
            Function::Last => if args.len() == 0 { Some(Val::Num(size)) } else { None },
            Function::Position => if args.len() == 0 { Some(Val::Num(pos)) } else { None },
            Function::True => if args.len() == 0 { Some(Val::Bool(true)) } else { None },
            Function::False => if args.len() == 0 { Some(Val::Bool(false)) } else { None },
            Function::Count => if args.len() == 1 {
                match expr_value(v, args[0], node, pos, size) {
                    Some(Val::Nodes(ns)) => Some(Val::Num(ns.len() as int)),
                    _ => None,
                }
            } else {
                None
            },
            Function::Not => if args.len() == 1 {
                match expr_value(v, args[0], node, pos, size) {
                    Some(x) => Some(Val::Bool(!boolean(x))),
                    None => None,
                }
            } else {
                None
            },
        },
        ExprModel::Compare(op, l, r) => match (expr_value(v, *l, node, pos, size), expr_value(v, *r, node, pos, size)) {
            (Some(a), Some(b)) => compare_vals(v, op, a, b),
            _ => None,
        },
    }
}

/// The node-sets of the first `k` members of a union, concatenated.
pub open spec fn union_nodes(v: IndexView, es: Seq<ExprModel>, k: int, node: XPathNode, pos: int, size: int) -> Option<Seq<XPathNode>>
    decreases es, k,
{
    if k <= 0 {
        Some(seq![])
    } else if k > es.len() {
        None
    } else {
        match (union_nodes(v, es, k - 1, node, pos, size), expr_value(v, es[k - 1], node, pos, size)) {
            (Some(a), Some(Val::Nodes(b))) => Some(a + b),
            _ => None,
        }
    }
}

/// A location path from a context node: an absolute one starts at the
/// document root, a relative one at the node.
pub open spec fn path_nodes(v: IndexView, p: PathModel, node: XPathNode) -> Option<Seq<XPathNode>>
    decreases p, 0int,
{
    let start = if p.absolute { seq![XPathNode::Element(DOC_ROOT)] } else { seq![node] };
    steps_nodes(v, p.steps, p.steps.len() as int, start)
}

/// The first `k` steps applied to `start`.
pub open spec fn steps_nodes(v: IndexView, steps: Seq<StepModel>, k: int, start: Seq<XPathNode>) -> Option<Seq<XPathNode>>
    decreases steps, k,
{
    if k <= 0 {
        Some(start)
    } else if k > steps.len() {
        None
    } else {
        match steps_nodes(v, steps, k - 1, start) {
            Some(ctx) => step_nodes(v, steps[k - 1], ctx, ctx.len() as int),
            None => None,
        }
    }
}

/// A step applied to the first `j` context nodes: for each, the axis
/// candidates that pass the node test and then the predicates, in order.
pub open spec fn step_nodes(v: IndexView, s: StepModel, ctx: Seq<XPathNode>, j: int) -> Option<Seq<XPathNode>>
    decreases s, j,
{
    if j <= 0 {
        Some(seq![])
    } else if j > ctx.len() {
        None
    } else {
        let cands = filter_test(v, axis_nodes(v, ctx[j - 1], s.axis, s.test), s.test);
        match (step_nodes(v, s, ctx, j - 1), preds_filter(v, s.predicates, s.predicates.len() as int, cands)) {
            (Some(a), Some(b)) => Some(a + b),
            _ => None,
        }
    }
}

/// The first `m` predicates applied in turn to `nodes`.
pub open spec fn preds_filter(v: IndexView, preds: Seq<ExprModel>, m: int, nodes: Seq<XPathNode>) -> Option<Seq<XPathNode>>
    decreases preds, m,
{
    if m <= 0 {
        Some(nodes)
    } else if m > preds.len() {
        None
    } else {
        match preds_filter(v, preds, m - 1, nodes) {
            Some(ns) => pred_keep(v, preds[m - 1], ns, ns.len() as int),
            None => None,
        }
    }
}

/// The nodes among the first `j` of `ns` that predicate `e` keeps, each
/// taken at its position in `ns`.
pub open spec fn pred_keep(v: IndexView, e: ExprModel, ns: Seq<XPathNode>, j: int) -> Option<Seq<XPathNode>>
    decreases e, j + 1,
{
    if j <= 0 {
        Some(seq![])
    } else if j > ns.len() {
        None
    } else {
        match (pred_keep(v, e, ns, j - 1), expr_value(v, e, ns[j - 1], j, ns.len() as int)) {
            (Some(a), Some(val)) => Some(a + (if pred_true(val, j) { seq![ns[j - 1]] } else { seq![] })),
            _ => None,
        }
    }
}

/// A location path or a union: an expression whose value is a node-set.
pub open spec fn node_valued(e: ExprModel) -> bool {
    e is LocationPath || e is Union
}

/// An expression that evaluates at every node: functions called with the
/// number of arguments they take (`count` of a node-set), unions of
/// node-sets, and location paths whose predicates are such expressions.
pub open spec fn expr_ok(e: ExprModel) -> bool
    decreases e, 0int,
{
    match e {
        ExprModel::LocationPath(p) => path_ok(p),
        ExprModel::Union(es) => members_ok(es, es.len() as int),
        ExprModel::Number(_) => true,
        ExprModel::Literal(_) => true,
        ExprModel::FunctionCall(f, args) => match f {
            Function::Count => args.len() == 1 && node_valued(args[0]) && expr_ok(args[0]),
            Function::Not => args.len() == 1 && expr_ok(args[0]),
            _ => args.len() == 0,
        },
        ExprModel::Compare(_, l, r) => expr_ok(*l) && expr_ok(*r),
    }
}

/// The first `k` members of a union are node-valued and evaluate.
pub open spec fn members_ok(es: Seq<ExprModel>, k: int) -> bool
    decreases es, k,
{
    if k <= 0 {
        true
    } else if k > es.len() {
        false
    } else {
        members_ok(es, k - 1) && node_valued(es[k - 1]) && expr_ok(es[k - 1])
    }
}

/// Every predicate of the path's steps evaluates.
pub open spec fn path_ok(p: PathModel) -> bool
    decreases p, 0int,
{
    steps_ok(p.steps, p.steps.len() as int)
}

/// The predicates of the first `k` steps evaluate.
pub open spec fn steps_ok(steps: Seq<StepModel>, k: int) -> bool
    decreases steps, k,
{
    if k <= 0 {
        true
    } else if k > steps.len() {
        false
    } else {
        steps_ok(steps, k - 1) && preds_ok(steps[k - 1].predicates, steps[k - 1].predicates.len() as int)
    }
}

/// The first `m` predicates evaluate.
pub open spec fn preds_ok(preds: Seq<ExprModel>, m: int) -> bool
    decreases preds, m,
{
    if m <= 0 {
        true
    } else if m > preds.len() {
        false
    } else {
        preds_ok(preds, m - 1) && expr_ok(preds[m - 1])
    }
}

/// A top-level expression that selects: an absolute location path whose
/// predicates evaluate, or a union of such.
pub open spec fn select_ok(e: ExprModel) -> bool
    decreases e, 0int,
{
    match e {
        ExprModel::LocationPath(p) => p.absolute && path_ok(p),
        ExprModel::Union(es) => select_members_ok(es, es.len() as int),
        _ => false,
    }
}

/// The first `k` members of a top-level union select.
pub open spec fn select_members_ok(es: Seq<ExprModel>, k: int) -> bool
    decreases es, k,
{
    if k <= 0 {
        true
    } else if k > es.len() {
        false
    } else {
        select_members_ok(es, k - 1) && select_ok(es[k - 1])
    }
}

/// What a top-level expression selects: an absolute location path, or a
/// union of such; `None` for anything else.
pub open spec fn select(v: IndexView, e: ExprModel) -> Option<Seq<XPathNode>>
    decreases e, 0int,
{
    match e {
        ExprModel::LocationPath(p) => if p.absolute { path_nodes(v, p, XPathNode::Element(DOC_ROOT)) } else { None },
        ExprModel::Union(es) => select_union(v, es, es.len() as int),
        _ => None,
    }
}

/// The selections of the first `k` members of a top-level union, concatenated.
pub open spec fn select_union(v: IndexView, es: Seq<ExprModel>, k: int) -> Option<Seq<XPathNode>>
    decreases es, k,
{
    if k <= 0 {
        Some(seq![])
    } else if k > es.len() {
        None
    } else {
        match (select_union(v, es, k - 1), select(v, es[k - 1])) {
            (Some(a), Some(b)) => Some(a + b),
            _ => None,
        }
    }
}

/// The text a node contributes: the texts directly under an element that
/// has any text at all, a text's characters, an attribute's value.
pub open spec fn node_texts(v: IndexView, node: XPathNode) -> Seq<Seq<char>> {
    match node {
        XPathNode::Element(i) => if (i as int) < v.tags.len() && v.all_text(i as int).len() > 0 {
            v.text_children(i as int).map_values(|t: int| utf8_or_empty(v.text_bytes(t)))
        } else {
            seq![]
        },
        XPathNode::Text(t) => if (t as int) < v.texts.len() { seq![utf8_or_empty(v.text_bytes(t as int))] } else { seq![] },
        XPathNode::Attribute(i, e) => if (i as int) < v.tags.len() {
            match v.value_at(i as int, e + 1) {
                Some(s) => seq![s],
                None => seq![],
            }
        } else {
            seq![]
        },
    }
}

/// The texts of the first `k` nodes, in order.
pub open spec fn texts_of(v: IndexView, ns: Seq<XPathNode>, k: int) -> Seq<Seq<char>>
    decreases k,
{
    if k <= 0 || k > ns.len() {
        seq![]
    } else {
        texts_of(v, ns, k - 1) + node_texts(v, ns[k - 1])
    }
}

/// A node as written in the document: an element from its `<` to the `>`
/// of its matching tag, a text's characters, an attribute's value (empty for
/// the root).
pub open spec fn raw_of(v: IndexView, node: XPathNode) -> Seq<char> {
    match node {
        XPathNode::Element(i) => if (i as int) < v.tags.len() { v.element_raw(i as int) } else { seq![] },
        _ => string_value(v, node),
    }
}

} // verus!
