//! What holds of XPath evaluation as a whole: positional predicates, the
//! axes and their relations, unions.

use vstd::prelude::*;
use vstd::utf8::*;
use crate::index::model::IndexView;
use super::ast::{Axis, Function, CompareOp, TestModel, StepModel, PathModel, ExprModel};
use super::grammar::{parsed, trimmed, lead_ws, trail_ws, ws_char, alnum_char, name_len, word_len, word_char, ws_len,
    g_union_expr, g_union_rest, g_location_path, g_step_list, g_more_steps, g_step, g_tested_step, g_node_test,
    g_node_type_test, g_wildcard_test, g_name_test, g_axis_specifier, g_predicates, name_model, find_char, dos_step, at};
use super::semantics::{XPathNode, DOC_ROOT, ElemFilter, TextFilter, keeps, text_keeps, elems_up, elems_down,
    texts_up, ancestor_ids, as_elements, parent_of, child_axis, parent_axis, ancestor_axis,
    following_sibling_axis, preceding_sibling_axis, preceding_axis, attribute_axis, matches_test,
    filter_test, expr_value, path_nodes, steps_nodes, step_nodes, preds_filter, pred_keep, select,
    select_union, Val, boolean, pred_true, compare_vals, union_nodes, node_valued, expr_ok, members_ok,
    path_ok, steps_ok, preds_ok, select_ok, select_members_ok, compares, string_value, num_compare,
    string_number, int_dec, node_texts};

verus! {

/// `last()`
pub open spec fn last_call() -> ExprModel {
    ExprModel::FunctionCall(Function::Last, seq![])
}

/// `position() = last()`
pub open spec fn position_is_last() -> ExprModel {
    ExprModel::Compare(
        CompareOp::Eq,
        Box::new(ExprModel::FunctionCall(Function::Position, seq![])),
        Box::new(last_call()),
    )
}

/// `not(@name)`
pub open spec fn not_attribute(name: Seq<char>) -> ExprModel {
    ExprModel::FunctionCall(Function::Not, seq![ExprModel::LocationPath(PathModel {
        absolute: false,
        steps: seq![StepModel { axis: Axis::Attribute, test: TestModel::Name(name), predicates: seq![] }],
    })])
}

proof fn lemma_keep_last(v: IndexView, ns: Seq<XPathNode>, j: int)
    requires
        0 <= j <= ns.len(),
    ensures
        pred_keep(v, last_call(), ns, j) == Some(if j == ns.len() && j > 0 { seq![ns[j - 1]] } else { seq![] }),
    decreases j,
{
    if j > 0 {
        lemma_keep_last(v, ns, j - 1);
        assert(expr_value(v, last_call(), ns[j - 1], j, ns.len() as int) == Some(Val::Num(ns.len() as int)));
        assert(seq![] + seq![ns[j - 1]] =~= seq![ns[j - 1]]);
        assert(Seq::<XPathNode>::empty() + Seq::<XPathNode>::empty() =~= Seq::<XPathNode>::empty());
    }
}

/// `[last()]` keeps exactly the last node of the list it filters.
pub proof fn law_last_keeps_last(v: IndexView, ns: Seq<XPathNode>)
    requires
        ns.len() > 0,
    ensures
        preds_filter(v, seq![last_call()], 1, ns) == Some(seq![ns.last()]),
{
    lemma_keep_last(v, ns, ns.len() as int);
    assert(seq![last_call()][0] == last_call());
    assert(preds_filter(v, seq![last_call()], 0, ns) == Some(ns));
}

proof fn lemma_keep_nth(v: IndexView, ns: Seq<XPathNode>, n: nat, j: int)
    requires
        0 <= j <= ns.len(),
    ensures
        pred_keep(v, ExprModel::Number(n), ns, j) == Some(if 1 <= n <= j { seq![ns[n - 1]] } else { seq![] }),
    decreases j,
{
    if j > 0 {
        lemma_keep_nth(v, ns, n, j - 1);
        assert(expr_value(v, ExprModel::Number(n), ns[j - 1], j, ns.len() as int) == Some(Val::Num(n as int)));
        assert(pred_keep(v, ExprModel::Number(n), ns, j) == Some(pred_keep(v, ExprModel::Number(n), ns, j - 1)->Some_0
            + (if n == j { seq![ns[j - 1]] } else { seq![] })));
        assert(seq![] + seq![ns[j - 1]] =~= seq![ns[j - 1]]);
        assert(Seq::<XPathNode>::empty() + Seq::<XPathNode>::empty() =~= Seq::<XPathNode>::empty());
        assert(seq![ns[n - 1]] + Seq::<XPathNode>::empty() =~= seq![ns[n - 1]]);
    }
}

/// `[n]` keeps the n-th node of the list it filters, when there is one.
pub proof fn law_number_keeps_nth(v: IndexView, ns: Seq<XPathNode>, n: nat)
    ensures
        preds_filter(v, seq![ExprModel::Number(n)], 1, ns) == Some(if 1 <= n <= ns.len() { seq![ns[n - 1]] } else { seq![] }),
{
    lemma_keep_nth(v, ns, n, ns.len() as int);
    assert(seq![ExprModel::Number(n)][0] == ExprModel::Number(n));
    assert(preds_filter(v, seq![ExprModel::Number(n)], 0, ns) == Some(ns));
}

proof fn lemma_keep_position_last(v: IndexView, ns: Seq<XPathNode>, j: int)
    requires
        0 <= j <= ns.len(),
    ensures
        pred_keep(v, position_is_last(), ns, j) == Some(if j == ns.len() && j > 0 { seq![ns[j - 1]] } else { seq![] }),
    decreases j,
{
    if j > 0 {
        lemma_keep_position_last(v, ns, j - 1);
        let e = position_is_last();
        assert(expr_value(v, ExprModel::FunctionCall(Function::Position, seq![]), ns[j - 1], j, ns.len() as int) == Some(Val::Num(j)));
        assert(expr_value(v, last_call(), ns[j - 1], j, ns.len() as int) == Some(Val::Num(ns.len() as int)));
        assert(expr_value(v, e, ns[j - 1], j, ns.len() as int) == Some(Val::Bool(j == ns.len())));
        assert(seq![] + seq![ns[j - 1]] =~= seq![ns[j - 1]]);
        assert(Seq::<XPathNode>::empty() + Seq::<XPathNode>::empty() =~= Seq::<XPathNode>::empty());
    }
}

/// `[position()=last()]` keeps exactly the last node, as `[last()]` does.
pub proof fn law_position_is_last_keeps_last(v: IndexView, ns: Seq<XPathNode>)
    requires
        ns.len() > 0,
    ensures
        preds_filter(v, seq![position_is_last()], 1, ns) == Some(seq![ns.last()]),
        preds_filter(v, seq![position_is_last()], 1, ns) == preds_filter(v, seq![last_call()], 1, ns),
{
    lemma_keep_position_last(v, ns, ns.len() as int);
    lemma_keep_last(v, ns, ns.len() as int);
    assert(seq![position_is_last()][0] == position_is_last());
    assert(preds_filter(v, seq![position_is_last()], 0, ns) == Some(ns));
    assert(seq![last_call()][0] == last_call());
    assert(preds_filter(v, seq![last_call()], 0, ns) == Some(ns));
}

/// `not(@name)` at an element is true exactly when the element has no
/// attribute `name` with a value, whatever that value is (an empty one
/// included).
#[verifier::spinoff_prover]
pub proof fn law_not_attribute_tests_existence(v: IndexView, idx: usize, name: Seq<char>, pos: int, size: int)
    requires
        (idx as int) < v.tags.len(),
    ensures
        expr_value(v, not_attribute(name), XPathNode::Element(idx), pos, size)
            == Some(Val::Bool(!(v.attribute(idx as int, encode_utf8(name)) is Some))),
{
    let node = XPathNode::Element(idx);
    let st = StepModel { axis: Axis::Attribute, test: TestModel::Name(name), predicates: seq![] };
    let p = PathModel { absolute: false, steps: seq![st] };
    let cands = attribute_axis(v, node, TestModel::Name(name));
    assert(filter_test(v, cands, TestModel::Name(name)) =~= cands) by {
        if cands.len() == 1 {
            assert(cands.drop_last() =~= Seq::<XPathNode>::empty());
            assert(cands.last() is Attribute);
            assert(matches_test(v, cands.last(), TestModel::Name(name)));
            assert(filter_test(v, cands.drop_last(), TestModel::Name(name)) =~= Seq::<XPathNode>::empty());
            assert(filter_test(v, cands, TestModel::Name(name))
                == filter_test(v, cands.drop_last(), TestModel::Name(name)) + seq![cands.last()]);
        } else {
            assert(cands =~= Seq::<XPathNode>::empty());
        }
    }
    assert(preds_filter(v, seq![], 0, cands) == Some(cands));
    assert(step_nodes(v, st, seq![node], 0) == Some(Seq::<XPathNode>::empty()));
    assert(step_nodes(v, st, seq![node], 1) == Some(Seq::<XPathNode>::empty() + cands));
    assert(Seq::<XPathNode>::empty() + cands =~= cands);
    assert(steps_nodes(v, p.steps, 0, seq![node]) == Some(seq![node]));
    assert(steps_nodes(v, p.steps, 1, seq![node]) == Some(cands));
    assert(path_nodes(v, p, node) == Some(cands));
    assert(expr_value(v, ExprModel::LocationPath(p), node, pos, size) == Some(Val::Nodes(cands)));
}

/// The members of an ascending element scan.
pub proof fn lemma_elems_up_members(v: IndexView, lo: int, hi: int, f: ElemFilter, k: int)
    requires
        0 <= lo,
        hi <= usize::MAX,
        0 <= k < elems_up(v, lo, hi, f).len(),
    ensures
        elems_up(v, lo, hi, f)[k] matches XPathNode::Element(i) && lo <= i < hi && keeps(v, f, i as int),
    decreases hi - lo,
{
    if hi > lo {
        let prev = elems_up(v, lo, hi - 1, f);
        if k < prev.len() {
            lemma_elems_up_members(v, lo, hi - 1, f, k);
        }
    }
}

/// The members of a descending element scan.
pub proof fn lemma_elems_down_members(v: IndexView, lo: int, hi: int, f: ElemFilter, k: int)
    requires
        0 <= lo,
        hi <= usize::MAX,
        0 <= k < elems_down(v, lo, hi, f).len(),
    ensures
        elems_down(v, lo, hi, f)[k] matches XPathNode::Element(i) && lo <= i < hi && keeps(v, f, i as int),
    decreases hi - lo,
{
    if hi > lo {
        let prev = elems_down(v, lo + 1, hi, f);
        if k < prev.len() {
            lemma_elems_down_members(v, lo + 1, hi, f, k);
        }
    }
}

/// The members of a text scan.
pub proof fn lemma_texts_up_members(v: IndexView, hi: int, f: TextFilter, k: int)
    requires
        hi <= usize::MAX,
        0 <= k < texts_up(v, hi, f).len(),
    ensures
        texts_up(v, hi, f)[k] matches XPathNode::Text(t) && 0 <= t < hi && text_keeps(v, f, t as int),
    decreases hi,
{
    if hi > 0 {
        let prev = texts_up(v, hi - 1, f);
        if k < prev.len() {
            lemma_texts_up_members(v, hi - 1, f, k);
        }
    }
}

/// The parent axis undoes the child axis: every child of a tag has that
/// tag as its parent.
pub proof fn law_parent_of_child(v: IndexView, p: usize, k: int)
    requires
        p != DOC_ROOT,
        v.tags.len() <= usize::MAX,
        v.texts.len() <= usize::MAX,
        0 <= k < child_axis(v, XPathNode::Element(p)).len(),
    ensures
        parent_axis(v, child_axis(v, XPathNode::Element(p))[k]) == seq![XPathNode::Element(p)],
{
    let es = elems_up(v, 0, v.tags.len() as int, ElemFilter::ChildOf(p as nat));
    let ts = texts_up(v, v.texts.len() as int, TextFilter::ChildOf(p as nat));
    if k < es.len() {
        lemma_elems_up_members(v, 0, v.tags.len() as int, ElemFilter::ChildOf(p as nat), k);
        assert(child_axis(v, XPathNode::Element(p))[k] == es[k]);
    } else {
        lemma_texts_up_members(v, v.texts.len() as int, TextFilter::ChildOf(p as nat), k - es.len());
        assert(child_axis(v, XPathNode::Element(p))[k] == ts[k - es.len()]);
    }
}

/// The children of the document root are the top-level elements.
pub proof fn law_root_children_are_top_level(v: IndexView, k: int)
    requires
        v.tags.len() <= usize::MAX,
        0 <= k < child_axis(v, XPathNode::Element(DOC_ROOT)).len(),
    ensures
        child_axis(v, XPathNode::Element(DOC_ROOT))[k] matches XPathNode::Element(i)
            && (i as int) < v.tags.len() && v.tags[i as int].depth == 0,
{
    lemma_elems_up_members(v, 0, v.tags.len() as int, ElemFilter::Top, k);
}

/// Siblings share the node's parent and depth; following ones come after
/// it, preceding ones before it.
pub proof fn law_siblings_share_parent(v: IndexView, idx: usize, k: int)
    requires
        (idx as int) < v.tags.len(),
        v.tags.len() <= usize::MAX,
    ensures
        0 <= k < following_sibling_axis(v, XPathNode::Element(idx)).len() ==>
            (following_sibling_axis(v, XPathNode::Element(idx))[k] matches XPathNode::Element(j)
                && idx < j && v.tags[j as int].parent == v.tags[idx as int].parent
                && v.tags[j as int].depth == v.tags[idx as int].depth),
        0 <= k < preceding_sibling_axis(v, XPathNode::Element(idx)).len() ==>
            (preceding_sibling_axis(v, XPathNode::Element(idx))[k] matches XPathNode::Element(j)
                && j < idx && v.tags[j as int].parent == v.tags[idx as int].parent
                && v.tags[j as int].depth == v.tags[idx as int].depth),
{
    if 0 <= k < following_sibling_axis(v, XPathNode::Element(idx)).len() {
        lemma_elems_up_members(v, idx + 1, v.tags.len() as int, ElemFilter::SiblingOf(idx as nat), k);
    }
    if 0 <= k < preceding_sibling_axis(v, XPathNode::Element(idx)).len() {
        lemma_elems_down_members(v, 0, idx as int, ElemFilter::SiblingOf(idx as nat), k);
    }
}

/// The preceding axis never yields an ancestor of the node, nor anything
/// from the node on.
pub proof fn law_preceding_excludes_ancestors(v: IndexView, idx: usize, k: int)
    requires
        v.wf(),
        v.tags.len() <= usize::MAX,
        (idx as int) < v.tags.len(),
        0 <= k < preceding_axis(v, XPathNode::Element(idx)).len(),
    ensures
        !ancestor_axis(v, XPathNode::Element(idx), false).contains(preceding_axis(v, XPathNode::Element(idx))[k]),
        preceding_axis(v, XPathNode::Element(idx))[k] matches XPathNode::Element(j) && j < idx,
{
    lemma_elems_down_members(v, 0, idx as int, ElemFilter::NotAncestorOf(idx as nat), k);
    let n = preceding_axis(v, XPathNode::Element(idx))[k];
    let j = n->Element_0;
    let ids = ancestor_ids(v, v.tags[idx as int].parent);
    let anc = ancestor_axis(v, XPathNode::Element(idx), false);
    assert(anc =~= as_elements(ids));
    if anc.contains(n) {
        let m = choose|m: int| 0 <= m < anc.len() && anc[m] == n;
        assert(as_elements(ids)[m] == XPathNode::Element(ids[m] as usize));
        assert((ids[m] as usize) == j);
        assert(ids[m] < usize::MAX + 1) by {
            lemma_ancestor_ids_small(v, v.tags[idx as int].parent, m);
        }
        assert(ids[m] == j as nat);
        assert(ids.contains(j as nat));
    }
}

/// The ancestor chain below `p` holds indices below `p`.
proof fn lemma_ancestor_ids_small(v: IndexView, cur: Option<nat>, m: int)
    requires
        cur matches Some(p) ==> p < v.tags.len(),
        v.tags.len() <= usize::MAX,
        0 <= m < ancestor_ids(v, cur).len(),
    ensures
        ancestor_ids(v, cur)[m] <= usize::MAX,
    decreases (match cur { Some(p) => p + 1, None => 0 }),
{
    match cur {
        Some(p) => {
            if m > 0 {
                match v.tags[p as int].parent {
                    Some(q) => {
                        if q < p {
                            lemma_ancestor_ids_small(v, Some(q), m - 1);
                        }
                    },
                    None => {},
                }
            }
        },
        None => {},
    }
}

/// A top-level union selects what its members select, one after another.
pub proof fn law_union_concatenates(v: IndexView, a: ExprModel, b: ExprModel)
    ensures
        select(v, ExprModel::Union(seq![a, b])) == (match (select(v, a), select(v, b)) {
            (Some(x), Some(y)) => Some(x + y),
            _ => None,
        }),
{
    let es = seq![a, b];
    assert(select_union(v, es, 0) == Some(Seq::<XPathNode>::empty()));
    assert(es[0] == a && es[1] == b);
    assert(select_union(v, es, 1) == (match select(v, a) {
        Some(x) => Some(Seq::<XPathNode>::empty() + x),
        None => None,
    }));
    if let Some(x) = select(v, a) {
        assert(Seq::<XPathNode>::empty() + x =~= x);
    }
}

// ---------------------------------------------------------------------------
// Expressions that evaluate.
// ---------------------------------------------------------------------------

/// An expression that evaluates gives a value at every node, a node-set
/// when it is a path or a union.
proof fn lemma_expr_some(v: IndexView, e: ExprModel, node: XPathNode, pos: int, size: int)
    requires
        expr_ok(e),
    ensures
        expr_value(v, e, node, pos, size) is Some,
        node_valued(e) ==> expr_value(v, e, node, pos, size) matches Some(Val::Nodes(_)),
    decreases e, 0int,
{
    match e {
        ExprModel::LocationPath(p) => { lemma_path_some(v, p, node); },
        ExprModel::Union(es) => { lemma_union_some(v, es, es.len() as int, node, pos, size); },
        ExprModel::FunctionCall(f, args) => {
            if args.len() == 1 {
                lemma_expr_some(v, args[0], node, pos, size);
            }
        },
        ExprModel::Compare(_, l, r) => {
            lemma_expr_some(v, *l, node, pos, size);
            lemma_expr_some(v, *r, node, pos, size);
        },
        _ => {},
    }
}

/// A union whose members evaluate gives a node-set.
proof fn lemma_union_some(v: IndexView, es: Seq<ExprModel>, k: int, node: XPathNode, pos: int, size: int)
    requires
        members_ok(es, k),
    ensures
        union_nodes(v, es, k, node, pos, size) is Some,
    decreases es, k,
{
    if k > 0 {
        lemma_union_some(v, es, k - 1, node, pos, size);
        lemma_expr_some(v, es[k - 1], node, pos, size);
    }
}

/// A path whose predicates evaluate gives a node-set from every node.
proof fn lemma_path_some(v: IndexView, p: PathModel, node: XPathNode)
    requires
        path_ok(p),
    ensures
        path_nodes(v, p, node) is Some,
    decreases p, 0int,
{
    let start = if p.absolute { seq![XPathNode::Element(DOC_ROOT)] } else { seq![node] };
    lemma_steps_some(v, p.steps, p.steps.len() as int, start);
}

/// Steps whose predicates evaluate give a node-set from any start.
proof fn lemma_steps_some(v: IndexView, steps: Seq<StepModel>, k: int, start: Seq<XPathNode>)
    requires
        steps_ok(steps, k),
    ensures
        steps_nodes(v, steps, k, start) is Some,
    decreases steps, k,
{
    if k > 0 {
        lemma_steps_some(v, steps, k - 1, start);
        let ctx = steps_nodes(v, steps, k - 1, start)->Some_0;
        lemma_step_some(v, steps[k - 1], ctx, ctx.len() as int);
    }
}

/// A step whose predicates evaluate gives a node-set from any context.
proof fn lemma_step_some(v: IndexView, s: StepModel, ctx: Seq<XPathNode>, j: int)
    requires
        preds_ok(s.predicates, s.predicates.len() as int),
        j <= ctx.len(),
    ensures
        step_nodes(v, s, ctx, j) is Some,
    decreases s, j,
{
    if j > 0 {
        lemma_step_some(v, s, ctx, j - 1);
        let cands = filter_test(v, super::semantics::axis_nodes(v, ctx[j - 1], s.axis, s.test), s.test);
        lemma_preds_some(v, s.predicates, s.predicates.len() as int, cands);
    }
}

/// Predicates that evaluate filter any node list.
proof fn lemma_preds_some(v: IndexView, preds: Seq<ExprModel>, m: int, nodes: Seq<XPathNode>)
    requires
        preds_ok(preds, m),
    ensures
        preds_filter(v, preds, m, nodes) is Some,
    decreases preds, m,
{
    if m > 0 {
        lemma_preds_some(v, preds, m - 1, nodes);
        let ns = preds_filter(v, preds, m - 1, nodes)->Some_0;
        lemma_keep_some(v, preds[m - 1], ns, ns.len() as int);
    }
}

/// A predicate that evaluates filters any node list.
proof fn lemma_keep_some(v: IndexView, e: ExprModel, ns: Seq<XPathNode>, j: int)
    requires
        expr_ok(e),
        j <= ns.len(),
    ensures
        pred_keep(v, e, ns, j) is Some,
    decreases e, j + 1,
{
    if j > 0 {
        lemma_keep_some(v, e, ns, j - 1);
        lemma_expr_some(v, e, ns[j - 1], j, ns.len() as int);
    }
}

/// An absolute location path, or a union of such, whose predicates use the
/// functions with the arguments they take (and `count` of a node-set)
/// always selects: its evaluation does not fail, on any index.
pub proof fn law_supported_selects(v: IndexView, e: ExprModel)
    requires
        select_ok(e),
    ensures
        select(v, e) is Some,
    decreases e, 0int,
{
    match e {
        ExprModel::LocationPath(p) => { lemma_path_some(v, p, XPathNode::Element(DOC_ROOT)); },
        ExprModel::Union(es) => { lemma_select_union_some(v, es, es.len() as int); },
        _ => {},
    }
}

/// A top-level union whose members select, selects.
proof fn lemma_select_union_some(v: IndexView, es: Seq<ExprModel>, k: int)
    requires
        select_members_ok(es, k),
    ensures
        select_union(v, es, k) is Some,
    decreases es, k,
{
    if k > 0 {
        lemma_select_union_some(v, es, k - 1);
        law_supported_selects(v, es[k - 1]);
    }
}

// ---------------------------------------------------------------------------
// Comparisons with node-sets; the text of an element.
// ---------------------------------------------------------------------------

/// A node-set equals a string exactly when some node of it, wherever it
/// stands in the set, has that string value; it is unequal to the string
/// exactly when some node has another value. The same holds with the
/// string on the left.
pub proof fn law_node_set_equals_string(v: IndexView, ns: Seq<XPathNode>, s: Seq<char>)
    ensures
        compares(v, CompareOp::Eq, Val::Nodes(ns), Val::Str(s))
            == (exists|j: int| 0 <= j < ns.len() && string_value(v, #[trigger] ns[j]) == s),
        compares(v, CompareOp::Eq, Val::Str(s), Val::Nodes(ns))
            == (exists|j: int| 0 <= j < ns.len() && string_value(v, #[trigger] ns[j]) == s),
        compares(v, CompareOp::Ne, Val::Nodes(ns), Val::Str(s))
            == (exists|j: int| 0 <= j < ns.len() && string_value(v, #[trigger] ns[j]) != s),
{
}

/// A node-set compared with a number holds exactly when some node of it,
/// wherever it stands, read as a number, compares with it.
pub proof fn law_node_set_compares_with_number(v: IndexView, op: CompareOp, ns: Seq<XPathNode>, n: int)
    ensures
        compares(v, op, Val::Nodes(ns), Val::Num(n)) == (exists|j: int| 0 <= j < ns.len()
            && num_compare(op, string_number(string_value(v, #[trigger] ns[j])), Some(int_dec(n)))),
{
}

/// Any one node of a set that compares with a value makes the set compare
/// with it.
pub proof fn law_one_node_suffices(v: IndexView, op: CompareOp, ns: Seq<XPathNode>, j: int, s: Seq<char>)
    requires
        0 <= j < ns.len(),
        string_value(v, ns[j]) == s,
    ensures
        compares(v, CompareOp::Eq, Val::Nodes(ns), Val::Str(s)),
{
    assert(string_value(v, ns[j]) == s);
}

/// The texts of the first `k` texts directly under `i` are the string
/// values of the first `k` text nodes the child axis yields under it.
proof fn lemma_text_children_values(v: IndexView, i: int, k: int)
    requires
        0 <= k <= v.texts.len(),
        v.texts.len() <= usize::MAX,
    ensures
        v.text_children_upto(i, k).map_values(|t: int| crate::index::model::utf8_or_empty(v.text_bytes(t)))
            == texts_up(v, k, TextFilter::ChildOf(i as nat)).map_values(|x: XPathNode| string_value(v, x)),
    decreases k,
{
    let lhs = v.text_children_upto(i, k).map_values(|t: int| crate::index::model::utf8_or_empty(v.text_bytes(t)));
    let rhs = texts_up(v, k, TextFilter::ChildOf(i as nat)).map_values(|x: XPathNode| string_value(v, x));
    if k > 0 {
        lemma_text_children_values(v, i, k - 1);
        let a = v.text_children_upto(i, k - 1);
        let b = texts_up(v, k - 1, TextFilter::ChildOf(i as nat));
        let la = a.map_values(|t: int| crate::index::model::utf8_or_empty(v.text_bytes(t)));
        let rb = b.map_values(|x: XPathNode| string_value(v, x));
        assert(la == rb);
        if v.texts[k - 1].parent == Some(i as nat) {
            assert(v.text_children_upto(i, k) == a.push(k - 1));
            assert(texts_up(v, k, TextFilter::ChildOf(i as nat)) == b + seq![XPathNode::Text((k - 1) as usize)]);
            assert(lhs.len() == la.len() + 1);
            assert(rhs.len() == rb.len() + 1);
            assert forall|j: int| 0 <= j < lhs.len() implies lhs[j] == rhs[j] by {
                if j < la.len() {
                    assert(lhs[j] == la[j]);
                    assert(rhs[j] == rb[j]);
                } else {
                    assert(((k - 1) as usize) as int == k - 1);
                }
            }
            assert(lhs =~= rhs);
        } else {
            assert(v.text_children_upto(i, k) == a);
            assert(texts_up(v, k, TextFilter::ChildOf(i as nat)) =~= b);
        }
    } else {
        assert(lhs =~= rhs);
    }
}

/// The text an element with any text yields is, one entry each and in
/// document order, the string values of its `text()` children: one per
/// text range whose parent is the element.
pub proof fn law_element_text_is_its_text_children(v: IndexView, i: usize)
    requires
        (i as int) < v.tags.len(),
        v.all_text(i as int).len() > 0,
        v.texts.len() <= usize::MAX,
    ensures
        node_texts(v, XPathNode::Element(i))
            == texts_up(v, v.texts.len() as int, TextFilter::ChildOf(i as nat)).map_values(|x: XPathNode| string_value(v, x)),
{
    lemma_text_children_values(v, i as int, v.texts.len() as int);
}

// ---------------------------------------------------------------------------
// Names in expressions.
// ---------------------------------------------------------------------------

/// A character of a name: a letter or digit, `-` or `_`.
pub open spec fn plain_name_char(c: char) -> bool {
    alnum_char(c) || c == '-' || c == '_'
}

/// From `p` on, every character is a name character: the name runs to the
/// end.
proof fn lemma_name_to_end(s: Seq<char>, p: int)
    requires
        0 <= p <= s.len(),
        forall|k: int| p <= k < s.len() ==> plain_name_char(#[trigger] s[k]),
    ensures
        name_len(s, p) == s.len() - p,
    decreases s.len() - p,
{
    if p < s.len() {
        lemma_name_to_end(s, p + 1);
    }
}

/// No colon comes before the end.
proof fn lemma_no_colon(w: Seq<char>, p: int)
    requires
        0 <= p <= w.len(),
        forall|k: int| 0 <= k < w.len() ==> plain_name_char(#[trigger] w[k]),
    ensures
        find_char(w, ':', p) is None,
    decreases w.len() - p,
{
    if p < w.len() {
        assert(plain_name_char(w[p]));
        lemma_no_colon(w, p + 1);
    }
}

/// The word characters from `p` stop inside the name or at its end.
proof fn lemma_word_within(s: Seq<char>, p: int)
    requires
        0 <= p <= s.len(),
    ensures
        p + word_len(s, p) <= s.len(),
    decreases s.len() - p,
{
    if p < s.len() && word_char(s[p]) {
        lemma_word_within(s, p + 1);
    }
}

/// A name running from `p` to the end is no axis specifier.
#[verifier::spinoff_prover]
proof fn lemma_no_axis(s: Seq<char>, p: int)
    requires
        0 <= p < s.len(),
        forall|k: int| p <= k < s.len() ==> plain_name_char(#[trigger] s[k]),
    ensures
        g_axis_specifier(s, p) is None,
{
    reveal(g_axis_specifier);
    lemma_word_within(s, p);
    let wl: int = word_len(s, p) as int;
    if p + wl < s.len() {
        assert(plain_name_char(s[p + wl]));
    }
}

/// A name running from `p` to the end is a name test reading it all.
#[verifier::spinoff_prover]
proof fn lemma_name_test_to_end(s: Seq<char>, p: int)
    requires
        0 <= p < s.len(),
        forall|k: int| p <= k < s.len() ==> plain_name_char(#[trigger] s[k]),
    ensures
        g_node_test(s, p) == Some((TestModel::Name(s.subrange(p, s.len() as int)), (s.len() - p) as nat)),
{
    reveal(g_node_test);
    reveal(g_node_type_test);
    reveal(g_wildcard_test);
    reveal(g_name_test);
    let w = s.subrange(p, s.len() as int);
    assert(plain_name_char(s[p]));
    lemma_word_within(s, p);
    let wl: int = word_len(s, p) as int;
    if p + wl < s.len() {
        assert(plain_name_char(s[p + wl]));
    }
    assert(g_node_type_test(s, p) is None);
    assert(g_wildcard_test(s, p) is None);
    lemma_name_to_end(s, p);
    assert forall|k: int| 0 <= k < w.len() implies plain_name_char(#[trigger] w[k]) by {
        assert(w[k] == s[p + k]);
    }
    lemma_no_colon(w, 0);
}

/// A name running from `p` to the end is a step on the child axis.
#[verifier::spinoff_prover]
proof fn lemma_name_step(s: Seq<char>, p: int)
    requires
        0 <= p < s.len(),
        forall|k: int| p <= k < s.len() ==> plain_name_char(#[trigger] s[k]),
    ensures
        g_step(s, p) == Some((StepModel { axis: Axis::Child, test: TestModel::Name(s.subrange(p, s.len() as int)),
            predicates: seq![] }, (s.len() - p) as nat)),
{
    assert(plain_name_char(s[p]));
    assert(ws_len(s, p) == 0);
    lemma_no_axis(s, p);
    lemma_name_test_to_end(s, p);
    assert(g_predicates(s, s.len() as int) == Some((Seq::<ExprModel>::empty(), 0nat)));
}

/// A name step from `p` reads to the end and is the whole step list.
#[verifier::spinoff_prover]
proof fn lemma_name_step_list(s: Seq<char>, p: int)
    requires
        0 <= p < s.len(),
        forall|k: int| p <= k < s.len() ==> plain_name_char(#[trigger] s[k]),
    ensures
        g_step_list(s, p) == Some((seq![StepModel { axis: Axis::Child, test: TestModel::Name(s.subrange(p, s.len() as int)),
            predicates: seq![] }], (s.len() - p) as nat)),
{
    lemma_name_step(s, p);
    let st = StepModel { axis: Axis::Child, test: TestModel::Name(s.subrange(p, s.len() as int)), predicates: seq![] };
    assert(g_more_steps(s, s.len() as int) == (Seq::<StepModel>::empty(), 0nat));
    assert(seq![st] + Seq::<StepModel>::empty() =~= seq![st]);
}

/// `//` and a name to the end is that path, and nothing follows it.
#[verifier::spinoff_prover]
proof fn lemma_descendant_name_path(s: Seq<char>)
    requires
        s.len() > 2,
        s[0] == '/',
        s[1] == '/',
        forall|k: int| 2 <= k < s.len() ==> plain_name_char(#[trigger] s[k]),
    ensures
        g_union_expr(s, 0) == Some((ExprModel::LocationPath(PathModel {
            absolute: true,
            steps: seq![dos_step(), StepModel { axis: Axis::Child, test: TestModel::Name(s.subrange(2, s.len() as int)),
                predicates: seq![] }],
        }), s.len())),
{
    lemma_name_step_list(s, 2);
    let st = StepModel { axis: Axis::Child, test: TestModel::Name(s.subrange(2, s.len() as int)), predicates: seq![] };
    assert(seq![dos_step()] + seq![st] =~= seq![dos_step(), st]);
    assert(g_location_path(s, 0) == Some((PathModel { absolute: true, steps: seq![dos_step(), st] }, s.len())));
    assert(g_union_rest(s, s.len() as int) == (Seq::<ExprModel>::empty(), 0nat));
}

/// `//name` selects, below the root, the children named `name`: for every
/// name made of letters, digits, `-` and `_` (its last character not white
/// space), the expression parses to the path `descendant-or-self::node()`
/// then `child::name`.
#[verifier::spinoff_prover]
pub proof fn law_descendant_name_parses(w: Seq<char>)
    requires
        w.len() > 0,
        forall|k: int| 0 <= k < w.len() ==> plain_name_char(#[trigger] w[k]),
        !ws_char(w[w.len() - 1]),
    ensures
        parsed(seq!['/', '/'] + w) == Some(ExprModel::LocationPath(PathModel {
            absolute: true,
            steps: seq![dos_step(), StepModel { axis: Axis::Child, test: TestModel::Name(w), predicates: seq![] }],
        })),
{
    let s = seq!['/', '/'] + w;
    let n = s.len() as int;
    assert(s[0] == '/' && s[1] == '/');
    assert(s[n - 1] == w[w.len() - 1]);
    assert forall|k: int| 2 <= k < n implies plain_name_char(#[trigger] s[k]) by {
        assert(s[k] == w[k - 2]);
    }
    assert(lead_ws(s, 0) == 0);
    assert(trail_ws(s, n) == 0);
    assert(trimmed(s) =~= s);
    assert(s.subrange(2, n) =~= w);
    lemma_descendant_name_path(s);
}

} // verus!
