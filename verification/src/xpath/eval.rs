//! XPath evaluation over the structural index: location paths step by step,
//! predicates with their values, and the text of the selected nodes.
#![verifier::loop_isolation(false)]

use vstd::prelude::*;
use crate::error::SimdXmlError;
use crate::index::XmlIndex;
use crate::text::str_eq;
use super::ast::{Step, LocationPath, XPathExpr, Function, CompareOp, ExprModel, StepModel, expr_model, path_model,
    step_model, expr_models, step_models, lemma_call_model, lemma_union_model, lemma_step_model, lemma_path_model};
use super::axes::{eval_axis, filter_node_test};
use super::numbers::compare_exec;
use super::laws::law_supported_selects;
use super::semantics::{XPathNode, DOC_ROOT, Val, boolean, pred_true, string_value, compare_int,
    compare_vals, expr_value, union_nodes, path_nodes, steps_nodes, step_nodes, preds_filter, pred_keep,
    select, select_union, select_ok, node_texts, texts_of, filter_test, axis_nodes, raw_of};
use crate::index::model::IndexView;

verus! {

/// The value of an expression inside a predicate.
pub enum Value {
    Nodes(Vec<XPathNode>),
    Num(u64),
    Bool(bool),
    Str(String),
}

impl View for Value {
    type V = Val;

    open spec fn view(&self) -> Val {
        match self {
            Value::Nodes(ns) => Val::Nodes(ns@),
            Value::Num(n) => Val::Num(*n as int),
            Value::Bool(b) => Val::Bool(*b),
            Value::Str(s) => Val::Str(s@),
        }
    }
}

/// An evaluation error with the given message.
fn eval_error(msg: &str) -> (r: SimdXmlError)
    ensures
        r matches SimdXmlError::XPathEvalError(m) && m@ == msg@,
{
    SimdXmlError::XPathEvalError(msg.to_owned())
}

/// Once a prefix of a union fails, the union fails.
proof fn lemma_union_none(v: IndexView, es: Seq<ExprModel>, k: int, n: int, node: XPathNode, pos: int, size: int)
    requires
        0 <= k <= n <= es.len(),
        union_nodes(v, es, k, node, pos, size) is None,
    ensures
        union_nodes(v, es, n, node, pos, size) is None,
    decreases n - k,
{
    if k < n {
        lemma_union_none(v, es, k, n - 1, node, pos, size);
    }
}

/// Once a prefix of the steps fails, the path fails.
proof fn lemma_steps_none(v: IndexView, steps: Seq<StepModel>, k: int, n: int, start: Seq<XPathNode>)
    requires
        0 <= k <= n <= steps.len(),
        steps_nodes(v, steps, k, start) is None,
    ensures
        steps_nodes(v, steps, n, start) is None,
    decreases n - k,
{
    if k < n {
        lemma_steps_none(v, steps, k, n - 1, start);
    }
}

/// Once a step fails at a context node, it fails.
proof fn lemma_step_none(v: IndexView, s: StepModel, ctx: Seq<XPathNode>, j: int, n: int)
    requires
        0 <= j <= n <= ctx.len(),
        step_nodes(v, s, ctx, j) is None,
    ensures
        step_nodes(v, s, ctx, n) is None,
    decreases n - j,
{
    if j < n {
        lemma_step_none(v, s, ctx, j, n - 1);
    }
}

/// Once a predicate fails, the predicates fail.
proof fn lemma_preds_none(v: IndexView, preds: Seq<ExprModel>, m: int, n: int, nodes: Seq<XPathNode>)
    requires
        0 <= m <= n <= preds.len(),
        preds_filter(v, preds, m, nodes) is None,
    ensures
        preds_filter(v, preds, n, nodes) is None,
    decreases n - m,
{
    if m < n {
        lemma_preds_none(v, preds, m, n - 1, nodes);
    }
}

/// Once a predicate fails at a node, it fails.
proof fn lemma_keep_none(v: IndexView, e: ExprModel, ns: Seq<XPathNode>, j: int, n: int)
    requires
        0 <= j <= n <= ns.len(),
        pred_keep(v, e, ns, j) is None,
    ensures
        pred_keep(v, e, ns, n) is None,
    decreases n - j,
{
    if j < n {
        lemma_keep_none(v, e, ns, j, n - 1);
    }
}

/// Once a member of a top-level union fails, the union fails.
proof fn lemma_select_union_none(v: IndexView, es: Seq<ExprModel>, k: int, n: int)
    requires
        0 <= k <= n <= es.len(),
        select_union(v, es, k) is None,
    ensures
        select_union(v, es, n) is None,
    decreases n - k,
{
    if k < n {
        lemma_select_union_none(v, es, k, n - 1);
    }
}

/// XPath's `boolean()`.
pub(crate) fn boolean_exec(val: &Value) -> (r: bool)
    ensures
        r == boolean(val@),
{
    match val {
        Value::Nodes(ns) => ns.len() > 0,
        Value::Num(n) => *n != 0,
        Value::Bool(b) => *b,
        Value::Str(s) => !s.as_str().is_empty(),
    }
}

/// A predicate value keeps the node at `pos`.
fn pred_true_exec(val: &Value, pos: usize) -> (r: bool)
    ensures
        r == pred_true(val@, pos as int),
{
    match val {
        Value::Num(n) => *n == pos as u64,
        _ => boolean_exec(val),
    }
}

/// The string value of a node.
pub(crate) fn string_value_exec(index: &XmlIndex, node: XPathNode) -> (r: String)
    requires
        index.wf(),
    ensures
        r@ == string_value(index@, node),
{
    match node {
        XPathNode::Element(i) => if i < index.tag_count() { index.all_text(i) } else { String::new() },
        XPathNode::Text(t) => if t < index.text_count() {
            proof { index.lemma_wf(); }
            index.text_content(index.text_range_at(t)).to_owned()
        } else {
            String::new()
        },
        XPathNode::Attribute(i, e) => if i < index.tag_count() && e < usize::MAX {
            match index.attribute_value_at(i, e + 1) {
                Some(s) => s.to_owned(),
                None => String::new(),
            }
        } else {
            proof {
                if (i as int) < index@.tags.len() {
                    index.lemma_wf();
                    let tag = index@.tag_bytes(i as int);
                    assert(index@.tags[i as int].end < index@.input.len());
                    assert(tag.len() <= index@.input.len());
                    assert(!(0 <= e + 1 < tag.len()));
                }
            }
            String::new()
        },
    }
}

/// A comparison of two numbers.
pub(crate) fn compare_u64(op: CompareOp, a: u64, b: u64) -> (r: bool)
    ensures
        r == compare_int(op, a as int, b as int),
{
    match op {
        CompareOp::Eq => a == b,
        CompareOp::Ne => a != b,
        CompareOp::Lt => a < b,
        CompareOp::Le => a <= b,
        CompareOp::Gt => a > b,
        CompareOp::Ge => a >= b,
    }
}

/// The value of an expression at a context node, its position and the
/// context size.
fn expr_value_exec(index: &XmlIndex, e: &XPathExpr, node: XPathNode, pos: usize, size: usize) -> (r: Result<Value, SimdXmlError>)
    requires
        index.wf(),
    ensures
        match r {
            Ok(val) => expr_value(index@, expr_model(*e), node, pos as int, size as int) == Some(val@),
            Err(x) => x is XPathEvalError && expr_value(index@, expr_model(*e), node, pos as int, size as int) is None,
        },
    decreases *e, 0int,
{
    match e {
        XPathExpr::LocationPath(p) => match path_nodes_exec(index, p, node) {
            Ok(ns) => Ok(Value::Nodes(ns)),
            Err(x) => Err(x),
        },
        XPathExpr::Union(es) => {
            proof { lemma_union_model(*es); }
            let mut acc: Vec<XPathNode> = Vec::new();
            let mut k: usize = 0;
            while k < es.len()
                invariant
                    index.wf(),
                    k <= es@.len(),
                    union_nodes(index@, expr_models(es@), k as int, node, pos as int, size as int) == Some(acc@),
                decreases es@.len() - k,
            {
                match expr_value_exec(index, &es[k], node, pos, size) {
                    Ok(Value::Nodes(ns)) => {
                        let mut ns = ns;
                        acc.append(&mut ns);
                    },
                    Ok(_) => {
                        proof { lemma_union_none(index@, expr_models(es@), k + 1, es@.len() as int, node, pos as int, size as int); }
                        return Err(eval_error("A union joins node-sets only"));
                    },
                    Err(x) => {
                        proof { lemma_union_none(index@, expr_models(es@), k + 1, es@.len() as int, node, pos as int, size as int); }
                        return Err(x);
                    },
                }
                k = k + 1;
            }
            Ok(Value::Nodes(acc))
        },
        XPathExpr::Number(n) => Ok(Value::Num(*n)),
        XPathExpr::Literal(s) => Ok(Value::Str(s.clone())),
        XPathExpr::FunctionCall(f, args) => {
            proof { lemma_call_model(*f, *args); }
            match f {
            Function::Last => if args.len() == 0 { Ok(Value::Num(size as u64)) } else { Err(eval_error("last() takes no argument")) },
            Function::Position => if args.len() == 0 { Ok(Value::Num(pos as u64)) } else { Err(eval_error("position() takes no argument")) },
            Function::True => if args.len() == 0 { Ok(Value::Bool(true)) } else { Err(eval_error("true() takes no argument")) },
            Function::False => if args.len() == 0 { Ok(Value::Bool(false)) } else { Err(eval_error("false() takes no argument")) },
            Function::Count => if args.len() == 1 {
                match expr_value_exec(index, &args[0], node, pos, size) {
                    Ok(Value::Nodes(ns)) => Ok(Value::Num(ns.len() as u64)),
                    Ok(_) => Err(eval_error("count() takes a node-set")),
                    Err(x) => Err(x),
                }
            } else {
                Err(eval_error("count() takes one argument"))
            },
            Function::Not => if args.len() == 1 {
                match expr_value_exec(index, &args[0], node, pos, size) {
                    Ok(x) => Ok(Value::Bool(!boolean_exec(&x))),
                    Err(x) => Err(x),
                }
            } else {
                Err(eval_error("not() takes one argument"))
            },
            }
        },
        XPathExpr::Compare(op, l, r) => {
            let a = match expr_value_exec(index, l, node, pos, size) {
                Ok(a) => a,
                Err(x) => { return Err(x); },
            };
            let b = match expr_value_exec(index, r, node, pos, size) {
                Ok(b) => b,
                Err(x) => { return Err(x); },
            };
            Ok(compare_exec(index, *op, a, b))
        },
    }
}

/// A location path from a context node.
fn path_nodes_exec(index: &XmlIndex, p: &LocationPath, node: XPathNode) -> (r: Result<Vec<XPathNode>, SimdXmlError>)
    requires
        index.wf(),
    ensures
        match r {
            Ok(ns) => path_nodes(index@, path_model(*p), node) == Some(ns@),
            Err(x) => x is XPathEvalError && path_nodes(index@, path_model(*p), node) is None,
        },
    decreases *p, 0int,
{
    let mut context: Vec<XPathNode> = Vec::new();
    if p.absolute {
        // Virtual document root
        context.push(XPathNode::Element(DOC_ROOT));
    } else {
        context.push(node);
    }
    let ghost start = context@;
    proof { lemma_path_model(*p); }
    let mut i: usize = 0;
    while i < p.steps.len()
        invariant
            index.wf(),
            i <= p.steps@.len(),
            start == (if p.absolute { seq![XPathNode::Element(DOC_ROOT)] } else { seq![node] }),
            steps_nodes(index@, step_models(p.steps@), i as int, start) == Some(context@),
        decreases p.steps@.len() - i,
    {
        match step_exec(index, &p.steps[i], &context) {
            Ok(next) => { context = next; },
            Err(x) => {
                proof { lemma_steps_none(index@, step_models(p.steps@), i + 1, p.steps@.len() as int, start); }
                return Err(x);
            },
        }
        i = i + 1;
    }
    Ok(context)
}

/// One step applied to a context: for each context node, the axis
/// candidates that pass the node test and the predicates.
pub fn eval_step(index: &XmlIndex, s: &Step, context: &Vec<XPathNode>) -> (r: Result<Vec<XPathNode>, SimdXmlError>)
    requires
        index.wf(),
    ensures
        match r {
            Ok(ns) => step_nodes(index@, step_model(*s), context@, context@.len() as int) == Some(ns@),
            Err(x) => x is XPathEvalError && step_nodes(index@, step_model(*s), context@, context@.len() as int) is None,
        },
    decreases *s, 0int,
{
    step_exec(index, s, context)
}

fn step_exec(index: &XmlIndex, s: &Step, context: &Vec<XPathNode>) -> (r: Result<Vec<XPathNode>, SimdXmlError>)
    requires
        index.wf(),
    ensures
        match r {
            Ok(ns) => step_nodes(index@, step_model(*s), context@, context@.len() as int) == Some(ns@),
            Err(x) => x is XPathEvalError && step_nodes(index@, step_model(*s), context@, context@.len() as int) is None,
        },
    decreases *s, 0int,
{
    let mut result: Vec<XPathNode> = Vec::new();
    proof { lemma_step_model(*s); }
    let mut j: usize = 0;
    while j < context.len()
        invariant
            index.wf(),
            j <= context@.len(),
            step_nodes(index@, step_model(*s), context@, j as int) == Some(result@),
        decreases context@.len() - j,
    {
        let candidates = eval_axis(index, context[j], s.axis, &s.node_test);
        let filtered = filter_node_test(index, &candidates, &s.node_test);
        match preds_exec(index, &s.predicates, filtered) {
            Ok(kept) => {
                let mut kept = kept;
                result.append(&mut kept);
            },
            Err(x) => {
                proof { lemma_step_none(index@, step_model(*s), context@, j + 1, context@.len() as int); }
                return Err(x);
            },
        }
        j = j + 1;
    }
    Ok(result)
}

/// The predicates applied in turn.
fn preds_exec(index: &XmlIndex, preds: &Vec<XPathExpr>, nodes: Vec<XPathNode>) -> (r: Result<Vec<XPathNode>, SimdXmlError>)
    requires
        index.wf(),
    ensures
        match r {
            Ok(ns) => preds_filter(index@, expr_models(preds@), preds@.len() as int, nodes@) == Some(ns@),
            Err(x) => x is XPathEvalError && preds_filter(index@, expr_models(preds@), preds@.len() as int, nodes@) is None,
        },
    decreases *preds, 0int,
{
    let ghost start = nodes@;
    let mut cur = nodes;
    let mut m: usize = 0;
    while m < preds.len()
        invariant
            index.wf(),
            m <= preds@.len(),
            preds_filter(index@, expr_models(preds@), m as int, start) == Some(cur@),
        decreases preds@.len() - m,
    {
        match pred_keep_exec(index, &preds[m], &cur) {
            Ok(next) => { cur = next; },
            Err(x) => {
                proof { lemma_preds_none(index@, expr_models(preds@), m + 1, preds@.len() as int, start); }
                return Err(x);
            },
        }
        m = m + 1;
    }
    Ok(cur)
}

/// The nodes a predicate keeps, each taken at its position.
fn pred_keep_exec(index: &XmlIndex, e: &XPathExpr, nodes: &Vec<XPathNode>) -> (r: Result<Vec<XPathNode>, SimdXmlError>)
    requires
        index.wf(),
    ensures
        match r {
            Ok(ns) => pred_keep(index@, expr_model(*e), nodes@, nodes@.len() as int) == Some(ns@),
            Err(x) => x is XPathEvalError && pred_keep(index@, expr_model(*e), nodes@, nodes@.len() as int) is None,
        },
    decreases *e, 1int,
{
    let mut result: Vec<XPathNode> = Vec::new();
    let size = nodes.len();
    let mut j: usize = 0;
    while j < size
        invariant
            index.wf(),
            j <= size == nodes@.len(),
            pred_keep(index@, expr_model(*e), nodes@, j as int) == Some(result@),
        decreases size - j,
    {
        match expr_value_exec(index, e, nodes[j], j + 1, size) {
            Ok(val) => {
                if pred_true_exec(&val, j + 1) {
                    result.push(nodes[j]);
                }
                proof {
                    assert(result@ =~= pred_keep(index@, expr_model(*e), nodes@, j + 1)->Some_0);
                }
            },
            Err(x) => {
                proof { lemma_keep_none(index@, expr_model(*e), nodes@, j + 1, size as int); }
                return Err(x);
            },
        }
        j = j + 1;
    }
    Ok(result)
}

/// Evaluate an XPath expression against an XmlIndex: an absolute location
/// path, or a union of such.
pub fn evaluate<'a>(index: &'a XmlIndex<'a>, expr: &XPathExpr) -> (r: Result<Vec<XPathNode>, SimdXmlError>)
    requires
        index.wf(),
    ensures
        match r {
            Ok(ns) => select(index@, expr_model(*expr)) == Some(ns@),
            Err(x) => x is XPathEvalError && select(index@, expr_model(*expr)) is None,
        },
        select_ok(expr_model(*expr)) ==> r is Ok,
    decreases *expr,
{
    proof {
        if select_ok(expr_model(*expr)) {
            law_supported_selects(index@, expr_model(*expr));
        }
    }
    match expr {
        XPathExpr::LocationPath(path) => {
            proof { lemma_path_model(*path); }
            if !path.absolute {
                return Err(eval_error("Relative paths require a context node"));
            }
            path_nodes_exec(index, path, XPathNode::Element(DOC_ROOT))
        },
        XPathExpr::Union(exprs) => {
            proof { lemma_union_model(*exprs); }
            let mut result: Vec<XPathNode> = Vec::new();
            let mut k: usize = 0;
            while k < exprs.len()
                invariant
                    index.wf(),
                    k <= exprs@.len(),
                    select_union(index@, expr_models(exprs@), k as int) == Some(result@),
                decreases exprs@.len() - k,
            {
                match evaluate(index, &exprs[k]) {
                    Ok(ns) => {
                        let mut ns = ns;
                        result.append(&mut ns);
                    },
                    Err(x) => {
                        proof { lemma_select_union_none(index@, expr_models(exprs@), k + 1, exprs@.len() as int); }
                        return Err(x);
                    },
                }
                k = k + 1;
            }
            Ok(result)
        },
        _ => Err(eval_error("Only location paths and unions are supported")),
    }
}

/// The text a node contributes.
fn node_texts_exec<'a>(index: &'a XmlIndex<'a>, node: XPathNode, out: &mut Vec<&'a str>)
    requires
        index.wf(),
    ensures
        final(out)@.map_values(|s: &str| s@) == old(out)@.map_values(|s: &str| s@) + node_texts(index@, node),
{
    let ghost before = out@.map_values(|s: &str| s@);
    match node {
        XPathNode::Element(idx) => {
            if idx < index.tag_count() {
                // For elements, the texts directly under them, when there is any text
                let text = index.all_text(idx);
                if !text.as_str().is_empty() {
                    let direct = index.direct_text(idx);
                    let ghost kids = index@.text_children(idx as int).map_values(|t: int| crate::index::model::utf8_or_empty(index@.text_bytes(t)));
                    let mut k: usize = 0;
                    while k < direct.len()
                        invariant
                            index.wf(),
                            k <= direct@.len() == kids.len(),
                            forall|j: int| 0 <= j < direct@.len() ==> (#[trigger] direct@[j])@ == kids[j],
                            out@.map_values(|s: &str| s@) == before + kids.take(k as int),
                        decreases direct@.len() - k,
                    {
                        let ghost old_map = out@.map_values(|s: &str| s@);
                        let piece = direct[k];
                        out.push(piece);
                        proof {
                            assert(piece@ == kids[k as int]);
                            assert(out@.map_values(|s: &str| s@) =~= old_map.push(piece@));
                            assert(kids.take(k + 1) =~= kids.take(k as int).push(kids[k as int]));
                            assert(out@.map_values(|s: &str| s@) =~= before + kids.take(k + 1));
                        }
                        k = k + 1;
                    }
                    proof { assert(kids.take(kids.len() as int) =~= kids); }
                } else {
                    proof { assert(before + seq![] =~= before); }
                }
            } else {
                proof { assert(before + seq![] =~= before); }
            }
        },
        XPathNode::Text(t) => {
            if t < index.text_count() {
                proof { index.lemma_wf(); }
                let s = index.text_content(index.text_range_at(t));
                out.push(s);
                proof { assert(out@.map_values(|s: &str| s@) =~= before + node_texts(index@, node)); }
            } else {
                proof { assert(before + seq![] =~= before); }
            }
        },
        XPathNode::Attribute(i, e) => {
            if i < index.tag_count() && e < usize::MAX {
                match index.attribute_value_at(i, e + 1) {
                    Some(s) => {
                        out.push(s);
                        proof { assert(out@.map_values(|s: &str| s@) =~= before + node_texts(index@, node)); }
                    },
                    None => {
                        proof { assert(before + seq![] =~= before); }
                    },
                }
            } else {
                proof {
                    if (i as int) < index@.tags.len() {
                        index.lemma_wf();
                        let tag = index@.tag_bytes(i as int);
                        assert(index@.tags[i as int].end < index@.input.len());
                        assert(tag.len() <= index@.input.len());
                        assert(!(0 <= e + 1 < tag.len()));
                    }
                    assert(before + seq![] =~= before);
                }
            }
        },
    }
}

/// Extract text results from XPath evaluation: for each selected element
/// that holds any text, the texts directly under it; for a text node, its
/// characters; for an attribute, its value.
pub fn eval_text<'a>(index: &'a XmlIndex<'a>, expr: &XPathExpr) -> (r: Result<Vec<&'a str>, SimdXmlError>)
    requires
        index.wf(),
    ensures
        match select(index@, expr_model(*expr)) {
            Some(ns) => r matches Ok(ts) && ts@.map_values(|s: &str| s@) == texts_of(index@, ns, ns.len() as int),
            None => r matches Err(x) && x is XPathEvalError,
        },
        select_ok(expr_model(*expr)) ==> r is Ok,
{
    proof {
        if select_ok(expr_model(*expr)) {
            law_supported_selects(index@, expr_model(*expr));
        }
    }
    let nodes = match evaluate(index, expr) {
        Ok(ns) => ns,
        Err(x) => { return Err(x); },
    };
    let mut results: Vec<&'a str> = Vec::new();
    let mut k: usize = 0;
    while k < nodes.len()
        invariant
            index.wf(),
            k <= nodes@.len(),
            results@.map_values(|s: &str| s@) == texts_of(index@, nodes@, k as int),
        decreases nodes@.len() - k,
    {
        node_texts_exec(index, nodes[k], &mut results);
        k = k + 1;
    }
    Ok(results)
}

/// A node as written in the document.
pub fn node_raw<'a>(index: &XmlIndex<'a>, node: XPathNode) -> (r: &'a str)
    requires
        index.wf(),
    ensures
        r@ == raw_of(index@, node),
{
    proof { reveal_strlit(""); }
    match node {
        XPathNode::Element(i) => if i < index.tag_count() { index.element_raw(i) } else { "" },
        XPathNode::Text(t) => if t < index.text_count() {
            proof { index.lemma_wf(); }
            index.text_content(index.text_range_at(t))
        } else {
            ""
        },
        XPathNode::Attribute(i, e) => if i < index.tag_count() && e < usize::MAX {
            match index.attribute_value_at(i, e + 1) {
                Some(s) => s,
                None => "",
            }
        } else {
            proof {
                if (i as int) < index@.tags.len() {
                    index.lemma_wf();
                    let tag = index@.tag_bytes(i as int);
                    assert(index@.tags[i as int].end < index@.input.len());
                    assert(tag.len() <= index@.input.len());
                    assert(!(0 <= e + 1 < tag.len()));
                }
            }
            ""
        },
    }
}

} // verus!
