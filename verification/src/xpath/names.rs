//! Which tag names an expression can select: the basis of query-driven lazy
//! parsing.

use vstd::prelude::*;
use crate::text::push_char;
use super::ast::{Axis, NodeTest, Step, LocationPath, XPathExpr, TestModel, StepModel, PathModel, ExprModel,
    expr_model, path_model, step_model, expr_models, step_models, lemma_call_model, lemma_union_model,
    lemma_step_model, lemma_path_model};
use super::parser::chars_vec;

verus! {

/// Both analyses, or `None` when either needs every tag.
pub open spec fn join(a: Option<Set<Seq<char>>>, b: Option<Set<Seq<char>>>) -> Option<Set<Seq<char>>> {
    match (a, b) {
        (Some(x), Some(y)) => Some(x.union(y)),
        _ => None,
    }
}

/// The axes on which `node()` only walks the structure (self, up, or the
/// `//` step) and so needs no tag of its own.
pub open spec fn structural_axis(axis: Axis) -> bool {
    axis == Axis::DescendantOrSelf || axis == Axis::SelfAxis || axis == Axis::Parent
        || axis == Axis::Ancestor || axis == Axis::AncestorOrSelf
}

/// The tag names a node test refers to; `None` when it matches tags of any
/// name. Tests on the attribute axis refer to no tag.
pub open spec fn test_names(axis: Axis, t: TestModel) -> Option<Set<Seq<char>>> {
    if axis == Axis::Attribute {
        Some(Set::empty())
    } else {
        match t {
            TestModel::Name(n) => Some(set![n]),
            TestModel::NamespacedName(p, l) => Some(set![p + seq![':'] + l]),
            TestModel::Wildcard => None,
            TestModel::Node => if structural_axis(axis) { Some(Set::empty()) } else { None },
            _ => Some(Set::empty()),
        }
    }
}

/// The tag names an expression refers to, or `None` when it may select
/// tags of any name.
pub open spec fn expr_names(e: ExprModel) -> Option<Set<Seq<char>>>
    decreases e, 0int,
{
    match e {
        ExprModel::LocationPath(p) => path_names(p),
        ExprModel::Union(es) => list_names(es, es.len() as int),
        ExprModel::Number(_) => Some(Set::empty()),
        ExprModel::Literal(_) => Some(Set::empty()),
        ExprModel::FunctionCall(_, args) => list_names(args, args.len() as int),
        ExprModel::Compare(_, l, r) => join(expr_names(*l), expr_names(*r)),
    }
}

/// The names of the first `k` expressions.
pub open spec fn list_names(es: Seq<ExprModel>, k: int) -> Option<Set<Seq<char>>>
    decreases es, k,
{
    if k <= 0 {
        Some(Set::empty())
    } else if k > es.len() {
        None
    } else {
        join(list_names(es, k - 1), expr_names(es[k - 1]))
    }
}

/// The names of a location path.
pub open spec fn path_names(p: PathModel) -> Option<Set<Seq<char>>>
    decreases p, 0int,
{
    steps_names(p.steps, p.steps.len() as int)
}

/// The names of the first `k` steps.
pub open spec fn steps_names(ss: Seq<StepModel>, k: int) -> Option<Set<Seq<char>>>
    decreases ss, k,
{
    if k <= 0 {
        Some(Set::empty())
    } else if k > ss.len() {
        None
    } else {
        join(steps_names(ss, k - 1), step_names(ss[k - 1]))
    }
}

/// The names of a step: its node test and its predicates.
pub open spec fn step_names(s: StepModel) -> Option<Set<Seq<char>>>
    decreases s, 0int,
{
    join(test_names(s.axis, s.test), list_names(s.predicates, s.predicates.len() as int))
}

/// The names held in a list of strings.
pub open spec fn name_set(v: Seq<String>) -> Set<Seq<char>> {
    Set::new(|n: Seq<char>| exists|i: int| 0 <= i < v.len() && (#[trigger] v[i])@ == n)
}

/// No name occurs twice.
pub open spec fn distinct_names(v: Seq<String>) -> bool {
    forall|i: int, j: int| 0 <= i < j < v.len() ==> (#[trigger] v[i])@ != (#[trigger] v[j])@
}

proof fn lemma_list_none(es: Seq<ExprModel>, k: int, n: int)
    requires
        0 <= k <= n <= es.len(),
        list_names(es, k) is None,
    ensures
        list_names(es, n) is None,
    decreases n - k,
{
    if k < n {
        lemma_list_none(es, k, n - 1);
    }
}

proof fn lemma_steps_none(ss: Seq<StepModel>, k: int, n: int)
    requires
        0 <= k <= n <= ss.len(),
        steps_names(ss, k) is None,
    ensures
        steps_names(ss, n) is None,
    decreases n - k,
{
    if k < n {
        lemma_steps_none(ss, k, n - 1);
    }
}

/// Adds a name unless it is already there.
fn add_name(acc: &mut Vec<String>, name: String)
    requires
        distinct_names(old(acc)@),
    ensures
        distinct_names(final(acc)@),
        name_set(final(acc)@) == name_set(old(acc)@).insert(name@),
{
    let ghost orig = acc@;
    let mut k: usize = 0;
    while k < acc.len()
        invariant
            k <= acc@.len(),
            acc@ == orig,
            distinct_names(acc@),
            forall|j: int| 0 <= j < k ==> (#[trigger] acc@[j])@ != name@,
        decreases acc@.len() - k,
    {
        if acc[k] == name {
            proof { assert(name_set(acc@) =~= name_set(acc@).insert(name@)); }
            return;
        }
        k = k + 1;
    }
    let ghost before = acc@;
    acc.push(name);
    proof {
        assert(forall|j: int| 0 <= j < before.len() ==> acc@[j] == before[j]);
        assert(name_set(acc@) =~= name_set(before).insert(name@)) by {
            assert(acc@[before.len() as int] == name);
        }
    }
}

/// `prefix:local`
fn qualified(prefix: &String, local: &String) -> (r: String)
    ensures
        r@ == prefix@ + seq![':'] + local@,
{
    let p = chars_vec(prefix.as_str());
    let l = chars_vec(local.as_str());
    let mut out = String::new();
    let mut k: usize = 0;
    while k < p.len()
        invariant
            k <= p@.len(),
            out@ == p@.take(k as int),
        decreases p@.len() - k,
    {
        push_char(&mut out, p[k]);
        proof { assert(p@.take(k + 1) =~= p@.take(k as int).push(p@[k as int])); }
        k = k + 1;
    }
    push_char(&mut out, ':');
    let ghost head = out@;
    let mut k: usize = 0;
    while k < l.len()
        invariant
            k <= l@.len(),
            out@ == head + l@.take(k as int),
        decreases l@.len() - k,
    {
        push_char(&mut out, l[k]);
        proof { assert(l@.take(k + 1) =~= l@.take(k as int).push(l@[k as int])); }
        k = k + 1;
    }
    proof {
        assert(p@.take(p@.len() as int) =~= p@);
        assert(l@.take(l@.len() as int) =~= l@);
    }
    out
}

/// Adds the names of a node test; `false` when it needs every tag.
fn collect_test(axis: Axis, test: &NodeTest, acc: &mut Vec<String>) -> (ok: bool)
    requires
        distinct_names(old(acc)@),
    ensures
        distinct_names(final(acc)@),
        ok == (test_names(axis, test@) is Some),
        ok ==> name_set(final(acc)@) == name_set(old(acc)@).union(test_names(axis, test@)->Some_0),
{
    proof { assert(name_set(acc@) =~= name_set(acc@).union(Set::empty())); }
    if axis == Axis::Attribute {
        return true;
    }
    match test {
        NodeTest::Name(n) => {
            add_name(acc, n.clone());
            proof { assert(name_set(old(acc)@).insert(n@) =~= name_set(old(acc)@).union(set![n@])); }
            true
        },
        NodeTest::NamespacedName(p, l) => {
            let q = qualified(p, l);
            let ghost qv = q@;
            add_name(acc, q);
            proof { assert(name_set(old(acc)@).insert(qv) =~= name_set(old(acc)@).union(set![qv])); }
            true
        },
        NodeTest::Wildcard => false,
        NodeTest::Node => {
            axis == Axis::DescendantOrSelf || axis == Axis::SelfAxis || axis == Axis::Parent
                || axis == Axis::Ancestor || axis == Axis::AncestorOrSelf
        },
        _ => true,
    }
}

/// Adds the names of an expression; `false` when it may select tags of any
/// name.
pub(crate) fn collect_names(e: &XPathExpr, acc: &mut Vec<String>) -> (ok: bool)
    requires
        distinct_names(old(acc)@),
    ensures
        distinct_names(final(acc)@),
        ok == (expr_names(expr_model(*e)) is Some),
        ok ==> name_set(final(acc)@) == name_set(old(acc)@).union(expr_names(expr_model(*e))->Some_0),
    decreases *e, 0int,
{
    match e {
        XPathExpr::LocationPath(p) => collect_path(p, acc),
        XPathExpr::Union(es) => {
            proof { lemma_union_model(*es); }
            collect_list(es, acc)
        },
        XPathExpr::Number(_) => {
            proof { assert(name_set(acc@) =~= name_set(acc@).union(Set::empty())); }
            true
        },
        XPathExpr::Literal(_) => {
            proof { assert(name_set(acc@) =~= name_set(acc@).union(Set::empty())); }
            true
        },
        XPathExpr::FunctionCall(f, args) => {
            proof { lemma_call_model(*f, *args); }
            collect_list(args, acc)
        },
        XPathExpr::Compare(_, l, r) => {
            let ghost a0 = name_set(acc@);
            if !collect_names(l, acc) {
                return false;
            }
            let ghost a1 = name_set(acc@);
            if !collect_names(r, acc) {
                return false;
            }
            proof {
                assert(name_set(acc@) =~= a0.union(expr_names(expr_model(*e))->Some_0));
            }
            true
        },
    }
}

/// Adds the names of a list of expressions.
fn collect_list(es: &Vec<XPathExpr>, acc: &mut Vec<String>) -> (ok: bool)
    requires
        distinct_names(old(acc)@),
    ensures
        distinct_names(final(acc)@),
        ok == (list_names(expr_models(es@), es@.len() as int) is Some),
        ok ==> name_set(final(acc)@) == name_set(old(acc)@).union(list_names(expr_models(es@), es@.len() as int)->Some_0),
    decreases *es, 0int,
{
    let ghost start = name_set(acc@);
    let ghost ms = expr_models(es@);
    let mut k: usize = 0;
    proof { assert(name_set(acc@) =~= start.union(Set::empty())); }
    while k < es.len()
        invariant
            k <= es@.len(),
            ms == expr_models(es@),
            distinct_names(acc@),
            list_names(ms, k as int) is Some,
            name_set(acc@) == start.union(list_names(ms, k as int)->Some_0),
            start == name_set(old(acc)@),
        decreases es@.len() - k,
    {
        if !collect_names(&es[k], acc) {
            proof { lemma_list_none(ms, k + 1, es@.len() as int); }
            return false;
        }
        proof {
            assert(name_set(acc@) =~= start.union(list_names(ms, k + 1)->Some_0));
        }
        k = k + 1;
    }
    true
}

/// Adds the names of a location path.
fn collect_path(p: &LocationPath, acc: &mut Vec<String>) -> (ok: bool)
    requires
        distinct_names(old(acc)@),
    ensures
        distinct_names(final(acc)@),
        ok == (path_names(path_model(*p)) is Some),
        ok ==> name_set(final(acc)@) == name_set(old(acc)@).union(path_names(path_model(*p))->Some_0),
    decreases *p, 0int,
{
    proof { lemma_path_model(*p); }
    let ghost start = name_set(acc@);
    let ghost ms = step_models(p.steps@);
    let mut k: usize = 0;
    proof { assert(name_set(acc@) =~= start.union(Set::empty())); }
    while k < p.steps.len()
        invariant
            k <= p.steps@.len(),
            ms == step_models(p.steps@),
            distinct_names(acc@),
            steps_names(ms, k as int) is Some,
            name_set(acc@) == start.union(steps_names(ms, k as int)->Some_0),
            path_names(path_model(*p)) == steps_names(ms, p.steps@.len() as int),
            start == name_set(old(acc)@),
        decreases p.steps@.len() - k,
    {
        if !collect_step(&p.steps[k], acc) {
            proof { lemma_steps_none(ms, k + 1, p.steps@.len() as int); }
            return false;
        }
        proof {
            assert(name_set(acc@) =~= start.union(steps_names(ms, k + 1)->Some_0));
        }
        k = k + 1;
    }
    true
}

/// Adds the names of a step.
fn collect_step(s: &Step, acc: &mut Vec<String>) -> (ok: bool)
    requires
        distinct_names(old(acc)@),
    ensures
        distinct_names(final(acc)@),
        ok == (step_names(step_model(*s)) is Some),
        ok ==> name_set(final(acc)@) == name_set(old(acc)@).union(step_names(step_model(*s))->Some_0),
    decreases *s, 0int,
{
    proof { lemma_step_model(*s); }
    let ghost a0 = name_set(acc@);
    if !collect_test(s.axis, &s.node_test, acc) {
        return false;
    }
    if !collect_list(&s.predicates, acc) {
        return false;
    }
    proof {
        assert(name_set(acc@) =~= a0.union(step_names(step_model(*s))->Some_0));
    }
    true
}

} // verus!
