//! XPath 1.0 expression parser: a recursive-descent reading of the grammar
//! in `grammar`, over the characters of the expression.

use vstd::prelude::*;
use crate::error::SimdXmlError;
use crate::text::{is_alphanumeric, is_whitespace, push_char};
use super::ast::{Axis, NodeTest, Step, LocationPath, XPathExpr, Function, CompareOp, TestModel, ExprModel, StepModel,
    expr_model, path_model, step_model, expr_models, step_models, lemma_call_model, lemma_union_model,
    lemma_step_model, lemma_path_model};
use super::grammar::{at, rem, is_space, word_char, name_char, ws_char, digit_char, ws_len, word_len, name_len, digit_len,
    digits_value, find_char, axis_named, node_type_named, function_named, name_model, dos_step, bare_step,
    g_node_type_test, g_wildcard_test, g_name_test, g_node_test, g_axis_specifier, g_compare_op, g_predicates,
    g_tested_step, g_step, g_more_steps, g_step_list, g_location_path, g_union_rest, g_union_expr, g_operand,
    g_pexpr, g_args, lead_ws, trail_ws, trimmed, parsed};

verus! {

/// The characters of a string slice.
pub(crate) fn chars_vec(input: &str) -> (r: Vec<char>)
    ensures
        r@ == input@,
{
    let mut v: Vec<char> = Vec::new();
    for c in it: input.chars()
        invariant
            v@ == it.seq().take(it.index() as int),
            it.seq() == input@,
    {
        v.push(c);
    }
    v
}

/// `at`, computed.
fn at_char(s: &Vec<char>, p: usize, c: char) -> (r: bool)
    ensures
        r == at(s@, p as int, c),
{
    p < s.len() && s[p] == c
}

/// The number of spaces from `p` on.
fn ws_count(s: &Vec<char>, p: usize) -> (r: usize)
    requires
        p <= s@.len(),
    ensures
        r == ws_len(s@, p as int),
        p + r <= s@.len(),
{
    let mut k = p;
    while k < s.len() && (s[k] == ' ' || s[k] == '\t' || s[k] == '\r' || s[k] == '\n')
        invariant
            p <= k <= s@.len(),
            ws_len(s@, p as int) == (k - p) + ws_len(s@, k as int),
        decreases s@.len() - k,
    {
        k = k + 1;
    }
    k - p
}

/// A word character (axis, node-type and function names).
fn is_word_char(c: char) -> (r: bool)
    ensures
        r == word_char(c),
{
    is_alphanumeric(c) || c == '-'
}

/// A name-test character.
fn is_name_char(c: char) -> (r: bool)
    ensures
        r == name_char(c),
{
    is_alphanumeric(c) || c == '-' || c == '_' || c == ':'
}

/// The number of word characters from `p` on.
fn word_count(s: &Vec<char>, p: usize) -> (r: usize)
    requires
        p <= s@.len(),
    ensures
        r == word_len(s@, p as int),
        p + r <= s@.len(),
{
    let mut k = p;
    while k < s.len() && is_word_char(s[k])
        invariant
            p <= k <= s@.len(),
            word_len(s@, p as int) == (k - p) + word_len(s@, k as int),
        decreases s@.len() - k,
    {
        k = k + 1;
    }
    k - p
}

/// The number of name characters from `p` on.
fn name_count(s: &Vec<char>, p: usize) -> (r: usize)
    requires
        p <= s@.len(),
    ensures
        r == name_len(s@, p as int),
        p + r <= s@.len(),
{
    let mut k = p;
    while k < s.len() && is_name_char(s[k])
        invariant
            p <= k <= s@.len(),
            name_len(s@, p as int) == (k - p) + name_len(s@, k as int),
        decreases s@.len() - k,
    {
        k = k + 1;
    }
    k - p
}

/// The number of digits from `p` on.
fn digit_count(s: &Vec<char>, p: usize) -> (r: usize)
    requires
        p <= s@.len(),
    ensures
        r == digit_len(s@, p as int),
        p + r <= s@.len(),
{
    let mut k = p;
    while k < s.len() && ('0' <= s[k] && s[k] <= '9')
        invariant
            p <= k <= s@.len(),
            digit_len(s@, p as int) == (k - p) + digit_len(s@, k as int),
        decreases s@.len() - k,
    {
        k = k + 1;
    }
    k - p
}

/// The characters `s[p..p + n]` are those of `lit`.
fn word_is(s: &Vec<char>, p: usize, n: usize, lit: &[char]) -> (r: bool)
    requires
        p + n <= s@.len(),
    ensures
        r == (s@.subrange(p as int, p + n) == lit@),
{
    if n != lit.len() {
        return false;
    }
    let len = s.len();
    let mut k: usize = 0;
    while k < n
        invariant
            p + n <= s@.len(),
            len == s@.len(),
            n == lit@.len(),
            k <= n,
            forall|j: int| 0 <= j < k ==> s@[p + j] == lit@[j],
        decreases n - k,
    {
        if s[p + k] != lit[k] {
            proof { assert(s@.subrange(p as int, p + n)[k as int] != lit@[k as int]); }
            return false;
        }
        k = k + 1;
    }
    proof { assert(s@.subrange(p as int, p + n) =~= lit@); }
    true
}

/// The axis named by `s[p..p + n]`.
fn axis_of(s: &Vec<char>, p: usize, n: usize) -> (r: Option<Axis>)
    requires
        p + n <= s@.len(),
    ensures
        r == axis_named(s@.subrange(p as int, p + n)),
{
    let ghost w = s@.subrange(p as int, p + n);
    if word_is(s, p, n, &['c', 'h', 'i', 'l', 'd']) { return Some(Axis::Child); }
    if word_is(s, p, n, &['d', 'e', 's', 'c', 'e', 'n', 'd', 'a', 'n', 't']) { return Some(Axis::Descendant); }
    if word_is(s, p, n, &['p', 'a', 'r', 'e', 'n', 't']) { return Some(Axis::Parent); }
    if word_is(s, p, n, &['a', 'n', 'c', 'e', 's', 't', 'o', 'r']) { return Some(Axis::Ancestor); }
    if word_is(s, p, n, &['f', 'o', 'l', 'l', 'o', 'w', 'i', 'n', 'g', '-', 's', 'i', 'b', 'l', 'i', 'n', 'g']) { return Some(Axis::FollowingSibling); }
    if word_is(s, p, n, &['p', 'r', 'e', 'c', 'e', 'd', 'i', 'n', 'g', '-', 's', 'i', 'b', 'l', 'i', 'n', 'g']) { return Some(Axis::PrecedingSibling); }
    if word_is(s, p, n, &['f', 'o', 'l', 'l', 'o', 'w', 'i', 'n', 'g']) { return Some(Axis::Following); }
    if word_is(s, p, n, &['p', 'r', 'e', 'c', 'e', 'd', 'i', 'n', 'g']) { return Some(Axis::Preceding); }
    if word_is(s, p, n, &['s', 'e', 'l', 'f']) { return Some(Axis::SelfAxis); }
    if word_is(s, p, n, &['d', 'e', 's', 'c', 'e', 'n', 'd', 'a', 'n', 't', '-', 'o', 'r', '-', 's', 'e', 'l', 'f']) { return Some(Axis::DescendantOrSelf); }
    if word_is(s, p, n, &['a', 'n', 'c', 'e', 's', 't', 'o', 'r', '-', 'o', 'r', '-', 's', 'e', 'l', 'f']) { return Some(Axis::AncestorOrSelf); }
    if word_is(s, p, n, &['a', 't', 't', 'r', 'i', 'b', 'u', 't', 'e']) { return Some(Axis::Attribute); }
    if word_is(s, p, n, &['n', 'a', 'm', 'e', 's', 'p', 'a', 'c', 'e']) { return Some(Axis::Namespace); }
    None
}

/// The node type named by `s[p..p + n]`.
fn node_type_of(s: &Vec<char>, p: usize, n: usize) -> (r: Option<NodeTest>)
    requires
        p + n <= s@.len(),
    ensures
        match r {
            Some(t) => node_type_named(s@.subrange(p as int, p + n)) == Some(t@),
            None => node_type_named(s@.subrange(p as int, p + n)) is None,
        },
{
    if word_is(s, p, n, &['t', 'e', 'x', 't']) { return Some(NodeTest::Text); }
    if word_is(s, p, n, &['n', 'o', 'd', 'e']) { return Some(NodeTest::Node); }
    if word_is(s, p, n, &['c', 'o', 'm', 'm', 'e', 'n', 't']) { return Some(NodeTest::Comment); }
    if word_is(s, p, n, &['p', 'r', 'o', 'c', 'e', 's', 's', 'i', 'n', 'g', '-', 'i', 'n', 's', 't', 'r', 'u', 'c', 't', 'i', 'o', 'n']) { return Some(NodeTest::PI); }
    None
}

/// The function named by `s[p..p + n]`.
fn function_of(s: &Vec<char>, p: usize, n: usize) -> (r: Option<Function>)
    requires
        p + n <= s@.len(),
    ensures
        r == function_named(s@.subrange(p as int, p + n)),
{
    if word_is(s, p, n, &['l', 'a', 's', 't']) { return Some(Function::Last); }
    if word_is(s, p, n, &['p', 'o', 's', 'i', 't', 'i', 'o', 'n']) { return Some(Function::Position); }
    if word_is(s, p, n, &['c', 'o', 'u', 'n', 't']) { return Some(Function::Count); }
    if word_is(s, p, n, &['n', 'o', 't']) { return Some(Function::Not); }
    if word_is(s, p, n, &['t', 'r', 'u', 'e']) { return Some(Function::True); }
    if word_is(s, p, n, &['f', 'a', 'l', 's', 'e']) { return Some(Function::False); }
    None
}

/// The string of the characters `s[a..b]`.
fn string_of(s: &Vec<char>, a: usize, b: usize) -> (r: String)
    requires
        a <= b <= s@.len(),
    ensures
        r@ == s@.subrange(a as int, b as int),
{
    let mut out = String::new();
    let mut k = a;
    while k < b
        invariant
            a <= k <= b <= s@.len(),
            out@ == s@.subrange(a as int, k as int),
        decreases b - k,
    {
        push_char(&mut out, s[k]);
        proof { assert(s@.subrange(a as int, k + 1) =~= s@.subrange(a as int, k as int).push(s@[k as int])); }
        k = k + 1;
    }
    out
}

/// First position at or after `p` holding `c`.
fn find_char_exec(s: &Vec<char>, c: char, p: usize) -> (r: Option<usize>)
    requires
        p <= s@.len(),
    ensures
        match r {
            Some(i) => find_char(s@, c, p as int) == Some(i as int) && p <= i < s@.len(),
            None => find_char(s@, c, p as int) is None,
        },
{
    let mut k = p;
    while k < s.len()
        invariant
            p <= k <= s@.len(),
            find_char(s@, c, p as int) == find_char(s@, c, k as int),
        decreases s@.len() - k,
    {
        if s[k] == c {
            return Some(k);
        }
        k = k + 1;
    }
    None
}

/// `type()`: a node-type test.
fn node_type_test(s: &Vec<char>, p: usize) -> (r: Option<(NodeTest, usize)>)
    requires
        p <= s@.len(),
        s@.len() < usize::MAX - 2,
    ensures
        match r {
            Some((t, n)) => g_node_type_test(s@, p as int) == Some((t@, n as nat)) && p + n <= s@.len(),
            None => g_node_type_test(s@, p as int) is None,
        },
{
    proof { reveal(g_node_type_test); }
    let n = word_count(s, p);
    if n > 0 && at_char(s, p + n, '(') && at_char(s, p + n + 1, ')') {
        match node_type_of(s, p, n) {
            Some(t) => Some((t, n + 2)),
            None => None,
        }
    } else {
        None
    }
}

/// `*`
fn wildcard_test(s: &Vec<char>, p: usize) -> (r: Option<(NodeTest, usize)>)
    requires
        p <= s@.len(),
    ensures
        match r {
            Some((t, n)) => g_wildcard_test(s@, p as int) == Some((t@, n as nat)) && p + n <= s@.len(),
            None => g_wildcard_test(s@, p as int) is None,
        },
{
    proof { reveal(g_wildcard_test); }
    if at_char(s, p, '*') { Some((NodeTest::Wildcard, 1)) } else { None }
}

/// A name test; a name with a colon is `prefix:local`.
fn name_test(s: &Vec<char>, p: usize) -> (r: Option<(NodeTest, usize)>)
    requires
        p <= s@.len(),
    ensures
        match r {
            Some((t, n)) => g_name_test(s@, p as int) == Some((t@, n as nat)) && p + n <= s@.len(),
            None => g_name_test(s@, p as int) is None,
        },
{
    proof { reveal(g_name_test); }
    let n = name_count(s, p);
    if n == 0 {
        return None;
    }
    let ghost w = s@.subrange(p as int, p + n);
    let name: Vec<char> = {
        let mut v: Vec<char> = Vec::new();
        let len = s.len();
        let mut k: usize = 0;
        while k < n
            invariant
                p + n <= s@.len(),
                len == s@.len(),
                k <= n,
                v@ == s@.subrange(p as int, p + k),
            decreases n - k,
        {
            v.push(s[p + k]);
            proof { assert(s@.subrange(p as int, p + k + 1) =~= s@.subrange(p as int, p + k).push(s@[p + k])); }
            k = k + 1;
        }
        v
    };
    assert(name@ == w);
    match find_char_exec(&name, ':', 0) {
        Some(colon_pos) => {
            let prefix = string_of(&name, 0, colon_pos);
            let local = string_of(&name, colon_pos + 1, name.len());
            Some((NodeTest::NamespacedName(prefix, local), n))
        },
        None => {
            proof { assert(name@.subrange(0, n as int) =~= name@); }
            Some((NodeTest::Name(string_of(&name, 0, n)), n))
        },
    }
}

/// A node test: a node type, `*`, or a name.
fn node_test(s: &Vec<char>, p: usize) -> (r: Option<(NodeTest, usize)>)
    requires
        p <= s@.len(),
        s@.len() < usize::MAX - 2,
    ensures
        match r {
            Some((t, n)) => g_node_test(s@, p as int) == Some((t@, n as nat)) && p + n <= s@.len(),
            None => g_node_test(s@, p as int) is None,
        },
{
    proof { reveal(g_node_test); }
    match node_type_test(s, p) {
        Some(r) => Some(r),
        None => match wildcard_test(s, p) {
            Some(r) => Some(r),
            None => name_test(s, p),
        },
    }
}

/// `axis::`
fn axis_specifier(s: &Vec<char>, p: usize) -> (r: Option<(Axis, usize)>)
    requires
        p <= s@.len(),
        s@.len() < usize::MAX - 2,
    ensures
        match r {
            Some((a, n)) => g_axis_specifier(s@, p as int) == Some((a, n as nat)) && p + n <= s@.len(),
            None => g_axis_specifier(s@, p as int) is None,
        },
{
    proof { reveal(g_axis_specifier); }
    let n = word_count(s, p);
    if n > 0 && at_char(s, p + n, ':') && at_char(s, p + n + 1, ':') {
        match axis_of(s, p, n) {
            Some(a) => Some((a, n + 2)),
            None => None,
        }
    } else {
        None
    }
}

/// A comparison operator.
fn compare_op(s: &Vec<char>, p: usize) -> (r: Option<(CompareOp, usize)>)
    requires
        p <= s@.len(),
        s@.len() < usize::MAX - 2,
    ensures
        match r {
            Some((op, n)) => g_compare_op(s@, p as int) == Some((op, n as nat)) && p + n <= s@.len(),
            None => g_compare_op(s@, p as int) is None,
        },
{
    proof { reveal(g_compare_op); }
    if at_char(s, p, '!') && at_char(s, p + 1, '=') { Some((CompareOp::Ne, 2)) }
    else if at_char(s, p, '<') && at_char(s, p + 1, '=') { Some((CompareOp::Le, 2)) }
    else if at_char(s, p, '>') && at_char(s, p + 1, '=') { Some((CompareOp::Ge, 2)) }
    else if at_char(s, p, '=') { Some((CompareOp::Eq, 1)) }
    else if at_char(s, p, '<') { Some((CompareOp::Lt, 1)) }
    else if at_char(s, p, '>') { Some((CompareOp::Gt, 1)) }
    else { None }
}

/// `e` followed by `more`, as models.
proof fn lemma_models_cons(e: XPathExpr, more: Seq<XPathExpr>)
    ensures
        expr_models(seq![e] + more) == seq![expr_model(e)] + expr_models(more),
{
    assert(expr_models(seq![e] + more) =~= seq![expr_model(e)] + expr_models(more));
}

/// `st` followed by `more`, as models.
proof fn lemma_steps_cons(st: Step, more: Seq<Step>)
    ensures
        step_models(seq![st] + more) == seq![step_model(st)] + step_models(more),
{
    assert(step_models(seq![st] + more) =~= seq![step_model(st)] + step_models(more));
}

/// Predicates: `[expr]`, any number of them.
#[verifier::spinoff_prover]
fn predicates(s: &Vec<char>, p: usize) -> (r: Option<(Vec<XPathExpr>, usize)>)
    requires
        p <= s@.len(),
        s@.len() < usize::MAX - 2,
    ensures
        match r {
            Some((ps, n)) => g_predicates(s@, p as int) == Some((expr_models(ps@), n as nat)) && p + n <= s@.len(),
            None => g_predicates(s@, p as int) is None,
        },
    decreases rem(s@, p as int), 0int,
{
    if at_char(s, p, '[') {
        let q = p + 1 + ws_count(s, p + 1);
        match pexpr(s, q) {
            Some((e, n)) => {
                let r = q + n + ws_count(s, q + n);
                if at_char(s, r, ']') {
                    match predicates(s, r + 1) {
                        Some((more, m)) => {
                            let mut v: Vec<XPathExpr> = Vec::new();
                            v.push(e);
                            let mut more = more;
                            let ghost more_seq = more@;
                            v.append(&mut more);
                            proof {
                                assert(v@ =~= seq![e] + more_seq);
                                lemma_models_cons(e, more_seq);
                            }
                            Some((v, r + 1 + m - p))
                        },
                        None => None,
                    }
                } else {
                    None
                }
            },
            None => None,
        }
    } else {
        proof { assert(expr_models(Seq::<XPathExpr>::empty()) =~= seq![]); }
        Some((Vec::new(), 0))
    }
}

/// A node test and its predicates, on the given axis.
#[verifier::spinoff_prover]
fn tested_step(s: &Vec<char>, p: usize, axis: Axis) -> (r: Option<(Step, usize)>)
    requires
        p <= s@.len(),
        s@.len() < usize::MAX - 2,
    ensures
        match r {
            Some((st, n)) => g_tested_step(s@, p as int, axis) == Some((step_model(st), n as nat)) && p + n <= s@.len(),
            None => g_tested_step(s@, p as int, axis) is None,
        },
    decreases rem(s@, p as int), 10int,
{
    match node_test(s, p) {
        Some((t, n)) => match predicates(s, p + n) {
            Some((ps, m)) => {
                let st = Step { axis, node_test: t, predicates: ps };
                proof { assert(step_model(st).predicates =~= expr_models(ps@)); }
                Some((st, n + m))
            },
            None => None,
        },
        None => None,
    }
}

/// A single step: `axis::nodetest[predicate]`, or an abbreviation.
#[verifier::spinoff_prover]
#[verifier::rlimit(30)]
fn step(s: &Vec<char>, p: usize) -> (r: Option<(Step, usize)>)
    requires
        p <= s@.len(),
        s@.len() < usize::MAX - 2,
    ensures
        match r {
            Some((st, n)) => g_step(s@, p as int) == Some((step_model(st), n as nat)) && p + n <= s@.len(),
            None => g_step(s@, p as int) is None,
        },
    decreases rem(s@, p as int), 20int,
{
    let q = p + ws_count(s, p);
    // Abbreviated axes
    if at_char(s, q, '.') && at_char(s, q + 1, '.') {
        let st = Step { axis: Axis::Parent, node_test: NodeTest::Node, predicates: Vec::new() };
        proof { assert(step_model(st).predicates =~= seq![]); assert(step_model(st) == bare_step(Axis::Parent, TestModel::Node)); }
        return Some((st, q + 2 - p));
    }
    if at_char(s, q, '.') {
        let st = Step { axis: Axis::SelfAxis, node_test: NodeTest::Node, predicates: Vec::new() };
        proof { assert(step_model(st).predicates =~= seq![]); assert(step_model(st) == bare_step(Axis::SelfAxis, TestModel::Node)); }
        return Some((st, q + 1 - p));
    }
    // @attr (abbreviated attribute axis)
    if at_char(s, q, '@') {
        return match tested_step(s, q + 1, Axis::Attribute) {
            Some((st, n)) => Some((st, q + 1 + n - p)),
            None => None,
        };
    }
    // Explicit axis:: syntax, else the child axis
    match axis_specifier(s, q) {
        Some((axis, a)) => match tested_step(s, q + a, axis) {
            Some((st, n)) => Some((st, q + a + n - p)),
            None => None,
        },
        None => match tested_step(s, q, Axis::Child) {
            Some((st, n)) => Some((st, q + n - p)),
            None => None,
        },
    }
}

/// `descendant-or-self::node()`
fn descendant_or_self_step() -> (r: Step)
    ensures
        step_model(r) == dos_step(),
{
    let st = Step { axis: Axis::DescendantOrSelf, node_test: NodeTest::Node, predicates: Vec::new() };
    proof { assert(step_model(st).predicates =~= seq![]); assert(step_model(st) == dos_step()); }
    st
}

/// `a` and `b` followed by `more`.
fn cons2_steps(a: Step, b: Step, more: Vec<Step>) -> (r: Vec<Step>)
    ensures
        r@ == seq![a, b] + more@,
{
    let ghost tail = more@;
    let mut v: Vec<Step> = Vec::new();
    v.push(a);
    v.push(b);
    let mut more = more;
    v.append(&mut more);
    proof { assert(v@ =~= seq![a, b] + tail); }
    v
}

/// Two steps followed by more, as models.
proof fn lemma_two_models(a: Step, b: Step, more: Seq<Step>)
    requires
        step_model(a) == dos_step(),
    ensures
        step_models(seq![a, b] + more) == seq![dos_step(), step_model(b)] + step_models(more),
{
    assert(step_models(seq![a, b] + more) =~= seq![dos_step(), step_model(b)] + step_models(more));
}

/// How the steps after `//` are made up.
proof fn lemma_more_double(s: Seq<char>, p: int, st: StepModel, n: nat, more: Seq<StepModel>, m: nat)
    requires
        at(s, p, '/'),
        at(s, p + 1, '/'),
        g_step(s, p + 2) == Some((st, n)),
        g_more_steps(s, p + 2 + n) == (more, m),
    ensures
        g_more_steps(s, p) == (seq![dos_step(), st] + more, 2 + n + m),
{
}

/// Further steps after `//`: `descendant-or-self::node()`, the step, and
/// what follows.
#[verifier::spinoff_prover]
fn steps_after_double(s: &Vec<char>, p: usize) -> (r: (Vec<Step>, usize))
    requires
        p <= s@.len(),
        s@.len() < usize::MAX - 2,
        at(s@, p as int, '/'),
        at(s@, p + 1, '/'),
    ensures
        g_more_steps(s@, p as int) == (step_models(r.0@), r.1 as nat),
        p + r.1 <= s@.len(),
    decreases rem(s@, p as int), 25int,
{
    match step(s, p + 2) {
        Some((st, n)) => {
            let (more, m) = more_steps(s, p + 2 + n);
            let ghost more_seq = more@;
            let dos = descendant_or_self_step();
            proof {
                lemma_more_double(s@, p as int, step_model(st), n as nat, step_models(more_seq), m as nat);
                lemma_two_models(dos, st, more_seq);
            }
            let v = cons2_steps(dos, st, more);
            (v, 2 + n + m)
        },
        None => {
            let v: Vec<Step> = Vec::new();
            proof { assert(step_models(v@) =~= seq![]); }
            (v, 0)
        },
    }
}

/// Further steps after `/`: the step and what follows.
#[verifier::spinoff_prover]
fn steps_after_single(s: &Vec<char>, p: usize) -> (r: (Vec<Step>, usize))
    requires
        p <= s@.len(),
        s@.len() < usize::MAX - 2,
        at(s@, p as int, '/'),
        !at(s@, p + 1, '/'),
    ensures
        g_more_steps(s@, p as int) == (step_models(r.0@), r.1 as nat),
        p + r.1 <= s@.len(),
    decreases rem(s@, p as int), 26int,
{
    let mut v: Vec<Step> = Vec::new();
    match step(s, p + 1) {
        Some((st, n)) => {
            let (more, m) = more_steps(s, p + 1 + n);
            let ghost more_seq = more@;
            v.push(st);
            let mut more = more;
            v.append(&mut more);
            proof {
                assert(v@ =~= seq![st] + more_seq);
                lemma_steps_cons(st, more_seq);
            }
            (v, 1 + n + m)
        },
        None => {
            proof { assert(step_models(v@) =~= seq![]); }
            (v, 0)
        },
    }
}

/// Further steps after `/` or `//`, as many as parse; a separator whose
/// step does not parse is left unread.
#[verifier::spinoff_prover]
fn more_steps(s: &Vec<char>, p: usize) -> (r: (Vec<Step>, usize))
    requires
        p <= s@.len(),
        s@.len() < usize::MAX - 2,
    ensures
        g_more_steps(s@, p as int) == (step_models(r.0@), r.1 as nat),
        p + r.1 <= s@.len(),
    decreases rem(s@, p as int), 30int,
{
    if at_char(s, p, '/') && at_char(s, p + 1, '/') {
        steps_after_double(s, p)
    } else if at_char(s, p, '/') {
        steps_after_single(s, p)
    } else {
        let v: Vec<Step> = Vec::new();
        proof { assert(step_models(v@) =~= seq![]); }
        (v, 0)
    }
}

/// One step or more, separated by `/` or `//`.
#[verifier::spinoff_prover]
fn step_list(s: &Vec<char>, p: usize) -> (r: Option<(Vec<Step>, usize)>)
    requires
        p <= s@.len(),
        s@.len() < usize::MAX - 2,
    ensures
        match r {
            Some((st, n)) => g_step_list(s@, p as int) == Some((step_models(st@), n as nat)) && p + n <= s@.len(),
            None => g_step_list(s@, p as int) is None,
        },
    decreases rem(s@, p as int), 40int,
{
    match step(s, p) {
        Some((st, n)) => {
            let (more, m) = more_steps(s, p + n);
            let ghost more_seq = more@;
            let mut v: Vec<Step> = Vec::new();
            v.push(st);
            let mut more = more;
            v.append(&mut more);
            proof {
                assert(v@ =~= seq![st] + more_seq);
                lemma_steps_cons(st, more_seq);
            }
            Some((v, n + m))
        },
        None => None,
    }
}

/// Relative path: `step/step/...`
#[verifier::spinoff_prover]
fn relative_path(s: &Vec<char>, p: usize) -> (r: Option<(LocationPath, usize)>)
    requires
        p <= s@.len(),
        s@.len() < usize::MAX - 2,
        !at(s@, p as int, '/'),
    ensures
        match r {
            Some((lp, n)) => g_location_path(s@, p as int) == Some((path_model(lp), n as nat)) && p + n <= s@.len(),
            None => g_location_path(s@, p as int) is None,
        },
    decreases rem(s@, p as int), 43int,
{
    match step_list(s, p) {
        Some((steps, n)) => {
            let lp = LocationPath { absolute: false, steps };
            proof { assert(path_model(lp).steps =~= step_models(lp.steps@)); }
            Some((lp, n))
        },
        None => None,
    }
}

/// Abbreviated descendant: `//step/step/...`
#[verifier::spinoff_prover]
fn abbreviated_descendant_path(s: &Vec<char>, p: usize) -> (r: Option<(LocationPath, usize)>)
    requires
        p <= s@.len(),
        s@.len() < usize::MAX - 2,
        at(s@, p as int, '/'),
        at(s@, p + 1, '/'),
    ensures
        match r {
            Some((lp, n)) => g_location_path(s@, p as int) == Some((path_model(lp), n as nat)) && p + n <= s@.len(),
            None => g_location_path(s@, p as int) is None,
        },
    decreases rem(s@, p as int), 44int,
{
    match step_list(s, p + 2) {
        Some((steps, n)) => {
            let ghost steps_seq = steps@;
            let mut all_steps: Vec<Step> = Vec::new();
            all_steps.push(descendant_or_self_step());
            let mut steps = steps;
            all_steps.append(&mut steps);
            let lp = LocationPath { absolute: true, steps: all_steps };
            proof {
                assert(all_steps@ =~= seq![all_steps@[0]] + steps_seq);
                lemma_steps_cons(all_steps@[0], steps_seq);
                lemma_path_model(lp);
            }
            Some((lp, 2 + n))
        },
        None => None,
    }
}

/// Absolute path: `/step/step/...`, `//step/...`, or `/` alone.
#[verifier::spinoff_prover]
fn absolute_path(s: &Vec<char>, p: usize) -> (r: Option<(LocationPath, usize)>)
    requires
        p <= s@.len(),
        s@.len() < usize::MAX - 2,
        at(s@, p as int, '/'),
    ensures
        match r {
            Some((lp, n)) => g_location_path(s@, p as int) == Some((path_model(lp), n as nat)) && p + n <= s@.len(),
            None => g_location_path(s@, p as int) is None,
        },
    decreases rem(s@, p as int), 46int,
{
    if at_char(s, p + 1, '/') {
        return abbreviated_descendant_path(s, p);
    }
    if p + 1 == s.len() || at_char(s, p + 1, '|') || at_char(s, p + 1, ')') {
        // Bare / — select root
        let lp = LocationPath { absolute: true, steps: Vec::new() };
        proof { assert(path_model(lp).steps =~= seq![]); }
        return Some((lp, 1));
    }
    match step_list(s, p + 1) {
        Some((steps, n)) => {
            let lp = LocationPath { absolute: true, steps };
            proof { assert(path_model(lp).steps =~= step_models(lp.steps@)); }
            Some((lp, 1 + n))
        },
        None => None,
    }
}

/// A location path: absolute or relative.
#[verifier::spinoff_prover]
fn location_path(s: &Vec<char>, p: usize) -> (r: Option<(LocationPath, usize)>)
    requires
        p <= s@.len(),
        s@.len() < usize::MAX - 2,
    ensures
        match r {
            Some((lp, n)) => g_location_path(s@, p as int) == Some((path_model(lp), n as nat)) && p + n <= s@.len(),
            None => g_location_path(s@, p as int) is None,
        },
    decreases rem(s@, p as int), 50int,
{
    if at_char(s, p, '/') {
        absolute_path(s, p)
    } else {
        relative_path(s, p)
    }
}

/// Further members of a union, as many as parse.
#[verifier::spinoff_prover]
fn union_rest(s: &Vec<char>, p: usize) -> (r: (Vec<XPathExpr>, usize))
    requires
        p <= s@.len(),
        s@.len() < usize::MAX - 2,
    ensures
        g_union_rest(s@, p as int) == (expr_models(r.0@), r.1 as nat),
        p + r.1 <= s@.len(),
    decreases rem(s@, p as int), 60int,
{
    let q = p + ws_count(s, p);
    if at_char(s, q, '|') {
        let r = q + 1 + ws_count(s, q + 1);
        match location_path(s, r) {
            Some((lp, n)) => {
                let (more, m) = union_rest(s, r + n);
                let ghost more_seq = more@;
                let e = XPathExpr::LocationPath(lp);
                let mut v: Vec<XPathExpr> = Vec::new();
                v.push(e);
                let mut more = more;
                v.append(&mut more);
                proof {
                    assert(v@ =~= seq![e] + more_seq);
                    lemma_models_cons(e, more_seq);
                }
                (v, r + n + m - p)
            },
            None => {
                proof { assert(expr_models(Seq::<XPathExpr>::empty()) =~= seq![]); }
                (Vec::new(), 0)
            },
        }
    } else {
        proof { assert(expr_models(Seq::<XPathExpr>::empty()) =~= seq![]); }
        (Vec::new(), 0)
    }
}

/// A location path, or a union of them: `path | path | ...`.
#[verifier::spinoff_prover]
fn union_expr(s: &Vec<char>, p: usize) -> (r: Option<(XPathExpr, usize)>)
    requires
        p <= s@.len(),
        s@.len() < usize::MAX - 2,
    ensures
        match r {
            Some((e, n)) => g_union_expr(s@, p as int) == Some((expr_model(e), n as nat)) && p + n <= s@.len(),
            None => g_union_expr(s@, p as int) is None,
        },
    decreases rem(s@, p as int), 70int,
{
    match location_path(s, p) {
        Some((lp, n)) => {
            let (rest, m) = union_rest(s, p + n);
            if rest.len() == 0 {
                Some((XPathExpr::LocationPath(lp), n))
            } else {
                let ghost rest_seq = rest@;
                let first = XPathExpr::LocationPath(lp);
                let mut all: Vec<XPathExpr> = Vec::new();
                all.push(first);
                let mut rest = rest;
                all.append(&mut rest);
                proof {
                    assert(all@ =~= seq![first] + rest_seq);
                    lemma_models_cons(first, rest_seq);
                    lemma_union_model(all);
                }
                Some((XPathExpr::Union(all), n + m))
            }
        },
        None => None,
    }
}

/// The value of the decimal digits `s[p..p + d]`, when it fits in a `u64`.
fn digits_u64(s: &Vec<char>, p: usize, d: usize) -> (r: Option<u64>)
    requires
        p + d <= s@.len(),
        forall|j: int| p <= j < p + d ==> digit_char(#[trigger] s@[j]),
    ensures
        match r {
            Some(v) => v as nat == digits_value(s@, p as int, d as int),
            None => digits_value(s@, p as int, d as int) > u64::MAX,
        },
{
    let len = s.len();
    let mut val: u64 = 0;
    let mut k: usize = 0;
    while k < d
        invariant
            p + d <= s@.len(),
            len == s@.len(),
            k <= d,
            forall|j: int| p <= j < p + d ==> digit_char(#[trigger] s@[j]),
            val as nat == digits_value(s@, p as int, k as int),
        decreases d - k,
    {
        let c = s[p + k];
        assert(digit_char(s@[p + k]));
        let digit: u64 = (c as u32 - '0' as u32) as u64;
        match val.checked_mul(10) {
            Some(x) => match x.checked_add(digit) {
                Some(y) => { val = y; },
                None => {
                    proof { lemma_digits_grow(s@, p as int, k + 1, d as int); }
                    return None;
                },
            },
            None => {
                proof { lemma_digits_grow(s@, p as int, k + 1, d as int); }
                return None;
            },
        }
        k = k + 1;
    }
    Some(val)
}

/// More digits never make a smaller value.
proof fn lemma_digits_grow(s: Seq<char>, p: int, k: int, d: int)
    requires
        0 <= k <= d,
        forall|j: int| p <= j < p + d ==> digit_char(#[trigger] s[j]),
    ensures
        digits_value(s, p, k) <= digits_value(s, p, d),
    decreases d - k,
{
    if k < d {
        lemma_digits_grow(s, p, k + 1, d);
        assert(digit_char(s[p + k]));
    }
}

/// All characters of a digit run are digits.
proof fn lemma_digit_run(s: Seq<char>, p: int)
    requires
        0 <= p,
    ensures
        forall|j: int| p <= j < p + digit_len(s, p) ==> digit_char(#[trigger] s[j]),
    decreases s.len() - p,
{
    if 0 <= p < s.len() && digit_char(s[p]) {
        lemma_digit_run(s, p + 1);
    }
}

/// An operand in a predicate: a number, a quoted literal, a function call,
/// or a location path (or union).
#[verifier::spinoff_prover]
fn operand(s: &Vec<char>, p: usize) -> (r: Option<(XPathExpr, usize)>)
    requires
        p <= s@.len(),
        s@.len() < usize::MAX - 2,
    ensures
        match r {
            Some((e, n)) => g_operand(s@, p as int) == Some((expr_model(e), n as nat)) && p + n <= s@.len(),
            None => g_operand(s@, p as int) is None,
        },
    decreases rem(s@, p as int), 80int,
{
    let d = digit_count(s, p);
    if d > 0 {
        proof { lemma_digit_run(s@, p as int); }
        return match digits_u64(s, p, d) {
            Some(v) => Some((XPathExpr::Number(v), d)),
            None => None,
        };
    }
    if at_char(s, p, '"') || at_char(s, p, '\'') {
        return match find_char_exec(s, s[p], p + 1) {
            Some(c) => Some((XPathExpr::Literal(string_of(s, p + 1, c)), c + 1 - p)),
            None => None,
        };
    }
    let w = word_count(s, p);
    if w > 0 && at_char(s, p + w, '(') {
        if let Some(f) = function_of(s, p, w) {
            let q = p + w + 1 + ws_count(s, p + w + 1);
            if at_char(s, q, ')') {
                let no_args: Vec<XPathExpr> = Vec::new();
                proof { lemma_call_model(f, no_args); assert(expr_models(no_args@) =~= seq![]); }
                let e = XPathExpr::FunctionCall(f, no_args);
                return Some((e, q + 1 - p));
            }
            return match args(s, q) {
                Some((a, n)) => {
                    let e = XPathExpr::FunctionCall(f, a);
                    proof { lemma_call_model(f, a); }
                    Some((e, q + n - p))
                },
                None => None,
            };
        }
    }
    union_expr(s, p)
}

/// A predicate expression: an operand, or two compared.
#[verifier::spinoff_prover]
fn pexpr(s: &Vec<char>, p: usize) -> (r: Option<(XPathExpr, usize)>)
    requires
        p <= s@.len(),
        s@.len() < usize::MAX - 2,
    ensures
        match r {
            Some((e, n)) => g_pexpr(s@, p as int) == Some((expr_model(e), n as nat)) && p + n <= s@.len(),
            None => g_pexpr(s@, p as int) is None,
        },
    decreases rem(s@, p as int), 90int,
{
    match operand(s, p) {
        Some((a, n)) => {
            let q = p + n + ws_count(s, p + n);
            match compare_op(s, q) {
                Some((op, k)) => {
                    let r = q + k + ws_count(s, q + k);
                    match operand(s, r) {
                        Some((b, m)) => Some((XPathExpr::Compare(op, Box::new(a), Box::new(b)), r + m - p)),
                        None => None,
                    }
                },
                None => Some((a, n)),
            }
        },
        None => None,
    }
}

/// Function arguments after `(`: expressions separated by `,`, up to `)`.
#[verifier::spinoff_prover]
fn args(s: &Vec<char>, p: usize) -> (r: Option<(Vec<XPathExpr>, usize)>)
    requires
        p <= s@.len(),
        s@.len() < usize::MAX - 2,
    ensures
        match r {
            Some((a, n)) => g_args(s@, p as int) == Some((expr_models(a@), n as nat)) && p + n <= s@.len(),
            None => g_args(s@, p as int) is None,
        },
    decreases rem(s@, p as int), 100int,
{
    match pexpr(s, p) {
        Some((e, n)) => {
            let q = p + n + ws_count(s, p + n);
            if at_char(s, q, ')') {
                let mut v: Vec<XPathExpr> = Vec::new();
                v.push(e);
                proof { lemma_models_cons(e, seq![]); assert(v@ =~= seq![e] + Seq::<XPathExpr>::empty()); assert(expr_models(Seq::<XPathExpr>::empty()) =~= seq![]); }
                Some((v, q + 1 - p))
            } else if at_char(s, q, ',') {
                let r = q + 1 + ws_count(s, q + 1);
                match args(s, r) {
                    Some((more, m)) => {
                        let ghost more_seq = more@;
                        let mut v: Vec<XPathExpr> = Vec::new();
                        v.push(e);
                        let mut more = more;
                        v.append(&mut more);
                        proof {
                            assert(v@ =~= seq![e] + more_seq);
                            lemma_models_cons(e, more_seq);
                        }
                        Some((v, r + m - p))
                    },
                    None => None,
                }
            } else {
                None
            }
        },
        None => None,
    }
}

/// The characters without leading and trailing white space (`str::trim`).
fn trim_chars(cs: &Vec<char>) -> (r: Vec<char>)
    ensures
        r@ == trimmed(cs@),
        r@.len() <= cs@.len(),
{
    let n = cs.len();
    let mut a: usize = 0;
    while a < n && is_whitespace(cs[a])
        invariant
            a <= n == cs@.len(),
            lead_ws(cs@, 0) == a + lead_ws(cs@, a as int),
        decreases n - a,
    {
        a = a + 1;
    }
    if a >= n {
        return Vec::new();
    }
    let mut b: usize = n;
    while b > 0 && is_whitespace(cs[b - 1])
        invariant
            b <= n == cs@.len(),
            trail_ws(cs@, n as int) == (n - b) + trail_ws(cs@, b as int),
        decreases b,
    {
        b = b - 1;
    }
    proof { lemma_trim_bounds(cs@, a as int, b as int); }
    let mut r: Vec<char> = Vec::new();
    let mut k = a;
    while k < b
        invariant
            a <= k <= b <= n == cs@.len(),
            r@ == cs@.subrange(a as int, k as int),
        decreases b - k,
    {
        r.push(cs[k]);
        proof { assert(cs@.subrange(a as int, k + 1) =~= cs@.subrange(a as int, k as int).push(cs@[k as int])); }
        k = k + 1;
    }
    r
}

/// The trailing white space stops at the first character that is not
/// white space, which lies after the leading white space.
proof fn lemma_trim_bounds(s: Seq<char>, a: int, b: int)
    requires
        0 <= a < s.len(),
        !ws_char(s[a]),
        0 <= b <= s.len(),
        !(b > 0 && ws_char(s[b - 1])),
        trail_ws(s, s.len() as int) == s.len() - b + trail_ws(s, b),
    ensures
        a < b,
        b == s.len() - trail_ws(s, s.len() as int),
{
    if b <= a {
        lemma_trail_stops(s, s.len() as int, a);
    }
}

/// Trailing white space from `e` does not pass a character that is not
/// white space at `a`.
proof fn lemma_trail_stops(s: Seq<char>, e: int, a: int)
    requires
        0 <= a < e <= s.len(),
        !ws_char(s[a]),
    ensures
        e - trail_ws(s, e) > a,
    decreases e,
{
    if ws_char(s[e - 1]) {
        lemma_trail_stops(s, e - 1, a);
    }
}

/// Leading white space ends at a character that is not white space.
proof fn lemma_lead_stops(s: Seq<char>, p: int)
    requires
        0 <= p <= s.len(),
    ensures
        p + lead_ws(s, p) <= s.len(),
        p + lead_ws(s, p) < s.len() ==> !ws_char(s[p + lead_ws(s, p)]),
    decreases s.len() - p,
{
    if p < s.len() && ws_char(s[p]) {
        lemma_lead_stops(s, p + 1);
    }
}

/// Trailing white space ends after a character that is not white space.
proof fn lemma_trail_end(s: Seq<char>, e: int)
    requires
        0 <= e <= s.len(),
    ensures
        trail_ws(s, e) <= e,
        e - trail_ws(s, e) > 0 ==> !ws_char(s[e - trail_ws(s, e) - 1]),
    decreases e,
{
    if e > 0 && ws_char(s[e - 1]) {
        lemma_trail_end(s, e - 1);
    }
}

/// Trimming twice trims as much as trimming once.
pub proof fn lemma_trim_idempotent(x: Seq<char>)
    ensures
        trimmed(trimmed(x)) == trimmed(x),
{
    let s = trimmed(x);
    let a = lead_ws(x, 0);
    if a >= x.len() {
        assert(s =~= Seq::<char>::empty());
        assert(trimmed(s) =~= Seq::<char>::empty());
    } else {
        lemma_lead_stops(x, 0);
        lemma_trail_end(x, x.len() as int);
        lemma_trail_stops(x, x.len() as int, a as int);
        let b = x.len() - trail_ws(x, x.len() as int);
        assert(s =~= x.subrange(a as int, b));
        assert(s[0] == x[a as int]);
        assert(lead_ws(s, 0) == 0);
        assert(s[s.len() - 1] == x[b - 1]);
        assert(trail_ws(s, s.len() as int) == 0);
        assert(trimmed(s) =~= s);
    }
}

/// White space around an expression does not change what it parses to.
pub proof fn law_parse_ignores_surrounding_space(x: Seq<char>)
    ensures
        parsed(x) == parsed(trimmed(x)),
{
    lemma_trim_idempotent(x);
}

/// The message of the error for an expression that does not parse: too
/// long to read, a well-formed beginning followed by more, or no
/// well-formed beginning at all.
pub open spec fn xpath_error_message(input: Seq<char>) -> Seq<char> {
    if input.len() >= usize::MAX - 2 {
        "Expression too long"@
    } else {
        match g_union_expr(trimmed(input), 0) {
            Some(_) => "Unexpected trailing input"@,
            None => "Invalid XPath expression"@,
        }
    }
}

/// Parse an XPath 1.0 expression string.
#[verifier::spinoff_prover]
pub fn parse_xpath(input: &str) -> (r: Result<XPathExpr, SimdXmlError>)
    ensures
        r matches Ok(e) ==> parsed(input@) == Some(expr_model(e)),
        r matches Err(x) ==> x is XPathParseError && (parsed(input@) is None || input@.len() >= usize::MAX - 2),
        r matches Err(SimdXmlError::XPathParseError(m)) ==> m@ == xpath_error_message(input@),
{
    let all = chars_vec(input);
    if all.len() >= usize::MAX - 2 {
        return Err(SimdXmlError::XPathParseError("Expression too long".to_owned()));
    }
    let s = trim_chars(&all);
    match union_expr(&s, 0) {
        Some((expr, n)) => {
            if n == s.len() {
                Ok(expr)
            } else {
                Err(SimdXmlError::XPathParseError("Unexpected trailing input".to_owned()))
            }
        },
        None => Err(SimdXmlError::XPathParseError("Invalid XPath expression".to_owned())),
    }
}

} // verus!
