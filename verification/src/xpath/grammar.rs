//! The XPath grammar as mathematics: each rule reads the characters from a
//! position and gives what it recognised with the number of characters it
//! took, or `None`.
//!
//! ```text
//! xpath      := union
//! union      := path (ws '|' ws path)*
//! path       := '/' ('/' steps | <end, '|' or ')'> | steps) | steps
//! steps      := step (('//' | '/') step)*          -- '//' adds descendant-or-self::node()
//! step       := ws ('..' | '.' | '@' test preds | axis '::' test preds | test preds)
//! test       := type '()' | '*' | name
//! preds      := ('[' ws pexpr ws ']')*
//! pexpr      := operand (ws op ws operand)?
//! operand    := digits | quoted | function '(' ws (')' | args) | union
//! args       := pexpr ws (')' | ',' ws args)
//! ```

use vstd::prelude::*;
use crate::text::{alphanumeric, white_space};
use super::ast::{Axis, Function, CompareOp, TestModel, StepModel, PathModel, ExprModel};

verus! {

/// Position `p` holds `c`.
pub open spec fn at(s: Seq<char>, p: int, c: char) -> bool {
    0 <= p < s.len() && s[p] == c
}

/// What is left of the input from `p` on (the measure of the recursion).
pub open spec fn rem(s: Seq<char>, p: int) -> int {
    if p <= s.len() { s.len() - p } else { 0 }
}

/// `multispace0`: space, tab, carriage return, line feed.
pub open spec fn is_space(c: char) -> bool {
    c == ' ' || c == '\t' || c == '\r' || c == '\n'
}

/// A letter or digit, as `char::is_alphanumeric` answers: among ASCII
/// characters the letters and digits, beyond ASCII the Unicode answer.
pub open spec fn alnum_char(c: char) -> bool {
    if (c as u32) < 128 {
        ('a' <= c <= 'z') || ('A' <= c <= 'Z') || ('0' <= c <= '9')
    } else {
        alphanumeric(c)
    }
}

/// White space, as `char::is_whitespace` answers: among ASCII characters
/// tab, line feed, vertical tab, form feed, carriage return and space,
/// beyond ASCII the Unicode answer.
pub open spec fn ws_char(c: char) -> bool {
    if (c as u32) < 128 {
        c == ' ' || ('\t' <= c <= '\r')
    } else {
        white_space(c)
    }
}

/// Characters of an axis, node-type or function name.
pub open spec fn word_char(c: char) -> bool {
    alnum_char(c) || c == '-'
}

/// Characters of a name test.
pub open spec fn name_char(c: char) -> bool {
    alnum_char(c) || c == '-' || c == '_' || c == ':'
}

/// A decimal digit.
pub open spec fn digit_char(c: char) -> bool {
    '0' <= c <= '9'
}

/// The number of characters from `p` on that are spaces.
pub open spec fn ws_len(s: Seq<char>, p: int) -> nat
    decreases s.len() - p,
{
    if 0 <= p < s.len() && is_space(s[p]) { 1 + ws_len(s, p + 1) } else { 0 }
}

/// The number of characters from `p` on that are word characters.
pub open spec fn word_len(s: Seq<char>, p: int) -> nat
    decreases s.len() - p,
{
    if 0 <= p < s.len() && word_char(s[p]) { 1 + word_len(s, p + 1) } else { 0 }
}

/// The number of characters from `p` on that are name characters.
pub open spec fn name_len(s: Seq<char>, p: int) -> nat
    decreases s.len() - p,
{
    if 0 <= p < s.len() && name_char(s[p]) { 1 + name_len(s, p + 1) } else { 0 }
}

/// The number of characters from `p` on that are digits.
pub open spec fn digit_len(s: Seq<char>, p: int) -> nat
    decreases s.len() - p,
{
    if 0 <= p < s.len() && digit_char(s[p]) { 1 + digit_len(s, p + 1) } else { 0 }
}

/// The value of the decimal digits `s[p..p + n]`.
pub open spec fn digits_value(s: Seq<char>, p: int, n: int) -> nat
    decreases n,
{
    if n <= 0 { 0 } else { digits_value(s, p, n - 1) * 10 + ((s[p + n - 1] as u32) - ('0' as u32)) as nat }
}

/// First position at or after `p` holding `c`.
pub open spec fn find_char(s: Seq<char>, c: char, p: int) -> Option<int>
    decreases s.len() - p,
{
    if p < 0 || p >= s.len() {
        None
    } else if s[p] == c {
        Some(p)
    } else {
        find_char(s, c, p + 1)
    }
}

/// The axis of an axis name.
pub open spec fn axis_named(w: Seq<char>) -> Option<Axis> {
    if w == seq!['c', 'h', 'i', 'l', 'd'] { Some(Axis::Child) }
    else if w == seq!['d', 'e', 's', 'c', 'e', 'n', 'd', 'a', 'n', 't'] { Some(Axis::Descendant) }
    else if w == seq!['p', 'a', 'r', 'e', 'n', 't'] { Some(Axis::Parent) }
    else if w == seq!['a', 'n', 'c', 'e', 's', 't', 'o', 'r'] { Some(Axis::Ancestor) }
    else if w == seq!['f', 'o', 'l', 'l', 'o', 'w', 'i', 'n', 'g', '-', 's', 'i', 'b', 'l', 'i', 'n', 'g'] { Some(Axis::FollowingSibling) }
    else if w == seq!['p', 'r', 'e', 'c', 'e', 'd', 'i', 'n', 'g', '-', 's', 'i', 'b', 'l', 'i', 'n', 'g'] { Some(Axis::PrecedingSibling) }
    else if w == seq!['f', 'o', 'l', 'l', 'o', 'w', 'i', 'n', 'g'] { Some(Axis::Following) }
    else if w == seq!['p', 'r', 'e', 'c', 'e', 'd', 'i', 'n', 'g'] { Some(Axis::Preceding) }
    else if w == seq!['s', 'e', 'l', 'f'] { Some(Axis::SelfAxis) }
    else if w == seq!['d', 'e', 's', 'c', 'e', 'n', 'd', 'a', 'n', 't', '-', 'o', 'r', '-', 's', 'e', 'l', 'f'] { Some(Axis::DescendantOrSelf) }
    else if w == seq!['a', 'n', 'c', 'e', 's', 't', 'o', 'r', '-', 'o', 'r', '-', 's', 'e', 'l', 'f'] { Some(Axis::AncestorOrSelf) }
    else if w == seq!['a', 't', 't', 'r', 'i', 'b', 'u', 't', 'e'] { Some(Axis::Attribute) }
    else if w == seq!['n', 'a', 'm', 'e', 's', 'p', 'a', 'c', 'e'] { Some(Axis::Namespace) }
    else { None }
}

/// The node test of a node-type name.
pub open spec fn node_type_named(w: Seq<char>) -> Option<TestModel> {
    if w == seq!['t', 'e', 'x', 't'] { Some(TestModel::Text) }
    else if w == seq!['n', 'o', 'd', 'e'] { Some(TestModel::Node) }
    else if w == seq!['c', 'o', 'm', 'm', 'e', 'n', 't'] { Some(TestModel::Comment) }
    else if w == seq!['p', 'r', 'o', 'c', 'e', 's', 's', 'i', 'n', 'g', '-', 'i', 'n', 's', 't', 'r', 'u', 'c', 't', 'i', 'o', 'n'] { Some(TestModel::PI) }
    else { None }
}

/// The function of a function name.
pub open spec fn function_named(w: Seq<char>) -> Option<Function> {
    if w == seq!['l', 'a', 's', 't'] { Some(Function::Last) }
    else if w == seq!['p', 'o', 's', 'i', 't', 'i', 'o', 'n'] { Some(Function::Position) }
    else if w == seq!['c', 'o', 'u', 'n', 't'] { Some(Function::Count) }
    else if w == seq!['n', 'o', 't'] { Some(Function::Not) }
    else if w == seq!['t', 'r', 'u', 'e'] { Some(Function::True) }
    else if w == seq!['f', 'a', 'l', 's', 'e'] { Some(Function::False) }
    else { None }
}

/// A name test: `prefix:local` when the name holds a colon (split at the
/// first one), else the plain name.
pub open spec fn name_model(w: Seq<char>) -> TestModel {
    match find_char(w, ':', 0) {
        Some(i) => TestModel::NamespacedName(w.subrange(0, i), w.subrange(i + 1, w.len() as int)),
        None => TestModel::Name(w),
    }
}

/// `descendant-or-self::node()`, the step that `//` stands for.
pub open spec fn dos_step() -> StepModel {
    StepModel { axis: Axis::DescendantOrSelf, test: TestModel::Node, predicates: seq![] }
}

/// A step without predicates.
pub open spec fn bare_step(axis: Axis, test: TestModel) -> StepModel {
    StepModel { axis, test, predicates: seq![] }
}

/// `type()`: a node-type test.
#[verifier::opaque]
pub open spec fn g_node_type_test(s: Seq<char>, p: int) -> Option<(TestModel, nat)> {
    let n = word_len(s, p);
    if n > 0 && at(s, p + n, '(') && at(s, p + n + 1, ')') {
        match node_type_named(s.subrange(p, p + n)) {
            Some(t) => Some((t, n + 2)),
            None => None,
        }
    } else {
        None
    }
}

/// `*`
#[verifier::opaque]
pub open spec fn g_wildcard_test(s: Seq<char>, p: int) -> Option<(TestModel, nat)> {
    if at(s, p, '*') { Some((TestModel::Wildcard, 1)) } else { None }
}

/// A name test.
#[verifier::opaque]
pub open spec fn g_name_test(s: Seq<char>, p: int) -> Option<(TestModel, nat)> {
    let n = name_len(s, p);
    if n > 0 { Some((name_model(s.subrange(p, p + n)), n)) } else { None }
}

/// A node test: a node type, `*`, or a name, tried in that order.
#[verifier::opaque]
pub open spec fn g_node_test(s: Seq<char>, p: int) -> Option<(TestModel, nat)> {
    match g_node_type_test(s, p) {
        Some(r) => Some(r),
        None => match g_wildcard_test(s, p) {
            Some(r) => Some(r),
            None => g_name_test(s, p),
        },
    }
}

/// `axis::`
#[verifier::opaque]
pub open spec fn g_axis_specifier(s: Seq<char>, p: int) -> Option<(Axis, nat)> {
    let n = word_len(s, p);
    if n > 0 && at(s, p + n, ':') && at(s, p + n + 1, ':') {
        match axis_named(s.subrange(p, p + n)) {
            Some(a) => Some((a, n + 2)),
            None => None,
        }
    } else {
        None
    }
}

/// A comparison operator.
#[verifier::opaque]
pub open spec fn g_compare_op(s: Seq<char>, p: int) -> Option<(CompareOp, nat)> {
    if at(s, p, '!') && at(s, p + 1, '=') { Some((CompareOp::Ne, 2)) }
    else if at(s, p, '<') && at(s, p + 1, '=') { Some((CompareOp::Le, 2)) }
    else if at(s, p, '>') && at(s, p + 1, '=') { Some((CompareOp::Ge, 2)) }
    else if at(s, p, '=') { Some((CompareOp::Eq, 1)) }
    else if at(s, p, '<') { Some((CompareOp::Lt, 1)) }
    else if at(s, p, '>') { Some((CompareOp::Gt, 1)) }
    else { None }
}

/// Predicates: `[expr]`, any number of them.
pub open spec fn g_predicates(s: Seq<char>, p: int) -> Option<(Seq<ExprModel>, nat)>
    decreases rem(s, p), 0int,
{
    if at(s, p, '[') {
        let q = p + 1 + ws_len(s, p + 1);
        match g_pexpr(s, q) {
            Some((e, n)) => {
                let r = q + n + ws_len(s, q + n);
                if at(s, r, ']') {
                    match g_predicates(s, r + 1) {
                        Some((more, m)) => Some((seq![e] + more, (r + 1 + m - p) as nat)),
                        None => None,
                    }
                } else {
                    None
                }
            },
            None => None,
        }
    } else {
        Some((seq![], 0))
    }
}

/// A node test and its predicates, on the given axis.
pub open spec fn g_tested_step(s: Seq<char>, p: int, axis: Axis) -> Option<(StepModel, nat)>
    decreases rem(s, p), 10int,
{
    match g_node_test(s, p) {
        Some((t, n)) => match g_predicates(s, p + n) {
            Some((ps, m)) => Some((StepModel { axis, test: t, predicates: ps }, n + m)),
            None => None,
        },
        None => None,
    }
}

/// One step: `..`, `.`, `@test`, `axis::test` or `test`, with predicates.
pub open spec fn g_step(s: Seq<char>, p: int) -> Option<(StepModel, nat)>
    decreases rem(s, p), 20int,
{
    let q = p + ws_len(s, p);
    if at(s, q, '.') && at(s, q + 1, '.') {
        Some((bare_step(Axis::Parent, TestModel::Node), (q + 2 - p) as nat))
    } else if at(s, q, '.') {
        Some((bare_step(Axis::SelfAxis, TestModel::Node), (q + 1 - p) as nat))
    } else if at(s, q, '@') {
        match g_tested_step(s, q + 1, Axis::Attribute) {
            Some((st, n)) => Some((st, (q + 1 + n - p) as nat)),
            None => None,
        }
    } else {
        match g_axis_specifier(s, q) {
            Some((axis, a)) => match g_tested_step(s, q + a, axis) {
                Some((st, n)) => Some((st, (q + a + n - p) as nat)),
                None => None,
            },
            None => match g_tested_step(s, q, Axis::Child) {
                Some((st, n)) => Some((st, (q + n - p) as nat)),
                None => None,
            },
        }
    }
}

/// Further steps after `/` or `//`, as many as parse; a separator whose
/// step does not parse is left unread.
pub open spec fn g_more_steps(s: Seq<char>, p: int) -> (Seq<StepModel>, nat)
    decreases rem(s, p), 30int,
{
    if at(s, p, '/') && at(s, p + 1, '/') {
        match g_step(s, p + 2) {
            Some((st, n)) => {
                let (more, m) = g_more_steps(s, p + 2 + n);
                (seq![dos_step(), st] + more, 2 + n + m)
            },
            None => (seq![], 0),
        }
    } else if at(s, p, '/') {
        match g_step(s, p + 1) {
            Some((st, n)) => {
                let (more, m) = g_more_steps(s, p + 1 + n);
                (seq![st] + more, 1 + n + m)
            },
            None => (seq![], 0),
        }
    } else {
        (seq![], 0)
    }
}

/// One step or more, separated by `/` or `//`.
pub open spec fn g_step_list(s: Seq<char>, p: int) -> Option<(Seq<StepModel>, nat)>
    decreases rem(s, p), 40int,
{
    match g_step(s, p) {
        Some((st, n)) => {
            let (more, m) = g_more_steps(s, p + n);
            Some((seq![st] + more, n + m))
        },
        None => None,
    }
}

/// A location path: absolute (`/...`, `//...`, or `/` alone before the
/// end, `|` or `)`) or relative.
pub open spec fn g_location_path(s: Seq<char>, p: int) -> Option<(PathModel, nat)>
    decreases rem(s, p), 50int,
{
    if at(s, p, '/') {
        if at(s, p + 1, '/') {
            match g_step_list(s, p + 2) {
                Some((steps, n)) => Some((PathModel { absolute: true, steps: seq![dos_step()] + steps }, 2 + n)),
                None => None,
            }
        } else if p + 1 == s.len() || at(s, p + 1, '|') || at(s, p + 1, ')') {
            Some((PathModel { absolute: true, steps: seq![] }, 1))
        } else {
            match g_step_list(s, p + 1) {
                Some((steps, n)) => Some((PathModel { absolute: true, steps }, 1 + n)),
                None => None,
            }
        }
    } else {
        match g_step_list(s, p) {
            Some((steps, n)) => Some((PathModel { absolute: false, steps }, n)),
            None => None,
        }
    }
}

/// Further members of a union, as many as parse.
pub open spec fn g_union_rest(s: Seq<char>, p: int) -> (Seq<ExprModel>, nat)
    decreases rem(s, p), 60int,
{
    let q = p + ws_len(s, p);
    if at(s, q, '|') {
        let r = q + 1 + ws_len(s, q + 1);
        match g_location_path(s, r) {
            Some((lp, n)) => {
                let (more, m) = g_union_rest(s, r + n);
                (seq![ExprModel::LocationPath(lp)] + more, (r + n + m - p) as nat)
            },
            None => (seq![], 0),
        }
    } else {
        (seq![], 0)
    }
}

/// A location path, or a union of them.
pub open spec fn g_union_expr(s: Seq<char>, p: int) -> Option<(ExprModel, nat)>
    decreases rem(s, p), 70int,
{
    match g_location_path(s, p) {
        Some((lp, n)) => {
            let (more, m) = g_union_rest(s, p + n);
            if more.len() == 0 {
                Some((ExprModel::LocationPath(lp), n))
            } else {
                Some((ExprModel::Union(seq![ExprModel::LocationPath(lp)] + more), n + m))
            }
        },
        None => None,
    }
}

/// An operand in a predicate: a number, a quoted literal, a function call
/// or a location path (or union).
pub open spec fn g_operand(s: Seq<char>, p: int) -> Option<(ExprModel, nat)>
    decreases rem(s, p), 80int,
{
    let d = digit_len(s, p);
    if d > 0 {
        if digits_value(s, p, d as int) <= u64::MAX { Some((ExprModel::Number(digits_value(s, p, d as int)), d)) } else { None }
    } else if at(s, p, '"') || at(s, p, '\'') {
        match find_char(s, s[p], p + 1) {
            Some(c) => Some((ExprModel::Literal(s.subrange(p + 1, c)), (c + 1 - p) as nat)),
            None => None,
        }
    } else {
        let w = word_len(s, p);
        if w > 0 && at(s, p + w, '(') && function_named(s.subrange(p, p + w)) is Some {
            let f = function_named(s.subrange(p, p + w))->Some_0;
            let q = p + w + 1 + ws_len(s, p + w + 1);
            if at(s, q, ')') {
                Some((ExprModel::FunctionCall(f, seq![]), (q + 1 - p) as nat))
            } else {
                match g_args(s, q) {
                    Some((args, n)) => Some((ExprModel::FunctionCall(f, args), (q + n - p) as nat)),
                    None => None,
                }
            }
        } else {
            g_union_expr(s, p)
        }
    }
}

/// A predicate expression: an operand, or two compared.
pub open spec fn g_pexpr(s: Seq<char>, p: int) -> Option<(ExprModel, nat)>
    decreases rem(s, p), 90int,
{
    match g_operand(s, p) {
        Some((a, n)) => {
            let q = p + n + ws_len(s, p + n);
            match g_compare_op(s, q) {
                Some((op, k)) => {
                    let r = q + k + ws_len(s, q + k);
                    match g_operand(s, r) {
                        Some((b, m)) => Some((ExprModel::Compare(op, Box::new(a), Box::new(b)), (r + m - p) as nat)),
                        None => None,
                    }
                },
                None => Some((a, n)),
            }
        },
        None => None,
    }
}

/// Function arguments after `(`: expressions separated by `,`, up to `)`.
pub open spec fn g_args(s: Seq<char>, p: int) -> Option<(Seq<ExprModel>, nat)>
    decreases rem(s, p), 100int,
{
    match g_pexpr(s, p) {
        Some((e, n)) => {
            let q = p + n + ws_len(s, p + n);
            if at(s, q, ')') {
                Some((seq![e], (q + 1 - p) as nat))
            } else if at(s, q, ',') {
                let r = q + 1 + ws_len(s, q + 1);
                match g_args(s, r) {
                    Some((more, m)) => Some((seq![e] + more, (r + m - p) as nat)),
                    None => None,
                }
            } else {
                None
            }
        },
        None => None,
    }
}

/// The number of leading characters that are white space.
pub open spec fn lead_ws(s: Seq<char>, p: int) -> nat
    decreases s.len() - p,
{
    if 0 <= p < s.len() && ws_char(s[p]) { 1 + lead_ws(s, p + 1) } else { 0 }
}

/// The number of trailing characters before `e` that are white space.
pub open spec fn trail_ws(s: Seq<char>, e: int) -> nat
    decreases e,
{
    if 0 < e <= s.len() && ws_char(s[e - 1]) { 1 + trail_ws(s, e - 1) } else { 0 }
}

/// `str::trim`: the characters without leading and trailing white space.
pub open spec fn trimmed(s: Seq<char>) -> Seq<char> {
    let a = lead_ws(s, 0);
    if a >= s.len() {
        seq![]
    } else {
        s.subrange(a as int, s.len() - trail_ws(s, s.len() as int))
    }
}

/// What an XPath expression string parses to: the trimmed text must be a
/// union of location paths, read to the end.
pub open spec fn parsed(input: Seq<char>) -> Option<ExprModel> {
    let s = trimmed(input);
    match g_union_expr(s, 0) {
        Some((e, n)) => if n == s.len() { Some(e) } else { None },
        None => None,
    }
}

} // verus!
