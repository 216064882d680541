//! The XPath expression tree.

use vstd::prelude::*;

verus! {

/// The XPath axes.
#[derive(Debug, Clone, Copy, PartialEq, Eq, Structural)]
pub enum Axis {
    Child,
    Descendant,
    Parent,
    Ancestor,
    FollowingSibling,
    PrecedingSibling,
    Following,
    Preceding,
    SelfAxis,
    DescendantOrSelf,
    AncestorOrSelf,
    Attribute,
    Namespace,
}

/// A node test.
#[derive(Debug, Clone, PartialEq, Eq)]
pub enum NodeTest {
    /// `name`
    Name(String),
    /// `prefix:local`
    NamespacedName(String, String),
    /// `*`
    Wildcard,
    /// `text()`
    Text,
    /// `node()`
    Node,
    /// `comment()`
    Comment,
    /// `processing-instruction()`
    PI,
}

/// The XPath functions available in predicates.
#[derive(Debug, Clone, Copy, PartialEq, Eq, Structural)]
pub enum Function {
    /// `last()`: the size of the context.
    Last,
    /// `position()`: the position of the context node.
    Position,
    /// `count(node-set)`
    Count,
    /// `not(value)`
    Not,
    /// `true()`
    True,
    /// `false()`
    False,
}

/// Comparison operators.
#[derive(Debug, Clone, Copy, PartialEq, Eq, Structural)]
pub enum CompareOp {
    Eq,
    Ne,
    Lt,
    Le,
    Gt,
    Ge,
}

/// One location step: `axis::node-test[predicate]...`.
#[derive(Debug, PartialEq, Eq)]
pub struct Step {
    pub axis: Axis,
    pub node_test: NodeTest,
    pub predicates: Vec<XPathExpr>,
}

/// A location path: absolute (from the document root) or relative.
#[derive(Debug, PartialEq, Eq)]
pub struct LocationPath {
    pub absolute: bool,
    pub steps: Vec<Step>,
}

/// An XPath expression.
#[derive(Debug, PartialEq, Eq)]
pub enum XPathExpr {
    /// A location path.
    LocationPath(LocationPath),
    /// `expr | expr | ...`
    Union(Vec<XPathExpr>),
    /// A non-negative integer literal.
    Number(u64),
    /// A string literal.
    Literal(String),
    /// A function call.
    FunctionCall(Function, Vec<XPathExpr>),
    /// A comparison.
    Compare(CompareOp, Box<XPathExpr>, Box<XPathExpr>),
}

/// A node test as mathematics.
pub enum TestModel {
    Name(Seq<char>),
    NamespacedName(Seq<char>, Seq<char>),
    Wildcard,
    Text,
    Node,
    Comment,
    PI,
}

/// A step as mathematics.
pub struct StepModel {
    pub axis: Axis,
    pub test: TestModel,
    pub predicates: Seq<ExprModel>,
}

/// A location path as mathematics.
pub struct PathModel {
    pub absolute: bool,
    pub steps: Seq<StepModel>,
}

/// An expression as mathematics: names and literals as characters.
pub enum ExprModel {
    LocationPath(PathModel),
    Union(Seq<ExprModel>),
    Number(nat),
    Literal(Seq<char>),
    FunctionCall(Function, Seq<ExprModel>),
    Compare(CompareOp, Box<ExprModel>, Box<ExprModel>),
}

impl View for NodeTest {
    type V = TestModel;

    open spec fn view(&self) -> TestModel {
        match self {
            NodeTest::Name(n) => TestModel::Name(n@),
            NodeTest::NamespacedName(p, l) => TestModel::NamespacedName(p@, l@),
            NodeTest::Wildcard => TestModel::Wildcard,
            NodeTest::Text => TestModel::Text,
            NodeTest::Node => TestModel::Node,
            NodeTest::Comment => TestModel::Comment,
            NodeTest::PI => TestModel::PI,
        }
    }
}

/// The model of an expression.
pub open spec fn expr_model(e: XPathExpr) -> ExprModel
    decreases e,
{
    match e {
        XPathExpr::LocationPath(p) => ExprModel::LocationPath(path_model(p)),
        XPathExpr::Union(es) => ExprModel::Union(
            Seq::new(es@.len(), |i: int| if 0 <= i < es@.len() { expr_model(es@[i]) } else { ExprModel::Number(0) }),
        ),
        XPathExpr::Number(n) => ExprModel::Number(n as nat),
        XPathExpr::Literal(s) => ExprModel::Literal(s@),
        XPathExpr::FunctionCall(f, args) => ExprModel::FunctionCall(
            f,
            Seq::new(args@.len(), |i: int| if 0 <= i < args@.len() { expr_model(args@[i]) } else { ExprModel::Number(0) }),
        ),
        XPathExpr::Compare(op, l, r) => ExprModel::Compare(op, Box::new(expr_model(*l)), Box::new(expr_model(*r))),
    }
}

/// The model of a location path.
pub open spec fn path_model(p: LocationPath) -> PathModel
    decreases p,
{
    PathModel {
        absolute: p.absolute,
        steps: Seq::new(p.steps@.len(), |i: int| if 0 <= i < p.steps@.len() { step_model(p.steps@[i]) } else {
            StepModel { axis: Axis::Child, test: TestModel::Node, predicates: seq![] }
        }),
    }
}

/// The model of a step.
pub open spec fn step_model(s: Step) -> StepModel
    decreases s,
{
    StepModel {
        axis: s.axis,
        test: s.node_test@,
        predicates: Seq::new(s.predicates@.len(), |i: int| if 0 <= i < s.predicates@.len() { expr_model(s.predicates@[i]) } else {
            ExprModel::Number(0)
        }),
    }
}

/// The models of a sequence of expressions.
pub open spec fn expr_models(es: Seq<XPathExpr>) -> Seq<ExprModel> {
    Seq::new(es.len(), |i: int| expr_model(es[i]))
}

/// The models of a sequence of steps.
pub open spec fn step_models(ss: Seq<Step>) -> Seq<StepModel> {
    Seq::new(ss.len(), |i: int| step_model(ss[i]))
}

/// The model of a function call.
pub proof fn lemma_call_model(f: Function, args: Vec<XPathExpr>)
    ensures
        expr_model(XPathExpr::FunctionCall(f, args)) == ExprModel::FunctionCall(f, expr_models(args@)),
{
    let m = expr_model(XPathExpr::FunctionCall(f, args));
    assert(m->FunctionCall_1 =~= expr_models(args@));
}

/// The model of a union.
pub proof fn lemma_union_model(es: Vec<XPathExpr>)
    ensures
        expr_model(XPathExpr::Union(es)) == ExprModel::Union(expr_models(es@)),
{
    let m = expr_model(XPathExpr::Union(es));
    assert(m->Union_0 =~= expr_models(es@));
}

/// The model of a step.
pub proof fn lemma_step_model(s: Step)
    ensures
        step_model(s) == (StepModel { axis: s.axis, test: s.node_test@, predicates: expr_models(s.predicates@) }),
{
    assert(step_model(s).predicates =~= expr_models(s.predicates@));
}

/// The model of a location path.
pub proof fn lemma_path_model(p: LocationPath)
    ensures
        path_model(p) == (PathModel { absolute: p.absolute, steps: step_models(p.steps@) }),
{
    assert(path_model(p).steps =~= step_models(p.steps@));
}

} // verus!
