//! XPath 1.0 evaluation engine.
//!
//! Parses XPath expressions into an expression tree, then evaluates them
//! against an `XmlIndex` using array operations instead of pointer-chasing
//! through a DOM.

pub mod ast;
pub mod semantics;
pub mod grammar;
pub mod parser;
pub mod axes;
pub mod eval;
pub mod numbers;
pub mod names;
pub mod laws;

pub use self::ast::XPathExpr;
pub use self::semantics::XPathNode;
pub use self::parser::parse_xpath;
use self::parser::xpath_error_message;
pub use self::eval::{evaluate, eval_text};

use vstd::prelude::*;
use crate::error::SimdXmlError;
use crate::index::XmlIndex;
use self::ast::{ExprModel, expr_model};
use self::grammar::parsed;
use self::semantics::{select, select_ok, texts_of, raw_of};
use self::names::{expr_names, name_set, distinct_names, collect_names};

verus! {

/// What a query string selects in an index: the nodes its expression
/// selects, when it parses and is supported.
pub open spec fn query(v: crate::index::model::IndexView, x: Seq<char>) -> Option<Seq<XPathNode>> {
    match parsed(x) {
        Some(m) => select(v, m),
        None => None,
    }
}

/// The texts of what a query string selects.
pub open spec fn query_text(v: crate::index::model::IndexView, x: Seq<char>) -> Option<Seq<Seq<char>>> {
    match query(v, x) {
        Some(ns) => Some(texts_of(v, ns, ns.len() as int)),
        None => None,
    }
}

/// What a query string selects, each node as written in the document.
pub open spec fn query_raw(v: crate::index::model::IndexView, x: Seq<char>) -> Option<Seq<Seq<char>>> {
    match query(v, x) {
        Some(ns) => Some(ns.map_values(|n: XPathNode| raw_of(v, n))),
        None => None,
    }
}

/// Compiled XPath expression — reusable across documents.
///
/// Compile once, evaluate many times. Avoids re-parsing the expression string
/// on each call.
pub struct CompiledXPath {
    expr: XPathExpr,
}

impl View for CompiledXPath {
    type V = ExprModel;

    closed spec fn view(&self) -> ExprModel {
        expr_model(self.expr)
    }
}

impl CompiledXPath {
    /// Compile an XPath expression.
    pub fn compile(xpath: &str) -> (r: Result<Self, SimdXmlError>)
        ensures
            r matches Ok(c) ==> parsed(xpath@) == Some(c@),
            r matches Err(x) ==> x is XPathParseError && (parsed(xpath@) is None || xpath@.len() >= usize::MAX - 2),
            r matches Err(SimdXmlError::XPathParseError(m)) ==> m@ == xpath_error_message(xpath@),
    {
        match parse_xpath(xpath) {
            Ok(expr) => Ok(Self { expr }),
            Err(x) => Err(x),
        }
    }

    /// Evaluate and return matching nodes.
    pub fn eval<'a>(&self, index: &'a XmlIndex<'a>) -> (r: Result<Vec<XPathNode>, SimdXmlError>)
        requires
            index.wf(),
        ensures
            match select(index@, self@) {
                Some(ns) => r matches Ok(v) && v@ == ns,
                None => r matches Err(x) && x is XPathEvalError,
            },
            select_ok(self@) ==> r is Ok,
    {
        evaluate(index, &self.expr)
    }

    /// Evaluate and return text content of matching nodes.
    pub fn eval_text<'a>(&self, index: &'a XmlIndex<'a>) -> (r: Result<Vec<&'a str>, SimdXmlError>)
        requires
            index.wf(),
        ensures
            match select(index@, self@) {
                Some(ns) => r matches Ok(ts) && ts@.map_values(|s: &str| s@) == texts_of(index@, ns, ns.len() as int),
                None => r matches Err(x) && x is XPathEvalError,
            },
            select_ok(self@) ==> r is Ok,
    {
        eval_text(index, &self.expr)
    }

    /// The tag names the expression refers to, each once, or `None` when it
    /// may select tags of any name (a `*`, or `node()` on an axis that
    /// selects children or followers).
    pub fn interesting_names(&self) -> (r: Option<Vec<String>>)
        ensures
            match expr_names(self@) {
                Some(ns) => r matches Some(v) && name_set(v@) == ns && distinct_names(v@),
                None => r is None,
            },
    {
        let mut acc: Vec<String> = Vec::new();
        proof { assert(name_set(acc@) =~= Set::<Seq<char>>::empty()); }
        if collect_names(&self.expr, &mut acc) {
            proof { assert(name_set(acc@) =~= Set::<Seq<char>>::empty().union(expr_names(self@)->Some_0)); }
            Some(acc)
        } else {
            None
        }
    }

    /// Access the underlying parsed expression.
    pub fn expr(&self) -> (r: &XPathExpr)
        ensures
            expr_model(*r) == self@,
    {
        &self.expr
    }
}

/// Compiling once and evaluating gives what the one-shot query gives: a
/// compiled expression evaluates to the query of the string it came from.
pub proof fn law_compiled_is_query(v: crate::index::model::IndexView, x: Seq<char>, m: ExprModel)
    requires
        parsed(x) == Some(m),
    ensures
        select(v, m) == query(v, x),
        (match select(v, m) {
            Some(ns) => query_text(v, x) == Some(texts_of(v, ns, ns.len() as int)),
            None => query_text(v, x) is None,
        }),
{
}

} // verus!
