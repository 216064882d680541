//! Structural XML indexing and XPath 1.0 evaluation over flat arrays.
//!
//! The library scans XML bytes into a structural index (tag positions, tag
//! types, names, nesting depth, parents and text ranges) and evaluates XPath
//! location paths against that index with array operations.

pub mod error;
pub mod text;
pub mod index;
pub mod parallel;
pub mod simd;
pub mod xpath;
pub mod xpath_table;
pub mod cli;

pub use crate::xpath::CompiledXPath;
pub use crate::index::XmlIndex;
pub use crate::error::SimdXmlError;

use vstd::prelude::*;

use crate::index::structural::{parse_scalar, indexable, parsed_view};
use crate::parallel::grammar::scan_chunk;
use crate::xpath::{query, query_text, query_raw};
use crate::xpath::eval::node_raw;
use crate::xpath::semantics::{XPathNode, raw_of, select};
use crate::xpath::grammar::parsed;

verus! {

/// Parse XML bytes into a structural index.
///
/// A comment, CDATA section or processing instruction left open at the end
/// of the document is an unclosed tag, reported at its start; any other
/// input that cannot be indexed is invalid XML.
pub fn parse<'a>(input: &'a [u8]) -> (r: Result<XmlIndex<'a>, SimdXmlError>)
    ensures
        r is Ok <==> indexable(input@),
        r matches Ok(index) ==> index.wf() && index@ == parsed_view(input@),
        r matches Err(SimdXmlError::UnclosedTag(offset)) ==> input@.len() < u32::MAX
            && scan_chunk(input@, 0).overrun == Some(offset as int),
        r matches Err(SimdXmlError::InvalidXml(_)) ==> input@.len() >= u32::MAX
            || scan_chunk(input@, 0).overrun is None,
        r is Err ==> r matches Err(SimdXmlError::UnclosedTag(_)) || r matches Err(SimdXmlError::InvalidXml(_)),
{
    parse_scalar(input)
}

impl<'a> XmlIndex<'a> {
    /// Evaluate an XPath expression and return the matching nodes.
    pub fn xpath(&self, expr: &str) -> (r: Result<Vec<XPathNode>, SimdXmlError>)
        requires
            self.wf(),
        ensures
            r matches Ok(ns) ==> query(self@, expr@) == Some(ns@),
            r is Err ==> query(self@, expr@) is None || expr@.len() >= usize::MAX - 2,
            r matches Err(x) ==> (x is XPathParseError && (parsed(expr@) is None || expr@.len() >= usize::MAX - 2))
                || (x is XPathEvalError && (parsed(expr@) matches Some(m) && select(self@, m) is None)),
    {
        match CompiledXPath::compile(expr) {
            Ok(compiled) => compiled.eval(self),
            Err(x) => Err(x),
        }
    }

    /// Evaluate an XPath expression and return the text of the matching nodes.
    pub fn xpath_text(&self, expr: &str) -> (r: Result<Vec<&str>, SimdXmlError>)
        requires
            self.wf(),
        ensures
            r matches Ok(ts) ==> query_text(self@, expr@) == Some(ts@.map_values(|s: &str| s@)),
            r is Err ==> query_text(self@, expr@) is None || expr@.len() >= usize::MAX - 2,
            r matches Err(x) ==> (x is XPathParseError && (parsed(expr@) is None || expr@.len() >= usize::MAX - 2))
                || (x is XPathEvalError && (parsed(expr@) matches Some(m) && select(self@, m) is None)),
    {
        match CompiledXPath::compile(expr) {
            Ok(compiled) => compiled.eval_text(self),
            Err(x) => Err(x),
        }
    }

    /// Evaluate an XPath expression and return each matching node as it is
    /// written in the document.
    pub fn xpath_raw(&self, expr: &str) -> (r: Result<Vec<&'a str>, SimdXmlError>)
        requires
            self.wf(),
        ensures
            r matches Ok(ts) ==> query_raw(self@, expr@) == Some(ts@.map_values(|s: &str| s@)),
            r is Err ==> query_raw(self@, expr@) is None || expr@.len() >= usize::MAX - 2,
            r matches Err(x) ==> (x is XPathParseError && (parsed(expr@) is None || expr@.len() >= usize::MAX - 2))
                || (x is XPathEvalError && (parsed(expr@) matches Some(m) && select(self@, m) is None)),
    {
        let nodes = match self.xpath(expr) {
            Ok(nodes) => nodes,
            Err(x) => { return Err(x); },
        };
        let ghost raws = nodes@.map_values(|n: XPathNode| raw_of(self@, n));
        let mut out: Vec<&'a str> = Vec::new();
        let mut k: usize = 0;
        while k < nodes.len()
            invariant
                self.wf(),
                k <= nodes@.len(),
                raws == nodes@.map_values(|n: XPathNode| raw_of(self@, n)),
                out@.map_values(|s: &str| s@) == raws.take(k as int),
            decreases nodes@.len() - k,
        {
            let piece = node_raw(self, nodes[k]);
            let ghost before = out@.map_values(|s: &str| s@);
            out.push(piece);
            proof {
                assert(piece@ == raws[k as int]);
                assert(out@.map_values(|s: &str| s@) =~= before.push(piece@));
                assert(raws.take(k + 1) =~= raws.take(k as int).push(raws[k as int]));
            }
            k = k + 1;
        }
        proof { assert(raws.take(nodes@.len() as int) =~= raws); }
        Ok(out)
    }
}

} // verus!
