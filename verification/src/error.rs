//! Error type of the library.

use vstd::prelude::*;

verus! {

/// Everything that can go wrong while indexing XML or evaluating XPath.
#[derive(Debug)]
pub enum SimdXmlError {
    /// The XML could not be indexed at the given byte offset.
    ParseError { offset: usize, message: String },
    /// The XPath expression is not well formed.
    XPathParseError(String),
    /// The XPath expression cannot be evaluated against the index.
    XPathEvalError(String),
    /// A tag opened at the given byte offset is never closed.
    UnclosedTag(usize),
    /// A close tag does not match the open tag it closes.
    MismatchedCloseTag { expected: String, found: String, offset: usize },
    /// The input is not XML this library can index.
    InvalidXml(String),
}

} // verus!
