//! The `xpath_text(xml, expr)` table function: one row per text that the
//! expression selects in the document, handed out in chunks.

use vstd::prelude::*;
use vstd::utf8::*;
use vstd::string::StringSliceAdditionalSpecFns;
use crate::error::SimdXmlError;
use crate::index::structural::{indexable, parsed_view};
use crate::xpath::query_text;

verus! {

/// Rows handed out per call.
pub const CHUNK_ROWS: usize = 2048;

/// The arguments of one call of the table function.
pub struct XPathTextBindData {
    pub xml: String,
    pub expr: String,
}

/// The rows of one call, and how many of them were handed out.
pub struct XPathTextState {
    pub results: Vec<String>,
    pub offset: usize,
    pub initialized: bool,
}

/// The state of one call of the table function.
pub struct XPathTextInitData {
    pub state: XPathTextState,
}

/// The `xpath_text` table function.
pub struct XPathTextVTab;

/// The rows of a call: the texts the expression selects in the document,
/// when the document indexes and the expression evaluates.
pub open spec fn table_rows(xml: Seq<char>, expr: Seq<char>) -> Option<Seq<Seq<char>>> {
    let input = encode_utf8(xml);
    if indexable(input) { query_text(parsed_view(input), expr) } else { None }
}

/// The characters of each string.
pub open spec fn string_views(v: Seq<String>) -> Seq<Seq<char>> {
    v.map_values(|s: String| s@)
}

/// How many rows a call hands out when `remaining` are left.
pub open spec fn chunk_len(remaining: int) -> int {
    if remaining < CHUNK_ROWS { remaining } else { CHUNK_ROWS as int }
}

impl XPathTextVTab {
    /// The arguments of a call: the document and the expression.
    pub fn bind(xml: String, expr: String) -> (r: XPathTextBindData)
        ensures
            r.xml@ == xml@,
            r.expr@ == expr@,
    {
        XPathTextBindData { xml, expr }
    }

    /// A call that has handed out nothing yet.
    pub fn init() -> (r: XPathTextInitData)
        ensures
            !r.state.initialized,
            r.state.offset == 0,
            r.state.results@.len() == 0,
    {
        XPathTextInitData {
            state: XPathTextState { results: Vec::new(), offset: 0, initialized: false },
        }
    }

    /// The next rows of a call: on the first, the document is indexed and
    /// the expression evaluated; then up to `CHUNK_ROWS` rows are handed out
    /// from where the last call stopped (none once all were).
    pub fn func(init: &mut XPathTextInitData, bind: &XPathTextBindData) -> (r: Result<Vec<String>, SimdXmlError>)
        requires
            old(init).state.offset <= old(init).state.results@.len(),
            !old(init).state.initialized ==> old(init).state.offset == 0,
        ensures
            final(init).state.initialized,
            final(init).state.offset <= final(init).state.results@.len(),
            r matches Ok(rows) ==> {
                let st = final(init).state;
                let start = old(init).state.offset as int;
                &&& (old(init).state.initialized ==> st.results@ == old(init).state.results@)
                &&& (!old(init).state.initialized ==> table_rows(bind.xml@, bind.expr@) == Some(string_views(st.results@)))
                &&& st.offset == start + chunk_len(st.results@.len() - start)
                &&& rows@ == st.results@.subrange(start, st.offset as int)
            },
            r is Err ==> {
                &&& !old(init).state.initialized
                &&& final(init).state.results@ == old(init).state.results@
                &&& final(init).state.offset == old(init).state.offset
                &&& (table_rows(bind.xml@, bind.expr@) is None || bind.expr@.len() >= usize::MAX - 2)
            },
    {
        if !init.state.initialized {
            init.state.initialized = true;
            match load_rows(bind) {
                Ok(results) => { init.state.results = results; },
                Err(e) => { return Err(e); },
            }
        }
        Ok(take_chunk(&mut init.state))
    }
}

/// The rows of a call, computed.
fn load_rows(bind: &XPathTextBindData) -> (r: Result<Vec<String>, SimdXmlError>)
    ensures
        r matches Ok(v) ==> table_rows(bind.xml@, bind.expr@) == Some(string_views(v@)),
        r is Err ==> table_rows(bind.xml@, bind.expr@) is None || bind.expr@.len() >= usize::MAX - 2,
{
    let bytes = bind.xml.as_str().as_bytes();
    let index = match crate::parse(bytes) {
        Ok(index) => index,
        Err(e) => { return Err(e); },
    };
    let texts = match index.xpath_text(bind.expr.as_str()) {
        Ok(texts) => texts,
        Err(e) => { return Err(e); },
    };
    let mut results: Vec<String> = Vec::new();
    let mut k: usize = 0;
    while k < texts.len()
        invariant
            k <= texts@.len(),
            string_views(results@) == texts@.map_values(|s: &str| s@).take(k as int),
        decreases texts@.len() - k,
    {
        results.push(texts[k].to_owned());
        proof {
            let tv = texts@.map_values(|s: &str| s@);
            assert(tv.take(k + 1) =~= tv.take(k as int).push(tv[k as int]));
            assert(string_views(results@) =~= tv.take(k + 1));
        }
        k = k + 1;
    }
    proof {
        let tv = texts@.map_values(|s: &str| s@);
        assert(tv.take(texts@.len() as int) =~= tv);
    }
    Ok(results)
}

/// Hands out the next rows of a call, up to `CHUNK_ROWS`.
fn take_chunk(st: &mut XPathTextState) -> (rows: Vec<String>)
    requires
        old(st).offset <= old(st).results@.len(),
    ensures
        final(st).results@ == old(st).results@,
        final(st).initialized == old(st).initialized,
        final(st).offset == old(st).offset + chunk_len(old(st).results@.len() - old(st).offset),
        final(st).offset <= final(st).results@.len(),
        rows@ == old(st).results@.subrange(old(st).offset as int, final(st).offset as int),
{
    let start = st.offset;
    let len = st.results.len();
    let remaining = len - start;
    let n = if remaining < CHUNK_ROWS { remaining } else { CHUNK_ROWS };
    let mut rows: Vec<String> = Vec::new();
    let mut i: usize = 0;
    while i < n
        invariant
            i <= n,
            start + n <= len == st.results@.len(),
            rows@ == st.results@.subrange(start as int, start + i),
        decreases n - i,
    {
        rows.push(st.results[start + i].clone());
        proof {
            assert(st.results@.subrange(start as int, start + i + 1)
                =~= st.results@.subrange(start as int, start + i).push(st.results@[start + i]));
        }
        i = i + 1;
    }
    st.offset = start + n;
    rows
}

} // verus!
