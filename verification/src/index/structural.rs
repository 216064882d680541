//! Sequential structural parsing: one scan over the whole document.

use vstd::prelude::*;
use crate::error::SimdXmlError;
use crate::index::XmlIndex;
use crate::parallel::{ChunkResult, scan_chunk_exec};
use crate::parallel::grammar::scan_chunk;
use crate::parallel::merge::{merge_chunks, all_tags, all_texts, tokens_valid, depth_fits, kinds_of,
    document_view};

verus! {

/// The document is indexable: the scan does not run past its end, its
/// positions fit 32 bits and its nesting fits 16 bits.
pub open spec fn indexable(input: Seq<u8>) -> bool {
    let m = scan_chunk(input, 0);
    &&& input.len() < u32::MAX
    &&& m.overrun is None
    &&& tokens_valid(input.len() as int, m.tags, m.texts)
    &&& depth_fits(kinds_of(m.tags))
}

/// The index of a document: the scan's tags and texts, nested.
pub open spec fn parsed_view(input: Seq<u8>) -> crate::index::model::IndexView {
    document_view(input, scan_chunk(input, 0).tags, scan_chunk(input, 0).texts)
}

/// Parse XML bytes into a structural index, scanning the whole document
/// sequentially.
///
/// A comment, CDATA section or processing instruction left open at the end
/// of the document is an unclosed tag (reported at its start); a document
/// of 4 GiB or more, or nested deeper than 65535 levels, is invalid XML.
pub fn parse_scalar<'a>(input: &'a [u8]) -> (r: Result<XmlIndex<'a>, SimdXmlError>)
    ensures
        match r {
            Ok(index) => indexable(input@) && index.wf() && index@ == parsed_view(input@),
            Err(SimdXmlError::UnclosedTag(offset)) => input@.len() < u32::MAX
                && scan_chunk(input@, 0).overrun == Some(offset as int),
            Err(SimdXmlError::InvalidXml(_)) => !indexable(input@)
                && (input@.len() < u32::MAX ==> scan_chunk(input@, 0).overrun is None),
            Err(_) => false,
        },
{
    if input.len() >= u32::MAX as usize {
        return Err(SimdXmlError::InvalidXml("document too large to index".to_string()));
    }
    let (chunk, overrun) = scan_chunk_exec(input, 0);
    if let Some(offset) = overrun {
        return Err(SimdXmlError::UnclosedTag(offset));
    }
    let ghost m = scan_chunk(input@, 0);
    let mut chunks: Vec<ChunkResult> = Vec::new();
    chunks.push(chunk);
    proof {
        assert(chunks@.drop_last() =~= seq![]);
        assert(all_tags(chunks@.drop_last()) =~= seq![]);
        assert(all_texts(chunks@.drop_last()) =~= seq![]);
        assert(chunks@.last() == chunk);
        assert(all_tags(chunks@) =~= m.tags);
        assert(all_texts(chunks@) =~= m.texts);
    }
    match merge_chunks(input, chunks) {
        Ok(index) => Ok(index),
        Err(_) => Err(SimdXmlError::InvalidXml("invalid structure".to_string())),
    }
}

} // verus!
