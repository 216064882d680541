//! SSE4.2 structural character classifier; it uses the scalar classifier.

use vstd::prelude::*;
use super::{StructuralIndex, classifies};
use super::scalar::classify_scalar;

verus! {

/// Classify structural characters (the same masks as the scalar classifier).
pub fn classify_sse42(input: &[u8]) -> (r: StructuralIndex)
    requires
        input@.len() + 64 <= usize::MAX,
    ensures
        classifies(r, input@),
{
    classify_scalar(input)
}

} // verus!
