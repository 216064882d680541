//! Structural character classification: bitmasks of the `<` and `>` bytes
//! that lie outside quoted attribute values inside tags.

pub mod scalar;
pub mod sse42;

use vstd::prelude::*;

verus! {

/// Bitmasks of structural characters: bit `i % 64` of word `i / 64` is set
/// when byte `i` is a structural `<` (resp. `>`).
pub struct StructuralIndex {
    pub lt_bits: Vec<u64>,
    pub gt_bits: Vec<u64>,
    pub len: usize,
}

/// The classifier's state before byte `i`: whether it is inside a tag, and
/// the quote it is inside (0 when none). A `<` outside quotes opens a tag
/// and a `>` outside quotes closes it; inside a tag a `"` or `'` opens a
/// quote (an attribute value) that the same byte closes. Quotes in text do
/// not count.
pub open spec fn class_state(s: Seq<u8>, i: int) -> (bool, u8)
    decreases i,
{
    if i <= 0 {
        (false, 0)
    } else {
        let (t, q) = class_state(s, i - 1);
        let b = s[i - 1];
        if q != 0 {
            if b == q { (t, 0) } else { (t, q) }
        } else if b == 0x3cu8 {
            (true, 0)
        } else if b == 0x3eu8 {
            (false, 0)
        } else if t && (b == 0x22u8 || b == 0x27u8) {
            (t, b)
        } else {
            (t, 0)
        }
    }
}

/// Byte `i` is a `<` (resp. `>`) outside attribute values.
pub open spec fn structural_at(s: Seq<u8>, i: int, c: u8) -> bool {
    class_state(s, i).1 == 0 && s[i] == c
}

/// Bit `i` of a sequence of 64-bit words.
pub open spec fn bit_at(words: Seq<u64>, i: int) -> bool {
    (words[i / 64] >> ((i % 64) as u64)) & 1u64 == 1u64
}

/// The masks describe exactly the structural bytes of `s`.
pub open spec fn classifies(r: StructuralIndex, s: Seq<u8>) -> bool {
    &&& r.len == s.len()
    &&& r.lt_bits@.len() == (s.len() + 63) / 64
    &&& r.gt_bits@.len() == (s.len() + 63) / 64
    &&& forall|i: int| 0 <= i < 64 * r.lt_bits@.len() ==>
        (#[trigger] bit_at(r.lt_bits@, i) <==> (i < s.len() && structural_at(s, i, 0x3cu8)))
    &&& forall|i: int| 0 <= i < 64 * r.gt_bits@.len() ==>
        (#[trigger] bit_at(r.gt_bits@, i) <==> (i < s.len() && structural_at(s, i, 0x3eu8)))
}

} // verus!
