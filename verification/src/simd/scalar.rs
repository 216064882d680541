//! Scalar fallback structural character classifier.
//!
//! Byte-at-a-time classification used as the universal fallback on platforms
//! without a dedicated SIMD backend.

use vstd::prelude::*;
use super::{StructuralIndex, class_state, structural_at, bit_at, classifies};

verus! {

proof fn lemma_set_bit(x: u64, b: u64, c: u64)
    requires
        b < 64,
        c < 64,
    ensures
        ((x | (1u64 << b)) >> c) & 1u64 == (if b == c { 1u64 } else { (x >> c) & 1u64 }),
{
    assert(((x | (1u64 << b)) >> c) & 1u64 == (if b == c { 1u64 } else { (x >> c) & 1u64 })) by (bit_vector)
        requires b < 64, c < 64;
}

proof fn lemma_zero_bits(c: u64)
    requires
        c < 64,
    ensures
        (0u64 >> c) & 1u64 == 0u64,
{
    assert((0u64 >> c) & 1u64 == 0u64) by (bit_vector);
}

/// Sets bit `i` of the words.
fn set_bit(words: &mut Vec<u64>, i: usize)
    requires
        i / 64 < old(words)@.len(),
    ensures
        final(words)@.len() == old(words)@.len(),
        forall|j: int| 0 <= j < 64 * old(words)@.len() ==>
            (#[trigger] bit_at(final(words)@, j) <==> (j == i || bit_at(old(words)@, j))),
{
    let chunk = i / 64;
    let bit = i % 64;
    let w = words[chunk];
    words.set(chunk, w | (1u64 << bit as u64));
    proof {
        assert forall|j: int| 0 <= j < 64 * old(words)@.len() implies
            (#[trigger] bit_at(words@, j) <==> (j == i || bit_at(old(words)@, j))) by {
            lemma_set_bit(w, bit as u64, (j % 64) as u64);
            if j / 64 != chunk as int {
                assert(words@[j / 64] == old(words)@[j / 64]);
            } else if j != i {
                assert(j % 64 != bit);
            }
        }
    }
}

/// Scalar fallback: byte-at-a-time classification.
pub fn classify_scalar(input: &[u8]) -> (r: StructuralIndex)
    requires
        input@.len() + 64 <= usize::MAX,
    ensures
        classifies(r, input@),
{
    let num_chunks = (input.len() + 63) / 64;
    let mut lt_bits: Vec<u64> = Vec::with_capacity(num_chunks);
    let mut gt_bits: Vec<u64> = Vec::with_capacity(num_chunks);
    let mut c: usize = 0;
    while c < num_chunks
        invariant
            c <= num_chunks,
            lt_bits@.len() == c,
            gt_bits@.len() == c,
            forall|x: int| 0 <= x < c ==> lt_bits@[x] == 0 && gt_bits@[x] == 0,
        decreases num_chunks - c,
    {
        lt_bits.push(0);
        gt_bits.push(0);
        c = c + 1;
    }
    proof {
        assert forall|j: int| 0 <= j < 64 * num_chunks implies !#[trigger] bit_at(lt_bits@, j) by {
            lemma_zero_bits((j % 64) as u64);
        }
        assert forall|j: int| 0 <= j < 64 * num_chunks implies !#[trigger] bit_at(gt_bits@, j) by {
            lemma_zero_bits((j % 64) as u64);
        }
    }
    let mut in_tag: bool = false;
    let mut in_quote: u8 = 0;
    let mut i: usize = 0;
    while i < input.len()
        invariant
            i <= input@.len(),
            num_chunks == (input@.len() + 63) / 64,
            lt_bits@.len() == num_chunks,
            gt_bits@.len() == num_chunks,
            (in_tag, in_quote) == class_state(input@, i as int),
            forall|j: int| 0 <= j < 64 * num_chunks ==>
                (#[trigger] bit_at(lt_bits@, j) <==> (j < i && structural_at(input@, j, 0x3cu8))),
            forall|j: int| 0 <= j < 64 * num_chunks ==>
                (#[trigger] bit_at(gt_bits@, j) <==> (j < i && structural_at(input@, j, 0x3eu8))),
        decreases input@.len() - i,
    {
        let byte = input[i];
        if in_quote != 0 {
            if byte == in_quote {
                in_quote = 0;
            }
        } else if byte == 0x3cu8 {
            set_bit(&mut lt_bits, i);
            in_tag = true;
        } else if byte == 0x3eu8 {
            set_bit(&mut gt_bits, i);
            in_tag = false;
        } else if in_tag && (byte == 0x22u8 || byte == 0x27u8) {
            in_quote = byte;
        }
        i = i + 1;
    }
    StructuralIndex { lt_bits, gt_bits, len: input.len() }
}

} // verus!
