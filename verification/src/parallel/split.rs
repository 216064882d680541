//! Where a document can be cut into chunks for parallel parsing: just after
//! a `>` that lies between tags.

use vstd::prelude::*;
use super::grammar::{is_ws, find_from, lemma_find_from, GT, LT};
use super::scanner::{find_byte, ascii_ws};

verus! {

/// Minimum document size (bytes) to benefit from parallel parsing.
/// Below this, the thread overhead exceeds the parallel speedup.
pub const MIN_PARALLEL_SIZE: usize = 64 * 1024;

/// How far back from a target the search for a boundary goes.
pub const BOUNDARY_WINDOW: usize = 4096;

/// The first position at or after `p` that is not ASCII white space.
pub open spec fn ws_skip(s: Seq<u8>, p: int) -> int
    decreases s.len() - p,
{
    if 0 <= p < s.len() && is_ws(s[p]) { ws_skip(s, p + 1) } else { p }
}

/// The `>` at `pos` is followed, past white space, by `<` or the end.
pub open spec fn between_tags(s: Seq<u8>, pos: int) -> bool {
    0 <= pos < s.len() && s[pos] == GT && {
        let q = ws_skip(s, pos + 1);
        q >= s.len() || s[q] == LT
    }
}

/// The last position of `lo..hi` holding a `>` between tags.
pub open spec fn last_boundary(s: Seq<u8>, lo: int, hi: int) -> Option<int>
    decreases hi - lo,
{
    if hi <= lo {
        None
    } else if between_tags(s, hi - 1) {
        Some(hi - 1)
    } else {
        last_boundary(s, lo, hi - 1)
    }
}

/// A safe boundary near `target`: just after the last `>` between tags in
/// the window before it, else just after the first `>` from it on.
pub open spec fn safe_boundary(s: Seq<u8>, target: int) -> Option<int> {
    let t = if target < s.len() { target } else { s.len() as int };
    let lo = if t >= BOUNDARY_WINDOW { t - BOUNDARY_WINDOW } else { 0 };
    match last_boundary(s, lo, t) {
        Some(p) => Some(p + 1),
        None => match find_from(s, GT, t) {
            Some(p) => Some(p + 1),
            None => None,
        },
    }
}

/// The split points chosen for the targets of chunks `1..i`: each boundary
/// found is kept when it lies after the previous split and before the end.
pub open spec fn splits_upto(s: Seq<u8>, n: int, i: int) -> Seq<int>
    decreases i,
{
    if i <= 1 {
        seq![]
    } else {
        let prev = splits_upto(s, n, i - 1);
        let last = if prev.len() == 0 { 0 } else { prev.last() };
        match safe_boundary(s, (i - 1) * ((s.len() as int) / n)) {
            Some(p) => if p > last && p < s.len() { prev.push(p) } else { prev },
            None => prev,
        }
    }
}

/// The boundary found in `lo..hi`, if any, lies in that range and is a `>`
/// between tags.
proof fn lemma_last_boundary(s: Seq<u8>, lo: int, hi: int)
    ensures
        match last_boundary(s, lo, hi) {
            Some(p) => lo <= p < hi && between_tags(s, p),
            None => true,
        },
    decreases hi - lo,
{
    if hi > lo && !between_tags(s, hi - 1) {
        lemma_last_boundary(s, lo, hi - 1);
    }
}

/// A safe boundary comes just after a `>`.
pub proof fn lemma_safe_boundary(s: Seq<u8>, target: int)
    requires
        0 <= target,
    ensures
        safe_boundary(s, target) matches Some(b) ==> 0 < b <= s.len() && s[b - 1] == GT,
{
    let t = if target < s.len() { target } else { s.len() as int };
    let lo = if t >= BOUNDARY_WINDOW { t - BOUNDARY_WINDOW } else { 0 };
    lemma_last_boundary(s, lo, t);
    lemma_find_from(s, GT, t);
}

/// The first position at or after `p` that is not ASCII white space.
fn skip_ws(s: &[u8], p: usize) -> (r: usize)
    requires
        p <= s@.len(),
    ensures
        r as int == ws_skip(s@, p as int),
        p <= r <= s@.len(),
{
    let mut q = p;
    while q < s.len() && ascii_ws(s[q])
        invariant
            p <= q <= s@.len(),
            ws_skip(s@, p as int) == ws_skip(s@, q as int),
        decreases s@.len() - q,
    {
        q = q + 1;
    }
    q
}

/// Find a safe boundary near `target` — a position just after `>` that's
/// between tags.
pub fn find_safe_boundary(input: &[u8], target: usize) -> (r: Option<usize>)
    requires
        input@.len() < usize::MAX,
    ensures
        match r {
            Some(b) => safe_boundary(input@, target as int) == Some(b as int),
            None => safe_boundary(input@, target as int) is None,
        },
        r matches Some(b) ==> 0 < b <= input@.len() && input@[b - 1] == GT,
{
    proof { lemma_safe_boundary(input@, target as int); }
    let len = input.len();
    let t = if target < len { target } else { len };
    // Search backward from target for a `>` not inside a comment/CDATA
    let lo = if t >= BOUNDARY_WINDOW { t - BOUNDARY_WINDOW } else { 0 };
    let mut pos = t;
    while pos > lo
        invariant
            lo <= pos <= t <= len == input@.len(),
            t == (if target < len { target } else { len }),
            lo == (if t >= BOUNDARY_WINDOW { t - BOUNDARY_WINDOW } else { 0 }),
            last_boundary(input@, lo as int, pos as int) == last_boundary(input@, lo as int, t as int),
        decreases pos,
    {
        pos = pos - 1;
        if input[pos] == GT {
            // The next meaningful byte must be `<` (start of the next tag) or the end
            let after = pos + 1;
            let check = skip_ws(input, after);
            if check >= len || input[check] == LT {
                return Some(after);
            }
        }
    }
    // Fallback: search forward from target
    match find_byte(input, GT, t) {
        Some(p) => Some(p + 1),
        None => None,
    }
}

/// Find the split points for `num_chunks` chunks, in increasing order.
pub fn find_split_points(input: &[u8], num_chunks: usize) -> (r: Vec<usize>)
    requires
        num_chunks > 0,
        input@.len() < usize::MAX,
    ensures
        r@.map_values(|p: usize| p as int) == splits_upto(input@, num_chunks as int, num_chunks as int),
        forall|i: int, j: int| 0 <= i < j < r@.len() ==> r@[i] < r@[j],
        forall|i: int| 0 <= i < r@.len() ==> 0 < #[trigger] r@[i] < input@.len() && input@[r@[i] - 1] == GT,
{
    let len = input.len();
    let chunk_size = len / num_chunks;
    let mut splits: Vec<usize> = Vec::new();
    let mut i: usize = 1;
    while i < num_chunks
        invariant
            1 <= i <= num_chunks,
            len == input@.len() < usize::MAX,
            chunk_size == len / num_chunks,
            splits@.map_values(|p: usize| p as int) == splits_upto(input@, num_chunks as int, i as int),
            forall|a: int, b: int| 0 <= a < b < splits@.len() ==> splits@[a] < splits@[b],
            forall|a: int| 0 <= a < splits@.len() ==> 0 < #[trigger] splits@[a] < len && input@[splits@[a] - 1] == GT,
        decreases num_chunks - i,
    {
        assert(i * chunk_size <= len) by (nonlinear_arith)
            requires
                i < num_chunks,
                chunk_size == len / num_chunks,
                num_chunks > 0,
        {
            assert(chunk_size * num_chunks <= len);
            assert(i * chunk_size <= num_chunks * chunk_size);
        }
        let target = i * chunk_size;
        let ghost prev = splits@;
        if let Some(pos) = find_safe_boundary(input, target) {
            // Don't create empty chunks or duplicate splits
            let last = if splits.len() == 0 { 0 } else { splits[splits.len() - 1] };
            if pos > last && pos < len {
                splits.push(pos);
                proof {
                    assert(splits@.map_values(|p: usize| p as int) =~= prev.map_values(|p: usize| p as int).push(pos as int));
                }
            }
        }
        proof {
            let m = prev.map_values(|p: usize| p as int);
            assert(m.len() == prev.len());
            assert(prev.len() > 0 ==> m.last() == prev.last() as int);
            assert(splits@.map_values(|p: usize| p as int) =~= splits_upto(input@, num_chunks as int, i + 1));
        }
        i = i + 1;
    }
    splits
}

/// How many chunks to parse a document of `len` bytes in with up to
/// `num_threads` threads: none (parse sequentially) for one thread or a
/// document under `MIN_PARALLEL_SIZE`, else at most one chunk per half of
/// that size.
pub fn parallel_chunks(len: usize, num_threads: usize) -> (r: Option<usize>)
    ensures
        r == (if num_threads <= 1 || len < MIN_PARALLEL_SIZE {
            None::<usize>
        } else if num_threads < len / (MIN_PARALLEL_SIZE / 2) {
            Some(num_threads)
        } else {
            Some((len / (MIN_PARALLEL_SIZE / 2)) as usize)
        }),
        r matches Some(k) ==> k >= 1,
{
    if num_threads <= 1 || len < MIN_PARALLEL_SIZE {
        return None;
    }
    let cap = len / (MIN_PARALLEL_SIZE / 2);
    if num_threads < cap { Some(num_threads) } else { Some(cap) }
}

} // verus!
