#![verifier::loop_isolation(false)]
//! Grouping items by a key into compressed sparse rows: one offsets array
//! and one flat data array, in which the items of key `p` sit, in order,
//! between `offsets[p]` and `offsets[p + 1]`.

use vstd::prelude::*;

verus! {

/// The items among the first `k` whose key is `p`, in order.
pub open spec fn group(keys: Seq<u32>, p: int, k: int) -> Seq<int>
    decreases k,
{
    if k <= 0 {
        seq![]
    } else if keys[k - 1] as int == p {
        group(keys, p, k - 1).push(k - 1)
    } else {
        group(keys, p, k - 1)
    }
}

/// How many of the first `k` items have a key below `bound`.
pub open spec fn below(keys: Seq<u32>, bound: int, k: int) -> int
    decreases k,
{
    if k <= 0 {
        0
    } else if (keys[k - 1] as int) < bound {
        below(keys, bound, k - 1) + 1
    } else {
        below(keys, bound, k - 1)
    }
}

pub proof fn lemma_group_bounds(keys: Seq<u32>, p: int, k: int)
    requires
        0 <= k,
    ensures
        group(keys, p, k).len() <= k,
        forall|j: int| 0 <= j < group(keys, p, k).len() ==> 0 <= #[trigger] group(keys, p, k)[j] < k,
        forall|j: int| 0 <= j < group(keys, p, k).len() ==> keys[#[trigger] group(keys, p, k)[j]] as int == p,
        forall|a: int, b: int| 0 <= a < b < group(keys, p, k).len() ==>
            #[trigger] group(keys, p, k)[a] < #[trigger] group(keys, p, k)[b],
    decreases k,
{
    if k > 0 {
        lemma_group_bounds(keys, p, k - 1);
    }
}

proof fn lemma_below_step(keys: Seq<u32>, bound: int, k: int)
    requires
        0 <= k,
        0 <= bound,
    ensures
        below(keys, bound + 1, k) == below(keys, bound, k) + group(keys, bound, k).len(),
        below(keys, bound, k) <= k,
    decreases k,
{
    if k > 0 {
        lemma_below_step(keys, bound, k - 1);
    }
}

proof fn lemma_below_zero(keys: Seq<u32>, k: int)
    requires
        0 <= k,
    ensures
        below(keys, 0, k) == 0,
    decreases k,
{
    if k > 0 {
        lemma_below_zero(keys, k - 1);
    }
}

proof fn lemma_below_mono(keys: Seq<u32>, a: int, b: int, k: int)
    requires
        0 <= a <= b,
        0 <= k,
    ensures
        below(keys, a, k) <= below(keys, b, k),
    decreases k,
{
    if k > 0 {
        lemma_below_mono(keys, a, b, k - 1);
    }
}

proof fn lemma_group_prefix(keys: Seq<u32>, p: int, k1: int, k2: int)
    requires
        0 <= k1 <= k2,
    ensures
        group(keys, p, k1).len() <= group(keys, p, k2).len(),
        forall|j: int| 0 <= j < group(keys, p, k1).len() ==>
            #[trigger] group(keys, p, k1)[j] == group(keys, p, k2)[j],
    decreases k2 - k1,
{
    if k1 < k2 {
        lemma_group_prefix(keys, p, k1, k2 - 1);
    }
}

/// `len` zeros.
pub fn zeros(len: usize) -> (r: Vec<u32>)
    ensures
        r@.len() == len,
        forall|i: int| 0 <= i < len ==> r@[i] == 0,
{
    filled(len, 0)
}

/// `len` copies of `v`.
pub fn filled(len: usize, v: u32) -> (r: Vec<u32>)
    ensures
        r@.len() == len,
        forall|i: int| 0 <= i < len ==> r@[i] == v,
{
    let mut r: Vec<u32> = Vec::with_capacity(len);
    let mut i: usize = 0;
    while i < len
        invariant
            i <= len,
            r@.len() == i,
            forall|j: int| 0 <= j < i ==> r@[j] == v,
        decreases len - i,
    {
        r.push(v);
        i = i + 1;
    }
    r
}

/// Groups the items `0..keys.len()` by key; keys `>= n` (such as
/// `u32::MAX`) belong to no group.
pub fn group_by_key(keys: &Vec<u32>, n: usize) -> (r: (Vec<u32>, Vec<u32>))
    requires
        n < u32::MAX,
        keys@.len() < u32::MAX,
    ensures
        r.0@.len() == n + 1,
        r.0@[0] == 0,
        r.0@[n as int] == r.1@.len(),
        forall|a: int, b: int| 0 <= a <= b <= n ==> r.0@[a] <= r.0@[b],
        forall|p: int| 0 <= p < n ==> (#[trigger] r.0@[p + 1]) - r.0@[p] == group(keys@, p, keys@.len() as int).len(),
        forall|p: int, j: int| 0 <= p < n && 0 <= j < group(keys@, p, keys@.len() as int).len() ==>
            r.1@[r.0@[p] + j] as int == #[trigger] group(keys@, p, keys@.len() as int)[j],
{
    let len = keys.len();
    let ghost ks = keys@;
    // 1. Count the items of each key.
    let mut counts: Vec<u32> = zeros(n + 1);
    let mut i: usize = 0;
    while i < len
        invariant
            0 <= i <= len,
            counts@.len() == n + 1,
            forall|p: int| 0 <= p < n ==> counts@[p] as int == #[trigger] group(ks, p, i as int).len(),
        decreases len - i,
    {
        let key = keys[i];
        proof {
            assert forall|p: int| 0 <= p < n implies group(ks, p, i + 1) == (if ks[i as int] as int == p {
                group(ks, p, i as int).push(i as int) } else { group(ks, p, i as int) }) by {}
            assert forall|p: int| 0 <= p < n implies #[trigger] group(ks, p, i as int).len() <= i by {
                lemma_group_bounds(ks, p, i as int);
            }
        }
        if key != u32::MAX && (key as usize) < n {
            let c = counts[key as usize];
            assert(c as int == group(ks, key as int, i as int).len());
            proof { lemma_group_bounds(ks, key as int, i as int); }
            counts.set(key as usize, c + 1);
        }
        proof {
            assert forall|p: int| 0 <= p < n implies counts@[p] as int == #[trigger] group(ks, p, i + 1).len() by {
                assert(counts@[p] as int == group(ks, p, i as int).len() + (if ks[i as int] as int == p { 1int } else { 0 }));
            }
        }
        i = i + 1;
    }
    // 2. Prefix sums give the offsets.
    let mut offsets: Vec<u32> = zeros(n + 1);
    let mut p: usize = 0;
    proof { lemma_below_zero(ks, len as int); }
    while p < n
        invariant
            0 <= p <= n,
            offsets@.len() == n + 1,
            counts@.len() == n + 1,
            forall|q: int| 0 <= q < n ==> counts@[q] as int == #[trigger] group(ks, q, len as int).len(),
            forall|q: int| 0 <= q <= p ==> offsets@[q] as int == #[trigger] below(ks, q, len as int),
        decreases n - p,
    {
        proof {
            lemma_below_step(ks, p as int, len as int);
            lemma_below_step(ks, p + 1, len as int);
            assert(offsets@[p as int] as int == below(ks, p as int, len as int));
            assert(counts@[p as int] as int == group(ks, p as int, len as int).len());
        }
        let next = offsets[p] + counts[p];
        offsets.set(p + 1, next);
        p = p + 1;
    }
    proof {
        lemma_below_step(ks, n as int, len as int);
        assert forall|a: int, b: int| 0 <= a <= b <= n implies offsets@[a] <= offsets@[b] by {
            lemma_below_mono(ks, a, b, len as int);
        }
        assert forall|q: int| 0 <= q < n implies (#[trigger] offsets@[q + 1]) - offsets@[q]
            == group(ks, q, len as int).len() by {
            lemma_below_step(ks, q, len as int);
        }
    }
    // 3. Place each item at the next free slot of its key.
    let total = offsets[n] as usize;
    let mut data: Vec<u32> = zeros(total);
    let mut write_pos: Vec<u32> = offsets.clone();
    let mut k: usize = 0;
    while k < len
        invariant
            0 <= k <= len,
            data@.len() == total,
            write_pos@.len() == n + 1,
            offsets@.len() == n + 1,
            offsets@[n as int] == total,
            forall|a: int, b: int| 0 <= a <= b <= n ==> offsets@[a] <= offsets@[b],
            forall|q: int| 0 <= q < n ==> (#[trigger] offsets@[q + 1]) - offsets@[q] == group(ks, q, len as int).len(),
            forall|q: int| 0 <= q < n ==> write_pos@[q] as int == offsets@[q] + #[trigger] group(ks, q, k as int).len(),
            forall|q: int, j: int| 0 <= q < n && 0 <= j < group(ks, q, k as int).len() ==>
                data@[offsets@[q] + j] as int == #[trigger] group(ks, q, k as int)[j],
        decreases len - k,
    {
        let key = keys[k];
        let ghost old_data = data@;
        let ghost old_wp = write_pos@;
        proof {
            assert forall|q: int| 0 <= q < n implies group(ks, q, k + 1) == (if ks[k as int] as int == q {
                group(ks, q, k as int).push(k as int) } else { group(ks, q, k as int) }) by {}
        }
        if key != u32::MAX && (key as usize) < n {
            let w = write_pos[key as usize];
            proof {
                lemma_group_prefix(ks, key as int, k + 1, len as int);
                assert(offsets@[key as int + 1] - offsets@[key as int] == group(ks, key as int, len as int).len());
                assert(w as int == offsets@[key as int] + group(ks, key as int, k as int).len());
                assert(offsets@[key as int + 1] <= offsets@[n as int]);
            }
            data.set(w as usize, k as u32);
            write_pos.set(key as usize, w + 1);
        }
        proof {
            let in_group = key != u32::MAX && (key as int) < n;
            assert forall|q: int| 0 <= q < n implies write_pos@[q] as int == offsets@[q]
                + #[trigger] group(ks, q, k + 1).len() by {
                assert(old_wp[q] as int == offsets@[q] + group(ks, q, k as int).len());
            }
            assert forall|q: int, j: int| 0 <= q < n && 0 <= j < group(ks, q, k + 1).len() implies
                data@[offsets@[q] + j] as int == #[trigger] group(ks, q, k + 1)[j] by {
                lemma_group_prefix(ks, q, k + 1, len as int);
                assert(offsets@[q + 1] - offsets@[q] == group(ks, q, len as int).len());
                if j < group(ks, q, k as int).len() {
                    assert(old_data[offsets@[q] + j] as int == group(ks, q, k as int)[j]);
                    if in_group {
                        let w = old_wp[key as int] as int;
                        assert(old_wp[key as int] as int == offsets@[key as int] + group(ks, key as int, k as int).len());
                        lemma_group_prefix(ks, key as int, k + 1, len as int);
                        assert(offsets@[key as int + 1] - offsets@[key as int] == group(ks, key as int, len as int).len());
                        if q < key as int {
                            assert(offsets@[q + 1] <= offsets@[key as int]);
                        } else if q > key as int {
                            assert(offsets@[key as int + 1] <= offsets@[q]);
                        }
                        assert(offsets@[q] + j != w);
                    }
                } else {
                    assert(old_wp[q] as int == offsets@[q] + group(ks, q, k as int).len());
                }
            }
        }
        k = k + 1;
    }
    (offsets, data)
}

} // verus!
