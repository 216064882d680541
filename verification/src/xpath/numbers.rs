//! XPath comparisons: values converted to numbers, strings or booleans as
//! XPath 1.0 does, and decimal numbers compared exactly, digit by digit.

use vstd::prelude::*;
use crate::index::XmlIndex;
use crate::text::str_eq;
use super::ast::CompareOp;
use super::eval::{Value, string_value_exec, boolean_exec, compare_u64};
use super::parser::chars_vec;
use super::semantics::{XPathNode, Val, boolean, string_value, compare_int, xpath_ws, skip_ws, back_ws, is_digit,
    digits_value, first_dot, Dec, unsigned_dec, string_number, digit_char, int_digits, int_dec, bool_dec, zeros,
    scaled, num_compare, val_number, is_equality, string_vs, nodes_vs_nodes, pair_compares, nodes_vs_value,
    plain_compare, compares};

verus! {

/// Every character is a decimal digit.
pub open spec fn all_digits(s: Seq<char>) -> bool {
    forall|k: int| 0 <= k < s.len() ==> is_digit(#[trigger] s[k])
}

/// A decimal number, computed.
struct DecExec {
    neg: bool,
    digits: Vec<char>,
    scale: usize,
}

impl View for DecExec {
    type V = Dec;

    closed spec fn view(&self) -> Dec {
        Dec { neg: self.neg, digits: self.digits@, scale: self.scale as nat }
    }
}

/// The view of an optional decimal.
spec fn opt_view(d: Option<DecExec>) -> Option<Dec> {
    match d {
        Some(x) => Some(x@),
        None => None,
    }
}

// ---------------------------------------------------------------------------
// Digit strings and their values.
// ---------------------------------------------------------------------------

/// A run of digits has a value of at least 0.
proof fn lemma_digits_nonneg(d: Seq<char>)
    requires
        all_digits(d),
    ensures
        digits_value(d) >= 0,
    decreases d.len(),
{
    if d.len() > 0 {
        assert(is_digit(d[d.len() - 1]));
        assert(all_digits(d.drop_last()) ) by {
            assert forall|k: int| 0 <= k < d.drop_last().len() implies is_digit(#[trigger] d.drop_last()[k]) by {
                assert(d.drop_last()[k] == d[k]);
            }
        }
        lemma_digits_nonneg(d.drop_last());
    }
}

/// A run of digits is worth 0 exactly when all of them are `0`.
proof fn lemma_digits_zero(d: Seq<char>)
    requires
        all_digits(d),
    ensures
        (digits_value(d) == 0) == (forall|k: int| 0 <= k < d.len() ==> #[trigger] d[k] == '0'),
    decreases d.len(),
{
    if d.len() > 0 {
        let p = d.drop_last();
        assert(all_digits(p)) by {
            assert forall|k: int| 0 <= k < p.len() implies is_digit(#[trigger] p[k]) by {
                assert(p[k] == d[k]);
            }
        }
        lemma_digits_zero(p);
        lemma_digits_nonneg(p);
        assert(is_digit(d[d.len() - 1]));
        if forall|k: int| 0 <= k < d.len() ==> #[trigger] d[k] == '0' {
            assert forall|k: int| 0 <= k < p.len() implies #[trigger] p[k] == '0' by {
                assert(p[k] == d[k]);
            }
            assert(d[d.len() - 1] == '0');
        } else {
            let j = choose|k: int| 0 <= k < d.len() && #[trigger] d[k] != '0';
            if j < d.len() - 1 {
                assert(p[j] == d[j]);
            }
        }
    }
}

/// Zeros in front do not change the value of a run of digits.
proof fn lemma_zeros_prefix(z: nat, x: Seq<char>)
    ensures
        digits_value(zeros(z) + x) == digits_value(x),
    decreases x.len(), z,
{
    if x.len() == 0 {
        assert(zeros(z) + x =~= zeros(z));
        if z > 0 {
            assert(zeros(z).drop_last() =~= zeros((z - 1) as nat));
            lemma_zeros_prefix((z - 1) as nat, x);
            assert(zeros((z - 1) as nat) + x =~= zeros((z - 1) as nat));
        }
    } else {
        assert((zeros(z) + x).drop_last() =~= zeros(z) + x.drop_last());
        lemma_zeros_prefix(z, x.drop_last());
    }
}

/// Of two digit runs of the same length that agree before position `k`,
/// the one with the smaller digit there has the smaller value.
proof fn lemma_lex(a: Seq<char>, b: Seq<char>, k: int)
    requires
        a.len() == b.len(),
        0 <= k < a.len(),
        all_digits(a),
        all_digits(b),
        a.take(k) == b.take(k),
        a[k] < b[k],
    ensures
        digits_value(a) < digits_value(b),
    decreases a.len(),
{
    let n = a.len() - 1;
    let pa = a.drop_last();
    let pb = b.drop_last();
    assert(is_digit(a[n]) && is_digit(b[n]));
    if k == n {
        assert(pa =~= a.take(k));
        assert(pb =~= b.take(k));
    } else {
        assert(all_digits(pa)) by {
            assert forall|j: int| 0 <= j < pa.len() implies is_digit(#[trigger] pa[j]) by { assert(pa[j] == a[j]); }
        }
        assert(all_digits(pb)) by {
            assert forall|j: int| 0 <= j < pb.len() implies is_digit(#[trigger] pb[j]) by { assert(pb[j] == b[j]); }
        }
        assert(pa.take(k) =~= a.take(k));
        assert(pb.take(k) =~= b.take(k));
        lemma_lex(pa, pb, k);
    }
}

/// The value of `n`'s decimal digits is `n`; they are digits.
proof fn lemma_int_digits(n: nat)
    ensures
        all_digits(int_digits(n)),
        digits_value(int_digits(n)) == n,
    decreases n,
{
    let c = digit_char(n % 10);
    assert(c as int == n % 10 + 48);
    assert(int_digits(n).last() == c);
    if n < 10 {
        assert(int_digits(n).drop_last() =~= Seq::<char>::empty());
        assert(digits_value(int_digits(n)) == digits_value(Seq::<char>::empty()) * 10 + (c as int - 48));
    } else {
        lemma_int_digits(n / 10);
        let d = int_digits(n);
        assert(d.drop_last() =~= int_digits(n / 10));
        assert(n / 10 * 10 + n % 10 == n);
        assert(digits_value(d) == digits_value(int_digits(n / 10)) * 10 + (c as int - 48));
        assert forall|k: int| 0 <= k < d.len() implies is_digit(#[trigger] d[k]) by {
            if k < d.len() - 1 {
                assert(d[k] == int_digits(n / 10)[k]);
            }
        }
    }
}

// ---------------------------------------------------------------------------
// Reading numbers.
// ---------------------------------------------------------------------------

/// A character is XPath white space.
fn xpath_ws_exec(c: char) -> (r: bool)
    ensures
        r == xpath_ws(c),
{
    c == ' ' || c == '\t' || c == '\r' || c == '\n'
}

/// Where the string's XPath white space ends at the front and begins at
/// the back.
fn trim_bounds(cs: &Vec<char>) -> (r: (usize, usize))
    ensures
        r.0 == skip_ws(cs@, 0),
        r.1 == back_ws(cs@, r.0 as int, cs@.len() as int),
        r.0 <= r.1 <= cs@.len(),
{
    let len = cs.len();
    let mut a: usize = 0;
    while a < len && xpath_ws_exec(cs[a])
        invariant
            a <= len,
            len == cs@.len(),
            skip_ws(cs@, a as int) == skip_ws(cs@, 0),
        decreases len - a,
    {
        a = a + 1;
    }
    let mut b: usize = len;
    while b > a && xpath_ws_exec(cs[b - 1])
        invariant
            a <= b <= len,
            len == cs@.len(),
            back_ws(cs@, a as int, b as int) == back_ws(cs@, a as int, len as int),
        decreases b,
    {
        b = b - 1;
    }
    (a, b)
}

/// The first `.` in `lo..hi`, or `hi`.
fn find_dot(cs: &Vec<char>, lo: usize, hi: usize) -> (d: usize)
    requires
        lo <= hi <= cs@.len(),
    ensures
        lo <= d <= hi,
        d - lo == first_dot(cs@.subrange(lo as int, hi as int), 0),
{
    let ghost u = cs@.subrange(lo as int, hi as int);
    let mut d = lo;
    while d < hi && cs[d] != '.'
        invariant
            lo <= d <= hi <= cs@.len(),
            u == cs@.subrange(lo as int, hi as int),
            first_dot(u, d - lo) == first_dot(u, 0),
        decreases hi - d,
    {
        d = d + 1;
    }
    d
}

/// Whether `lo..hi` holds only digits.
fn digits_in(cs: &Vec<char>, lo: usize, hi: usize) -> (r: bool)
    requires
        lo <= hi <= cs@.len(),
    ensures
        r == (forall|k: int| lo <= k < hi ==> is_digit(#[trigger] cs@[k])),
{
    let mut k = lo;
    while k < hi
        invariant
            lo <= k <= hi <= cs@.len(),
            forall|x: int| lo <= x < k ==> is_digit(#[trigger] cs@[x]),
        decreases hi - k,
    {
        let c = cs[k];
        if !('0' <= c && c <= '9') {
            return false;
        }
        k = k + 1;
    }
    true
}

/// Appends `cs[lo..hi]`.
fn push_range(out: &mut Vec<char>, cs: &Vec<char>, lo: usize, hi: usize)
    requires
        lo <= hi <= cs@.len(),
    ensures
        final(out)@ == old(out)@ + cs@.subrange(lo as int, hi as int),
{
    let mut k = lo;
    while k < hi
        invariant
            lo <= k <= hi <= cs@.len(),
            out@ == old(out)@ + cs@.subrange(lo as int, k as int),
        decreases hi - k,
    {
        out.push(cs[k]);
        proof {
            assert(old(out)@ + cs@.subrange(lo as int, k + 1) =~= (old(out)@ + cs@.subrange(lo as int, k as int)).push(cs@[k as int]));
        }
        k = k + 1;
    }
}

/// XPath's `number()` of a string.
fn string_number_exec(s: &str) -> (r: Option<DecExec>)
    ensures
        opt_view(r) == string_number(s@),
        r matches Some(d) ==> all_digits(d@.digits),
{
    let cs = chars_vec(s);
    let (a, b) = trim_bounds(&cs);
    let neg = a < b && cs[a] == '-';
    let start = if neg { a + 1 } else { a };
    let ghost t = cs@.subrange(a as int, b as int);
    let ghost u = cs@.subrange(start as int, b as int);
    proof {
        if neg {
            assert(t.drop_first() =~= u);
        } else {
            assert(t =~= u);
        }
    }
    let d = find_dot(&cs, start, b);
    let ok_int = digits_in(&cs, start, d);
    let ok_frac = if d < b { digits_in(&cs, d + 1, b) } else { true };
    let has = d > start || (d < b && b - d > 1);
    proof {
        assert(first_dot(u, 0) == d - start);
        assert((forall|k: int| 0 <= k < d - start ==> is_digit(#[trigger] u[k])) == ok_int) by {
            if ok_int {
                assert forall|k: int| 0 <= k < d - start implies is_digit(#[trigger] u[k]) by {
                    assert(u[k] == cs@[start + k]);
                }
            } else {
                let k = choose|k: int| start <= k < d && !is_digit(#[trigger] cs@[k]);
                assert(u[k - start] == cs@[k]);
            }
        }
        assert((forall|k: int| d - start < k < u.len() ==> is_digit(#[trigger] u[k])) == ok_frac) by {
            if ok_frac {
                assert forall|k: int| d - start < k < u.len() implies is_digit(#[trigger] u[k]) by {
                    assert(u[k] == cs@[start + k]);
                }
            } else {
                let k = choose|k: int| d + 1 <= k < b && !is_digit(#[trigger] cs@[k]);
                assert(u[k - start] == cs@[k]);
            }
        }
    }
    if !(ok_int && ok_frac && has) {
        return None;
    }
    let mut digits: Vec<char> = Vec::new();
    push_range(&mut digits, &cs, start, d);
    let scale = if d < b {
        push_range(&mut digits, &cs, d + 1, b);
        b - d - 1
    } else {
        0
    };
    proof {
        assert(u.subrange(0, d - start) =~= cs@.subrange(start as int, d as int));
        if d < b {
            assert(u.subrange(d - start + 1, u.len() as int) =~= cs@.subrange(d + 1, b as int));
            assert(digits@ =~= Seq::<char>::empty() + cs@.subrange(start as int, d as int) + cs@.subrange(d + 1, b as int));
        } else {
            assert(u =~= cs@.subrange(start as int, d as int));
            assert(digits@ =~= u);
        }
        assert forall|k: int| 0 <= k < digits@.len() implies is_digit(#[trigger] digits@[k]) by {
            if k < d - start {
                assert(digits@[k] == cs@[start + k]);
            } else {
                assert(digits@[k] == cs@[d + 1 + (k - (d - start))]);
            }
        }
    }
    Some(DecExec { neg, digits, scale })
}

/// The decimal digits of `n`.
fn int_digits_exec(n: u64) -> (r: Vec<char>)
    ensures
        r@ == int_digits(n as nat),
    decreases n,
{
    let c = ((n % 10) as u8 + 48u8) as char;
    proof {
        assert(c == digit_char((n % 10) as nat));
    }
    if n < 10 {
        let mut v: Vec<char> = Vec::new();
        v.push(c);
        v
    } else {
        let mut v = int_digits_exec(n / 10);
        v.push(c);
        v
    }
}

/// A whole number as a decimal.
fn int_dec_exec(n: u64) -> (r: DecExec)
    ensures
        r@ == int_dec(n as int),
        all_digits(r@.digits),
{
    proof { lemma_int_digits(n as nat); }
    DecExec { neg: false, digits: int_digits_exec(n), scale: 0 }
}

/// A boolean as a decimal: 1 or 0.
fn bool_dec_exec(b: bool) -> (r: DecExec)
    ensures
        r@ == bool_dec(b),
        all_digits(r@.digits),
{
    let mut v: Vec<char> = Vec::new();
    v.push(if b { '1' } else { '0' });
    proof {
        if b { assert(v@ =~= seq!['1']); } else { assert(v@ =~= seq!['0']); }
    }
    DecExec { neg: false, digits: v, scale: 0 }
}

// ---------------------------------------------------------------------------
// Comparing decimals.
// ---------------------------------------------------------------------------

/// `k` zeros, then `x`.
fn pad_left(x: &Vec<char>, k: usize) -> (r: Vec<char>)
    ensures
        r@ == zeros(k as nat) + x@,
{
    let mut r: Vec<char> = Vec::new();
    let mut i: usize = 0;
    while i < k
        invariant
            i <= k,
            r@ == zeros(i as nat),
        decreases k - i,
    {
        r.push('0');
        proof { assert(r@ =~= zeros((i + 1) as nat)); }
        i = i + 1;
    }
    let mut j: usize = 0;
    while j < x.len()
        invariant
            j <= x@.len(),
            r@ == zeros(k as nat) + x@.take(j as int),
        decreases x@.len() - j,
    {
        r.push(x[j]);
        proof { assert(zeros(k as nat) + x@.take(j + 1) =~= (zeros(k as nat) + x@.take(j as int)).push(x@[j as int])); }
        j = j + 1;
    }
    proof { assert(x@.take(j as int) =~= x@); }
    r
}

/// Zeros in front of digits are digits and keep their value.
proof fn lemma_pad_digits(z: nat, x: Seq<char>)
    requires
        all_digits(x),
    ensures
        all_digits(zeros(z) + x),
        digits_value(zeros(z) + x) == digits_value(x),
{
    lemma_zeros_prefix(z, x);
    let p = zeros(z) + x;
    assert forall|k: int| 0 <= k < p.len() implies is_digit(#[trigger] p[k]) by {
        if k >= z { assert(p[k] == x[k - z]); }
    }
}

/// The sign of the difference of two digit runs' values.
#[verifier::spinoff_prover]
fn digits_order(x: &Vec<char>, y: &Vec<char>) -> (c: i8)
    requires
        all_digits(x@),
        all_digits(y@),
    ensures
        (c < 0) == (digits_value(x@) < digits_value(y@)),
        (c == 0) == (digits_value(x@) == digits_value(y@)),
        (c > 0) == (digits_value(x@) > digits_value(y@)),
{
    let m = if x.len() >= y.len() { x.len() } else { y.len() };
    let px = pad_left(x, m - x.len());
    let py = pad_left(y, m - y.len());
    proof {
        lemma_pad_digits((m - x.len()) as nat, x@);
        lemma_pad_digits((m - y.len()) as nat, y@);
    }
    let mut k: usize = 0;
    while k < m
        invariant
            k <= m,
            px@.len() == m,
            py@.len() == m,
            all_digits(px@),
            all_digits(py@),
            digits_value(px@) == digits_value(x@),
            digits_value(py@) == digits_value(y@),
            px@.take(k as int) == py@.take(k as int),
        decreases m - k,
    {
        if px[k] != py[k] {
            proof {
                if px@[k as int] < py@[k as int] {
                    lemma_lex(px@, py@, k as int);
                } else {
                    lemma_lex(py@, px@, k as int);
                }
            }
            return if px[k] < py[k] { -1 } else { 1 };
        }
        proof { assert(px@.take(k + 1) =~= py@.take(k + 1)); }
        k = k + 1;
    }
    proof {
        assert(px@.take(m as int) =~= px@);
        assert(py@.take(m as int) =~= py@);
    }
    0
}

/// A run of digits is worth 0.
fn digits_zero(x: &Vec<char>) -> (r: bool)
    requires
        all_digits(x@),
    ensures
        r == (digits_value(x@) == 0),
{
    proof { lemma_digits_zero(x@); }
    let mut k: usize = 0;
    while k < x.len()
        invariant
            k <= x@.len(),
            forall|j: int| 0 <= j < k ==> #[trigger] x@[j] == '0',
            (digits_value(x@) == 0) == (forall|j: int| 0 <= j < x@.len() ==> #[trigger] x@[j] == '0'),
        decreases x@.len() - k,
    {
        if x[k] != '0' {
            return false;
        }
        k = k + 1;
    }
    true
}

/// A decimal's digits followed by `l - scale` zeros.
fn pad_right(d: &DecExec, l: usize) -> (r: Vec<char>)
    requires
        d.scale <= l,
        all_digits(d@.digits),
    ensures
        r@ == d@.digits + zeros((l - d.scale) as nat),
        all_digits(r@),
{
    let mut r: Vec<char> = Vec::new();
    let mut j: usize = 0;
    while j < d.digits.len()
        invariant
            j <= d.digits@.len(),
            r@ == d.digits@.take(j as int),
        decreases d.digits@.len() - j,
    {
        r.push(d.digits[j]);
        proof { assert(d.digits@.take(j + 1) =~= d.digits@.take(j as int).push(d.digits@[j as int])); }
        j = j + 1;
    }
    proof { assert(d.digits@.take(j as int) =~= d.digits@); }
    let k = l - d.scale;
    let mut i: usize = 0;
    while i < k
        invariant
            i <= k,
            r@ == d.digits@ + zeros(i as nat),
        decreases k - i,
    {
        r.push('0');
        proof { assert(d.digits@ + zeros((i + 1) as nat) =~= (d.digits@ + zeros(i as nat)).push('0')); }
        i = i + 1;
    }
    proof {
        assert forall|x: int| 0 <= x < r@.len() implies is_digit(#[trigger] r@[x]) by {
            if x < d.digits@.len() { assert(r@[x] == d.digits@[x]); }
        }
    }
    r
}

/// The sign of the difference of two decimals' values.
fn dec_sign(a: &DecExec, b: &DecExec) -> (c: i8)
    requires
        all_digits(a@.digits),
        all_digits(b@.digits),
    ensures
        ({
            let l = if a@.scale >= b@.scale { a@.scale } else { b@.scale };
            &&& (c < 0) == (scaled(a@, l) < scaled(b@, l))
            &&& (c == 0) == (scaled(a@, l) == scaled(b@, l))
            &&& (c > 0) == (scaled(a@, l) > scaled(b@, l))
        }),
{
    let l = if a.scale >= b.scale { a.scale } else { b.scale };
    let x = pad_right(a, l);
    let y = pad_right(b, l);
    let mc = digits_order(&x, &y);
    let zx = digits_zero(&x);
    let zy = digits_zero(&y);
    proof {
        lemma_digits_nonneg(x@);
        lemma_digits_nonneg(y@);
    }
    let na = a.neg && !zx;
    let nb = b.neg && !zy;
    if !na && !nb {
        mc
    } else if na && nb {
        if mc < 0 { 1 } else if mc == 0 { 0 } else { -1 }
    } else if na {
        -1
    } else {
        1
    }
}

/// Two XPath numbers compared.
fn num_compare_exec(op: CompareOp, a: &Option<DecExec>, b: &Option<DecExec>) -> (r: bool)
    requires
        a matches Some(x) ==> all_digits(x@.digits),
        b matches Some(y) ==> all_digits(y@.digits),
    ensures
        r == num_compare(op, opt_view(*a), opt_view(*b)),
{
    match (a, b) {
        (Some(x), Some(y)) => {
            let c = dec_sign(x, y);
            match op {
                CompareOp::Eq => c == 0,
                CompareOp::Ne => c != 0,
                CompareOp::Lt => c < 0,
                CompareOp::Le => c <= 0,
                CompareOp::Gt => c > 0,
                CompareOp::Ge => c >= 0,
            }
        },
        _ => match op {
            CompareOp::Ne => true,
            _ => false,
        },
    }
}

/// XPath's `number()` of a value.
fn val_number_exec(index: &XmlIndex, x: &Value) -> (r: Option<DecExec>)
    requires
        index.wf(),
    ensures
        opt_view(r) == val_number(index@, x@),
        r matches Some(d) ==> all_digits(d@.digits),
{
    match x {
        Value::Num(n) => Some(int_dec_exec(*n)),
        Value::Bool(b) => Some(bool_dec_exec(*b)),
        Value::Str(s) => string_number_exec(s.as_str()),
        Value::Nodes(ns) => if ns.len() > 0 {
            let sv = string_value_exec(index, ns[0]);
            string_number_exec(sv.as_str())
        } else {
            None
        },
    }
}

// ---------------------------------------------------------------------------
// Comparing values.
// ---------------------------------------------------------------------------

/// A node's string value compared with a value.
fn string_vs_exec(index: &XmlIndex, op: CompareOp, s: &String, other: &Value, swapped: bool) -> (r: bool)
    requires
        index.wf(),
    ensures
        r == string_vs(index@, op, s@, other@, swapped),
{
    let eq_op = match op {
        CompareOp::Eq => true,
        CompareOp::Ne => true,
        _ => false,
    };
    if eq_op {
        if let Value::Str(t) = other {
            let same = str_eq(s.as_str(), t.as_str());
            return match op {
                CompareOp::Eq => same,
                _ => !same,
            };
        }
    }
    let mine = string_number_exec(s.as_str());
    let theirs = val_number_exec(index, other);
    if swapped {
        num_compare_exec(op, &theirs, &mine)
    } else {
        num_compare_exec(op, &mine, &theirs)
    }
}

/// A node-set compared with a number or a string: some node compares.
fn nodes_vs_value_exec(index: &XmlIndex, op: CompareOp, ns: &Vec<XPathNode>, other: &Value, swapped: bool) -> (r: bool)
    requires
        index.wf(),
    ensures
        r == nodes_vs_value(index@, op, ns@, other@, swapped),
{
    let mut k: usize = 0;
    while k < ns.len()
        invariant
            index.wf(),
            k <= ns@.len(),
            forall|j: int| 0 <= j < k ==> !string_vs(index@, op, string_value(index@, #[trigger] ns@[j]), other@, swapped),
        decreases ns@.len() - k,
    {
        let sv = string_value_exec(index, ns[k]);
        if string_vs_exec(index, op, &sv, other, swapped) {
            proof { assert(string_vs(index@, op, string_value(index@, ns@[k as int]), other@, swapped)); }
            return true;
        }
        k = k + 1;
    }
    false
}

/// Two node-sets compared: some pair of nodes compares.
fn nodes_vs_nodes_exec(index: &XmlIndex, op: CompareOp, xs: &Vec<XPathNode>, ys: &Vec<XPathNode>) -> (r: bool)
    requires
        index.wf(),
    ensures
        r == nodes_vs_nodes(index@, op, xs@, ys@),
{
    let mut i: usize = 0;
    while i < xs.len()
        invariant
            index.wf(),
            i <= xs@.len(),
            forall|a: int, b: int| 0 <= a < i && 0 <= b < ys@.len() ==> !#[trigger] pair_compares(index@, op, xs@[a], ys@[b]),
        decreases xs@.len() - i,
    {
        let sx = string_value_exec(index, xs[i]);
        let mut j: usize = 0;
        while j < ys.len()
            invariant
                index.wf(),
                i < xs@.len(),
                j <= ys@.len(),
                sx@ == string_value(index@, xs@[i as int]),
                forall|a: int, b: int| 0 <= a < i && 0 <= b < ys@.len() ==> !#[trigger] pair_compares(index@, op, xs@[a], ys@[b]),
                forall|b: int| 0 <= b < j ==> !#[trigger] pair_compares(index@, op, xs@[i as int], ys@[b]),
            decreases ys@.len() - j,
        {
            let sy = string_value_exec(index, ys[j]);
            let other = Value::Str(sy);
            if string_vs_exec(index, op, &sx, &other, false) {
                proof { assert(pair_compares(index@, op, xs@[i as int], ys@[j as int])); }
                return true;
            }
            j = j + 1;
        }
        i = i + 1;
    }
    false
}

/// Two values neither of which is a node-set.
fn plain_compare_exec(index: &XmlIndex, op: CompareOp, a: &Value, b: &Value) -> (r: bool)
    requires
        index.wf(),
        !(a@ is Nodes),
        !(b@ is Nodes),
    ensures
        r == plain_compare(index@, op, a@, b@),
{
    let eq_op = match op {
        CompareOp::Eq => true,
        CompareOp::Ne => true,
        _ => false,
    };
    let want = match op {
        CompareOp::Eq => true,
        _ => false,
    };
    if eq_op {
        let a_bool = match a { Value::Bool(_) => true, _ => false };
        let b_bool = match b { Value::Bool(_) => true, _ => false };
        let a_num = match a { Value::Num(_) => true, _ => false };
        let b_num = match b { Value::Num(_) => true, _ => false };
        if a_bool || b_bool {
            return (boolean_exec(a) == boolean_exec(b)) == want;
        }
        if !(a_num || b_num) {
            match (a, b) {
                (Value::Str(x), Value::Str(y)) => {
                    return str_eq(x.as_str(), y.as_str()) == want;
                },
                _ => {},
            }
        }
    }
    let na = val_number_exec(index, a);
    let nb = val_number_exec(index, b);
    let r = num_compare_exec(op, &na, &nb);
    proof {
        if eq_op && !(a@ is Bool || b@ is Bool) && !(a@ is Num || b@ is Num) {
            assert(a@ is Str && b@ is Str || a@ is Nodes || b@ is Nodes);
        }
    }
    r
}

/// A comparison of two values, converting as XPath 1.0 does.
pub(crate) fn compare_exec(index: &XmlIndex, op: CompareOp, a: Value, b: Value) -> (r: Value)
    requires
        index.wf(),
    ensures
        r@ == Val::Bool(compares(index@, op, a@, b@)),
{
    let c = match (&a, &b) {
        (Value::Num(x), Value::Num(y)) => compare_u64(op, *x, *y),
        (Value::Nodes(xs), Value::Nodes(ys)) => nodes_vs_nodes_exec(index, op, xs, ys),
        (Value::Nodes(xs), Value::Bool(y)) => {
            let l = Some(bool_dec_exec(xs.len() > 0));
            let r = Some(bool_dec_exec(*y));
            num_compare_exec(op, &l, &r)
        },
        (Value::Bool(x), Value::Nodes(ys)) => {
            let l = Some(bool_dec_exec(*x));
            let r = Some(bool_dec_exec(ys.len() > 0));
            num_compare_exec(op, &l, &r)
        },
        (Value::Nodes(xs), _) => nodes_vs_value_exec(index, op, xs, &b, false),
        (_, Value::Nodes(ys)) => nodes_vs_value_exec(index, op, ys, &a, true),
        _ => plain_compare_exec(index, op, &a, &b),
    };
    Value::Bool(c)
}

} // verus!
