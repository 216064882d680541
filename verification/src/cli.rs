//! The decisions of the command-line tool: where input comes from, which
//! results are shown, and how they are written as JSON.

use vstd::prelude::*;
use crate::text::{push_char, is_whitespace, str_eq};
use crate::xpath::grammar::ws_char;
use crate::xpath::parser::chars_vec;
use crate::xpath::semantics::{is_element_kind, elem_name};
use crate::index::XmlIndex;
use crate::index::model::IndexView;

verus! {

/// Where a document is read from.
pub enum Source {
    File(String),
    Stdin,
}

/// The name standard input is shown under.
pub open spec fn stdin_name() -> Seq<char> {
    seq!['<', 's', 't', 'd', 'i', 'n', '>']
}

impl Source {
    /// The name a source is shown under: its path, or `<stdin>`.
    pub fn display_name(&self) -> (r: &str)
        ensures
            match self {
                Source::File(path) => r@ == path@,
                Source::Stdin => r@ == stdin_name(),
            },
    {
        match self {
            Source::File(path) => path.as_str(),
            Source::Stdin => {
                proof { reveal_strlit("<stdin>"); }
                "<stdin>"
            },
        }
    }
}

/// The sources named on the command line: `-` is standard input, anything
/// else a file path.
pub fn sources_from_args(files: &[String]) -> (r: Vec<Source>)
    ensures
        r@.len() == files@.len(),
        forall|i: int| 0 <= i < files@.len() ==> (#[trigger] r@[i] matches Source::File(p) ==> p@ == files@[i]@),
        forall|i: int| 0 <= i < files@.len() ==> ((#[trigger] r@[i] is Stdin) <==> files@[i]@ == seq!['-']),
{
    proof { reveal_strlit("-"); }
    let mut sources: Vec<Source> = Vec::new();
    let mut k: usize = 0;
    while k < files.len()
        invariant
            k <= files@.len(),
            sources@.len() == k,
            "-"@ == seq!['-'],
            forall|i: int| 0 <= i < k ==> (#[trigger] sources@[i] matches Source::File(p) ==> p@ == files@[i]@),
            forall|i: int| 0 <= i < k ==> ((#[trigger] sources@[i] is Stdin) <==> files@[i]@ == seq!['-']),
        decreases files@.len() - k,
    {
        let f = &files[k];
        if str_eq(f.as_str(), "-") {
            sources.push(Source::Stdin);
        } else {
            sources.push(Source::File(f.clone()));
        }
        k = k + 1;
    }
    sources
}

/// The text is white space only (what `str::trim` leaves empty).
pub open spec fn blank(s: Seq<char>) -> bool {
    forall|i: int| 0 <= i < s.len() ==> ws_char(#[trigger] s[i])
}

/// Whether a result holds only white space (such results are not shown
/// unless asked for).
pub fn is_blank(s: &str) -> (r: bool)
    ensures
        r == blank(s@),
{
    let cs = chars_vec(s);
    let mut k: usize = 0;
    while k < cs.len()
        invariant
            k <= cs@.len(),
            cs@ == s@,
            forall|i: int| 0 <= i < k ==> ws_char(#[trigger] cs@[i]),
        decreases cs@.len() - k,
    {
        if !is_whitespace(cs[k]) {
            return false;
        }
        k = k + 1;
    }
    true
}

/// The texts that are not white space only, in order.
pub open spec fn non_blank(ts: Seq<Seq<char>>) -> Seq<Seq<char>>
    decreases ts.len(),
{
    if ts.len() == 0 {
        seq![]
    } else {
        non_blank(ts.drop_last()) + (if blank(ts.last()) { seq![] } else { seq![ts.last()] })
    }
}

/// The results that are shown: all of them when `whitespace` is asked for,
/// else those that are not white space only.
pub fn shown<'s>(texts: Vec<&'s str>, whitespace: bool) -> (r: Vec<&'s str>)
    ensures
        r@.map_values(|x: &str| x@) == (if whitespace {
            texts@.map_values(|x: &str| x@)
        } else {
            non_blank(texts@.map_values(|x: &str| x@))
        }),
{
    if whitespace {
        return texts;
    }
    let ghost all = texts@.map_values(|x: &str| x@);
    let mut out: Vec<&'s str> = Vec::new();
    let mut k: usize = 0;
    proof { assert(all.take(0) =~= Seq::<Seq<char>>::empty()); }
    while k < texts.len()
        invariant
            k <= texts@.len(),
            all == texts@.map_values(|x: &str| x@),
            out@.map_values(|x: &str| x@) == non_blank(all.take(k as int)),
        decreases texts@.len() - k,
    {
        let t = texts[k];
        let ghost before = out@.map_values(|x: &str| x@);
        proof {
            assert(all.take(k + 1).drop_last() =~= all.take(k as int));
            assert(all.take(k + 1).last() == t@);
        }
        if !is_blank(t) {
            out.push(t);
            proof { assert(out@.map_values(|x: &str| x@) =~= before + seq![t@]); }
        } else {
            proof { assert(before + Seq::<Seq<char>>::empty() =~= before); }
        }
        k = k + 1;
    }
    proof { assert(all.take(k as int) =~= all); }
    out
}

/// `char::is_control`: the general category Cc, code points U+0000 to
/// U+001F and U+007F to U+009F.
pub open spec fn control(c: char) -> bool {
    (c as u32) <= 0x1f || (0x7f <= (c as u32) && (c as u32) <= 0x9f)
}

/// The lowercase hexadecimal digits.
pub open spec fn hex_digits() -> Seq<char> {
    seq!['0', '1', '2', '3', '4', '5', '6', '7', '8', '9', 'a', 'b', 'c', 'd', 'e', 'f']
}

/// The lowercase hexadecimal digit of `d` (below 16).
pub open spec fn hex_digit(d: nat) -> char {
    hex_digits()[d as int]
}

/// Four lowercase hexadecimal digits of `n` (below 65536).
pub open spec fn hex4(n: nat) -> Seq<char> {
    seq![hex_digit((n / 4096) % 16), hex_digit((n / 256) % 16), hex_digit((n / 16) % 16), hex_digit(n % 16)]
}

/// How one character is written inside a JSON string.
pub open spec fn json_escape(c: char) -> Seq<char> {
    if c == '"' {
        seq!['\\', '"']
    } else if c == '\\' {
        seq!['\\', '\\']
    } else if c == '\n' {
        seq!['\\', 'n']
    } else if c == '\r' {
        seq!['\\', 'r']
    } else if c == '\t' {
        seq!['\\', 't']
    } else if control(c) {
        seq!['\\', 'u'] + hex4(c as nat)
    } else {
        seq![c]
    }
}

/// The escapes of the first `k` characters.
pub open spec fn json_escaped(s: Seq<char>, k: int) -> Seq<char>
    decreases k,
{
    if k <= 0 || k > s.len() { seq![] } else { json_escaped(s, k - 1) + json_escape(s[k - 1]) }
}

/// A JSON string literal of the characters.
pub open spec fn json_literal(s: Seq<char>) -> Seq<char> {
    seq!['"'] + json_escaped(s, s.len() as int) + seq!['"']
}

/// The JSON literals of the first `k` items, separated by commas.
pub open spec fn json_items(items: Seq<Seq<char>>, k: int) -> Seq<char>
    decreases k,
{
    if k <= 0 || k > items.len() {
        seq![]
    } else if k == 1 {
        json_literal(items[0])
    } else {
        json_items(items, k - 1) + seq![','] + json_literal(items[k - 1])
    }
}

/// A JSON array of string literals, with a line feed after it.
pub open spec fn json_array_text(items: Seq<Seq<char>>) -> Seq<char> {
    seq!['['] + json_items(items, items.len() as int) + seq![']', '\n']
}

/// Appends the characters of `cs` to `out`.
fn push_all(out: &mut String, cs: &[char])
    ensures
        final(out)@ == old(out)@ + cs@,
{
    let ghost start = out@;
    let mut k: usize = 0;
    while k < cs.len()
        invariant
            k <= cs@.len(),
            out@ == start + cs@.take(k as int),
        decreases cs@.len() - k,
    {
        push_char(out, cs[k]);
        proof { assert(cs@.take(k + 1) =~= cs@.take(k as int).push(cs@[k as int])); }
        k = k + 1;
    }
    proof { assert(cs@.take(cs@.len() as int) =~= cs@); }
}

/// The lowercase hexadecimal digit of `d`.
fn hex_char(d: u32) -> (r: char)
    requires
        d < 16,
    ensures
        r == hex_digit(d as nat),
{
    let digits = ['0', '1', '2', '3', '4', '5', '6', '7', '8', '9', 'a', 'b', 'c', 'd', 'e', 'f'];
    proof { assert(digits@ =~= hex_digits()); }
    digits[d as usize]
}

/// Appends how `c` is written inside a JSON string.
fn push_escaped(out: &mut String, c: char)
    ensures
        final(out)@ == old(out)@ + json_escape(c),
{
    if c == '"' {
        push_all(out, &['\\', '"']);
    } else if c == '\\' {
        push_all(out, &['\\', '\\']);
    } else if c == '\n' {
        push_all(out, &['\\', 'n']);
    } else if c == '\r' {
        push_all(out, &['\\', 'r']);
    } else if c == '\t' {
        push_all(out, &['\\', 't']);
    } else {
        let n = c as u32;
        if n <= 0x1f || (0x7f <= n && n <= 0x9f) {
            let d3 = hex_char((n / 4096) % 16);
            let d2 = hex_char((n / 256) % 16);
            let d1 = hex_char((n / 16) % 16);
            let d0 = hex_char(n % 16);
            push_all(out, &['\\', 'u', d3, d2, d1, d0]);
            proof { assert(seq!['\\', 'u', d3, d2, d1, d0] =~= seq!['\\', 'u'] + hex4(c as nat)); }
        } else {
            push_char(out, c);
            proof { assert(seq![c] == json_escape(c)); }
        }
    }
}

/// Appends a JSON string literal of `s` to `out`.
fn push_json_string(out: &mut String, s: &str)
    ensures
        final(out)@ == old(out)@ + json_literal(s@),
{
    let ghost start = out@;
    let cs = chars_vec(s);
    push_char(out, '"');
    let mut k: usize = 0;
    while k < cs.len()
        invariant
            k <= cs@.len(),
            cs@ == s@,
            out@ == start + seq!['"'] + json_escaped(cs@, k as int),
        decreases cs@.len() - k,
    {
        push_escaped(out, cs[k]);
        proof {
            assert(start + seq!['"'] + json_escaped(cs@, k + 1)
                =~= start + seq!['"'] + json_escaped(cs@, k as int) + json_escape(cs@[k as int]));
        }
        k = k + 1;
    }
    push_char(out, '"');
    proof {
        assert(out@ =~= start + json_literal(s@));
    }
}

/// A string as a JSON string literal: quotes, backslashes, line feeds,
/// carriage returns and tabs escaped, other control characters as `\uXXXX`.
pub fn json_string(s: &str) -> (r: String)
    ensures
        r@ == json_literal(s@),
{
    let mut out = String::new();
    push_json_string(&mut out, s);
    proof { assert(out@ =~= json_literal(s@)); }
    out
}

/// The items as a JSON array of strings, followed by a line feed.
pub fn json_array(items: &[String]) -> (r: String)
    ensures
        r@ == json_array_text(items@.map_values(|s: String| s@)),
{
    let ghost views = items@.map_values(|s: String| s@);
    let mut out = String::new();
    push_char(&mut out, '[');
    let mut k: usize = 0;
    while k < items.len()
        invariant
            k <= items@.len(),
            views == items@.map_values(|s: String| s@),
            out@ == seq!['['] + json_items(views, k as int),
        decreases items@.len() - k,
    {
        if k > 0 {
            push_char(&mut out, ',');
        }
        push_json_string(&mut out, items[k].as_str());
        proof {
            if k == 0 {
                assert(out@ =~= seq!['['] + json_items(views, 1));
            } else {
                assert(out@ =~= seq!['['] + json_items(views, k + 1));
            }
        }
        k = k + 1;
    }
    push_char(&mut out, ']');
    push_char(&mut out, '\n');
    proof { assert(out@ =~= json_array_text(views)); }
    out
}

/// The first entry of `l` from `j` on that counts name `n`.
pub open spec fn find_name(l: Seq<(Seq<char>, nat)>, n: Seq<char>, j: int) -> Option<int>
    decreases l.len() - j,
{
    if j < 0 || j >= l.len() {
        None
    } else if l[j].0 == n {
        Some(j)
    } else {
        find_name(l, n, j + 1)
    }
}

/// One more occurrence of name `n`.
pub open spec fn bump(l: Seq<(Seq<char>, nat)>, n: Seq<char>) -> Seq<(Seq<char>, nat)> {
    match find_name(l, n, 0) {
        Some(j) => l.update(j, (n, l[j].1 + 1)),
        None => l.push((n, 1)),
    }
}

/// The element names among the first `k` tags with how often each occurs,
/// in order of first occurrence.
pub open spec fn counts_upto(v: IndexView, k: int) -> Seq<(Seq<char>, nat)>
    decreases k,
{
    if k <= 0 {
        seq![]
    } else {
        let l = counts_upto(v, k - 1);
        if is_element_kind(v.tags[k - 1].kind) { bump(l, elem_name(v, (k - 1) as usize)) } else { l }
    }
}

/// `x` inserted into a list sorted by decreasing count, after every entry
/// that counts at least as many.
pub open spec fn insert_desc(s: Seq<(Seq<char>, nat)>, x: (Seq<char>, nat)) -> Seq<(Seq<char>, nat)>
    decreases s.len(),
{
    if s.len() == 0 {
        seq![x]
    } else if s.last().1 >= x.1 {
        s.push(x)
    } else {
        insert_desc(s.drop_last(), x).push(s.last())
    }
}

/// The first `k` entries sorted by decreasing count, ties in their order.
pub open spec fn sort_desc(l: Seq<(Seq<char>, nat)>, k: int) -> Seq<(Seq<char>, nat)>
    decreases k,
{
    if k <= 0 || k > l.len() { seq![] } else { insert_desc(sort_desc(l, k - 1), l[k - 1]) }
}

/// The element names of a document with how often each occurs, most
/// frequent first, ties in order of first occurrence.
pub open spec fn tag_counts(v: IndexView) -> Seq<(Seq<char>, nat)> {
    let l = counts_upto(v, v.tags.len() as int);
    sort_desc(l, l.len() as int)
}

/// The view of a list of (name, count) pairs.
pub open spec fn pairs_view(p: Seq<(&str, usize)>) -> Seq<(Seq<char>, nat)> {
    p.map_values(|x: (&str, usize)| (x.0@, x.1 as nat))
}

/// The entry counting `name`, if any.
fn find_entry(list: &Vec<(&str, usize)>, name: &str) -> (r: Option<usize>)
    ensures
        match r {
            Some(j) => find_name(pairs_view(list@), name@, 0) == Some(j as int) && j < list@.len()
                && list@[j as int].0@ == name@,
            None => find_name(pairs_view(list@), name@, 0) is None,
        },
{
    let ghost pv = pairs_view(list@);
    let mut j: usize = 0;
    while j < list.len()
        invariant
            j <= list@.len(),
            pv == pairs_view(list@),
            find_name(pv, name@, 0) == find_name(pv, name@, j as int),
        decreases list@.len() - j,
    {
        if str_eq(list[j].0, name) {
            return Some(j);
        }
        j = j + 1;
    }
    None
}

/// The element names of a document with how often each occurs, most
/// frequent first, ties in order of first occurrence.
pub fn tag_name_counts<'a>(index: &XmlIndex<'a>) -> (r: Vec<(&'a str, usize)>)
    requires
        index.wf(),
    ensures
        pairs_view(r@) == tag_counts(index@),
{
    proof { index.lemma_wf(); }
    let n = index.tag_count();
    let mut counts: Vec<(&'a str, usize)> = Vec::new();
    let mut i: usize = 0;
    while i < n
        invariant
            index.wf(),
            i <= n == index@.tags.len(),
            n == index.tag_types@.len(),
            forall|t: int| 0 <= t < n ==> #[trigger] index.tag_types@[t] == index@.tags[t].kind,
            pairs_view(counts@) == counts_upto(index@, i as int),
            forall|j: int| 0 <= j < counts@.len() ==> (#[trigger] counts@[j]).1 <= i,
        decreases n - i,
    {
        let k = index.tag_types[i];
        if k == crate::index::TagType::Open || k == crate::index::TagType::SelfClose {
            let name = index.tag_name(i);
            match find_entry(&counts, name) {
                Some(j) => {
                    let (stored, c) = counts[j];
                    proof { assert(pairs_view(counts@)[j as int].0 == name@); }
                    counts.set(j, (stored, c + 1));
                    proof {
                        assert(pairs_view(counts@) =~= counts_upto(index@, i as int).update(j as int, (name@, (c + 1) as nat)));
                    }
                },
                None => {
                    counts.push((name, 1));
                    proof {
                        assert(pairs_view(counts@) =~= counts_upto(index@, i as int).push((name@, 1nat)));
                    }
                },
            }
        }
        i = i + 1;
    }
    let ghost l = pairs_view(counts@);
    let mut sorted: Vec<(&'a str, usize)> = Vec::new();
    let mut k: usize = 0;
    while k < counts.len()
        invariant
            k <= counts@.len(),
            l == pairs_view(counts@),
            pairs_view(sorted@) == sort_desc(l, k as int),
        decreases counts@.len() - k,
    {
        insert_sorted(&mut sorted, counts[k]);
        k = k + 1;
    }
    sorted
}

/// Inserts `x` into a list sorted by decreasing count, after every entry
/// that counts at least as many.
fn insert_sorted<'a>(s: &mut Vec<(&'a str, usize)>, x: (&'a str, usize))
    ensures
        pairs_view(final(s)@) == insert_desc(pairs_view(old(s)@), (x.0@, x.1 as nat)),
{
    let ghost xv = (x.0@, x.1 as nat);
    let ghost sv = pairs_view(s@);
    let mut j = s.len();
    proof {
        assert(sv.take(j as int) =~= sv);
        assert(sv.skip(j as int) =~= seq![]);
        assert(insert_desc(sv, xv) + seq![] =~= insert_desc(sv, xv));
    }
    while j > 0 && s[j - 1].1 < x.1
        invariant
            j <= s@.len(),
            sv == pairs_view(s@),
            xv == (x.0@, x.1 as nat),
            insert_desc(sv, xv) == insert_desc(sv.take(j as int), xv) + sv.skip(j as int),
        decreases j,
    {
        proof {
            let t = sv.take(j as int);
            assert(t.drop_last() =~= sv.take(j - 1));
            assert(t.last() == sv[j - 1]);
            assert(sv[j - 1].1 == s@[j - 1].1 as nat);
            assert(!(t.last().1 >= xv.1));
            assert(sv.skip(j - 1) =~= seq![sv[j - 1]] + sv.skip(j as int));
            assert(insert_desc(t, xv) == insert_desc(sv.take(j - 1), xv).push(sv[j - 1]));
            assert(insert_desc(t, xv) + sv.skip(j as int) =~= insert_desc(sv.take(j - 1), xv) + sv.skip(j - 1));
        }
        j = j - 1;
    }
    proof {
        let t = sv.take(j as int);
        assert(insert_desc(t, xv) =~= t.push(xv));
    }
    s.insert(j, x);
    proof {
        assert(pairs_view(s@) =~= sv.take(j as int).push(xv) + sv.skip(j as int));
    }
}

/// The deepest nesting of the first `k` tags.
pub open spec fn max_depth_upto(v: IndexView, k: int) -> nat
    decreases k,
{
    if k <= 0 {
        0
    } else {
        let m = max_depth_upto(v, k - 1);
        if v.tags[k - 1].depth > m { v.tags[k - 1].depth } else { m }
    }
}

/// The deepest nesting of any tag (0 without tags).
pub fn max_depth(index: &XmlIndex) -> (r: u16)
    requires
        index.wf(),
    ensures
        r as nat == max_depth_upto(index@, index@.tags.len() as int),
{
    let n = index.tag_count();
    let mut m: u16 = 0;
    let mut i: usize = 0;
    while i < n
        invariant
            index.wf(),
            i <= n == index@.tags.len(),
            m as nat == max_depth_upto(index@, i as int),
        decreases n - i,
    {
        let d = index.depth_at(i);
        if d > m {
            m = d;
        }
        i = i + 1;
    }
    m
}

} // verus!
