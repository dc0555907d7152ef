//! Full-text search functionality

use vstd::prelude::*;

use crate::cfi::{range_text, range_text_parts, spine_cfi_text, Cfi};
use crate::text::{
    byte_len, char_width, chars_of, lemma_byte_len_take_lt, find_from, find_seq_from, lemma_byte_len_prefix, lemma_char_width_bounds, lemma_encode_push,
    lemma_encode_concat, lemma_encode_take, lemma_prefix_is_char_boundary, push_all, string_from_chars, sub_vec,
};
use vstd::utf8::*;
use crate::text_map::{
    char_offsets, is_point_cfi, lemma_find_seq_from_range, lemma_offsets_monotone, offsets_ok,
    plain_steps, scan_limit, spec_point, spec_scan, Side, TextMap,
};

verus! {

broadcast use vstd::seq::group_seq_axioms;

/// Options for search
#[derive(Clone, Copy, Debug)]
pub struct SearchOptions {
    /// Case-insensitive search (default: true)
    pub case_insensitive: bool,
    /// Maximum number of results across the whole book (default: unlimited)
    pub max_results: Option<usize>,
    /// Number of context bytes before/after the match in the excerpt, widened
    /// to whole characters (default: 50)
    pub context_chars: usize,
}

impl SearchOptions {
    pub fn new() -> (o: SearchOptions)
        ensures
            o.case_insensitive,
            o.max_results is None,
            o.context_chars == 50,
    {
        SearchOptions { case_insensitive: true, max_results: None, context_chars: 50 }
    }
}

impl Default for SearchOptions {
    fn default() -> (o: SearchOptions)
        ensures
            o.case_insensitive,
            o.max_results is None,
            o.context_chars == 50,
    {
        SearchOptions::new()
    }
}

/// A search match result
#[derive(Clone, Debug)]
pub struct SearchMatch {
    /// CFI string for the match. A range CFI targeting the matched text when
    /// document structure was available (`search_content`, `matches_in_map`);
    /// a spine-level point CFI otherwise.
    pub cfi: String,
    /// Section index where match was found
    pub section_index: usize,
    /// The matched text (original casing)
    pub matched_text: String,
    /// Text excerpt with surrounding context
    pub excerpt: String,
    /// Byte offset of the match within the section's plain text
    pub offset: usize,
}

// ---------------------------------------------------------------------------
// Lowercasing
// ---------------------------------------------------------------------------

/// What `char::to_lowercase` yields for `c` (Unicode default case mapping).
pub uninterp spec fn char_lower(c: char) -> Seq<char>;

/// What `str::to_lowercase` yields for `s` (per-character mapping plus the
/// final-sigma rule).
pub uninterp spec fn str_lower(s: Seq<char>) -> Seq<char>;

/// `char::to_lowercase`, collected: the characters the standard library
/// lowercases `c` to.
#[verifier::external_body]
fn lower_char(c: char) -> (r: Vec<char>)
    ensures
        r@ == char_lower(c),
{
    c.to_lowercase().collect()
}

/// `str::to_lowercase`: the lowercased string the standard library makes
/// of `s`.
#[verifier::external_body]
fn lower_str(s: &str) -> (r: String)
    ensures
        r@ == str_lower(s@),
{
    s.to_lowercase()
}

/// The lowercased characters of `t`, each with the index of the character
/// of `t` it came from.
pub open spec fn lower_map(t: Seq<char>) -> Seq<(char, usize)>
    decreases t.len(),
{
    if t.len() == 0 {
        Seq::empty()
    } else {
        lower_map(t.drop_last()) + char_lower(t.last()).map_values(
            |c: char| (c, (t.len() - 1) as usize),
        )
    }
}

/// The characters of `t`, each with its own index.
pub open spec fn same_map(t: Seq<char>) -> Seq<(char, usize)> {
    Seq::new(t.len(), |i: int| (t[i], i as usize))
}

/// The searched characters with their origins.
pub open spec fn haystack(t: Seq<char>, ci: bool) -> Seq<(char, usize)> {
    if ci {
        lower_map(t)
    } else {
        same_map(t)
    }
}

/// What is searched for.
pub open spec fn needle_of(q: Seq<char>, ci: bool) -> Seq<char> {
    if ci {
        str_lower(q)
    } else {
        q
    }
}

/// The characters of a haystack.
pub open spec fn hay_chars(h: Seq<(char, usize)>) -> Seq<char> {
    h.map_values(|p: (char, usize)| p.0)
}

/// Matches of `needle` in the haystack from index `from` on, as character
/// ranges `(start, end)` of `t`, appended to `out`: each match covers the
/// characters of `t` that produced it, the next search starts one
/// character after the match's start, and no match is added once `max`
/// results are collected.
pub open spec fn find_all_from(
    h: Seq<(char, usize)>,
    needle: Seq<char>,
    from: int,
    max: Option<usize>,
    out: Seq<(int, int)>,
) -> Seq<(int, int)>
    decreases h.len() - from,
{
    if from < 0 || from >= h.len() || (max matches Some(m) && out.len() >= m) {
        out
    } else {
        let p = find_seq_from(hay_chars(h), from, needle);
        if p < from || p + needle.len() > h.len() || needle.len() == 0 {
            out
        } else {
            find_all_from(h, needle, p + 1, max, out.push((h[p].1 as int, h[p + needle.len() - 1].1 + 1)))
        }
    }
}

/// Matches of the query in `t` as character ranges.
pub open spec fn spec_find_matches(t: Seq<char>, q: Seq<char>, ci: bool, max: Option<usize>) -> Seq<
    (int, int),
> {
    if q.len() == 0 || t.len() == 0 || needle_of(q, ci).len() == 0 {
        Seq::empty()
    } else {
        find_all_from(haystack(t, ci), needle_of(q, ci), 0, max, Seq::empty())
    }
}

/// A character range of `t` as `(byte offset, byte length)`.
pub open spec fn byte_range(t: Seq<char>, r: (int, int)) -> (usize, usize) {
    (byte_len(t.take(r.0)) as usize, (byte_len(t.take(r.1)) - byte_len(t.take(r.0))) as usize)
}

/// Origins of a haystack, in order and within `t`.
pub open spec fn origins_ok(h: Seq<(char, usize)>, n: int) -> bool {
    &&& forall|i: int| 0 <= i < h.len() ==> #[trigger] h[i].1 < n
    &&& forall|i: int, j: int| 0 <= i <= j < h.len() ==> #[trigger] h[i].1 <= #[trigger] h[j].1
}

proof fn lemma_lower_map_origins(t: Seq<char>)
    requires
        t.len() <= usize::MAX,
    ensures
        origins_ok(lower_map(t), t.len() as int),
    decreases t.len(),
{
    if t.len() > 0 {
        let a = lower_map(t.drop_last());
        lemma_lower_map_origins(t.drop_last());
        let b = char_lower(t.last()).map_values(|c: char| (c, (t.len() - 1) as usize));
        let h = a + b;
        assert forall|i: int| 0 <= i < b.len() implies #[trigger] b[i].1 == t.len() - 1 by {}
        assert forall|i: int| 0 <= i < h.len() implies #[trigger] h[i].1 < t.len() by {
            if i < a.len() {
                assert(h[i] == a[i]);
            } else {
                assert(h[i] == b[i - a.len()]);
            }
        }
        assert forall|i: int, j: int| 0 <= i <= j < h.len() implies #[trigger] h[i].1
            <= #[trigger] h[j].1 by {
            if j < a.len() {
                assert(h[i] == a[i] && h[j] == a[j]);
            } else if i < a.len() {
                assert(h[i] == a[i] && h[j] == b[j - a.len()]);
            } else {
                assert(h[i] == b[i - a.len()] && h[j] == b[j - a.len()]);
            }
        }
    }
}

proof fn lemma_find_all_max(h: Seq<(char, usize)>, needle: Seq<char>, from: int, m: usize, out: Seq<(int, int)>)
    requires
        out.len() <= m,
    ensures
        find_all_from(h, needle, from, Some(m), out).len() <= m,
    decreases h.len() - from,
{
    if !(from < 0 || from >= h.len() || out.len() >= m) {
        let p = find_seq_from(hay_chars(h), from, needle);
        if !(p < from || p + needle.len() > h.len() || needle.len() == 0) {
            let out2 = out.push((h[p].1 as int, h[p + needle.len() - 1].1 + 1));
            lemma_find_all_max(h, needle, p + 1, m, out2);
        }
    }
}

/// A search limited to `m` results finds at most `m`.
pub proof fn law_matches_at_most_max(t: Seq<char>, q: Seq<char>, ci: bool, m: usize)
    ensures
        spec_find_matches(t, q, ci, Some(m)).len() <= m,
{
    if !(q.len() == 0 || t.len() == 0 || needle_of(q, ci).len() == 0) {
        lemma_find_all_max(haystack(t, ci), needle_of(q, ci), 0, m, Seq::empty());
    }
}

/// `q` occurs in `t` at `p`.
pub open spec fn occurs(t: Seq<char>, q: Seq<char>, p: int) -> bool {
    0 <= p && p + q.len() <= t.len() && t.subrange(p, p + q.len()) == q
}

proof fn lemma_find_first(s: Seq<char>, from: int, pat: Seq<char>)
    requires
        0 <= from,
    ensures
        find_seq_from(s, from, pat) >= 0 ==> {
            &&& from <= find_seq_from(s, from, pat)
            &&& occurs(s, pat, find_seq_from(s, from, pat))
            &&& forall|j: int| from <= j < find_seq_from(s, from, pat) ==> !#[trigger] occurs(s, pat, j)
        },
        find_seq_from(s, from, pat) < 0 ==> forall|j: int| from <= j ==> !#[trigger] occurs(s, pat, j),
    decreases s.len() + 1 - from,
{
    if !(from > s.len() || from + pat.len() > s.len()) && s.subrange(from, from + pat.len()) != pat {
        lemma_find_first(s, from + 1, pat);
    }
}

/// The occurrences found so far: exactly those before `from`, in order.
pub open spec fn found_exactly(t: Seq<char>, q: Seq<char>, from: int, out: Seq<(int, int)>) -> bool {
    &&& forall|k: int| 0 <= k < out.len() ==> #[trigger] out[k].1 == out[k].0 + q.len() && occurs(t, q, out[k].0) && out[k].0 < from
    &&& forall|p: int| 0 <= p < from && #[trigger] occurs(t, q, p) ==> exists|k: int| 0 <= k < out.len() && #[trigger] out[k].0 == p
    &&& forall|j: int, k: int| 0 <= j < k < out.len() ==> #[trigger] out[j].0 < #[trigger] out[k].0
}

proof fn lemma_found_step(t: Seq<char>, q: Seq<char>, from: int, out: Seq<(int, int)>, p: int)
    requires
        q.len() > 0,
        0 <= from <= p,
        found_exactly(t, q, from, out),
        occurs(t, q, p),
        forall|j: int| from <= j < p ==> !#[trigger] occurs(t, q, j),
    ensures
        found_exactly(t, q, p + 1, out.push((p, p + q.len()))),
{
    let out2 = out.push((p, p + q.len()));
    assert(out2[out.len() as int] == (p, p + q.len()));
    assert forall|k: int| 0 <= k < out2.len() implies #[trigger] out2[k].1 == out2[k].0 + q.len() && occurs(t, q, out2[k].0) && out2[k].0 < p + 1 by {
        if k < out.len() {
            assert(out2[k] == out[k]);
        }
    }
    assert forall|pp: int| 0 <= pp < p + 1 && #[trigger] occurs(t, q, pp) implies exists|k: int| 0 <= k < out2.len() && #[trigger] out2[k].0 == pp by {
        if pp < from {
            let k = choose|k: int| 0 <= k < out.len() && #[trigger] out[k].0 == pp;
            assert(out2[k] == out[k]);
        } else if pp < p {
            assert(!occurs(t, q, pp));
        } else {
            assert(out2[out.len() as int].0 == pp);
        }
    }
    assert forall|j: int, k: int| 0 <= j < k < out2.len() implies #[trigger] out2[j].0 < #[trigger] out2[k].0 by {
        if k < out.len() {
            assert(out2[j] == out[j] && out2[k] == out[k]);
        } else {
            assert(out2[j] == out[j]);
            assert(out[j].1 == out[j].0 + q.len());
            assert(out[j].0 < from);
        }
    }
}

proof fn lemma_find_all_exact(t: Seq<char>, q: Seq<char>, from: int, out: Seq<(int, int)>)
    requires
        q.len() > 0,
        t.len() <= usize::MAX,
        0 <= from,
        found_exactly(t, q, from, out),
    ensures
        found_exactly(t, q, t.len() + 1int, find_all_from(same_map(t), q, from, None, out)),
    decreases t.len() - from,
{
    let h = same_map(t);
    assert(hay_chars(h) =~= t);
    if from >= h.len() {
        assert(find_all_from(h, q, from, None, out) == out);
        assert forall|k: int| 0 <= k < out.len() implies #[trigger] out[k].1 == out[k].0 + q.len()
            && occurs(t, q, out[k].0) && out[k].0 < t.len() + 1 by {
            assert(out[k].1 == out[k].0 + q.len());
        }
        assert forall|p: int| 0 <= p < t.len() + 1 && #[trigger] occurs(t, q, p) implies exists|k: int| 0 <= k < out.len() && #[trigger] out[k].0 == p by {
            assert(p + q.len() <= t.len());
            assert(p < from);
        }
    } else {
        lemma_find_first(t, from, q);
        let p = find_seq_from(t, from, q);
        if p < from || p + q.len() > h.len() {
            assert forall|pp: int| 0 <= pp < t.len() + 1 && #[trigger] occurs(t, q, pp) implies exists|k: int| 0 <= k < out.len() && #[trigger] out[k].0 == pp by {
                if pp >= from {
                    assert(!occurs(t, q, pp));
                }
            }
        } else {
            let out2 = out.push((h[p].1 as int, h[p + q.len() - 1].1 + 1));
            assert(h[p].1 == p);
            assert(h[p + q.len() - 1].1 == p + q.len() - 1);
            assert(out2 == out.push((p, p + q.len())));
            lemma_found_step(t, q, from, out, p);
            lemma_find_all_exact(t, q, p + 1, out2);
            assert(find_all_from(h, q, from, None, out) == find_all_from(h, q, p + 1, None, out2));
        }
    }
}

/// A case-sensitive search without a limit finds exactly the occurrences of
/// the query, overlapping ones included, in order: each match covers the
/// query's characters, and every place the query occurs is a match.
pub proof fn law_exact_search_finds_every_occurrence(t: Seq<char>, q: Seq<char>)
    requires
        q.len() > 0,
        t.len() <= usize::MAX,
    ensures
        found_exactly(t, q, t.len() + 1int, spec_find_matches(t, q, false, None)),
{
    if t.len() == 0 {
        assert forall|p: int| 0 <= p < t.len() + 1 && #[trigger] occurs(t, q, p) implies false by {}
    } else {
        lemma_find_all_exact(t, q, 0, Seq::empty());
    }
}

/// UTF-8 is prefix-free: when the encoding of `a` begins the encoding of
/// `b`, `a` begins `b`.
proof fn lemma_encode_prefix(a: Seq<char>, b: Seq<char>)
    requires
        encode_utf8(a).len() <= encode_utf8(b).len(),
        encode_utf8(b).subrange(0, encode_utf8(a).len() as int) == encode_utf8(a),
    ensures
        a.len() <= b.len(),
        b.take(a.len() as int) == a,
    decreases a.len(),
{
    if a.len() == 0 {
        assert(b.take(0) =~= a);
    } else {
        let x = encode_utf8(a);
        let y = encode_utf8(b);
        assert(x.len() > 0) by {
            lemma_char_width_bounds(a[0]);
        }
        assert(b.len() > 0);
        encode_utf8_first_scalar(a);
        encode_utf8_first_scalar(b);
        let la = length_of_first_scalar(x);
        assert forall|i: int| 0 <= i < x.len() implies x[i] == #[trigger] y[i] by {
            assert(y.subrange(0, x.len() as int)[i] == y[i]);
        }
        assert(la <= x.len());
        assert(length_of_first_scalar(y) == la);
        assert(decode_first_scalar(y) == decode_first_scalar(x));
        char_u32_cast(a[0], decode_first_scalar(x));
        char_u32_cast(b[0], decode_first_scalar(y));
        assert(a[0] == b[0]);
        let ra = a.drop_first();
        let rb = b.drop_first();
        assert(encode_utf8(ra) =~= x.subrange(la, x.len() as int));
        assert(encode_utf8(rb) =~= y.subrange(la, y.len() as int));
        assert(encode_utf8(rb).subrange(0, encode_utf8(ra).len() as int) =~= encode_utf8(ra));
        lemma_encode_prefix(ra, rb);
        assert(b.take(a.len() as int) =~= seq![b[0]] + rb.take(ra.len() as int));
        assert(a =~= seq![a[0]] + ra);
    }
}

/// In a case-sensitive search without a limit, the matches as byte ranges
/// (what [`find_matches`] returns) are exactly the places where the query's
/// bytes occur in the text's bytes at a character boundary: each match is
/// such a place, as long as the query's bytes, and every such place is the
/// start of a match.
pub proof fn law_exact_search_bytes(t: Seq<char>, q: Seq<char>)
    requires
        q.len() > 0,
        t.len() <= usize::MAX,
        byte_len(t) <= usize::MAX,
    ensures
        forall|k: int| 0 <= k < spec_find_matches(t, q, false, None).len() ==> {
            let br = #[trigger] byte_range(t, spec_find_matches(t, q, false, None)[k]);
            &&& br.1 == byte_len(q)
            &&& is_char_boundary(encode_utf8(t), br.0 as int)
            &&& encode_utf8(t).subrange(br.0 as int, br.0 + br.1) == encode_utf8(q)
        },
        forall|o: int|
            #![trigger is_char_boundary(encode_utf8(t), o), encode_utf8(t).subrange(o, o + byte_len(q))]
            is_char_boundary(encode_utf8(t), o) && o + byte_len(q) <= byte_len(t) && encode_utf8(t).subrange(o, o + byte_len(q))
                == encode_utf8(q) ==> exists|k: int|
                0 <= k < spec_find_matches(t, q, false, None).len() && #[trigger] byte_range(t, spec_find_matches(t, q, false, None)[k]).0 == o,
{
    broadcast use vstd::utf8::encode_utf8_valid_utf8, vstd::utf8::encode_utf8_decode_utf8, vstd::utf8::decode_utf8_encode_utf8;

    let ms = spec_find_matches(t, q, false, None);
    let bt = encode_utf8(t);
    law_exact_search_finds_every_occurrence(t, q);
    assert forall|k: int| 0 <= k < ms.len() implies {
        let br = #[trigger] byte_range(t, ms[k]);
        &&& br.1 == byte_len(q)
        &&& is_char_boundary(bt, br.0 as int)
        &&& bt.subrange(br.0 as int, br.0 + br.1) == encode_utf8(q)
    } by {
        let p = ms[k].0;
        assert(ms[k].1 == ms[k].0 + q.len());
        assert(occurs(t, q, p));
        let e = p + q.len();
        assert(t.take(e) =~= t.take(p) + q);
        lemma_encode_concat(t.take(p), q);
        lemma_byte_len_prefix(t, e);
        lemma_byte_len_prefix(t, p);
        lemma_prefix_is_char_boundary(t, p);
        lemma_encode_take(t, e);
        lemma_encode_take(t, p);
        let a = byte_len(t.take(p)) as int;
        let b = byte_len(t.take(e)) as int;
        assert(bt.subrange(a, b) =~= bt.subrange(0, b).subrange(a, b));
        assert(encode_utf8(t.take(e)).subrange(a, b) =~= encode_utf8(q));
    }
    assert forall|o: int|
        #![trigger is_char_boundary(bt, o), bt.subrange(o, o + byte_len(q))]
        is_char_boundary(bt, o) && o + byte_len(q) <= byte_len(t) && bt.subrange(o, o + byte_len(q)) == encode_utf8(q)
        implies exists|k: int| 0 <= k < ms.len() && #[trigger] byte_range(t, ms[k]).0 == o by {
        vstd::utf8::decode_utf8_split(bt, o);
        let pre = decode_utf8(bt.subrange(0, o));
        let rest = decode_utf8(bt.subrange(o, bt.len() as int));
        vstd::utf8::valid_utf8_split(bt, o);
        let p = pre.len() as int;
        assert(t =~= pre + rest);
        assert(t.take(p) =~= pre);
        assert(t.skip(p) =~= rest);
        assert(encode_utf8(pre) == bt.subrange(0, o));
        assert(encode_utf8(rest) == bt.subrange(o, bt.len() as int));
        assert(encode_utf8(rest).subrange(0, encode_utf8(q).len() as int) =~= encode_utf8(q));
        lemma_encode_prefix(q, rest);
        assert(t.subrange(p, p + q.len()) =~= rest.take(q.len() as int));
        assert(occurs(t, q, p));
        let k = choose|k: int| 0 <= k < ms.len() && #[trigger] ms[k].0 == p;
        assert(byte_range(t, ms[k]).0 == byte_len(t.take(p)) as usize);
    }
}

proof fn lemma_find_all_ranges(h: Seq<(char, usize)>, needle: Seq<char>, from: int, max: Option<usize>, out: Seq<(int, int)>, n: int)
    requires
        origins_ok(h, n),
        forall|i: int| 0 <= i < out.len() ==> 0 <= #[trigger] out[i].0 < out[i].1 <= n,
    ensures
        forall|i: int| 0 <= i < find_all_from(h, needle, from, max, out).len() ==> 0 <= #[trigger] find_all_from(h, needle, from, max, out)[i].0
            < find_all_from(h, needle, from, max, out)[i].1 <= n,
        out.len() <= find_all_from(h, needle, from, max, out).len(),
    decreases h.len() - from,
{
    if !(from < 0 || from >= h.len() || (max matches Some(m) && out.len() >= m)) {
        let p = find_seq_from(hay_chars(h), from, needle);
        if !(p < from || p + needle.len() > h.len() || needle.len() == 0) {
            let out2 = out.push((h[p].1 as int, h[p + needle.len() - 1].1 + 1));
            assert(h[p].1 <= h[p + needle.len() - 1].1);
            assert(forall|i: int| 0 <= i < out2.len() ==> 0 <= #[trigger] out2[i].0 < out2[i].1 <= n) by {
                assert forall|i: int| 0 <= i < out2.len() implies 0 <= #[trigger] out2[i].0 < out2[i].1 <= n by {
                    if i < out.len() {
                        assert(out2[i] == out[i]);
                    }
                }
            }
            lemma_find_all_ranges(h, needle, p + 1, max, out2, n);
        }
    }
}

proof fn lemma_find_all_prefix(h: Seq<(char, usize)>, needle: Seq<char>, from: int, max: Option<usize>, out: Seq<(int, int)>)
    ensures
        find_all_from(h, needle, from, max, out).len() >= out.len(),
        find_all_from(h, needle, from, max, out).take(out.len() as int) == out,
    decreases h.len() - from,
{
    if !(from < 0 || from >= h.len() || (max matches Some(m) && out.len() >= m)) {
        let p = find_seq_from(hay_chars(h), from, needle);
        if !(p < from || p + needle.len() > h.len() || needle.len() == 0) {
            let out2 = out.push((h[p].1 as int, h[p + needle.len() - 1].1 + 1));
            lemma_find_all_prefix(h, needle, p + 1, max, out2);
            let r = find_all_from(h, needle, p + 1, max, out2);
            assert(r.take(out.len() as int) =~= r.take(out2.len() as int).take(out.len() as int));
            assert(out2.take(out.len() as int) =~= out);
        }
    } else {
        assert(out.take(out.len() as int) =~= out);
    }
}

proof fn lemma_find_all_capped(h: Seq<(char, usize)>, needle: Seq<char>, from: int, m: usize, out: Seq<(int, int)>)
    requires
        out.len() <= m,
    ensures
        ({
            let all = find_all_from(h, needle, from, None, out);
            find_all_from(h, needle, from, Some(m), out) == all.take(if all.len() <= m { all.len() as int } else { m as int })
        }),
    decreases h.len() - from,
{
    let all = find_all_from(h, needle, from, None, out);
    lemma_find_all_prefix(h, needle, from, None, out);
    if from < 0 || from >= h.len() {
        assert(all.take(all.len() as int) =~= all);
    } else if out.len() >= m {
        assert(all.take(m as int) =~= all.take(out.len() as int));
    } else {
        let p = find_seq_from(hay_chars(h), from, needle);
        if p < from || p + needle.len() > h.len() || needle.len() == 0 {
            assert(all.take(all.len() as int) =~= all);
        } else {
            let out2 = out.push((h[p].1 as int, h[p + needle.len() - 1].1 + 1));
            lemma_find_all_capped(h, needle, p + 1, m, out2);
        }
    }
}

/// A search limited to `m` results finds the first `m` results of the
/// unlimited search (all of them when there are fewer).
pub proof fn law_capped_search_is_prefix(t: Seq<char>, q: Seq<char>, ci: bool, m: usize)
    ensures
        ({
            let all = spec_find_matches(t, q, ci, None);
            spec_find_matches(t, q, ci, Some(m)) == all.take(if all.len() <= m { all.len() as int } else { m as int })
        }),
{
    if q.len() == 0 || t.len() == 0 || needle_of(q, ci).len() == 0 {
        assert(Seq::<(int, int)>::empty().take(0) =~= Seq::<(int, int)>::empty());
    } else {
        lemma_find_all_capped(haystack(t, ci), needle_of(q, ci), 0, m, Seq::empty());
    }
}

proof fn lemma_find_all_sorted(h: Seq<(char, usize)>, needle: Seq<char>, from: int, max: Option<usize>, out: Seq<(int, int)>, n: int)
    requires
        origins_ok(h, n),
        forall|i: int, j: int| 0 <= i <= j < out.len() ==> #[trigger] out[i].0 <= #[trigger] out[j].0,
        forall|i: int, j: int| 0 <= i < out.len() && from <= j < h.len() ==> #[trigger] out[i].0 <= #[trigger] h[j].1,
    ensures
        forall|i: int, j: int| 0 <= i <= j < find_all_from(h, needle, from, max, out).len() ==>
            #[trigger] find_all_from(h, needle, from, max, out)[i].0 <= #[trigger] find_all_from(h, needle, from, max, out)[j].0,
    decreases h.len() - from,
{
    if !(from < 0 || from >= h.len() || (max matches Some(m) && out.len() >= m)) {
        let p = find_seq_from(hay_chars(h), from, needle);
        if !(p < from || p + needle.len() > h.len() || needle.len() == 0) {
            let out2 = out.push((h[p].1 as int, h[p + needle.len() - 1].1 + 1));
            assert forall|i: int, j: int| 0 <= i <= j < out2.len() implies #[trigger] out2[i].0 <= #[trigger] out2[j].0 by {
                if j < out.len() {
                    assert(out2[i] == out[i] && out2[j] == out[j]);
                } else if i < out.len() {
                    assert(out2[i] == out[i] && out[i].0 <= h[p].1);
                }
            }
            assert forall|i: int, j: int| 0 <= i < out2.len() && p + 1 <= j < h.len() implies #[trigger] out2[i].0 <= #[trigger] h[j].1 by {
                assert(h[p].1 <= h[j].1);
                if i < out.len() {
                    assert(out2[i] == out[i] && out[i].0 <= h[p].1);
                }
            }
            lemma_find_all_sorted(h, needle, p + 1, max, out2, n);
            assert(find_all_from(h, needle, from, max, out) == find_all_from(h, needle, p + 1, max, out2));
        }
    }
}

proof fn lemma_same_map_origins(t: Seq<char>)
    requires
        t.len() <= usize::MAX,
    ensures
        origins_ok(same_map(t), t.len() as int),
{
}

/// The matches of a search are ranges of the text, in ascending order of
/// their start; as byte ranges (see [`byte_range`], which is what
/// [`find_matches`] returns) each is non-empty, lies within the text, and
/// starts and ends on character boundaries. An empty query or text has no
/// match.
pub proof fn law_match_ranges(t: Seq<char>, q: Seq<char>, ci: bool, max: Option<usize>)
    requires
        t.len() <= usize::MAX,
        byte_len(t) <= usize::MAX,
    ensures
        (q.len() == 0 || t.len() == 0) ==> spec_find_matches(t, q, ci, max).len() == 0,
        forall|k: int| 0 <= k < spec_find_matches(t, q, ci, max).len() ==> {
            let m = #[trigger] spec_find_matches(t, q, ci, max)[k];
            let br = byte_range(t, m);
            &&& 0 <= m.0 < m.1 <= t.len()
            &&& br.1 > 0
            &&& br.0 + br.1 <= byte_len(t)
            &&& is_char_boundary(encode_utf8(t), br.0 as int)
            &&& is_char_boundary(encode_utf8(t), br.0 + br.1)
        },
        forall|i: int, j: int| 0 <= i <= j < spec_find_matches(t, q, ci, max).len() ==>
            #[trigger] spec_find_matches(t, q, ci, max)[i].0 <= #[trigger] spec_find_matches(t, q, ci, max)[j].0,
{
    let ms = spec_find_matches(t, q, ci, max);
    if !(q.len() == 0 || t.len() == 0 || needle_of(q, ci).len() == 0) {
        let h = haystack(t, ci);
        if ci {
            lemma_lower_map_origins(t);
        } else {
            lemma_same_map_origins(t);
        }
        lemma_find_all_ranges(h, needle_of(q, ci), 0, max, Seq::empty(), t.len() as int);
        lemma_find_all_sorted(h, needle_of(q, ci), 0, max, Seq::empty(), t.len() as int);
    }
    assert forall|k: int| 0 <= k < ms.len() implies {
        let m = #[trigger] ms[k];
        let br = byte_range(t, m);
        &&& 0 <= m.0 < m.1 <= t.len()
        &&& br.1 > 0
        &&& br.0 + br.1 <= byte_len(t)
        &&& is_char_boundary(encode_utf8(t), br.0 as int)
        &&& is_char_boundary(encode_utf8(t), br.0 + br.1)
    } by {
        let m = ms[k];
        lemma_byte_len_take_lt(t, m.0, m.1);
        lemma_prefix_is_char_boundary(t, m.0);
        lemma_prefix_is_char_boundary(t, m.1);
    }
}

proof fn lemma_floor_at_most(t: Seq<char>, k: int, b: int, m0: int)
    requires
        0 <= m0 <= k <= t.len(),
        b <= byte_len(t.take(m0)),
    ensures
        floor_from(t, k, b) <= m0,
    decreases k - m0,
{
    if k == m0 {
        lemma_floor_from(t, k, b);
    } else {
        lemma_byte_len_take_lt(t, m0, k);
        lemma_floor_at_most(t, k - 1, b, m0);
    }
}

proof fn lemma_ceil_at_least(t: Seq<char>, k: int, b: int, m1: int)
    requires
        0 <= k <= m1 <= t.len(),
        byte_len(t.take(m1)) <= b,
    ensures
        ceil_from(t, k, b) >= m1,
    decreases m1 - k,
{
    if k == m1 {
        lemma_ceil_from(t, k, b);
    } else {
        lemma_byte_len_take_lt(t, k, m1);
        lemma_ceil_at_least(t, k + 1, b, m1);
    }
}

/// The excerpt of a match holds the matched text.
pub proof fn law_excerpt_contains_match(t: Seq<char>, m: (int, int), ctx: int)
    requires
        0 <= m.0 <= m.1 <= t.len(),
        ctx >= 0,
    ensures
        exists|p: int|
            0 <= p && p + (m.1 - m.0) <= excerpt_of(t, m, ctx).len() && #[trigger] excerpt_of(t, m, ctx).subrange(p, p + (m.1 - m.0))
                == t.subrange(m.0, m.1),
{
    let off = byte_len(t.take(m.0)) as int;
    let end = byte_len(t.take(m.1)) as int;
    let from = if off > ctx { off - ctx } else { 0 };
    let to = if end + ctx < byte_len(t) { end + ctx } else { byte_len(t) as int };
    lemma_byte_len_prefix(t, m.1);
    let a = floor_from(t, t.len() as int, from);
    let b = ceil_from(t, 0, to);
    lemma_floor_from(t, t.len() as int, from);
    lemma_ceil_from(t, 0, to);
    lemma_floor_at_most(t, t.len() as int, from, m.0);
    lemma_ceil_at_least(t, 0, to, m.1);
    let pre: Seq<char> = if a > 0 { "..."@ } else { Seq::empty() };
    let post: Seq<char> = if b < t.len() { "..."@ } else { Seq::empty() };
    let ex = excerpt_of(t, m, ctx);
    assert(ex == pre + t.subrange(a, b) + post);
    let p = pre.len() + (m.0 - a);
    assert(ex.subrange(p, p + (m.1 - m.0)) =~= t.subrange(m.0, m.1));
}

/// The haystack of `t` as two vectors: characters and origins.
fn make_haystack(t: &Vec<char>, ci: bool) -> (r: (Vec<char>, Vec<usize>))
    ensures
        r.0@.len() == r.1@.len(),
        r.0@ == hay_chars(haystack(t@, ci)),
        forall|i: int| 0 <= i < r.1@.len() ==> r.1@[i] == #[trigger] haystack(t@, ci)[i].1,
        r.0@.len() == haystack(t@, ci).len(),
{
    let mut hc: Vec<char> = Vec::new();
    let mut ho: Vec<usize> = Vec::new();
    let mut i: usize = 0;
    let ghost mut h: Seq<(char, usize)> = Seq::empty();
    assert(t@.take(0) =~= Seq::<char>::empty());
    while i < t.len()
        invariant
            i <= t@.len(),
            h == (if ci {
                lower_map(t@.take(i as int))
            } else {
                same_map(t@.take(i as int))
            }),
            hc@ == hay_chars(h),
            hc@.len() == ho@.len(),
            hc@.len() == h.len(),
            forall|k: int| 0 <= k < ho@.len() ==> ho@[k] == #[trigger] h[k].1,
        decreases t@.len() - i,
    {
        let c = t[i];
        let ghost h_old = h;
        assert(t@.take(i + 1).drop_last() =~= t@.take(i as int));
        assert(t@.take(i + 1).last() == c);
        if ci {
            let lc = lower_char(c);
            let ghost add = char_lower(c).map_values(|x: char| (x, i as usize));
            let mut j: usize = 0;
            while j < lc.len()
                invariant
                    j <= lc@.len(),
                    lc@ == char_lower(c),
                    add == lc@.map_values(|x: char| (x, i as usize)),
                    hc@ == hay_chars(h_old + add.take(j as int)),
                    hc@.len() == ho@.len(),
                    hc@.len() == h_old.len() + j,
                    forall|k: int| 0 <= k < ho@.len() ==> ho@[k] == #[trigger] (h_old + add.take(j as int))[k].1,
                decreases lc@.len() - j,
            {
                hc.push(lc[j]);
                ho.push(i);
                j += 1;
                proof {
                    assert(h_old + add.take(j as int) =~= (h_old + add.take(j - 1)).push((lc@[j - 1], i as usize)));
                    assert(hc@ =~= hay_chars(h_old + add.take(j as int)));
                }
            }
            proof {
                assert(add.take(lc@.len() as int) =~= add);
                h = h_old + add;
                assert(h == lower_map(t@.take(i + 1)));
            }
        } else {
            hc.push(c);
            ho.push(i);
            proof {
                h = h_old.push((c, i as usize));
                assert(h =~= same_map(t@.take(i + 1)));
                assert(hc@ =~= hay_chars(h));
            }
        }
        i += 1;
    }
    assert(t@.take(t@.len() as int) =~= t@);
    (hc, ho)
}

/// Matches of the query in `t` (characters of `text`) as character ranges.
#[verifier::spinoff_prover]
fn find_match_chars(t: &Vec<char>, query: &str, options: &SearchOptions) -> (r: Vec<(usize, usize)>)
    ensures
        r@.len() == spec_find_matches(t@, query@, options.case_insensitive, options.max_results).len(),
        forall|i: int| 0 <= i < r@.len() ==> (#[trigger] r@[i].0 as int, r@[i].1 as int) == spec_find_matches(t@, query@, options.case_insensitive, options.max_results)[i],
        forall|i: int| 0 <= i < r@.len() ==> 0 <= #[trigger] r@[i].0 < r@[i].1 <= t@.len(),
{
    let mut out: Vec<(usize, usize)> = Vec::new();
    let q = chars_of(query);
    if q.len() == 0 || t.len() == 0 {
        return out;
    }
    let ci = options.case_insensitive;
    let needle: Vec<char> = if ci {
        let l = lower_str(query);
        chars_of(l.as_str())
    } else {
        q
    };
    if needle.len() == 0 {
        return out;
    }
    let (hc, ho) = make_haystack(t, ci);
    let ghost h = haystack(t@, ci);
    proof {
        if ci {
            lemma_lower_map_origins(t@);
        } else {
            assert(origins_ok(h, t@.len() as int));
        }
    }
    let max = options.max_results;
    let ghost spec = spec_find_matches(t@, query@, ci, max);
    let mut start: usize = 0;
    let ghost mut outs: Seq<(int, int)> = Seq::empty();
    while start < hc.len()
        invariant
            needle@ == needle_of(query@, ci),
            needle@.len() > 0,
            query@.len() > 0,
            t@.len() > 0,
            h == haystack(t@, ci),
            hc@ == hay_chars(h),
            hc@.len() == ho@.len() == h.len(),
            forall|k: int| 0 <= k < ho@.len() ==> ho@[k] == #[trigger] h[k].1,
            origins_ok(h, t@.len() as int),
            max == options.max_results,
            ci == options.case_insensitive,
            spec == spec_find_matches(t@, query@, ci, max),
            spec == find_all_from(h, needle@, start as int, max, outs),
            out@.len() == outs.len(),
            forall|i: int| 0 <= i < outs.len() ==> (#[trigger] out@[i].0 as int, out@[i].1 as int) == outs[i],
            forall|i: int| 0 <= i < outs.len() ==> 0 <= #[trigger] outs[i].0 < outs[i].1 <= t@.len(),
            forall|i: int| 0 <= i < out@.len() ==> 0 <= #[trigger] out@[i].0 < out@[i].1 <= t@.len(),
            start <= hc@.len(),
        decreases hc@.len() - start,
    {
        if let Some(m) = max {
            if out.len() >= m {
                proof {
                    lemma_find_all_ranges(h, needle@, start as int, max, outs, t@.len() as int);
                }
                return out;
            }
        }
        let found = find_from(&hc, start, &needle);
        let p = match found {
            Some(p) => p,
            None => {
                proof {
                    lemma_find_all_ranges(h, needle@, start as int, max, outs, t@.len() as int);
                }
                return out;
            },
        };
        proof {
            lemma_find_seq_from_range(hc@, start as int, needle@);
        }
        assert(ho@[p as int] == h[p as int].1);
        assert(ho@[p + needle@.len() - 1] == h[p + needle@.len() - 1].1);
        assert(h[p + needle@.len() - 1].1 < t@.len());
        assert(t@.len() == t.len());
        assert(h[p as int].1 <= h[p + needle@.len() - 1].1);
        let a = ho[p];
        let b = ho[p + needle.len() - 1] + 1;
        let ghost outs2 = outs.push((a as int, b as int));
        let ghost out_before = out@;
        out.push((a, b));
        proof {
            assert forall|i: int| 0 <= i < outs2.len() implies (#[trigger] out@[i].0 as int, out@[i].1 as int) == outs2[i] by {
                if i < outs.len() {
                    assert(out@[i] == out_before[i]);
                }
            }
            assert forall|i: int| 0 <= i < outs2.len() implies 0 <= #[trigger] outs2[i].0 < outs2[i].1 <= t@.len() by {
                if i < outs.len() {
                    assert(outs2[i] == outs[i]);
                }
            }
            assert forall|i: int| 0 <= i < out@.len() implies 0 <= #[trigger] out@[i].0 < out@[i].1 <= t@.len() by {
                assert((out@[i].0 as int, out@[i].1 as int) == outs2[i]);
            }
            outs = outs2;
        }
        start = p + 1;
    }
    out
}

/// Find `query` in `text`, returning `(byte_offset, byte_len)` pairs.
///
/// Safe for arbitrary Unicode: all offsets are char boundaries in `text`,
/// and case-insensitive matching maps positions back correctly even when
/// lowercasing changes byte lengths.
pub fn find_matches(text: &str, query: &str, options: &SearchOptions) -> (r: Vec<(usize, usize)>)
    ensures
        r@.len() == spec_find_matches(text@, query@, options.case_insensitive, options.max_results).len(),
        forall|i: int| 0 <= i < r@.len() ==> #[trigger] r@[i] == byte_range(text@, spec_find_matches(text@, query@, options.case_insensitive, options.max_results)[i]),
{
    let t = chars_of(text);
    let offs = char_offsets(text, &t);
    let m = find_match_chars(&t, query, options);
    let mut out: Vec<(usize, usize)> = Vec::new();
    let mut k: usize = 0;
    while k < m.len()
        invariant
            k <= m@.len(),
            t@ == text@,
            offsets_ok(t@, offs@),
            m@.len() == spec_find_matches(text@, query@, options.case_insensitive, options.max_results).len(),
            forall|i: int| 0 <= i < m@.len() ==> (#[trigger] m@[i].0 as int, m@[i].1 as int) == spec_find_matches(text@, query@, options.case_insensitive, options.max_results)[i],
            forall|i: int| 0 <= i < m@.len() ==> 0 <= #[trigger] m@[i].0 < m@[i].1 <= t@.len(),
            out@.len() == k,
            forall|i: int| 0 <= i < k ==> #[trigger] out@[i] == byte_range(text@, spec_find_matches(text@, query@, options.case_insensitive, options.max_results)[i]),
        decreases m@.len() - k,
    {
        let (a, b) = m[k];
        proof {
            lemma_offsets_monotone(t@, offs@, a as int, b as int);
        }
        out.push((offs[a], offs[b] - offs[a]));
        k += 1;
    }
    out
}

// ---------------------------------------------------------------------------
// Excerpts
// ---------------------------------------------------------------------------

/// The last character index at or below `k` whose byte offset is at most `b`.
pub open spec fn floor_from(t: Seq<char>, k: int, b: int) -> int
    decreases k,
{
    if k <= 0 {
        0
    } else if byte_len(t.take(k)) <= b {
        k
    } else {
        floor_from(t, k - 1, b)
    }
}

/// The first character index at or after `k` whose byte offset is at least `b`.
pub open spec fn ceil_from(t: Seq<char>, k: int, b: int) -> int
    decreases t.len() - k,
{
    if k < 0 || k >= t.len() {
        t.len() as int
    } else if byte_len(t.take(k)) >= b {
        k
    } else {
        ceil_from(t, k + 1, b)
    }
}

/// The excerpt around the character range `m` of `t`: `ctx` bytes on each
/// side, widened to whole characters, with `...` where text was cut off.
pub open spec fn excerpt_of(t: Seq<char>, m: (int, int), ctx: int) -> Seq<char> {
    let off = byte_len(t.take(m.0)) as int;
    let end = byte_len(t.take(m.1)) as int;
    let from = if off > ctx {
        off - ctx
    } else {
        0
    };
    let to = if end + ctx < byte_len(t) {
        end + ctx
    } else {
        byte_len(t) as int
    };
    let a = floor_from(t, t.len() as int, from);
    let b = ceil_from(t, 0, to);
    (if a > 0 {
        "..."@
    } else {
        Seq::empty()
    }) + t.subrange(a, b) + (if b < t.len() {
        "..."@
    } else {
        Seq::empty()
    })
}

/// The match record for character range `m` of `t`.
pub open spec fn match_ok(r: SearchMatch, t: Seq<char>, m: (int, int), cfi: Seq<char>, section_index: usize, ctx: int) -> bool {
    &&& r.cfi@ == cfi
    &&& r.section_index == section_index
    &&& r.matched_text@ == t.subrange(m.0, m.1)
    &&& r.excerpt@ == excerpt_of(t, m, ctx)
    &&& r.offset == byte_len(t.take(m.0))
}

proof fn lemma_floor_from(t: Seq<char>, k: int, b: int)
    requires
        0 <= k <= t.len(),
    ensures
        0 <= floor_from(t, k, b) <= k,
        floor_from(t, k, b) == 0 || byte_len(t.take(floor_from(t, k, b))) <= b,
    decreases k,
{
    if k > 0 && byte_len(t.take(k)) > b {
        lemma_floor_from(t, k - 1, b);
    }
}

proof fn lemma_ceil_from(t: Seq<char>, k: int, b: int)
    requires
        0 <= k <= t.len(),
    ensures
        k <= ceil_from(t, k, b) <= t.len(),
        ceil_from(t, k, b) == t.len() || byte_len(t.take(ceil_from(t, k, b))) >= b,
    decreases t.len() - k,
{
    if k < t.len() && byte_len(t.take(k)) < b {
        lemma_ceil_from(t, k + 1, b);
    }
}

/// The last character index whose byte offset is at most `from`.
fn floor_index(t: &Vec<char>, offs: &Vec<usize>, from: usize) -> (k: usize)
    requires
        offsets_ok(t@, offs@),
    ensures
        k as int == floor_from(t@, t@.len() as int, from as int),
{
    let n = t.len();
    let mut fa: usize = n;
    while fa > 0 && offs[fa] > from
        invariant
            fa <= n == t@.len(),
            offsets_ok(t@, offs@),
            floor_from(t@, n as int, from as int) == floor_from(t@, fa as int, from as int),
        decreases fa,
    {
        fa -= 1;
    }
    fa
}

/// The first character index whose byte offset is at least `to`.
fn ceil_index(t: &Vec<char>, offs: &Vec<usize>, to: usize) -> (k: usize)
    requires
        offsets_ok(t@, offs@),
    ensures
        k as int == ceil_from(t@, 0, to as int),
{
    let n = t.len();
    let mut cb: usize = 0;
    while cb < n && offs[cb] < to
        invariant
            cb <= n == t@.len(),
            offsets_ok(t@, offs@),
            ceil_from(t@, 0, to as int) == ceil_from(t@, cb as int, to as int),
        decreases n - cb,
    {
        cb += 1;
    }
    cb
}

/// `...` before and after `t[a..b]` where it does not reach the ends.
fn excerpt_chars(t: &Vec<char>, a: usize, b: usize) -> (r: Vec<char>)
    requires
        a <= b <= t@.len(),
    ensures
        r@ == (if a > 0 {
            "..."@
        } else {
            Seq::empty()
        }) + t@.subrange(a as int, b as int) + (if b < t@.len() {
            "..."@
        } else {
            Seq::empty()
        }),
{
    let mut ex: Vec<char> = Vec::new();
    let dots = chars_of("...");
    if a > 0 {
        push_all(&mut ex, &dots);
    }
    let mid = sub_vec(t, a, b);
    push_all(&mut ex, &mid);
    if b < t.len() {
        push_all(&mut ex, &dots);
    }
    assert(ex@ =~= (if a > 0 {
        "..."@
    } else {
        Seq::empty()
    }) + t@.subrange(a as int, b as int) + (if b < t@.len() {
        "..."@
    } else {
        Seq::empty()
    }));
    ex
}

/// Build the match record for character range `[a, b)` of `t`.
fn build_match(
    text: &str,
    t: &Vec<char>,
    offs: &Vec<usize>,
    a: usize,
    b: usize,
    cfi: String,
    section_index: usize,
    options: &SearchOptions,
) -> (r: SearchMatch)
    requires
        t@ == text@,
        offsets_ok(t@, offs@),
        a < b <= t@.len(),
    ensures
        match_ok(r, t@, (a as int, b as int), cfi@, section_index, options.context_chars as int),
{
    let n = t.len();
    let total = offs[n];
    proof {
        lemma_offsets_monotone(t@, offs@, a as int, b as int);
        lemma_offsets_monotone(t@, offs@, b as int, n as int);
        assert(t@.take(n as int) =~= t@);
    }
    let offset = offs[a];
    let end = offs[b];
    let ctx = options.context_chars;
    let from = if offset > ctx {
        offset - ctx
    } else {
        0
    };
    let to = if end < total && ctx < total - end {
        end + ctx
    } else {
        total
    };
    let fa = floor_index(t, offs, from);
    let cb = ceil_index(t, offs, to);
    proof {
        lemma_floor_from(t@, n as int, from as int);
        lemma_ceil_from(t@, 0, to as int);
        if fa > a {
            lemma_offsets_monotone(t@, offs@, a as int, fa as int);
        }
        if cb < b {
            lemma_offsets_monotone(t@, offs@, cb as int, b as int);
        }
        assert(fa <= a && b <= cb);
    }
    let ex = excerpt_chars(t, fa, cb);
    let mt = sub_vec(t, a, b);
    SearchMatch {
        cfi,
        section_index,
        matched_text: string_from_chars(mt.as_slice()),
        excerpt: string_from_chars(ex.as_slice()),
        offset,
    }
}

/// Search plain text. Matches carry spine-level point CFIs (no document
/// structure is available here); use `search_content` for precise range
/// CFIs.
pub fn search_text(text: &str, query: &str, section_index: usize, options: &SearchOptions) -> (r: Vec<
    SearchMatch,
>)
    requires
        (section_index + 1) * 2 <= usize::MAX,
    ensures
        r@.len() == spec_find_matches(text@, query@, options.case_insensitive, options.max_results).len(),
        forall|i: int|
            0 <= i < r@.len() ==> match_ok(
                #[trigger] r@[i],
                text@,
                spec_find_matches(text@, query@, options.case_insensitive, options.max_results)[i],
                spine_cfi_text(section_index as nat),
                section_index,
                options.context_chars as int,
            ),
{
    let pc = Cfi::from_spine_index(section_index);
    let point = pc.to_string();
    assert(point@ =~= spine_cfi_text(section_index as nat));
    let t = chars_of(text);
    let offs = char_offsets(text, &t);
    let m = find_match_chars(&t, query, options);
    let ghost spec = spec_find_matches(text@, query@, options.case_insensitive, options.max_results);
    let mut out: Vec<SearchMatch> = Vec::new();
    let mut k: usize = 0;
    while k < m.len()
        invariant
            k <= m@.len(),
            t@ == text@,
            offsets_ok(t@, offs@),
            m@.len() == spec.len(),
            forall|i: int| 0 <= i < m@.len() ==> (#[trigger] m@[i].0 as int, m@[i].1 as int) == spec[i],
            forall|i: int| 0 <= i < m@.len() ==> 0 <= #[trigger] m@[i].0 < m@[i].1 <= t@.len(),
            out@.len() == k,
            point@ == spine_cfi_text(section_index as nat),
            forall|i: int| 0 <= i < k ==> match_ok(#[trigger] out@[i], text@, spec[i], point@, section_index, options.context_chars as int),
        decreases m@.len() - k,
    {
        let (a, b) = m[k];
        let c = point.clone();
        let sm = build_match(text, &t, &offs, a, b, c, section_index, options);
        out.push(sm);
        k += 1;
    }
    out
}

/// The CFI text a match in a scanned document gets: the range CFI of its
/// normalized byte range when both ends map to chunks, else the spine-level
/// point CFI.
pub open spec fn match_cfi_text(
    text: Seq<char>,
    entries: Seq<crate::text_map::Entry>,
    paths: Seq<Seq<usize>>,
    section_index: usize,
    start: int,
    end: int,
) -> Seq<char> {
    let s = spec_point(text, entries, paths, start, Side::Start);
    let e = spec_point(text, entries, paths, end, Side::End);
    if start >= end || end > byte_len(text) || s is None || e is None {
        spine_cfi_text(section_index as nat)
    } else {
        range_text_parts(
            section_index as nat,
            plain_steps((s->0).0),
            Some((s->0).1 as usize),
            plain_steps((e->0).0),
            Some((e->0).1 as usize),
        )
    }
}

/// Search an already-scanned document.
pub fn matches_in_map(map: &TextMap, query: &str, section_index: usize, options: &SearchOptions) -> (r: Vec<SearchMatch>)
    requires
        (section_index + 1) * 2 <= usize::MAX,
    ensures
        r@.len() == spec_find_matches(map.text_view(), query@, options.case_insensitive, options.max_results).len(),
        forall|i: int|
            0 <= i < r@.len() ==> match_ok(
                #[trigger] r@[i],
                map.text_view(),
                spec_find_matches(map.text_view(), query@, options.case_insensitive, options.max_results)[i],
                ({
                    let m = spec_find_matches(map.text_view(), query@, options.case_insensitive, options.max_results)[i];
                    match_cfi_text(
                        map.text_view(),
                        map.entries_view(),
                        map.paths_view(),
                        section_index,
                        byte_len(map.text_view().take(m.0)) as int,
                        byte_len(map.text_view().take(m.1)) as int,
                    )
                }),
                section_index,
                options.context_chars as int,
            ),
{
    let text = map.text();
    let fallback = Cfi::from_spine_index(section_index).to_string();
    assert(fallback@ =~= spine_cfi_text(section_index as nat));
    let t = chars_of(text);
    let offs = char_offsets(text, &t);
    let m = find_match_chars(&t, query, options);
    let ghost spec = spec_find_matches(text@, query@, options.case_insensitive, options.max_results);
    let mut out: Vec<SearchMatch> = Vec::new();
    let mut k: usize = 0;
    while k < m.len()
        invariant
            k <= m@.len(),
            t@ == text@,
            text@ == map.text_view(),
            offsets_ok(t@, offs@),
            m@.len() == spec.len(),
            forall|i: int| 0 <= i < m@.len() ==> (#[trigger] m@[i].0 as int, m@[i].1 as int) == spec[i],
            forall|i: int| 0 <= i < m@.len() ==> 0 <= #[trigger] m@[i].0 < m@[i].1 <= t@.len(),
            out@.len() == k,
            fallback@ == spine_cfi_text(section_index as nat),
            (section_index + 1) * 2 <= usize::MAX,
            forall|i: int| 0 <= i < k ==> match_ok(#[trigger] out@[i], text@, spec[i], ({
                let mm = spec[i];
                match_cfi_text(
                    map.text_view(),
                    map.entries_view(),
                    map.paths_view(),
                    section_index,
                    byte_len(map.text_view().take(mm.0)) as int,
                    byte_len(map.text_view().take(mm.1)) as int,
                )
            }), section_index, options.context_chars as int),
        decreases m@.len() - k,
    {
        let (a, b) = m[k];
        proof {
            lemma_offsets_monotone(t@, offs@, a as int, b as int);
        }
        let cfi = match map.cfi_range(section_index, offs[a], offs[b]) {
            Some(rg) => {
                let ghost s = spec_point(map.text_view(), map.entries_view(), map.paths_view(), offs@[a as int] as int, Side::Start);
                let ghost e = spec_point(map.text_view(), map.entries_view(), map.paths_view(), offs@[b as int] as int, Side::End);
                let r = rg.to_string();
                assert(r@ == range_text_parts(
                    section_index as nat,
                    plain_steps((s->0).0),
                    Some((s->0).1 as usize),
                    plain_steps((e->0).0),
                    Some((e->0).1 as usize),
                ));
                r
            },
            None => fallback.clone(),
        };
        let sm = build_match(text, &t, &offs, a, b, cfi, section_index, options);
        out.push(sm);
        k += 1;
    }
    out
}

/// Search HTML content. Matches carry range CFIs targeting the matched text.
pub fn search_content(content: &str, query: &str, section_index: usize, options: &SearchOptions) -> (r: Vec<SearchMatch>)
    requires
        (section_index + 1) * 2 <= usize::MAX,
        byte_len(content@) < scan_limit(),
    ensures
        r@.len() == spec_find_matches(spec_scan(content@).text, query@, options.case_insensitive, options.max_results).len(),
        forall|i: int|
            0 <= i < r@.len() ==> match_ok(
                #[trigger] r@[i],
                spec_scan(content@).text,
                spec_find_matches(spec_scan(content@).text, query@, options.case_insensitive, options.max_results)[i],
                ({
                    let st = spec_scan(content@);
                    let m = spec_find_matches(st.text, query@, options.case_insensitive, options.max_results)[i];
                    match_cfi_text(
                        st.text,
                        st.entries,
                        st.chunk_paths,
                        section_index,
                        byte_len(st.text.take(m.0)) as int,
                        byte_len(st.text.take(m.1)) as int,
                    )
                }),
                section_index,
                options.context_chars as int,
            ),
{
    let map = TextMap::parse(content);
    matches_in_map(&map, query, section_index, options)
}

/// Extract normalized plain text from HTML content: entities decoded,
/// whitespace collapsed, block boundaries becoming single spaces.
pub fn extract_text(html: &str) -> (r: String)
    requires
        byte_len(html@) < scan_limit(),
    ensures
        r@ == spec_scan(html@).text,
{
    TextMap::parse(html).into_text()
}

/// What a plain-text search of `t` returns (see [`search_text`]): a record
/// per match, each with the section's spine-level CFI.
pub open spec fn text_search_ok(
    rs: Seq<SearchMatch>,
    t: Seq<char>,
    q: Seq<char>,
    options: SearchOptions,
    section_index: usize,
) -> bool {
    let ms = spec_find_matches(t, q, options.case_insensitive, options.max_results);
    &&& rs.len() == ms.len()
    &&& forall|i: int| 0 <= i < rs.len() ==> match_ok(
        #[trigger] rs[i],
        t,
        ms[i],
        spine_cfi_text(section_index as nat),
        section_index,
        options.context_chars as int,
    )
}

/// What a search of a scanned document returns (see [`matches_in_map`] and
/// [`search_content`]): a record per match of its text, each with the range
/// CFI of the match where both ends map into the document.
pub open spec fn map_search_ok(
    rs: Seq<SearchMatch>,
    t: Seq<char>,
    entries: Seq<crate::text_map::Entry>,
    paths: Seq<Seq<usize>>,
    q: Seq<char>,
    options: SearchOptions,
    section_index: usize,
) -> bool {
    let ms = spec_find_matches(t, q, options.case_insensitive, options.max_results);
    &&& rs.len() == ms.len()
    &&& forall|i: int| 0 <= i < rs.len() ==> match_ok(
        #[trigger] rs[i],
        t,
        ms[i],
        match_cfi_text(t, entries, paths, section_index, byte_len(t.take(ms[i].0)) as int, byte_len(t.take(ms[i].1)) as int),
        section_index,
        options.context_chars as int,
    )
}

/// Every record of a plain-text search describes its match as
/// [`find_matches`] reports it: the record's offset is the match's byte
/// offset, its matched text is the text there, as many bytes long as the
/// match, its excerpt holds the matched text, and it carries the section's
/// index and spine-level CFI.
pub proof fn law_text_search_records(
    rs: Seq<SearchMatch>,
    t: Seq<char>,
    q: Seq<char>,
    options: SearchOptions,
    section_index: usize,
)
    requires
        t.len() <= usize::MAX,
        byte_len(t) <= usize::MAX,
        text_search_ok(rs, t, q, options, section_index),
    ensures
        forall|k: int| 0 <= k < rs.len() ==> {
            let br = byte_range(t, spec_find_matches(t, q, options.case_insensitive, options.max_results)[k]);
            &&& (#[trigger] rs[k]).offset == br.0
            &&& byte_len(rs[k].matched_text@) == br.1
            &&& rs[k].matched_text@ == t.subrange(
                spec_find_matches(t, q, options.case_insensitive, options.max_results)[k].0,
                spec_find_matches(t, q, options.case_insensitive, options.max_results)[k].1,
            )
            &&& exists|p: int| 0 <= p && p + rs[k].matched_text@.len() <= rs[k].excerpt@.len()
                && #[trigger] rs[k].excerpt@.subrange(p, p + rs[k].matched_text@.len()) == rs[k].matched_text@
            &&& rs[k].section_index == section_index
            &&& rs[k].cfi@ == spine_cfi_text(section_index as nat)
        },
{
    let ms = spec_find_matches(t, q, options.case_insensitive, options.max_results);
    law_match_ranges(t, q, options.case_insensitive, options.max_results);
    assert forall|k: int| 0 <= k < rs.len() implies {
        let br = byte_range(t, ms[k]);
        &&& (#[trigger] rs[k]).offset == br.0
        &&& byte_len(rs[k].matched_text@) == br.1
        &&& rs[k].matched_text@ == t.subrange(ms[k].0, ms[k].1)
        &&& exists|p: int| 0 <= p && p + rs[k].matched_text@.len() <= rs[k].excerpt@.len()
            && #[trigger] rs[k].excerpt@.subrange(p, p + rs[k].matched_text@.len()) == rs[k].matched_text@
        &&& rs[k].section_index == section_index
        &&& rs[k].cfi@ == spine_cfi_text(section_index as nat)
    } by {
        let m = ms[k];
        assert(0 <= m.0 < m.1 <= t.len());
        assert(t.take(m.1) =~= t.take(m.0) + t.subrange(m.0, m.1));
        lemma_encode_concat(t.take(m.0), t.subrange(m.0, m.1));
        lemma_byte_len_prefix(t, m.1);
        law_excerpt_contains_match(t, m, options.context_chars as int);
        let p = choose|p: int| 0 <= p && p + (m.1 - m.0) <= excerpt_of(t, m, options.context_chars as int).len()
            && #[trigger] excerpt_of(t, m, options.context_chars as int).subrange(p, p + (m.1 - m.0)) == t.subrange(m.0, m.1);
        assert(rs[k].excerpt@.subrange(p, p + rs[k].matched_text@.len()) == rs[k].matched_text@);
    }
}

/// Searching a scanned document finds, match for match, what searching its
/// text finds: each record has the plain-text record's offset, matched
/// text, excerpt and section; its CFI is the plain-text record's unless both
/// ends of the match map into the document. And two searches of the same
/// scanned document (one through [`matches_in_map`], one through
/// [`search_content`]) give the same records, field by field.
pub proof fn law_map_search_refines_text_search(
    map_rs: Seq<SearchMatch>,
    other_rs: Seq<SearchMatch>,
    text_rs: Seq<SearchMatch>,
    t: Seq<char>,
    entries: Seq<crate::text_map::Entry>,
    paths: Seq<Seq<usize>>,
    q: Seq<char>,
    options: SearchOptions,
    section_index: usize,
)
    requires
        map_search_ok(map_rs, t, entries, paths, q, options, section_index),
        map_search_ok(other_rs, t, entries, paths, q, options, section_index),
        text_search_ok(text_rs, t, q, options, section_index),
    ensures
        map_rs.len() == text_rs.len(),
        other_rs.len() == map_rs.len(),
        forall|k: int| 0 <= k < map_rs.len() ==> {
            &&& (#[trigger] map_rs[k]).offset == text_rs[k].offset
            &&& map_rs[k].matched_text@ == text_rs[k].matched_text@
            &&& map_rs[k].excerpt@ == text_rs[k].excerpt@
            &&& map_rs[k].section_index == text_rs[k].section_index
            &&& (spec_point(t, entries, paths, map_rs[k].offset as int, Side::Start) is None ==> map_rs[k].cfi@
                == text_rs[k].cfi@)
            &&& map_rs[k].offset == other_rs[k].offset
            &&& map_rs[k].matched_text@ == other_rs[k].matched_text@
            &&& map_rs[k].excerpt@ == other_rs[k].excerpt@
            &&& map_rs[k].section_index == other_rs[k].section_index
            &&& map_rs[k].cfi@ == other_rs[k].cfi@
        },
{
    let ms = spec_find_matches(t, q, options.case_insensitive, options.max_results);
    assert forall|k: int| 0 <= k < map_rs.len() implies {
        &&& (#[trigger] map_rs[k]).offset == text_rs[k].offset
        &&& map_rs[k].matched_text@ == text_rs[k].matched_text@
        &&& map_rs[k].excerpt@ == text_rs[k].excerpt@
        &&& map_rs[k].section_index == text_rs[k].section_index
        &&& (spec_point(t, entries, paths, map_rs[k].offset as int, Side::Start) is None ==> map_rs[k].cfi@
            == text_rs[k].cfi@)
        &&& map_rs[k].offset == other_rs[k].offset
        &&& map_rs[k].matched_text@ == other_rs[k].matched_text@
        &&& map_rs[k].excerpt@ == other_rs[k].excerpt@
        &&& map_rs[k].section_index == other_rs[k].section_index
        &&& map_rs[k].cfi@ == other_rs[k].cfi@
    } by {
        assert(match_ok(map_rs[k], t, ms[k], match_cfi_text(t, entries, paths, section_index, byte_len(t.take(ms[k].0)) as int, byte_len(t.take(ms[k].1)) as int), section_index, options.context_chars as int));
        assert(match_ok(other_rs[k], t, ms[k], match_cfi_text(t, entries, paths, section_index, byte_len(t.take(ms[k].0)) as int, byte_len(t.take(ms[k].1)) as int), section_index, options.context_chars as int));
        assert(match_ok(text_rs[k], t, ms[k], spine_cfi_text(section_index as nat), section_index, options.context_chars as int));
    }
}

} // verus!
