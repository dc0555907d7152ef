//! TextMap - scans an XHTML document once and produces:
//!
//! - the **normalized text** used for search (entities decoded, whitespace
//!   collapsed, block boundaries becoming single spaces),
//! - a mapping from normalized byte offsets back to **source byte spans**
//!   (for splicing markup such as highlights into the raw document), and
//! - a mapping to **CFI positions**: the chunk (character-data run) path per
//!   the EPUB CFI child numbering, plus the character offset within that
//!   chunk counted over the *decoded but uncollapsed* character data in
//!   code points.
//!
//! CFI child numbering: element children get even indices 2,4,6…; the
//! character-data chunk following the k-th element child gets index 2k+1.
//! The first step of a document path addresses the root element's children
//! (head = 2, body = 4). Comments and processing instructions neither split
//! chunks nor count toward offsets.

use vstd::prelude::*;
use vstd::utf8::*;

use crate::cfi::{Cfi, CfiRange, CfiStep};
use crate::path::trim_start_ws;
use crate::text::{
    byte_len, char_from_u32, char_width, char_width_of, chars_eq_str, chars_of, find_from,
    find_seq_from, index_of, lemma_byte_len_prefix, lemma_byte_len_take_lt, lemma_char_width_bounds, lemma_encode_push,
    lemma_index_of_absent, lemma_index_of_found, lower_seq, matches_at, spec_is_ascii_ws, spec_is_whitespace, string_from_chars,
    strip_prefix_ns, is_ascii_ws, is_whitespace, strip_ns, sub_vec, to_ascii_lower,
};

verus! {

broadcast use vstd::seq::group_seq_axioms;

// ---------------------------------------------------------------------------
// Source characters with their byte offsets
// ---------------------------------------------------------------------------

/// `offs[k]` is the byte offset of character `k` (and `offs[len]` the
/// total byte length).
pub open spec fn offsets_ok(cs: Seq<char>, offs: Seq<usize>) -> bool {
    &&& offs.len() == cs.len() + 1
    &&& forall|k: int| 0 <= k <= cs.len() ==> #[trigger] offs[k] == byte_len(cs.take(k))
}

pub proof fn lemma_offsets_monotone(cs: Seq<char>, offs: Seq<usize>, a: int, b: int)
    requires
        offsets_ok(cs, offs),
        0 <= a <= b <= cs.len(),
    ensures
        offs[a] <= offs[b],
        offs[b] - offs[a] == byte_len(cs.subrange(a, b)),
        a < b ==> offs[a] < offs[b],
{
    assert(cs.take(b).take(a) =~= cs.take(a));
    lemma_byte_len_prefix(cs.take(b), a);
    assert(cs.take(b).skip(a) =~= cs.subrange(a, b));
    if a < b {
        assert(cs.subrange(a, b) =~= seq![cs[a]] + cs.subrange(a + 1, b));
        crate::text::lemma_encode_concat(seq![cs[a]], cs.subrange(a + 1, b));
        lemma_encode_push(Seq::<char>::empty(), cs[a]);
        assert(Seq::<char>::empty().push(cs[a]) =~= seq![cs[a]]);
        assert(encode_utf8(Seq::<char>::empty()) =~= Seq::<u8>::empty());
        lemma_char_width_bounds(cs[a]);
    }
}

/// Byte offsets of every character index of `s` (including the end).
pub fn char_offsets(s: &str, cs: &Vec<char>) -> (offs: Vec<usize>)
    requires
        cs@ == s@,
    ensures
        offsets_ok(cs@, offs@),
{
    let total = s.as_bytes().len();
    let mut offs: Vec<usize> = Vec::new();
    offs.push(0);
    assert(cs@.take(0) =~= Seq::<char>::empty());
    assert(encode_utf8(Seq::<char>::empty()) =~= Seq::<u8>::empty());
    let mut acc: usize = 0;
    let mut i: usize = 0;
    while i < cs.len()
        invariant
            cs@ == s@,
            i <= cs@.len(),
            total == byte_len(s@),
            acc == byte_len(cs@.take(i as int)),
            offs@.len() == i + 1,
            forall|k: int| 0 <= k <= i ==> #[trigger] offs@[k] == byte_len(cs@.take(k)),
        decreases cs@.len() - i,
    {
        let w = char_width_of(cs[i]);
        proof {
            assert(cs@.take(i + 1) =~= cs@.take(i as int).push(cs@[i as int]));
            lemma_encode_push(cs@.take(i as int), cs@[i as int]);
            lemma_byte_len_prefix(cs@, i + 1);
        }
        acc = acc + w;
        offs.push(acc);
        i += 1;
    }
    offs
}

// ---------------------------------------------------------------------------
// Tags
// ---------------------------------------------------------------------------

/// End of a tag name starting at `j`: the first ASCII whitespace, `>`, `/`
/// or the end of input.
pub open spec fn tag_name_end(s: Seq<char>, j: int) -> int
    decreases s.len() - j,
{
    if j < 0 || j >= s.len() {
        j
    } else if spec_is_ascii_ws(s[j]) || s[j] == '>' || s[j] == '/' {
        j
    } else {
        tag_name_end(s, j + 1)
    }
}

/// Scan the attribute part of a start tag from `j`, respecting quoted
/// values. `Some((self_closing, end))` where `end` is just past `>`; `None`
/// when the tag never closes.
pub open spec fn tag_rest(s: Seq<char>, j: int, sc: bool) -> Option<(bool, int)>
    decreases s.len() - j,
{
    if j < 0 || j >= s.len() {
        None
    } else if s[j] == '>' {
        Some((sc, j + 1))
    } else if s[j] == '/' {
        tag_rest(s, j + 1, true)
    } else if s[j] == '"' || s[j] == '\'' {
        let k = find_seq_from(s, j + 1, seq![s[j]]);
        if k <= j || k >= s.len() {
            None
        } else {
            tag_rest(s, k + 1, false)
        }
    } else {
        tag_rest(s, j + 1, if spec_is_ascii_ws(s[j]) { sc } else { false })
    }
}

/// A start tag at `i` (where `s[i] == '<'`): lowercased, namespace-stripped
/// name, self-closing flag and the index just past it.
pub open spec fn spec_scan_tag(s: Seq<char>, i: int) -> Option<(Seq<char>, bool, int)> {
    let ne = tag_name_end(s, i + 1);
    if ne == i + 1 {
        None
    } else {
        match tag_rest(s, ne, false) {
            Some((sc, e)) => Some((strip_prefix_ns(lower_seq(s.subrange(i + 1, ne))), sc, e)),
            None => None,
        }
    }
}

pub proof fn lemma_tag_name_end(s: Seq<char>, j: int)
    requires
        0 <= j <= s.len(),
    ensures
        j <= tag_name_end(s, j) <= s.len(),
    decreases s.len() - j,
{
    if j < s.len() && !(spec_is_ascii_ws(s[j]) || s[j] == '>' || s[j] == '/') {
        lemma_tag_name_end(s, j + 1);
    }
}

pub proof fn lemma_find_seq_from_range(s: Seq<char>, from: int, pat: Seq<char>)
    ensures
        find_seq_from(s, from, pat) == -1 || (from <= find_seq_from(s, from, pat)
            && find_seq_from(s, from, pat) + pat.len() <= s.len()),
    decreases s.len() + 1 - from,
{
    if !(from < 0 || from > s.len() || from + pat.len() > s.len()) && s.subrange(
        from,
        from + pat.len(),
    ) != pat {
        lemma_find_seq_from_range(s, from + 1, pat);
    }
}

proof fn lemma_tag_rest_range(s: Seq<char>, j: int, sc: bool)
    ensures
        tag_rest(s, j, sc) matches Some((_, e)) ==> j < e <= s.len(),
    decreases s.len() - j,
{
    if 0 <= j < s.len() && s[j] != '>' {
        if s[j] == '/' {
            lemma_tag_rest_range(s, j + 1, true);
        } else if s[j] == '"' || s[j] == '\'' {
            let k = find_seq_from(s, j + 1, seq![s[j]]);
            lemma_find_seq_from_range(s, j + 1, seq![s[j]]);
            if k > j && k < s.len() {
                lemma_tag_rest_range(s, k + 1, false);
            }
        } else {
            lemma_tag_rest_range(s, j + 1, if spec_is_ascii_ws(s[j]) { sc } else { false });
        }
    }
}

/// Lowercased copy of `v[a..b]`.
fn lower_range(v: &Vec<char>, a: usize, b: usize) -> (r: Vec<char>)
    requires
        a <= b <= v@.len(),
    ensures
        r@ == lower_seq(v@.subrange(a as int, b as int)),
{
    let mut r: Vec<char> = Vec::new();
    let mut i: usize = a;
    while i < b
        invariant
            a <= i <= b <= v@.len(),
            r@ == lower_seq(v@.subrange(a as int, i as int)),
        decreases b - i,
    {
        let c = to_ascii_lower(v[i]);
        r.push(c);
        i += 1;
        assert(r@ =~= lower_seq(v@.subrange(a as int, i as int)));
    }
    r
}

/// Scan a start tag at `i` (where `v[i] == '<'`).
fn scan_tag(v: &Vec<char>, i: usize) -> (r: Option<(Vec<char>, bool, usize)>)
    requires
        i < v@.len(),
    ensures
        match r {
            Some((name, sc, e)) => spec_scan_tag(v@, i as int) == Some((name@, sc, e as int)),
            None => spec_scan_tag(v@, i as int) is None,
        },
{
    let n = v.len();
    let mut j: usize = i + 1;
    while j < n && !is_ascii_ws(v[j]) && v[j] != '>' && v[j] != '/'
        invariant
            n == v@.len(),
            i + 1 <= j <= n,
            tag_name_end(v@, i + 1) == tag_name_end(v@, j as int),
        decreases n - j,
    {
        j += 1;
    }
    assert(tag_name_end(v@, j as int) == j);
    if j == i + 1 {
        return None;
    }
    let ne = j;
    let mut sc = false;
    let quote_d = vec!['"'];
    let quote_s = vec!['\''];
    while j < n
        invariant
            n == v@.len(),
            i + 1 < ne <= j <= n,
            tag_name_end(v@, i + 1) == ne as int,
            tag_rest(v@, ne as int, false) == tag_rest(v@, j as int, sc),
            quote_d@ == seq!['"'],
            quote_s@ == seq!['\''],
        decreases n - j,
    {
        let c = v[j];
        if c == '>' {
            assert(tag_rest(v@, j as int, sc) == Some((sc, j + 1)));
            let name = strip_ns(lower_range(v, i + 1, ne));
            assert(tag_name_end(v@, i + 1) != i + 1);
            assert(tag_rest(v@, tag_name_end(v@, i + 1), false) == Some((sc, j + 1)));
            assert(spec_scan_tag(v@, i as int) == Some((name@, sc, (j + 1) as int)));
            return Some((name, sc, j + 1));
        } else if c == '/' {
            sc = true;
            j += 1;
        } else if c == '"' || c == '\'' {
            let found = if c == '"' {
                find_from(v, j + 1, &quote_d)
            } else {
                find_from(v, j + 1, &quote_s)
            };
            proof {
                lemma_find_seq_from_range(v@, j + 1, seq![c]);
            }
            match found {
                Some(k) => {
                    assert(j < k < n);
                    sc = false;
                    j = k + 1;
                },
                None => {
                    return None;
                },
            }
        } else {
            if !is_ascii_ws(c) {
                sc = false;
            }
            j += 1;
        }
    }
    None
}

/// `str::trim_end` with Unicode whitespace.
pub open spec fn trim_end_ws(s: Seq<char>) -> Seq<char>
    decreases s.len(),
{
    if s.len() > 0 && spec_is_whitespace(s.last()) {
        trim_end_ws(s.drop_last())
    } else {
        s
    }
}

/// Index of the first ASCII whitespace in `s`, or its length.
pub open spec fn first_ascii_ws(s: Seq<char>, j: int) -> int
    decreases s.len() - j,
{
    if j < 0 || j >= s.len() {
        s.len() as int
    } else if spec_is_ascii_ws(s[j]) {
        j
    } else {
        first_ascii_ws(s, j + 1)
    }
}

/// Name in an end tag's body: trimmed, up to the first ASCII whitespace,
/// lowercased, namespace-stripped.
pub open spec fn spec_tag_name(s: Seq<char>) -> Seq<char> {
    let t = trim_end_ws(trim_start_ws(s));
    strip_prefix_ns(lower_seq(t.take(first_ascii_ws(t, 0))))
}

proof fn lemma_first_ascii_ws(s: Seq<char>, j: int)
    requires
        0 <= j <= s.len(),
    ensures
        j <= first_ascii_ws(s, j) <= s.len(),
    decreases s.len() - j,
{
    if j < s.len() && !spec_is_ascii_ws(s[j]) {
        lemma_first_ascii_ws(s, j + 1);
    }
}

/// Name of the end tag whose body is `v[a..b]`.
fn tag_name(v: &Vec<char>, a: usize, b: usize) -> (r: Vec<char>)
    requires
        a <= b <= v@.len(),
    ensures
        r@ == spec_tag_name(v@.subrange(a as int, b as int)),
{
    let ghost s = v@.subrange(a as int, b as int);
    let mut x: usize = a;
    assert(s.skip(0) =~= s);
    while x < b && is_whitespace(v[x])
        invariant
            a <= x <= b <= v@.len(),
            s == v@.subrange(a as int, b as int),
            trim_start_ws(s) == trim_start_ws(v@.subrange(x as int, b as int)),
        decreases b - x,
    {
        assert(v@.subrange(x as int, b as int).drop_first() =~= v@.subrange(x + 1, b as int));
        x += 1;
    }
    let mut y: usize = b;
    while y > x && is_whitespace(v[y - 1])
        invariant
            a <= x <= y <= b <= v@.len(),
            trim_end_ws(trim_start_ws(s)) == trim_end_ws(v@.subrange(x as int, y as int)),
        decreases y - x,
    {
        assert(v@.subrange(x as int, y as int).drop_last() =~= v@.subrange(x as int, y - 1));
        y -= 1;
    }
    let ghost t = v@.subrange(x as int, y as int);
    assert(trim_end_ws(trim_start_ws(s)) == t);
    let mut z: usize = x;
    assert(first_ascii_ws(t, 0) == first_ascii_ws(t, (z - x) as int));
    while z < y && !is_ascii_ws(v[z])
        invariant
            x <= z <= y <= v@.len(),
            t == v@.subrange(x as int, y as int),
            first_ascii_ws(t, 0) == first_ascii_ws(t, (z - x) as int),
        decreases y - z,
    {
        z += 1;
    }
    assert(t.take(first_ascii_ws(t, 0)) =~= v@.subrange(x as int, z as int));
    strip_ns(lower_range(v, x, z))
}

// ---------------------------------------------------------------------------
// Entities
// ---------------------------------------------------------------------------

/// Characters of the recognized named entities.
pub open spec fn named_entity(body: Seq<char>) -> Option<char> {
    if body == "amp"@ {
        Some('&')
    } else if body == "lt"@ {
        Some('<')
    } else if body == "gt"@ {
        Some('>')
    } else if body == "quot"@ {
        Some('"')
    } else if body == "apos"@ {
        Some('\'')
    } else if body == "nbsp"@ {
        Some('\u{a0}')
    } else if body == "mdash"@ {
        Some('\u{2014}')
    } else if body == "ndash"@ {
        Some('\u{2013}')
    } else if body == "hellip"@ {
        Some('\u{2026}')
    } else if body == "rsquo"@ {
        Some('\u{2019}')
    } else if body == "lsquo"@ {
        Some('\u{2018}')
    } else if body == "rdquo"@ {
        Some('\u{201d}')
    } else if body == "ldquo"@ {
        Some('\u{201c}')
    } else if body == "shy"@ {
        Some('\u{ad}')
    } else {
        None
    }
}

/// Value of a digit in the given radix (10 or 16), or -1.
pub open spec fn digit_value(c: char, radix: int) -> int {
    if '0' <= c <= '9' {
        (c as u32 - '0' as u32) as int
    } else if radix == 16 && 'a' <= c <= 'f' {
        (c as u32 - 'a' as u32 + 10) as int
    } else if radix == 16 && 'A' <= c <= 'F' {
        (c as u32 - 'A' as u32 + 10) as int
    } else {
        -1
    }
}

/// Digits' value, saturating at 2^32 (anything at or above that overflows a `u32`).
pub open spec fn digits_value_capped(d: Seq<char>, radix: int) -> int
    decreases d.len(),
{
    if d.len() == 0 {
        0
    } else {
        let v = digits_value_capped(d.drop_last(), radix) * radix + digit_value(d.last(), radix);
        if v > 0x1_0000_0000 {
            0x1_0000_0000
        } else {
            v
        }
    }
}

/// The digits of a number: `s` without one leading `+`.
pub open spec fn unsigned_digits(s: Seq<char>) -> Seq<char> {
    if s.len() > 0 && s[0] == '+' {
        s.drop_first()
    } else {
        s
    }
}

/// Value of a non-empty digit string that fits in a `u32`.
pub open spec fn parse_digits(d: Seq<char>, radix: int) -> Option<u32> {
    if d.len() == 0 {
        None
    } else if !(forall|k: int| 0 <= k < d.len() ==> digit_value(#[trigger] d[k], radix) >= 0) {
        None
    } else if digits_value_capped(d, radix) > 0xFFFF_FFFF {
        None
    } else {
        Some(digits_value_capped(d, radix) as u32)
    }
}

/// `u32::from_str_radix`: an optional `+`, then one or more digits, with a
/// value that fits in a `u32`.
pub open spec fn parse_u32_radix(s: Seq<char>, radix: int) -> Option<u32> {
    parse_digits(unsigned_digits(s), radix)
}

/// Character of an entity body (between `&` and `;`): a named entity, or a
/// decimal (`#65`) or hexadecimal (`#x41`) character reference.
pub open spec fn entity_char(body: Seq<char>) -> Option<char> {
    match named_entity(body) {
        Some(c) => Some(c),
        None => {
            let code = if body.len() >= 2 && body[0] == '#' && (body[1] == 'x' || body[1] == 'X') {
                parse_u32_radix(body.skip(2), 16)
            } else if body.len() >= 1 && body[0] == '#' {
                parse_u32_radix(body.skip(1), 10)
            } else {
                None
            };
            match code {
                Some(u) => if is_scalar(u) {
                    Some(u as char)
                } else {
                    None
                },
                None => None,
            }
        },
    }
}

/// An entity at `k` (where `s[k] == '&'`) inside `s[k..end]`: its `;` must
/// start within the first 12 bytes. `Some((char, chars consumed))`.
pub open spec fn spec_decode_entity(s: Seq<char>, k: int, end: int) -> Option<(char, int)> {
    let w = s.subrange(k, end);
    let j = index_of(w, ';');
    // An empty body (`&;`) names no entity.
    if j < 2 || byte_len(w.take(j)) >= 12 {
        None
    } else {
        match entity_char(w.subrange(1, j)) {
            Some(c) => Some((c, j + 1)),
            None => None,
        }
    }
}

fn named_entity_exec(body: &Vec<char>) -> (r: Option<char>)
    ensures
        r == named_entity(body@),
{
    if chars_eq_str(body, "amp") {
        Some('&')
    } else if chars_eq_str(body, "lt") {
        Some('<')
    } else if chars_eq_str(body, "gt") {
        Some('>')
    } else if chars_eq_str(body, "quot") {
        Some('"')
    } else if chars_eq_str(body, "apos") {
        Some('\'')
    } else if chars_eq_str(body, "nbsp") {
        Some('\u{a0}')
    } else if chars_eq_str(body, "mdash") {
        Some('\u{2014}')
    } else if chars_eq_str(body, "ndash") {
        Some('\u{2013}')
    } else if chars_eq_str(body, "hellip") {
        Some('\u{2026}')
    } else if chars_eq_str(body, "rsquo") {
        Some('\u{2019}')
    } else if chars_eq_str(body, "lsquo") {
        Some('\u{2018}')
    } else if chars_eq_str(body, "rdquo") {
        Some('\u{201d}')
    } else if chars_eq_str(body, "ldquo") {
        Some('\u{201c}')
    } else if chars_eq_str(body, "shy") {
        Some('\u{ad}')
    } else {
        None
    }
}

fn digit_value_exec(c: char, radix: u64) -> (r: Option<u64>)
    requires
        radix == 10 || radix == 16,
    ensures
        match r {
            Some(d) => d == digit_value(c, radix as int) && 0 <= d < radix,
            None => digit_value(c, radix as int) < 0,
        },
{
    if c >= '0' && c <= '9' {
        Some((c as u32 - '0' as u32) as u64)
    } else if radix == 16 && c >= 'a' && c <= 'f' {
        Some((c as u32 - 'a' as u32 + 10) as u64)
    } else if radix == 16 && c >= 'A' && c <= 'F' {
        Some((c as u32 - 'A' as u32 + 10) as u64)
    } else {
        None
    }
}

/// `u32::from_str_radix` on `v[a..b]`.
fn parse_u32_exec(v: &Vec<char>, a: usize, b: usize, radix: u64) -> (r: Option<u32>)
    requires
        a <= b <= v@.len(),
        radix == 10 || radix == 16,
    ensures
        r == parse_u32_radix(v@.subrange(a as int, b as int), radix as int),
{
    let ghost s = v@.subrange(a as int, b as int);
    let start = if a < b && v[a] == '+' {
        a + 1
    } else {
        a
    };
    let ghost d = v@.subrange(start as int, b as int);
    assert(unsigned_digits(s) =~= d);
    if start == b {
        return None;
    }
    let mut acc: u64 = 0;
    let mut i: usize = start;
    assert(d.take(0) =~= Seq::<char>::empty());
    while i < b
        invariant
            start <= i <= b <= v@.len(),
            d == v@.subrange(start as int, b as int),
            s == v@.subrange(a as int, b as int),
            unsigned_digits(s) == d,
            radix == 10 || radix == 16,
            acc == digits_value_capped(d.take(i - start), radix as int),
            acc <= 0x1_0000_0000,
            forall|k: int| 0 <= k < i - start ==> digit_value(#[trigger] d[k], radix as int) >= 0,
        decreases b - i,
    {
        match digit_value_exec(v[i], radix) {
            Some(dv) => {
                assert(acc * radix <= 0x10_0000_0000) by (nonlinear_arith)
                    requires
                        acc <= 0x1_0000_0000,
                        radix <= 16,
                ;
                let nv = acc * radix + dv;
                proof {
                    assert(d.take(i + 1 - start).drop_last() =~= d.take(i - start));
                    assert(d.take(i + 1 - start).last() == v@[i as int]);
                }
                acc = if nv > 0x1_0000_0000 {
                    0x1_0000_0000
                } else {
                    nv
                };
                i += 1;
            },
            None => {
                assert(d[i - start] == v@[i as int]);
                assert(digit_value(d[(i - start) as int], radix as int) < 0);
                return None;
            },
        }
    }
    assert(d.take(b - start) =~= d);

    if acc > 0xFFFF_FFFF {
        None
    } else {
        Some(acc as u32)
    }
}

/// Character of an entity body `v[a..b]`.
fn entity_char_exec(v: &Vec<char>, a: usize, b: usize) -> (r: Option<char>)
    requires
        a <= b <= v@.len(),
    ensures
        r == entity_char(v@.subrange(a as int, b as int)),
{
    let ghost body = v@.subrange(a as int, b as int);
    assert(b - a >= 1 ==> body[0] == v@[a as int]);
    assert(b - a >= 2 ==> body[1] == v@[a + 1]);
    let bv = sub_vec(v, a, b);
    match named_entity_exec(&bv) {
        Some(c) => Some(c),
        None => {
            let code = if b - a >= 2 && v[a] == '#' && (v[a + 1] == 'x' || v[a + 1] == 'X') {
                assert(body.skip(2) =~= v@.subrange(a + 2, b as int));
                parse_u32_exec(v, a + 2, b, 16)
            } else if b - a >= 1 && v[a] == '#' {
                assert(body.skip(1) =~= v@.subrange(a + 1, b as int));
                parse_u32_exec(v, a + 1, b, 10)
            } else {
                None
            };
            match code {
                Some(u) => {
                    let r = char_from_u32(u);
                    if let Some(c) = r {
                        proof {
                            char_u32_cast(c, u);
                        }
                    }
                    r
                },
                None => None,
            }
        },
    }
}

/// Decode an entity at `k` within `v[k..end]` (`offs` are the byte offsets).
fn decode_entity(v: &Vec<char>, offs: &Vec<usize>, k: usize, end: usize) -> (r: Option<(char, usize)>)
    requires
        offsets_ok(v@, offs@),
        k < end <= v@.len(),
        v@[k as int] == '&',
    ensures
        match r {
            Some((c, n)) => spec_decode_entity(v@, k as int, end as int) == Some((c, n as int)) && 3 <= n <= end - k,
            None => spec_decode_entity(v@, k as int, end as int) is None,
        },
{
    let ghost w = v@.subrange(k as int, end as int);
    let mut j: usize = k;
    while j < end && v[j] != ';'
        invariant
            k <= j <= end <= v@.len(),
            w == v@.subrange(k as int, end as int),
            forall|m: int| k <= m < j ==> v@[m] != ';',
        decreases end - j,
    {
        j += 1;
    }
    if j == end {
        proof {
            lemma_index_of_absent(w, ';');
        }
        return None;
    }
    proof {
        lemma_index_of_found(w, ';', j - k);
        lemma_offsets_monotone(v@, offs@, k as int, j as int);
        assert(w.take(j - k) =~= v@.subrange(k as int, j as int));
    }
    if j - k < 2 || offs[j] - offs[k] >= 12 {
        return None;
    }
    assert(w.subrange(1, j - k) =~= v@.subrange(k + 1, j as int));
    match entity_char_exec(v, k + 1, j) {
        Some(c) => Some((c, j - k + 1)),
        None => None,
    }
}



// ---------------------------------------------------------------------------
// Elements
// ---------------------------------------------------------------------------

/// Elements whose boundaries separate words in the normalized text.
pub open spec fn is_block_name(n: Seq<char>) -> bool {
    ||| n == "address"@ ||| n == "article"@ ||| n == "aside"@ ||| n == "blockquote"@
    ||| n == "br"@ ||| n == "caption"@ ||| n == "dd"@ ||| n == "div"@ ||| n == "dl"@
    ||| n == "dt"@ ||| n == "fieldset"@ ||| n == "figcaption"@ ||| n == "figure"@
    ||| n == "footer"@ ||| n == "h1"@ ||| n == "h2"@ ||| n == "h3"@ ||| n == "h4"@
    ||| n == "h5"@ ||| n == "h6"@ ||| n == "header"@ ||| n == "hr"@ ||| n == "li"@
    ||| n == "main"@ ||| n == "nav"@ ||| n == "ol"@ ||| n == "p"@ ||| n == "pre"@
    ||| n == "section"@ ||| n == "table"@ ||| n == "tbody"@ ||| n == "td"@
    ||| n == "tfoot"@ ||| n == "th"@ ||| n == "thead"@ ||| n == "tr"@ ||| n == "ul"@
}

/// Elements whose content is not text of the document.
pub open spec fn is_skip_name(n: Seq<char>) -> bool {
    n == "head"@ || n == "script"@ || n == "style"@ || n == "template"@ || n == "title"@
}

fn is_block_exec(n: &Vec<char>) -> (b: bool)
    ensures
        b == is_block_name(n@),
{
    chars_eq_str(n, "address") || chars_eq_str(n, "article") || chars_eq_str(n, "aside")
        || chars_eq_str(n, "blockquote") || chars_eq_str(n, "br") || chars_eq_str(n, "caption")
        || chars_eq_str(n, "dd") || chars_eq_str(n, "div") || chars_eq_str(n, "dl")
        || chars_eq_str(n, "dt") || chars_eq_str(n, "fieldset") || chars_eq_str(n, "figcaption")
        || chars_eq_str(n, "figure") || chars_eq_str(n, "footer") || chars_eq_str(n, "h1")
        || chars_eq_str(n, "h2") || chars_eq_str(n, "h3") || chars_eq_str(n, "h4")
        || chars_eq_str(n, "h5") || chars_eq_str(n, "h6") || chars_eq_str(n, "header")
        || chars_eq_str(n, "hr") || chars_eq_str(n, "li") || chars_eq_str(n, "main")
        || chars_eq_str(n, "nav") || chars_eq_str(n, "ol") || chars_eq_str(n, "p")
        || chars_eq_str(n, "pre") || chars_eq_str(n, "section") || chars_eq_str(n, "table")
        || chars_eq_str(n, "tbody") || chars_eq_str(n, "td") || chars_eq_str(n, "tfoot")
        || chars_eq_str(n, "th") || chars_eq_str(n, "thead") || chars_eq_str(n, "tr")
        || chars_eq_str(n, "ul")
}

fn is_skip_exec(n: &Vec<char>) -> (b: bool)
    ensures
        b == is_skip_name(n@),
{
    chars_eq_str(n, "head") || chars_eq_str(n, "script") || chars_eq_str(n, "style")
        || chars_eq_str(n, "template") || chars_eq_str(n, "title")
}

/// A start tag: closes the parent's open chunk, counts as its child; opens
/// a new element unless self-closing.
pub open spec fn spec_start_element(st: ScanState, name: Seq<char>, sc: bool) -> ScanState {
    let st1 = spec_flush_ws(st);
    let li = st1.stack.len() - 1;
    let top = st1.stack[li];
    let top2 = StackEl { open_chunk: None, child_elems: (top.child_elems + 1) as usize, ..top };
    let st2 = ScanState {
        stack: st1.stack.update(li, top2),
        pending_block: if is_block_name(name) {
            true
        } else {
            st1.pending_block
        },
        ..st1
    };
    if sc {
        st2
    } else {
        let st3 = ScanState {
            stack: st2.stack.push(
                StackEl { step: (top2.child_elems * 2) as usize, child_elems: 0, open_chunk: None },
            ),
            ..st2
        };
        if st3.skip_depth > 0 || is_skip_name(name) {
            ScanState { skip_depth: (st3.skip_depth + 1) as usize, ..st3 }
        } else {
            st3
        }
    }
}

/// An end tag: pops the element (never the document node) and closes the
/// parent's open chunk.
pub open spec fn spec_end_element(st: ScanState, name: Seq<char>) -> ScanState {
    let st1 = spec_flush_ws(st);
    let st2 = if st1.stack.len() > 1 {
        ScanState { stack: st1.stack.drop_last(), ..st1 }
    } else {
        st1
    };
    let li = st2.stack.len() - 1;
    let st3 = ScanState {
        stack: st2.stack.update(li, StackEl { open_chunk: None, ..st2.stack[li] }),
        ..st2
    };
    let st4 = if st3.skip_depth > 0 {
        ScanState { skip_depth: (st3.skip_depth - 1) as usize, ..st3 }
    } else {
        st3
    };
    if is_block_name(name) {
        ScanState { pending_block: true, ..st4 }
    } else {
        st4
    }
}

/// Byte offset of char index `k`.
pub open spec fn off(src: Seq<char>, k: int) -> usize {
    byte_len(src.take(k)) as usize
}

/// Character data `src[k..end]`: entities decode to one character each,
/// everything else is taken character by character.
pub open spec fn chardata_from(src: Seq<char>, k: int, end: int, st: ScanState) -> ScanState
    decreases end - k,
{
    if k < 0 || k >= end || end > src.len() {
        st
    } else {
        let ent = if src[k] == '&' {
            spec_decode_entity(src, k, end)
        } else {
            None
        };
        match ent {
            Some((ch, n)) => if n >= 1 && k + n <= end {
                chardata_from(src, k + n, end, spec_push_char(st, ch, off(src, k), off(src, k + n)))
            } else {
                st
            },
            None => chardata_from(
                src,
                k + 1,
                end,
                spec_push_char(st, src[k], off(src, k), off(src, k + 1)),
            ),
        }
    }
}

/// Character data is ignored inside skipped elements.
pub open spec fn spec_character_data(src: Seq<char>, start: int, end: int, st: ScanState) -> ScanState {
    if st.skip_depth > 0 {
        st
    } else {
        chardata_from(src, start, end, st)
    }
}

pub proof fn lemma_byte_len_ge_len(s: Seq<char>)
    ensures
        byte_len(s) >= s.len(),
    decreases s.len(),
{
    if s.len() > 0 {
        lemma_byte_len_ge_len(s.drop_last());
        assert(s.drop_last().push(s.last()) =~= s);
        lemma_encode_push(s.drop_last(), s.last());
        lemma_char_width_bounds(s.last());
    }
}

// ---------------------------------------------------------------------------
// Scanner state
// ---------------------------------------------------------------------------

/// Origin of a run of normalized output bytes.
#[derive(PartialEq, Eq, Structural, Clone, Copy, Debug)]
pub enum Kind {
    /// Bytes copied verbatim from the source (UTF-8 identical).
    Run,
    /// A single collapsed space produced by a run of source whitespace, or a
    /// decoded entity (atomic in source space).
    Ws,
    /// A single space synthesized at a block-element boundary (no chunk).
    Synthetic,
}

/// One run of normalized output bytes with a shared origin.
#[derive(Clone, Copy, Debug)]
pub struct Entry {
    pub kind: Kind,
    /// Range in the normalized text (bytes)
    pub norm_start: usize,
    pub norm_len: usize,
    /// Range in the source document (bytes)
    pub src_start: usize,
    pub src_end: usize,
    /// Chunk this came from (`usize::MAX` for `Synthetic`)
    pub chunk: usize,
    /// Character offset within the chunk (decoded, uncollapsed, code points)
    pub char_start: usize,
    /// Characters this entry covers in chunk space
    pub char_len: usize,
}

/// An open element while scanning.
#[derive(Clone, Copy)]
pub struct StackEl {
    /// CFI step index of this element among its parent's children
    pub step: usize,
    /// Element children seen so far
    pub child_elems: usize,
    /// Currently open text chunk, if any
    pub open_chunk: Option<usize>,
}

/// Source whitespace waiting to become (at most) one space.
#[derive(Clone, Copy)]
pub struct PendingWs {
    pub chunk: usize,
    pub char_start: usize,
    pub char_len: usize,
    pub src_start: usize,
    pub src_end: usize,
    /// A tag boundary was crossed: the source span must not grow past it.
    pub frozen: bool,
}

/// The scanner's state, abstractly.
pub struct ScanState {
    pub text: Seq<char>,
    pub entries: Seq<Entry>,
    pub chunk_paths: Seq<Seq<usize>>,
    pub chunk_chars: Seq<usize>,
    /// `stack[0]` is a virtual document node; `stack[1]` the root element
    pub stack: Seq<StackEl>,
    pub skip_depth: usize,
    pub pending_ws: Option<PendingWs>,
    pub pending_block: bool,
}

/// State before anything is scanned.
pub open spec fn initial_state() -> ScanState {
    ScanState {
        text: seq![],
        entries: seq![],
        chunk_paths: seq![],
        chunk_chars: seq![],
        stack: seq![StackEl { step: 0, child_elems: 0, open_chunk: None }],
        skip_depth: 0,
        pending_ws: None,
        pending_block: false,
    }
}

/// Bounds that keep every counter representable, given that `pos`
/// characters (`posb` bytes) of the source have been consumed.
pub open spec fn state_wf(st: ScanState, pos: int, posb: int) -> bool {
    &&& 1 <= st.stack.len() <= pos + 1
    &&& st.chunk_paths.len() == st.chunk_chars.len()
    &&& st.chunk_chars.len() <= pos
    &&& st.skip_depth <= pos
    &&& byte_len(st.text) <= 4 * posb
    &&& forall|k: int| 0 <= k < st.stack.len() ==> {
        &&& #[trigger] st.stack[k].child_elems <= pos
        &&& st.stack[k].step <= 2 * pos
        &&& st.stack[k].open_chunk matches Some(c) ==> c < st.chunk_chars.len()
    }
    &&& forall|c: int| 0 <= c < st.chunk_chars.len() ==> #[trigger] st.chunk_chars[c] <= pos
    &&& forall|k: int| 0 <= k < st.entries.len() ==> {
        let e = #[trigger] st.entries[k];
        &&& e.src_start <= e.src_end <= posb
        &&& e.norm_start + e.norm_len <= byte_len(st.text)
        &&& (e.kind == Kind::Run ==> e.norm_len == e.src_end - e.src_start)
        &&& (e.kind != Kind::Synthetic ==> e.chunk < st.chunk_chars.len() && e.char_start
            + e.char_len <= st.chunk_chars[e.chunk as int])
    }
    &&& st.pending_ws matches Some(w) ==> {
        &&& w.src_start <= w.src_end <= posb
        &&& w.chunk < st.chunk_chars.len()
        &&& w.char_start + w.char_len <= st.chunk_chars[w.chunk as int]
    }
}

pub proof fn lemma_state_wf_mono(st: ScanState, pos: int, posb: int, pos2: int, posb2: int)
    requires
        state_wf(st, pos, posb),
        pos <= pos2,
        posb <= posb2,
    ensures
        state_wf(st, pos2, posb2),
{
}

/// Replacing the text and entries keeps the state well formed when every
/// entry stays within bounds.
proof fn lemma_wf_entries(st: ScanState, st2: ScanState, pos: int, posb: int, posb2: int)
    requires
        state_wf(st, pos, posb),
        posb <= posb2,
        st2.stack == st.stack,
        st2.chunk_paths == st.chunk_paths,
        st2.chunk_chars == st.chunk_chars,
        st2.skip_depth == st.skip_depth,
        st2.pending_ws == st.pending_ws,
        byte_len(st2.text) <= 4 * posb2,
        forall|k: int| 0 <= k < st2.entries.len() ==> {
            let e = #[trigger] st2.entries[k];
            &&& e.src_start <= e.src_end <= posb2
            &&& e.norm_start + e.norm_len <= byte_len(st2.text)
            &&& (e.kind == Kind::Run ==> e.norm_len == e.src_end - e.src_start)
            &&& (e.kind != Kind::Synthetic ==> e.chunk < st2.chunk_chars.len() && e.char_start
                + e.char_len <= st2.chunk_chars[e.chunk as int])
        },
    ensures
        state_wf(st2, pos, posb2),
{
}

/// A tag boundary freezes pending whitespace's source span.
pub open spec fn spec_flush_ws(st: ScanState) -> ScanState {
    match st.pending_ws {
        Some(w) => ScanState { pending_ws: Some(PendingWs { frozen: true, ..w }), ..st },
        None => st,
    }
}

/// CFI steps of the element on top of the stack, below the root element.
pub open spec fn stack_steps(stack: Seq<StackEl>) -> Seq<usize> {
    let from = if stack.len() < 2 {
        stack.len() as int
    } else {
        2
    };
    stack.subrange(from, stack.len() as int).map_values(|e: StackEl| e.step)
}

/// The chunk text goes into: the top element's open chunk, or a new one
/// whose path ends with the odd index after its element children so far.
pub open spec fn spec_ensure_chunk(st: ScanState) -> (ScanState, usize) {
    let top = st.stack.last();
    match top.open_chunk {
        Some(c) => (st, c),
        None => {
            let path = stack_steps(st.stack).push((top.child_elems * 2 + 1) as usize);
            let id = st.chunk_chars.len() as usize;
            (
                ScanState {
                    chunk_paths: st.chunk_paths.push(path),
                    chunk_chars: st.chunk_chars.push(0),
                    stack: st.stack.update(
                        st.stack.len() - 1,
                        StackEl { open_chunk: Some(id), ..top },
                    ),
                    ..st
                },
                id,
            )
        },
    }
}

/// Emit at most one space for pending source whitespace and/or a block
/// boundary, but never at the very start of the text and never doubled.
pub open spec fn spec_emit_pending_spaces(st: ScanState) -> ScanState {
    let st1 = ScanState { pending_ws: None, pending_block: false, ..st };
    if st.text.len() == 0 || (st.pending_ws is None && !st.pending_block) {
        st1
    } else if st.text.last() == ' ' {
        st1
    } else {
        let norm_start = byte_len(st.text) as usize;
        let entry = match st.pending_ws {
            Some(w) => Entry {
                kind: Kind::Ws,
                norm_start,
                norm_len: 1,
                src_start: w.src_start,
                src_end: w.src_end,
                chunk: w.chunk,
                char_start: w.char_start,
                char_len: w.char_len,
            },
            None => {
                let pos = if st.entries.len() > 0 {
                    st.entries.last().src_end
                } else {
                    0
                };
                Entry {
                    kind: Kind::Synthetic,
                    norm_start,
                    norm_len: 1,
                    src_start: pos,
                    src_end: pos,
                    chunk: usize::MAX,
                    char_start: 0,
                    char_len: 0,
                }
            },
        };
        ScanState { text: st.text.push(' '), entries: st.entries.push(entry), ..st1 }
    }
}

/// Add one decoded character that came from source bytes `[s, e)`.
pub open spec fn spec_push_char(st: ScanState, ch: char, s: usize, e: usize) -> ScanState {
    let (st1, chunk) = spec_ensure_chunk(st);
    let char_pos = st1.chunk_chars[chunk as int];
    let st2 = ScanState {
        chunk_chars: st1.chunk_chars.update(chunk as int, (char_pos + 1) as usize),
        ..st1
    };
    if spec_is_whitespace(ch) {
        match st2.pending_ws {
            Some(w) => ScanState {
                pending_ws: Some(
                    PendingWs {
                        src_end: if !w.frozen {
                            e
                        } else {
                            w.src_end
                        },
                        char_len: if w.chunk == chunk {
                            (w.char_len + 1) as usize
                        } else {
                            w.char_len
                        },
                        ..w
                    },
                ),
                ..st2
            },
            None => ScanState {
                pending_ws: Some(
                    PendingWs {
                        chunk,
                        char_start: char_pos,
                        char_len: 1,
                        src_start: s,
                        src_end: e,
                        frozen: false,
                    },
                ),
                ..st2
            },
        }
    } else {
        let st3 = spec_emit_pending_spaces(st2);
        let norm_start = byte_len(st3.text) as usize;
        let norm_len = char_width(ch) as usize;
        let verbatim = norm_len == e - s;
        let text = st3.text.push(ch);
        let last = st3.entries.last();
        if verbatim && st3.entries.len() > 0 && last.kind == Kind::Run && last.chunk == chunk
            && last.src_end == s && last.norm_start + last.norm_len == norm_start
            && last.char_start + last.char_len == char_pos {
            let ext = Entry {
                norm_len: (last.norm_len + norm_len) as usize,
                src_end: e,
                char_len: (last.char_len + 1) as usize,
                ..last
            };
            ScanState { text, entries: st3.entries.update(st3.entries.len() - 1, ext), ..st3 }
        } else {
            let entry = Entry {
                kind: if verbatim {
                    Kind::Run
                } else {
                    Kind::Ws
                },
                norm_start,
                norm_len,
                src_start: s,
                src_end: e,
                chunk,
                char_start: char_pos,
                char_len: 1,
            };
            ScanState { text, entries: st3.entries.push(entry), ..st3 }
        }
    }
}


/// Largest source size (in bytes) the scanner's counters are proved for:
/// the normalized text is proved to take at most four bytes per source byte,
/// and it must stay within half the address space (its offsets are doubled
/// into CFI steps), so the source is held to an eighth of it.
pub open spec fn scan_limit() -> int {
    (usize::MAX / 8) as int
}

struct Scanner {
    text: Vec<char>,
    text_len: usize,
    entries: Vec<Entry>,
    chunk_paths: Vec<Vec<usize>>,
    chunk_chars: Vec<usize>,
    stack: Vec<StackEl>,
    skip_depth: usize,
    pending_ws: Option<PendingWs>,
    pending_block: bool,
}

impl Scanner {
    spec fn st(&self) -> ScanState {
        ScanState {
            text: self.text@,
            entries: self.entries@,
            chunk_paths: self.chunk_paths@.map_values(|p: Vec<usize>| p@),
            chunk_chars: self.chunk_chars@,
            stack: self.stack@,
            skip_depth: self.skip_depth,
            pending_ws: self.pending_ws,
            pending_block: self.pending_block,
        }
    }

    spec fn inv(&self) -> bool {
        &&& self.text_len == byte_len(self.text@)
        &&& self.chunk_paths@.len() == self.chunk_chars@.len()
    }

    fn new() -> (r: Scanner)
        ensures
            r.st() == initial_state(),
            r.inv(),
    {
        let mut stack: Vec<StackEl> = Vec::new();
        stack.push(StackEl { step: 0, child_elems: 0, open_chunk: None });
        let r = Scanner {
            text: Vec::new(),
            text_len: 0,
            entries: Vec::new(),
            chunk_paths: Vec::new(),
            chunk_chars: Vec::new(),
            stack,
            skip_depth: 0,
            pending_ws: None,
            pending_block: false,
        };
        assert(encode_utf8(Seq::<char>::empty()) =~= Seq::<u8>::empty());
        assert(r.st().chunk_paths =~= Seq::<Seq<usize>>::empty());
        assert(r.st().stack =~= seq![StackEl { step: 0, child_elems: 0, open_chunk: None }]);
        r
    }

    fn flush_ws_boundary(&mut self)
        ensures
            final(self).st() == spec_flush_ws(old(self).st()),
            final(self).inv() == old(self).inv(),
    {
        if let Some(w) = self.pending_ws {
            self.pending_ws = Some(PendingWs { frozen: true, ..w });
        }
    }

    fn ensure_chunk(&mut self, Ghost(pos): Ghost<int>, Ghost(posb): Ghost<int>) -> (c: usize)
        requires
            old(self).inv(),
            state_wf(old(self).st(), pos, posb),
            pos < scan_limit(),
        ensures
            final(self).inv(),
            (final(self).st(), c) == spec_ensure_chunk(old(self).st()),
            c < final(self).st().chunk_chars.len(),
            state_wf(final(self).st(), pos + 1, posb),
            final(self).st().chunk_chars[c as int] <= pos,
    {
        let last = self.stack.len() - 1;
        let top = self.stack[last];
        assert(top.child_elems <= pos);
        match top.open_chunk {
            Some(c) => {
                proof {
                    lemma_state_wf_mono(self.st(), pos, posb, pos + 1, posb);
                }
                c
            },
            None => {
                let ghost steps = stack_steps(self.stack@);
                let mut path: Vec<usize> = Vec::new();
                let n = self.stack.len();
                let from: usize = if n < 2 {
                    n
                } else {
                    2
                };
                let mut k: usize = from;
                while k < n
                    invariant
                        n == self.stack@.len(),
                        from <= k <= n,
                        from == (if n < 2 {
                            n
                        } else {
                            2
                        }),
                        path@ == self.stack@.subrange(from as int, k as int).map_values(
                            |e: StackEl| e.step,
                        ),
                    decreases n - k,
                {
                    path.push(self.stack[k].step);
                    k += 1;
                    assert(path@ =~= self.stack@.subrange(from as int, k as int).map_values(
                        |e: StackEl| e.step,
                    ));
                }
                assert(path@ == steps);
                path.push(top.child_elems * 2 + 1);
                let id = self.chunk_chars.len();
                let ghost old_st = self.st();
                self.chunk_paths.push(path);
                self.chunk_chars.push(0);
                self.stack.set(last, StackEl { open_chunk: Some(id), ..top });
                proof {
                    let (exp, eid) = spec_ensure_chunk(old_st);
                    assert(self.st().chunk_paths =~= exp.chunk_paths);
                    assert(self.st().chunk_chars =~= exp.chunk_chars);
                    assert(self.st().stack =~= exp.stack);
                    assert(self.st() == exp);
                    assert forall|k: int| 0 <= k < self.st().stack.len() implies {
                        &&& #[trigger] self.st().stack[k].child_elems <= pos + 1
                        &&& self.st().stack[k].step <= 2 * (pos + 1)
                        &&& self.st().stack[k].open_chunk matches Some(c) ==> c
                            < self.st().chunk_chars.len()
                    } by {
                        assert(old_st.stack[k].child_elems <= pos);
                    }
                }
                id
            },
        }
    }

    fn emit_pending_spaces(&mut self, Ghost(pos): Ghost<int>, Ghost(posb): Ghost<int>)
        requires
            old(self).inv(),
            state_wf(old(self).st(), pos, posb),
            posb < scan_limit(),
        ensures
            final(self).inv(),
            final(self).st() == spec_emit_pending_spaces(old(self).st()),
            byte_len(final(self).st().text) <= byte_len(old(self).st().text) + 1,
            state_wf(final(self).st(), pos, posb + 1),
    {
        let ghost old_st = self.st();
        let ws = self.pending_ws;
        let block = self.pending_block;
        self.pending_ws = None;
        self.pending_block = false;
        if self.text.len() == 0 || (ws.is_none() && !block) {
            proof {
                lemma_state_wf_mono(self.st(), pos, posb, pos, posb + 1);
            }
            return;
        }
        if self.text[self.text.len() - 1] == ' ' {
            proof {
                lemma_state_wf_mono(self.st(), pos, posb, pos, posb + 1);
            }
            return;
        }
        let norm_start = self.text_len;
        proof {
            lemma_encode_push(self.text@, ' ');
        }
        self.text.push(' ');
        self.text_len = self.text_len + 1;
        let entry = match ws {
            Some(w) => Entry {
                kind: Kind::Ws,
                norm_start,
                norm_len: 1,
                src_start: w.src_start,
                src_end: w.src_end,
                chunk: w.chunk,
                char_start: w.char_start,
                char_len: w.char_len,
            },
            None => {
                let pos_src = if self.entries.len() > 0 {
                    self.entries[self.entries.len() - 1].src_end
                } else {
                    0
                };
                Entry {
                    kind: Kind::Synthetic,
                    norm_start,
                    norm_len: 1,
                    src_start: pos_src,
                    src_end: pos_src,
                    chunk: usize::MAX,
                    char_start: 0,
                    char_len: 0,
                }
            },
        };
        self.entries.push(entry);
        proof {
            assert(self.st().chunk_paths =~= old_st.chunk_paths);
            assert(self.st() == spec_emit_pending_spaces(old_st));
            assert(char_width(' ') == 1) by {
                assert(has_width_1_encoding(' ' as u32));
            }
            assert forall|k: int| 0 <= k < self.st().entries.len() implies {
                let e = #[trigger] self.st().entries[k];
                &&& e.src_start <= e.src_end <= posb + 1
                &&& e.norm_start + e.norm_len <= byte_len(self.st().text)
                &&& (e.kind != Kind::Synthetic ==> e.chunk < self.st().chunk_chars.len()
                    && e.char_start + e.char_len <= self.st().chunk_chars[e.chunk as int])
            } by {
                if k < old_st.entries.len() {
                    assert(self.st().entries[k] == old_st.entries[k]);
                }
            }
        }
    }

    #[verifier::rlimit(80)]
    #[verifier::spinoff_prover]
    fn push_char(&mut self, ch: char, s: usize, e: usize, Ghost(pos): Ghost<int>)
        requires
            old(self).inv(),
            state_wf(old(self).st(), pos, s as int),
            s < e,
            char_width(ch) == e - s || e - s >= 3,
            pos + 1 < scan_limit(),
            e < scan_limit(),
        ensures
            final(self).inv(),
            final(self).st() == spec_push_char(old(self).st(), ch, s, e),
            state_wf(final(self).st(), pos + 1, e as int),
    {
        let ghost st0 = self.st();
        let chunk = self.ensure_chunk(Ghost(pos), Ghost(s as int));
        let ghost st1 = self.st();
        let char_pos = self.chunk_chars[chunk];
        self.chunk_chars.set(chunk, char_pos + 1);
        let ghost st2 = self.st();
        assert(st2.chunk_paths =~= st1.chunk_paths);
        assert(st2 == ScanState {
            chunk_chars: st1.chunk_chars.update(chunk as int, (char_pos + 1) as usize),
            ..st1
        });
        proof {
            assert forall|k: int| 0 <= k < st2.entries.len() implies {
                let e = #[trigger] st2.entries[k];
                &&& e.src_start <= e.src_end <= s
                &&& e.norm_start + e.norm_len <= byte_len(st2.text)
                &&& (e.kind != Kind::Synthetic ==> e.chunk < st2.chunk_chars.len() && e.char_start
                    + e.char_len <= st2.chunk_chars[e.chunk as int])
            } by {
                assert(st1.entries[k] == st2.entries[k]);
            }
            assert(state_wf(st2, pos + 1, s as int));
        }
        if is_whitespace(ch) {
            match self.pending_ws {
                Some(w) => {
                    let src_end = if !w.frozen {
                        e
                    } else {
                        w.src_end
                    };
                    let char_len = if w.chunk == chunk {
                        w.char_len + 1
                    } else {
                        w.char_len
                    };
                    self.pending_ws = Some(PendingWs { src_end, char_len, ..w });
                },
                None => {
                    self.pending_ws = Some(
                        PendingWs {
                            chunk,
                            char_start: char_pos,
                            char_len: 1,
                            src_start: s,
                            src_end: e,
                            frozen: false,
                        },
                    );
                },
            }
            proof {
                assert(self.st().chunk_paths =~= st2.chunk_paths);
                lemma_state_wf_mono(st2, pos + 1, s as int, pos + 1, e as int);
            }
            return;
        }
        self.emit_pending_spaces(Ghost(pos + 1), Ghost(s as int));
        let ghost st3 = self.st();
        let norm_start = self.text_len;
        let norm_len = char_width_of(ch);
        let verbatim = norm_len == e - s;
        proof {
            lemma_encode_push(self.text@, ch);
        }
        self.text.push(ch);
        self.text_len = self.text_len + norm_len;
        let n = self.entries.len();
        if verbatim && n > 0 {
            let last = self.entries[n - 1];
            if last.kind == Kind::Run && last.chunk == chunk && last.src_end == s && last.norm_start
                + last.norm_len == norm_start && last.char_start + last.char_len == char_pos {
                let ext = Entry {
                    norm_len: last.norm_len + norm_len,
                    src_end: e,
                    char_len: last.char_len + 1,
                    ..last
                };
                self.entries.set(n - 1, ext);
                proof {
                    assert(self.st().chunk_paths =~= st3.chunk_paths);
                    assert(self.st() == spec_push_char(st0, ch, s, e));
                    assert forall|k: int| 0 <= k < self.st().entries.len() implies {
                        let en = #[trigger] self.st().entries[k];
                        &&& en.src_start <= en.src_end <= e
                        &&& en.norm_start + en.norm_len <= byte_len(self.st().text)
                        &&& (en.kind == Kind::Run ==> en.norm_len == en.src_end - en.src_start)
                        &&& (en.kind != Kind::Synthetic ==> en.chunk < self.st().chunk_chars.len()
                            && en.char_start + en.char_len <= self.st().chunk_chars[en.chunk as int])
                    } by {
                        if k < n - 1 {
                            assert(self.st().entries[k] == st3.entries[k]);
                        } else {
                            assert(st3.entries[k] == last);
                        }
                    }
                    lemma_char_width_bounds(ch);
                    assert(byte_len(self.st().text) <= 4 * e);
                    assert(self.st().stack == st3.stack);
                    assert(self.st().chunk_chars == st3.chunk_chars);
                    lemma_wf_entries(st3, self.st(), pos + 1, s + 1, e as int);
                }
                return;
            }
        }
        let entry = Entry {
            kind: if verbatim {
                Kind::Run
            } else {
                Kind::Ws
            },
            norm_start,
            norm_len,
            src_start: s,
            src_end: e,
            chunk,
            char_start: char_pos,
            char_len: 1,
        };
        self.entries.push(entry);
        proof {
            assert(self.st().chunk_paths =~= st3.chunk_paths);
            assert(self.st() == spec_push_char(st0, ch, s, e));
            assert forall|k: int| 0 <= k < self.st().entries.len() implies {
                let en = #[trigger] self.st().entries[k];
                &&& en.src_start <= en.src_end <= e
                &&& en.norm_start + en.norm_len <= byte_len(self.st().text)
                &&& (en.kind == Kind::Run ==> en.norm_len == en.src_end - en.src_start)
                &&& (en.kind != Kind::Synthetic ==> en.chunk < self.st().chunk_chars.len()
                    && en.char_start + en.char_len <= self.st().chunk_chars[en.chunk as int])
            } by {
                if k < n {
                    assert(self.st().entries[k] == st3.entries[k]);
                }
            }
            lemma_char_width_bounds(ch);
            assert(byte_len(self.st().text) <= 4 * e);
            assert(self.st().stack == st3.stack);
            assert(self.st().chunk_chars == st3.chunk_chars);
            lemma_wf_entries(st3, self.st(), pos + 1, s + 1, e as int);
        }
    }

    fn start_element(&mut self, name: &Vec<char>, sc: bool, Ghost(pos): Ghost<int>, Ghost(posb): Ghost<int>)
        requires
            old(self).inv(),
            state_wf(old(self).st(), pos, posb),
            pos + 1 < scan_limit(),
        ensures
            final(self).inv(),
            final(self).st() == spec_start_element(old(self).st(), name@, sc),
            state_wf(final(self).st(), pos + 1, posb),
    {
        let ghost st0 = self.st();
        self.flush_ws_boundary();
        let li = self.stack.len() - 1;
        let top = self.stack[li];
        assert(top.child_elems <= pos);
        let top2 = StackEl { open_chunk: None, child_elems: top.child_elems + 1, ..top };
        self.stack.set(li, top2);
        if is_block_exec(name) {
            self.pending_block = true;
        }
        let ghost st2 = self.st();
        if !sc {
            self.stack.push(StackEl { step: top2.child_elems * 2, child_elems: 0, open_chunk: None });
            if self.skip_depth > 0 || is_skip_exec(name) {
                self.skip_depth = self.skip_depth + 1;
            }
        }
        proof {
            assert(self.st().chunk_paths =~= st0.chunk_paths);
            assert(self.st() == spec_start_element(st0, name@, sc));
            assert forall|k: int| 0 <= k < self.st().stack.len() implies {
                &&& #[trigger] self.st().stack[k].child_elems <= pos + 1
                &&& self.st().stack[k].step <= 2 * (pos + 1)
                &&& self.st().stack[k].open_chunk matches Some(c) ==> c < self.st().chunk_chars.len()
            } by {
                if k < li {
                    assert(self.st().stack[k] == st0.stack[k]);
                }
            }
        }
    }

    fn end_element(&mut self, name: &Vec<char>, Ghost(pos): Ghost<int>, Ghost(posb): Ghost<int>)
        requires
            old(self).inv(),
            state_wf(old(self).st(), pos, posb),
        ensures
            final(self).inv(),
            final(self).st() == spec_end_element(old(self).st(), name@),
            state_wf(final(self).st(), pos, posb),
    {
        let ghost st0 = self.st();
        self.flush_ws_boundary();
        if self.stack.len() > 1 {
            self.stack.pop();
        }
        let li = self.stack.len() - 1;
        let top = self.stack[li];
        self.stack.set(li, StackEl { open_chunk: None, ..top });
        if self.skip_depth > 0 {
            self.skip_depth = self.skip_depth - 1;
        }
        if is_block_exec(name) {
            self.pending_block = true;
        }
        proof {
            assert(self.st().chunk_paths =~= st0.chunk_paths);
            assert(self.st().stack =~= spec_end_element(st0, name@).stack);
            assert(self.st() == spec_end_element(st0, name@));
            assert forall|k: int| 0 <= k < self.st().stack.len() implies {
                &&& #[trigger] self.st().stack[k].child_elems <= pos
                &&& self.st().stack[k].step <= 2 * pos
                &&& self.st().stack[k].open_chunk matches Some(c) ==> c < self.st().chunk_chars.len()
            } by {
                assert(self.st().stack[k].child_elems == st0.stack[k].child_elems);
                assert(self.st().stack[k].step == st0.stack[k].step);
            }
        }
    }

    fn character_data(&mut self, src: &Vec<char>, offs: &Vec<usize>, start: usize, end: usize)
        requires
            old(self).inv(),
            offsets_ok(src@, offs@),
            start <= end <= src@.len(),
            state_wf(old(self).st(), start as int, offs@[start as int] as int),
            offs@[src@.len() as int] < scan_limit(),
        ensures
            final(self).inv(),
            final(self).st() == spec_character_data(src@, start as int, end as int, old(self).st()),
            state_wf(final(self).st(), end as int, offs@[end as int] as int),
    {
        proof {
            lemma_byte_len_ge_len(src@);
            assert(src@.take(src@.len() as int) =~= src@);
            lemma_offsets_monotone(src@, offs@, end as int, src@.len() as int);
            lemma_offsets_monotone(src@, offs@, start as int, end as int);
        }
        if self.skip_depth > 0 {
            proof {
                lemma_state_wf_mono(self.st(), start as int, offs@[start as int] as int, end as int, offs@[end as int] as int);
            }
            return;
        }
        let ghost st0 = self.st();
        let mut k: usize = start;
        while k < end
            invariant
                self.inv(),
                offsets_ok(src@, offs@),
                start <= k <= end <= src@.len(),
                offs@[src@.len() as int] < scan_limit(),
                src@.len() <= offs@[src@.len() as int],
                state_wf(self.st(), k as int, offs@[k as int] as int),
                chardata_from(src@, start as int, end as int, st0) == chardata_from(src@, k as int, end as int, self.st()),
            decreases end - k,
        {
            proof {
                lemma_offsets_monotone(src@, offs@, k as int, src@.len() as int);
                lemma_offsets_monotone(src@, offs@, k + 1, src@.len() as int);
                lemma_offsets_monotone(src@, offs@, k as int, k + 1);
                assert(src@.subrange(k as int, k + 1) =~= seq![src@[k as int]]);
                lemma_encode_push(Seq::<char>::empty(), src@[k as int]);
                assert(Seq::<char>::empty().push(src@[k as int]) =~= seq![src@[k as int]]);
                assert(encode_utf8(Seq::<char>::empty()) =~= Seq::<u8>::empty());
            }
            let ent = if src[k] == '&' {
                decode_entity(src, offs, k, end)
            } else {
                None
            };
            match ent {
                Some((ch, n)) => {
                    proof {
                        lemma_offsets_monotone(src@, offs@, k as int, k + n);
                        lemma_offsets_monotone(src@, offs@, k + n, src@.len() as int);
                        lemma_byte_len_ge_len(src@.subrange(k as int, k + n));
                    }
                    self.push_char(ch, offs[k], offs[k + n], Ghost(k as int));
                    proof {
                        lemma_state_wf_mono(self.st(), k + 1, offs@[k + n] as int, k + n, offs@[k + n] as int);
                    }
                    k = k + n;
                },
                None => {
                    self.push_char(src[k], offs[k], offs[k + 1], Ghost(k as int));
                    k = k + 1;
                },
            }
        }
    }
}


// ---------------------------------------------------------------------------
// The scan
// ---------------------------------------------------------------------------

/// Whether `p` occurs in `s` at `i`.
pub open spec fn lit_at(s: Seq<char>, i: int, p: Seq<char>) -> bool {
    i + p.len() <= s.len() && s.subrange(i, i + p.len()) == p
}

/// Index just past the first `pat` at or after `i` (the end when absent).
pub open spec fn after_find(s: Seq<char>, i: int, pat: Seq<char>) -> int {
    let f = find_seq_from(s, i, pat);
    if f < 0 {
        s.len() as int
    } else {
        f + pat.len()
    }
}

/// One scanning step at `i`: the next index and the new state.
pub open spec fn spec_step(src: Seq<char>, i: int, st: ScanState) -> (int, ScanState) {
    if src[i] == '<' {
        if lit_at(src, i, "<!--"@) {
            (after_find(src, i, "-->"@), st)
        } else if lit_at(src, i, "<![CDATA["@) {
            let f = find_seq_from(src, i, "]]>"@);
            let inner_end = if f < 0 {
                src.len() as int
            } else {
                f
            };
            (after_find(src, i, "]]>"@), spec_character_data(src, i + 9, inner_end, st))
        } else if lit_at(src, i, "<?"@) {
            (after_find(src, i, "?>"@), st)
        } else if lit_at(src, i, "<!"@) {
            (after_find(src, i, ">"@), st)
        } else if lit_at(src, i, "</"@) {
            let g = find_seq_from(src, i, ">"@);
            let name_end = if g >= 0 {
                g
            } else if src.len() - 1 > i + 2 {
                src.len() - 1
            } else {
                i + 2
            };
            let next = if g >= 0 {
                g + 1
            } else {
                src.len() as int
            };
            (next, spec_end_element(st, spec_tag_name(src.subrange(i + 2, name_end))))
        } else {
            match spec_scan_tag(src, i) {
                Some((name, sc, e)) => (e, spec_start_element(st, name, sc)),
                None => (i + 1, spec_push_char(st, '<', off(src, i), off(src, i + 1))),
            }
        }
    } else {
        let f = find_seq_from(src, i, "<"@);
        let next = if f < 0 {
            src.len() as int
        } else {
            f
        };
        (next, spec_character_data(src, i, next, st))
    }
}

/// Scan from `i` to the end (every step advances).
pub open spec fn run_from(src: Seq<char>, i: int, st: ScanState) -> ScanState
    decreases src.len() - i,
{
    if i < 0 || i >= src.len() {
        st
    } else {
        let (j, st2) = spec_step(src, i, st);
        if j <= i || j > src.len() {
            st2
        } else {
            run_from(src, j, st2)
        }
    }
}

/// The complete scan of a document.
pub open spec fn spec_scan(src: Seq<char>) -> ScanState {
    run_from(src, 0, initial_state())
}

// ---------------------------------------------------------------------------
// The entries tile the normalized text
// ---------------------------------------------------------------------------

/// The entries cover the normalized text (of `total` bytes) in order, each
/// non-empty, each starting where the previous one ends.
pub open spec fn tiles(entries: Seq<Entry>, total: int) -> bool {
    &&& forall|k: int| 0 <= k < entries.len() ==> #[trigger] entries[k].norm_len >= 1
    &&& forall|k: int|
        0 <= k < entries.len() ==> #[trigger] start_after(entries, k) == entries[k].norm_start
    &&& total == start_after(entries, entries.len() as int)
}

/// Where entry `k` starts when the entries tile the text: where entry
/// `k - 1` ends (0 for the first).
pub open spec fn start_after(entries: Seq<Entry>, k: int) -> int {
    if k <= 0 {
        0
    } else {
        entries[k - 1].norm_start + entries[k - 1].norm_len
    }
}

/// Tiling entries are ordered by their start, and each ends within the text.
pub proof fn lemma_tiles_sorted(entries: Seq<Entry>, total: int, a: int, b: int)
    requires
        tiles(entries, total),
        0 <= a <= b < entries.len(),
    ensures
        entries[a].norm_start <= entries[b].norm_start,
        a < b ==> entries[a].norm_start + entries[a].norm_len <= entries[b].norm_start,
        entries[b].norm_start + entries[b].norm_len <= total,
{
    lemma_tiles_order(entries, total, a, b);
    lemma_tiles_end(entries, total, b);
}

proof fn lemma_tiles_order(entries: Seq<Entry>, total: int, a: int, b: int)
    requires
        tiles(entries, total),
        0 <= a <= b < entries.len(),
    ensures
        entries[a].norm_start <= entries[b].norm_start,
        a < b ==> entries[a].norm_start + entries[a].norm_len <= entries[b].norm_start,
    decreases b - a,
{
    if a < b {
        lemma_tiles_order(entries, total, a, b - 1);
        assert(start_after(entries, b) == entries[b].norm_start);
    }
}

proof fn lemma_tiles_end(entries: Seq<Entry>, total: int, b: int)
    requires
        tiles(entries, total),
        0 <= b < entries.len(),
    ensures
        entries[b].norm_start + entries[b].norm_len <= total,
    decreases entries.len() - b,
{
    if b + 1 < entries.len() {
        lemma_tiles_end(entries, total, b + 1);
        assert(start_after(entries, b + 1) == entries[b + 1].norm_start);
    } else {
        assert(start_after(entries, entries.len() as int) == total);
    }
}

/// Appending an entry that starts at the end of the text and is as long
/// as what the text grew by keeps the tiling.
proof fn lemma_tiles_push(entries: Seq<Entry>, total: int, e: Entry)
    requires
        tiles(entries, total),
        e.norm_start == total,
        e.norm_len >= 1,
    ensures
        tiles(entries.push(e), total + e.norm_len),
{
    let es = entries.push(e);
    assert forall|k: int| 0 <= k < es.len() implies #[trigger] start_after(es, k) == es[k].norm_start by {
        if k < entries.len() {
            assert(es[k] == entries[k]);
            assert(start_after(entries, k) == entries[k].norm_start);
            if k > 0 {
                assert(es[k - 1] == entries[k - 1]);
            }
        } else if k > 0 {
            assert(es[k - 1] == entries[k - 1]);
        }
    }
    assert forall|k: int| 0 <= k < es.len() implies #[trigger] es[k].norm_len >= 1 by {
        if k < entries.len() {
            assert(es[k] == entries[k]);
        }
    }
    assert(start_after(es, es.len() as int) == total + e.norm_len);
}

/// Growing the last entry by what the text grew by keeps the tiling.
proof fn lemma_tiles_extend(entries: Seq<Entry>, total: int, e: Entry)
    requires
        tiles(entries, total),
        entries.len() > 0,
        e.norm_start == entries.last().norm_start,
        e.norm_len >= entries.last().norm_len,
    ensures
        tiles(entries.update(entries.len() - 1, e), total + (e.norm_len - entries.last().norm_len)),
{
    let es = entries.update(entries.len() - 1, e);
    let n = entries.len() - 1;
    assert forall|k: int| 0 <= k < es.len() implies #[trigger] start_after(es, k) == es[k].norm_start by {
        assert(start_after(entries, k) == entries[k].norm_start);
        if k < n {
            assert(es[k] == entries[k]);
        }
        if 0 < k {
            assert(es[k - 1] == entries[k - 1]);
        }
    }
    assert forall|k: int| 0 <= k < es.len() implies #[trigger] es[k].norm_len >= 1 by {
        if k < n {
            assert(es[k] == entries[k]);
        }
    }
    assert(start_after(entries, entries.len() as int) == total);
    assert(start_after(es, es.len() as int) == total + (e.norm_len - entries.last().norm_len));
}

proof fn lemma_width_space()
    ensures
        char_width(' ') == 1,
{
    assert(has_width_1_encoding(' ' as u32));
}

proof fn lemma_tiles_emit(st: ScanState)
    requires
        tiles(st.entries, byte_len(st.text) as int),
        byte_len(spec_emit_pending_spaces(st).text) <= usize::MAX,
    ensures
        tiles(spec_emit_pending_spaces(st).entries, byte_len(spec_emit_pending_spaces(st).text) as int),
        byte_len(st.text) <= byte_len(spec_emit_pending_spaces(st).text),
{
    let r = spec_emit_pending_spaces(st);
    lemma_encode_push(st.text, ' ');
    lemma_width_space();
    if r.text != st.text {
        lemma_tiles_push(st.entries, byte_len(st.text) as int, r.entries.last());
        assert(r.entries =~= st.entries.push(r.entries.last()));
    }
}

proof fn lemma_emit_grows(st: ScanState)
    ensures
        byte_len(st.text) <= byte_len(spec_emit_pending_spaces(st).text),
{
    lemma_encode_push(st.text, ' ');
}

/// Adding a character grows the text, and keeps the entries tiling it
/// (while its length is representable).
pub proof fn lemma_tiles_push_char(st: ScanState, ch: char, s: usize, e: usize)
    requires
        byte_len(st.text) <= usize::MAX ==> tiles(st.entries, byte_len(st.text) as int),
    ensures
        byte_len(st.text) <= byte_len(spec_push_char(st, ch, s, e).text),
        byte_len(spec_push_char(st, ch, s, e).text) <= usize::MAX ==> tiles(
            spec_push_char(st, ch, s, e).entries,
            byte_len(spec_push_char(st, ch, s, e).text) as int,
        ),
{
    let (st1, chunk) = spec_ensure_chunk(st);
    let char_pos = st1.chunk_chars[chunk as int];
    let st2 = ScanState {
        chunk_chars: st1.chunk_chars.update(chunk as int, (char_pos + 1) as usize),
        ..st1
    };
    if !spec_is_whitespace(ch) {
        let st3 = spec_emit_pending_spaces(st2);
        lemma_emit_grows(st2);
        lemma_encode_push(st3.text, ch);
        lemma_char_width_bounds(ch);
        let r = spec_push_char(st, ch, s, e);
        if byte_len(r.text) <= usize::MAX {
            lemma_tiles_emit(st2);
            let norm_start = byte_len(st3.text) as usize;
            let norm_len = char_width(ch) as usize;
            let last = st3.entries.last();
            if norm_len == e - s && st3.entries.len() > 0 && last.kind == Kind::Run && last.chunk
                == chunk && last.src_end == s && last.norm_start + last.norm_len == norm_start
                && last.char_start + last.char_len == char_pos {
                lemma_tiles_extend(st3.entries, byte_len(st3.text) as int, r.entries.last());
                assert(r.entries =~= st3.entries.update(st3.entries.len() - 1, r.entries.last()));
            } else {
                lemma_tiles_push(st3.entries, byte_len(st3.text) as int, r.entries.last());
                assert(r.entries =~= st3.entries.push(r.entries.last()));
            }
        }
    }
}

/// Tiling of a state whose text length is representable.
pub open spec fn tiles_bounded(st: ScanState) -> bool {
    byte_len(st.text) <= usize::MAX ==> tiles(st.entries, byte_len(st.text) as int)
}

proof fn lemma_tiles_chardata(src: Seq<char>, k: int, end: int, st: ScanState)
    requires
        tiles_bounded(st),
    ensures
        tiles_bounded(chardata_from(src, k, end, st)),
        byte_len(st.text) <= byte_len(chardata_from(src, k, end, st).text),
    decreases end - k,
{
    if !(k < 0 || k >= end || end > src.len()) {
        let ent = if src[k] == '&' {
            spec_decode_entity(src, k, end)
        } else {
            None
        };
        match ent {
            Some((ch, n)) => if n >= 1 && k + n <= end {
                lemma_tiles_push_char(st, ch, off(src, k), off(src, k + n));
                lemma_tiles_chardata(src, k + n, end, spec_push_char(st, ch, off(src, k), off(src, k + n)));
            },
            None => {
                lemma_tiles_push_char(st, src[k], off(src, k), off(src, k + 1));
                lemma_tiles_chardata(src, k + 1, end, spec_push_char(st, src[k], off(src, k), off(src, k + 1)));
            },
        }
    }
}

proof fn lemma_tiles_step(src: Seq<char>, i: int, st: ScanState)
    requires
        0 <= i < src.len(),
        tiles_bounded(st),
    ensures
        tiles_bounded(spec_step(src, i, st).1),
        byte_len(st.text) <= byte_len(spec_step(src, i, st).1.text),
{
    if src[i] == '<' {
        if lit_at(src, i, "<!--"@) {
        } else if lit_at(src, i, "<![CDATA["@) {
            let f = find_seq_from(src, i, "]]>"@);
            let inner_end = if f < 0 {
                src.len() as int
            } else {
                f
            };
            lemma_tiles_chardata(src, i + 9, inner_end, st);
        } else if lit_at(src, i, "<?"@) {
        } else if lit_at(src, i, "<!"@) {
        } else if lit_at(src, i, "</"@) {
        } else {
            match spec_scan_tag(src, i) {
                Some(_) => {},
                None => {
                    lemma_tiles_push_char(st, '<', off(src, i), off(src, i + 1));
                },
            }
        }
    } else {
        let f = find_seq_from(src, i, "<"@);
        let next = if f < 0 {
            src.len() as int
        } else {
            f
        };
        lemma_tiles_chardata(src, i, next, st);
    }
}

proof fn lemma_tiles_run_from(src: Seq<char>, i: int, st: ScanState)
    requires
        tiles_bounded(st),
    ensures
        tiles_bounded(run_from(src, i, st)),
    decreases src.len() - i,
{
    if !(i < 0 || i >= src.len()) {
        lemma_tiles_step(src, i, st);
        let (j, st2) = spec_step(src, i, st);
        if !(j <= i || j > src.len()) {
            lemma_tiles_run_from(src, j, st2);
        }
    }
}

/// The entries of a scanned document tile its normalized text.
pub proof fn lemma_scan_tiles(src: Seq<char>)
    ensures
        tiles_bounded(spec_scan(src)),
{
    assert(encode_utf8(Seq::<char>::empty()) =~= Seq::<u8>::empty());
    lemma_tiles_run_from(src, 0, initial_state());
}

// ---------------------------------------------------------------------------
// The normalized text is whitespace-collapsed
// ---------------------------------------------------------------------------

/// Whitespace collapsed: the only whitespace is single spaces between other
/// characters, none at either end.
pub open spec fn collapsed(t: Seq<char>) -> bool {
    &&& forall|i: int| 0 <= i < t.len() ==> #[trigger] t[i] == ' ' || !spec_is_whitespace(t[i])
    &&& forall|i: int| 0 <= i < t.len() - 1 && #[trigger] t[i] == ' ' ==> t[i + 1] != ' '
    &&& t.len() > 0 ==> !spec_is_whitespace(t[0]) && !spec_is_whitespace(t.last())
}

proof fn lemma_collapsed_push_char(st: ScanState, ch: char, s: usize, e: usize)
    requires
        collapsed(st.text),
    ensures
        collapsed(spec_push_char(st, ch, s, e).text),
{
    let (st1, chunk) = spec_ensure_chunk(st);
    assert(st1.text == st.text);
    if !spec_is_whitespace(ch) {
        let char_pos = st1.chunk_chars[chunk as int];
        let st2 = ScanState { chunk_chars: st1.chunk_chars.update(chunk as int, (char_pos + 1) as usize), ..st1 };
        let st3 = spec_emit_pending_spaces(st2);
        let t = st3.text.push(ch);
        assert(spec_is_whitespace(' ')) by {
            assert((' ' as u32) == 0x20);
        }
        if st3.text.len() > st.text.len() {
            assert(st3.text == st.text.push(' '));
            assert(st.text.len() > 0 && st.text.last() != ' ');
            assert forall|i: int| 0 <= i < t.len() - 1 && #[trigger] t[i] == ' ' implies t[i + 1] != ' ' by {
                if i < st.text.len() - 1 {
                    assert(t[i] == st.text[i] && t[i + 1] == st.text[i + 1]);
                } else if i == st.text.len() - 1 {
                    assert(t[i] == st.text.last());
                }
            }
            assert forall|i: int| 0 <= i < t.len() implies #[trigger] t[i] == ' ' || !spec_is_whitespace(t[i]) by {
                if i < st.text.len() {
                    assert(t[i] == st.text[i]);
                }
            }
            assert(t[0] == st.text[0]);
        } else {
            assert(st3.text == st.text);
            assert forall|i: int| 0 <= i < t.len() - 1 && #[trigger] t[i] == ' ' implies t[i + 1] != ' ' by {
                if i < st.text.len() - 1 {
                    assert(t[i] == st.text[i] && t[i + 1] == st.text[i + 1]);
                } else {
                    assert(t[i] == st.text.last());
                }
            }
            assert forall|i: int| 0 <= i < t.len() implies #[trigger] t[i] == ' ' || !spec_is_whitespace(t[i]) by {
                if i < st.text.len() {
                    assert(t[i] == st.text[i]);
                }
            }
            if st.text.len() > 0 {
                assert(t[0] == st.text[0]);
            }
        }
    }
}

proof fn lemma_collapsed_chardata(src: Seq<char>, k: int, end: int, st: ScanState)
    requires
        collapsed(st.text),
    ensures
        collapsed(chardata_from(src, k, end, st).text),
    decreases end - k,
{
    if !(k < 0 || k >= end || end > src.len()) {
        let ent = if src[k] == '&' {
            spec_decode_entity(src, k, end)
        } else {
            None
        };
        match ent {
            Some((ch, n)) => if n >= 1 && k + n <= end {
                lemma_collapsed_push_char(st, ch, off(src, k), off(src, k + n));
                lemma_collapsed_chardata(src, k + n, end, spec_push_char(st, ch, off(src, k), off(src, k + n)));
            },
            None => {
                lemma_collapsed_push_char(st, src[k], off(src, k), off(src, k + 1));
                lemma_collapsed_chardata(src, k + 1, end, spec_push_char(st, src[k], off(src, k), off(src, k + 1)));
            },
        }
    }
}

proof fn lemma_collapsed_step(src: Seq<char>, i: int, st: ScanState)
    requires
        0 <= i < src.len(),
        collapsed(st.text),
    ensures
        collapsed(spec_step(src, i, st).1.text),
{
    if src[i] == '<' {
        if lit_at(src, i, "<!--"@) {
        } else if lit_at(src, i, "<![CDATA["@) {
            let f = find_seq_from(src, i, "]]>"@);
            let inner_end = if f < 0 {
                src.len() as int
            } else {
                f
            };
            lemma_collapsed_chardata(src, i + 9, inner_end, st);
        } else if lit_at(src, i, "<?"@) {
        } else if lit_at(src, i, "<!"@) {
        } else if lit_at(src, i, "</"@) {
        } else {
            match spec_scan_tag(src, i) {
                Some(_) => {},
                None => {
                    lemma_collapsed_push_char(st, '<', off(src, i), off(src, i + 1));
                },
            }
        }
    } else {
        let f = find_seq_from(src, i, "<"@);
        let next = if f < 0 {
            src.len() as int
        } else {
            f
        };
        lemma_collapsed_chardata(src, i, next, st);
    }
}

proof fn lemma_collapsed_run_from(src: Seq<char>, i: int, st: ScanState)
    requires
        collapsed(st.text),
    ensures
        collapsed(run_from(src, i, st).text),
    decreases src.len() - i,
{
    if !(i < 0 || i >= src.len()) {
        lemma_collapsed_step(src, i, st);
        let (j, st2) = spec_step(src, i, st);
        if !(j <= i || j > src.len()) {
            lemma_collapsed_run_from(src, j, st2);
        }
    }
}

/// The normalized text of any document is whitespace-collapsed: runs of
/// source whitespace and block boundaries become single spaces between
/// other characters, with none at the start or the end.
pub proof fn law_text_collapsed(src: Seq<char>)
    ensures
        collapsed(spec_scan(src).text),
{
    lemma_collapsed_run_from(src, 0, initial_state());
}

/// What scanning plain text has built after `k` characters: the text so far
/// (a space held back until the next character comes), no block boundary.
spec fn plain_scanned(src: Seq<char>, k: int, st: ScanState) -> bool {
    &&& !st.pending_block
    &&& k == 0 ==> st.text == Seq::<char>::empty() && st.pending_ws is None
    &&& k > 0 && src[k - 1] == ' ' ==> st.text == src.take(k - 1) && st.pending_ws is Some
    &&& k > 0 && src[k - 1] != ' ' ==> st.text == src.take(k) && st.pending_ws is None
}

proof fn lemma_plain_chardata(src: Seq<char>, k: int, st: ScanState)
    requires
        0 <= k <= src.len(),
        collapsed(src),
        forall|i: int| 0 <= i < src.len() ==> #[trigger] src[i] != '<' && src[i] != '&',
        plain_scanned(src, k, st),
    ensures
        chardata_from(src, k, src.len() as int, st).text == src,
    decreases src.len() - k,
{
    if k == src.len() {
        if k > 0 {
            assert(!spec_is_whitespace(src.last()));
            assert(src[k - 1] != ' ');
        }
        assert(src.take(k) =~= src);
    } else {
        let ch = src[k];
        assert(ch == ' ' || !spec_is_whitespace(ch));
        let (st1, chunk) = spec_ensure_chunk(st);
        assert(st1.text == st.text && st1.pending_ws == st.pending_ws && st1.pending_block == st.pending_block);
        let nx = spec_push_char(st, ch, off(src, k), off(src, k + 1));
        if k == 0 {
            assert(!spec_is_whitespace(src[0]));
        }
        if ch == ' ' {
            assert(k > 0);
            assert(src[k - 1] != ' ');
            assert(nx.text == src.take(k));
        } else {
            let char_pos = st1.chunk_chars[chunk as int];
            let st2 = ScanState { chunk_chars: st1.chunk_chars.update(chunk as int, (char_pos + 1) as usize), ..st1 };
            let st3 = spec_emit_pending_spaces(st2);
            if k > 0 && src[k - 1] == ' ' {
                assert(k >= 2) by {
                    if k == 1 {
                        assert(!spec_is_whitespace(src[0]));
                    }
                }
                assert(src[k - 2] != ' ');
                assert(st2.text.last() == src[k - 2]);
                assert(st3.text == src.take(k - 1).push(' '));
                assert(src.take(k - 1).push(' ') =~= src.take(k));
            } else if k > 0 {
                assert(st3.text == src.take(k));
            } else {
                assert(st3.text == Seq::<char>::empty());
                assert(src.take(0) =~= Seq::<char>::empty());
            }
            assert(nx.text == st3.text.push(ch));
            assert(src.take(k).push(ch) =~= src.take(k + 1));
        }
        lemma_plain_chardata(src, k + 1, nx);
    }
}

proof fn lemma_no_lt_ahead(src: Seq<char>, k: int)
    requires
        0 <= k <= src.len(),
        forall|i: int| 0 <= i < src.len() ==> #[trigger] src[i] != '<' && src[i] != '&',
    ensures
        find_seq_from(src, k, seq!['<']) == -1,
    decreases src.len() - k,
{
    if k < src.len() {
        lemma_find_skip(src, k, '<');
        lemma_no_lt_ahead(src, k + 1);
    }
}

/// The first `c` at or after `k` is at `j` when `s[k..j]` holds none.
pub proof fn lemma_find_char_at(s: Seq<char>, k: int, j: int, c: char)
    requires
        0 <= k <= j < s.len(),
        s[j] == c,
        forall|i: int| k <= i < j ==> s[i] != c,
    ensures
        find_seq_from(s, k, seq![c]) == j,
    decreases j - k,
{
    if k < j {
        lemma_find_skip(s, k, c);
        lemma_find_char_at(s, k + 1, j, c);
    } else {
        assert(s.subrange(j, j + 1) =~= seq![c]);
    }
}

/// What scanning plain text from `k0` on has built after reaching `k`: the
/// text before it (`p`), then a space when a word break was pending (`pb`),
/// then the characters read (a space held back until the next character).
spec fn seg_scanned(src: Seq<char>, k0: int, p: Seq<char>, pb: bool, k: int, st: ScanState) -> bool {
    let sep = if pb && p.len() > 0 { seq![' '] } else { Seq::<char>::empty() };
    &&& k == k0 ==> st.text == p && st.pending_ws is None && st.pending_block == pb
    &&& k > k0 && src[k - 1] == ' ' ==> st.text == p + sep + src.subrange(k0, k - 1) && st.pending_ws is Some
        && !st.pending_block
    &&& k > k0 && src[k - 1] != ' ' ==> st.text == p + sep + src.subrange(k0, k) && st.pending_ws is None
        && !st.pending_block
}

/// `src[k0..e]` is plain text (no `<` or `&`) with collapsed whitespace.
spec fn plain_segment(src: Seq<char>, k0: int, e: int) -> bool {
    &&& 0 <= k0 < e <= src.len()
    &&& forall|i: int| k0 <= i < e ==> #[trigger] src[i] != '<' && src[i] != '&' && (src[i] == ' ' || !spec_is_whitespace(src[i]))
    &&& forall|i: int| k0 <= i < e - 1 && #[trigger] src[i] == ' ' ==> src[i + 1] != ' '
    &&& !spec_is_whitespace(src[k0])
    &&& !spec_is_whitespace(src[e - 1])
}

proof fn lemma_segment_chardata(src: Seq<char>, k0: int, e: int, p: Seq<char>, pb: bool, k: int, st: ScanState)
    requires
        plain_segment(src, k0, e),
        k0 <= k <= e,
        p.len() > 0 ==> !spec_is_whitespace(p.last()),
        seg_scanned(src, k0, p, pb, k, st),
    ensures
        chardata_from(src, k, e, st).text == p + (if pb && p.len() > 0 { seq![' '] } else { Seq::<char>::empty() }) + src.subrange(k0, e),
        chardata_from(src, k, e, st).pending_ws is None,
        !chardata_from(src, k, e, st).pending_block,
        chardata_from(src, k, e, st).skip_depth == st.skip_depth,
    decreases e - k,
{
    let sep = if pb && p.len() > 0 { seq![' '] } else { Seq::<char>::empty() };
    if k == e {
        assert(src[e - 1] != ' ');
    } else {
        let ch = src[k];
        assert(ch == ' ' || !spec_is_whitespace(ch));
        let (st1, chunk) = spec_ensure_chunk(st);
        assert(st1.text == st.text && st1.pending_ws == st.pending_ws && st1.pending_block == st.pending_block);
        let nx = spec_push_char(st, ch, off(src, k), off(src, k + 1));
        if ch == ' ' {
            assert(k > k0);
            assert(src[k - 1] != ' ');
            assert(nx.text == p + sep + src.subrange(k0, k));
        } else {
            let char_pos = st1.chunk_chars[chunk as int];
            let st2 = ScanState { chunk_chars: st1.chunk_chars.update(chunk as int, (char_pos + 1) as usize), ..st1 };
            let st3 = spec_emit_pending_spaces(st2);
            if k > k0 && src[k - 1] == ' ' {
                assert(k - 1 > k0);
                let x = src.subrange(k0, k - 1);
                assert(src[k - 2] != ' ');
                assert((p + sep + x).last() == x.last());
                assert(x.last() == src[k - 2]);
                assert(st3.text == (p + sep + x).push(' '));
                assert((p + sep + x).push(' ') =~= p + sep + src.subrange(k0, k));
            } else if k > k0 {
                assert(st3.text == p + sep + src.subrange(k0, k));
            } else {
                if p.len() > 0 && pb {
                    assert(p.last() != ' ');
                    assert(st3.text == p.push(' '));
                    assert(p.push(' ') =~= p + sep + src.subrange(k0, k));
                } else {
                    assert(st3.text == p);
                    assert(p =~= p + sep + src.subrange(k0, k));
                }
            }
            assert(nx.text == st3.text.push(ch));
            assert((p + sep + src.subrange(k0, k)).push(ch) =~= p + sep + src.subrange(k0, k + 1));
        }
        lemma_segment_chardata(src, k0, e, p, pb, k + 1, nx);
    }
}

proof fn lemma_find_seq_from_hit(s: Seq<char>, from: int, pat: Seq<char>)
    ensures
        find_seq_from(s, from, pat) >= 0 ==> s.subrange(find_seq_from(s, from, pat), find_seq_from(s, from, pat) + pat.len()) == pat,
    decreases s.len() + 1 - from,
{
    if !(from < 0 || from > s.len() || from + pat.len() > s.len()) && s.subrange(from, from + pat.len()) != pat {
        lemma_find_seq_from_hit(s, from + 1, pat);
    }
}

proof fn lemma_not_lit_at(s: Seq<char>, i: int, p: Seq<char>)
    requires
        p.len() >= 2,
        0 <= i,
        i + 1 < s.len(),
        s[i + 1] != p[1],
    ensures
        !lit_at(s, i, p),
{
    if i + p.len() <= s.len() {
        assert(s.subrange(i, i + p.len())[1] == s[i + 1]);
    }
}

/// A self-closing `<br/>` at `i` is a start tag named `br`.
proof fn lemma_br_step(src: Seq<char>, i: int, st: ScanState)
    requires
        0 <= i,
        i + 5 <= src.len(),
        src[i] == '<' && src[i + 1] == 'b' && src[i + 2] == 'r' && src[i + 3] == '/' && src[i + 4] == '>',
    ensures
        spec_step(src, i, st) == (i + 5, spec_start_element(st, seq!['b', 'r'], true)),
{
    reveal_strlit("<!--");
    reveal_strlit("<![CDATA[");
    reveal_strlit("<?");
    reveal_strlit("<!");
    reveal_strlit("</");
    lemma_not_lit_at(src, i, "<!--"@);
    lemma_not_lit_at(src, i, "<![CDATA["@);
    lemma_not_lit_at(src, i, "<?"@);
    lemma_not_lit_at(src, i, "<!"@);
    lemma_not_lit_at(src, i, "</"@);
    assert(tag_name_end(src, i + 3) == i + 3);
    assert(tag_name_end(src, i + 2) == i + 3);
    assert(tag_name_end(src, i + 1) == i + 3);
    assert(tag_rest(src, i + 4, true) == Some((true, i + 5)));
    assert(tag_rest(src, i + 3, false) == Some((true, i + 5)));
    let br = seq!['b', 'r'];
    assert(src.subrange(i + 1, i + 3) =~= br);
    assert(lower_seq(br) =~= br);
    crate::text::lemma_last_index_of_absent(br, ':');
    assert(br.skip(0) =~= br);
    assert(strip_prefix_ns(lower_seq(br)) == br);
    assert(spec_scan_tag(src, i) == Some((br, true, i + 5)));
}

/// Plain text from `k0` up to the next `<` (or the end) is read by one step.
proof fn lemma_plain_step(src: Seq<char>, k0: int, e: int, st: ScanState)
    requires
        plain_segment(src, k0, e),
        e == src.len() || src[e] == '<',
        st.skip_depth == 0,
    ensures
        spec_step(src, k0, st) == (e, chardata_from(src, k0, e, st)),
{
    reveal_strlit("<");
    assert("<"@ =~= seq!['<']);
    if e < src.len() {
        lemma_find_char_at(src, k0, e, '<');
    } else {
        lemma_find_seq_from_range(src, k0, seq!['<']);
        let f = find_seq_from(src, k0, seq!['<']);
        if f >= 0 {
            lemma_find_seq_from_hit(src, k0, seq!['<']);
            assert(src.subrange(f, f + 1)[0] == src[f]);
        }
    }
}

/// A line break separates words: in a document made of the plain text `a`,
/// a `<br/>` and the plain text `b` (no markup, whitespace already
/// collapsed), the text holds `a`, one space, then `b`, so the last word of
/// `a` and the first of `b` never run together.
pub proof fn law_line_break_separates_words(a: Seq<char>, b: Seq<char>)
    requires
        a.len() > 0,
        b.len() > 0,
        collapsed(a),
        collapsed(b),
        forall|i: int| 0 <= i < a.len() ==> #[trigger] a[i] != '<' && a[i] != '&',
        forall|i: int| 0 <= i < b.len() ==> #[trigger] b[i] != '<' && b[i] != '&',
    ensures
        spec_scan(a + seq!['<', 'b', 'r', '/', '>'] + b).text == a + seq![' '] + b,
{
    let tag = seq!['<', 'b', 'r', '/', '>'];
    let src = a + tag + b;
    let la = a.len() as int;
    let n = src.len() as int;
    assert(n == la + 5 + b.len());
    assert forall|i: int| 0 <= i < la implies src[i] == a[i] by {}
    assert forall|i: int| 0 <= i < b.len() implies src[la + 5 + i] == b[i] by {}
    assert(src[la] == '<' && src[la + 1] == 'b' && src[la + 2] == 'r' && src[la + 3] == '/' && src[la + 4] == '>');
    assert(plain_segment(src, 0, la)) by {
        assert forall|i: int| 0 <= i < la - 1 && #[trigger] src[i] == ' ' implies src[i + 1] != ' ' by {
            assert(a[i] == ' ');
        }
    }
    assert(plain_segment(src, la + 5, n)) by {
        assert forall|i: int| la + 5 <= i < n implies #[trigger] src[i] != '<' && src[i] != '&' && (src[i] == ' '
            || !spec_is_whitespace(src[i])) by {
            assert(src[i] == b[i - la - 5]);
        }
        assert forall|i: int| la + 5 <= i < n - 1 && #[trigger] src[i] == ' ' implies src[i + 1] != ' ' by {
            assert(src[i] == b[i - la - 5]);
            assert(src[i + 1] == b[i + 1 - la - 5]);
        }
        assert(src[n - 1] == b[b.len() - 1]);
    }
    // The text before the tag.
    let init = initial_state();
    assert(seg_scanned(src, 0, Seq::<char>::empty(), false, 0, init));
    lemma_segment_chardata(src, 0, la, Seq::empty(), false, 0, init);
    let st1 = chardata_from(src, 0, la, init);
    assert(Seq::<char>::empty() + Seq::<char>::empty() + src.subrange(0, la) =~= a);
    lemma_plain_step(src, 0, la, init);
    // The tag: a line break.
    lemma_br_step(src, la, st1);
    let br = seq!['b', 'r'];
    reveal_strlit("br");
    assert(br =~= "br"@);
    assert(is_block_name(br));
    let st2 = spec_start_element(st1, br, true);
    assert(st2.text == a && st2.pending_ws is None && st2.pending_block && st2.skip_depth == 0);
    // The text after it.
    assert(a.last() == a[la - 1]);
    assert(seg_scanned(src, la + 5, a, true, la + 5, st2));
    lemma_segment_chardata(src, la + 5, n, a, true, la + 5, st2);
    let st3 = chardata_from(src, la + 5, n, st2);
    lemma_plain_step(src, la + 5, n, st2);
    assert(src.subrange(la + 5, n) =~= b);
    assert(run_from(src, n, st3) == st3);
    assert(run_from(src, la + 5, st2) == st3);
    assert(run_from(src, la, st1) == st3);
}

/// Text without markup (no `<`, no `&`) whose whitespace is already
/// collapsed (see [`collapsed`]) scans to itself.
pub proof fn law_plain_text_unchanged(src: Seq<char>)
    requires
        collapsed(src),
        forall|i: int| 0 <= i < src.len() ==> #[trigger] src[i] != '<' && src[i] != '&',
    ensures
        spec_scan(src).text == src,
{
    if src.len() > 0 {
        reveal_strlit("<");
        assert("<"@ =~= seq!['<']);
        lemma_no_lt_ahead(src, 0);
        assert(plain_scanned(src, 0, initial_state()));
        lemma_plain_chardata(src, 0, initial_state());
        let n = src.len() as int;
        let st2 = chardata_from(src, 0, n, initial_state());
        assert(src[0] != '<');
        assert(spec_character_data(src, 0, n, initial_state()) == st2);
        assert(spec_step(src, 0, initial_state()) == (n, st2));
        assert(run_from(src, n, st2) == st2);
        assert(spec_scan(src) == run_from(src, n, st2));
    }
}

pub proof fn lemma_find_skip(s: Seq<char>, i: int, c: char)
    requires
        0 <= i < s.len(),
        s[i] != c,
    ensures
        find_seq_from(s, i, seq![c]) == find_seq_from(s, i + 1, seq![c]),
{
    assert(s.subrange(i, i + 1)[0] == s[i]);
}

pub proof fn lemma_after_find(s: Seq<char>, i: int, pat: Seq<char>)
    requires
        0 <= i < s.len(),
        pat.len() >= 1,
    ensures
        i < after_find(s, i, pat) <= s.len(),
{
    lemma_find_seq_from_range(s, i, pat);
}

struct Pats {
    comment: Vec<char>,
    comment_end: Vec<char>,
    cdata: Vec<char>,
    cdata_end: Vec<char>,
    pi: Vec<char>,
    pi_end: Vec<char>,
    bang: Vec<char>,
    gt: Vec<char>,
    close: Vec<char>,
    lt: Vec<char>,
}

impl Pats {
    spec fn ok(&self) -> bool {
        &&& self.comment@ == "<!--"@
        &&& self.comment_end@ == "-->"@
        &&& self.cdata@ == "<![CDATA["@
        &&& self.cdata_end@ == "]]>"@
        &&& self.pi@ == "<?"@
        &&& self.pi_end@ == "?>"@
        &&& self.bang@ == "<!"@
        &&& self.gt@ == ">"@
        &&& self.close@ == "</"@
        &&& self.lt@ == "<"@
        &&& "<!--"@ == seq!['<', '!', '-', '-']
        &&& "-->"@ == seq!['-', '-', '>']
        &&& "<![CDATA["@ == seq!['<', '!', '[', 'C', 'D', 'A', 'T', 'A', '[']
        &&& "]]>"@ == seq![']', ']', '>']
        &&& "<?"@ == seq!['<', '?']
        &&& "?>"@ == seq!['?', '>']
        &&& "<!"@ == seq!['<', '!']
        &&& ">"@ == seq!['>']
        &&& "</"@ == seq!['<', '/']
        &&& "<"@ == seq!['<']
    }

    fn new() -> (p: Pats)
        ensures
            p.ok(),
    {
        proof {
            reveal_strlit("<!--");
            reveal_strlit("-->");
            reveal_strlit("<![CDATA[");
            reveal_strlit("]]>");
            reveal_strlit("<?");
            reveal_strlit("?>");
            reveal_strlit("<!");
            reveal_strlit(">");
            reveal_strlit("</");
            reveal_strlit("<");
        }
        let p = Pats {
            comment: chars_of("<!--"),
            comment_end: chars_of("-->"),
            cdata: chars_of("<![CDATA["),
            cdata_end: chars_of("]]>"),
            pi: chars_of("<?"),
            pi_end: chars_of("?>"),
            bang: chars_of("<!"),
            gt: chars_of(">"),
            close: chars_of("</"),
            lt: chars_of("<"),
        };
        assert("<!--"@ =~= seq!['<', '!', '-', '-']);
        assert("-->"@ =~= seq!['-', '-', '>']);
        assert("<![CDATA["@ =~= seq!['<', '!', '[', 'C', 'D', 'A', 'T', 'A', '[']);
        assert("]]>"@ =~= seq![']', ']', '>']);
        assert("<?"@ =~= seq!['<', '?']);
        assert("?>"@ =~= seq!['?', '>']);
        assert("<!"@ =~= seq!['<', '!']);
        assert(">"@ =~= seq!['>']);
        assert("</"@ =~= seq!['<', '/']);
        assert("<"@ =~= seq!['<']);
        p
    }
}

/// Index just past the first `pat` at or after `i`.
pub(crate) fn after_find_exec(v: &Vec<char>, i: usize, pat: &Vec<char>) -> (r: usize)
    requires
        i < v@.len(),
        pat@.len() >= 1,
    ensures
        r as int == after_find(v@, i as int, pat@),
        i < r <= v@.len(),
{
    proof {
        lemma_after_find(v@, i as int, pat@);
    }
    match find_from(v, i, pat) {
        Some(f) => {
            assert(f + pat@.len() <= v@.len());
            assert(v@.len() == v.len() && pat@.len() == pat.len());
            f + pat.len()
        },
        None => v.len(),
    }
}


/// `byte_len(seq![c]) == char_width(c)`, through the offsets of `src`.
proof fn lemma_one_char_offsets(src: Seq<char>, offs: Seq<usize>, k: int)
    requires
        offsets_ok(src, offs),
        0 <= k < src.len(),
    ensures
        offs[k + 1] - offs[k] == char_width(src[k]),
        offs[k] < offs[k + 1],
{
    lemma_offsets_monotone(src, offs, k, k + 1);
    assert(src.subrange(k, k + 1) =~= seq![src[k]]);
    lemma_encode_push(Seq::<char>::empty(), src[k]);
    assert(Seq::<char>::empty().push(src[k]) =~= seq![src[k]]);
    assert(encode_utf8(Seq::<char>::empty()) =~= Seq::<u8>::empty());
}

impl Scanner {
    /// One scanning step at `i`.
    #[verifier::rlimit(60)]
    fn step(&mut self, src: &Vec<char>, offs: &Vec<usize>, pats: &Pats, i: usize) -> (next: usize)
        requires
            old(self).inv(),
            pats.ok(),
            offsets_ok(src@, offs@),
            i < src@.len(),
            offs@[src@.len() as int] < scan_limit(),
            state_wf(old(self).st(), i as int, offs@[i as int] as int),
        ensures
            final(self).inv(),
            (next as int, final(self).st()) == spec_step(src@, i as int, old(self).st()),
            i < next <= src@.len(),
            state_wf(final(self).st(), next as int, offs@[next as int] as int),
    {
        let n = src.len();
        let ghost st0 = self.st();
        proof {
            lemma_byte_len_ge_len(src@);
            assert(src@.take(src@.len() as int) =~= src@);
            lemma_offsets_monotone(src@, offs@, i as int, src@.len() as int);
        }
        if src[i] == '<' {
            if matches_at(src, i, &pats.comment) {
                let next = after_find_exec(src, i, &pats.comment_end);
                proof {
                    lemma_offsets_monotone(src@, offs@, i as int, next as int);
                    lemma_state_wf_mono(st0, i as int, offs@[i as int] as int, next as int, offs@[next as int] as int);
                }
                next
            } else if matches_at(src, i, &pats.cdata) {
                let inner_end = match find_from(src, i, &pats.cdata_end) {
                    Some(f) => f,
                    None => n,
                };
                let next = after_find_exec(src, i, &pats.cdata_end);
                proof {
                    lemma_find_seq_from_range(src@, i as int, "]]>"@);
                    lemma_offsets_monotone(src@, offs@, i as int, i + 9);
                    lemma_state_wf_mono(st0, i as int, offs@[i as int] as int, i + 9, offs@[i + 9] as int);
                }
                if i + 9 <= inner_end {
                    self.character_data(src, offs, i + 9, inner_end);
                } else {
                    proof {
                        lemma_offsets_monotone(src@, offs@, i as int, inner_end as int);
                        lemma_state_wf_mono(st0, i as int, offs@[i as int] as int, inner_end as int, offs@[inner_end as int] as int);
                    }
                }
                proof {
                    lemma_offsets_monotone(src@, offs@, inner_end as int, next as int);
                    lemma_state_wf_mono(self.st(), inner_end as int, offs@[inner_end as int] as int, next as int, offs@[next as int] as int);
                }
                next
            } else if matches_at(src, i, &pats.pi) {
                let next = after_find_exec(src, i, &pats.pi_end);
                proof {
                    lemma_offsets_monotone(src@, offs@, i as int, next as int);
                    lemma_state_wf_mono(st0, i as int, offs@[i as int] as int, next as int, offs@[next as int] as int);
                }
                next
            } else if matches_at(src, i, &pats.bang) {
                let next = after_find_exec(src, i, &pats.gt);
                proof {
                    lemma_offsets_monotone(src@, offs@, i as int, next as int);
                    lemma_state_wf_mono(st0, i as int, offs@[i as int] as int, next as int, offs@[next as int] as int);
                }
                next
            } else if matches_at(src, i, &pats.close) {
                proof {
                    assert(src@.subrange(i as int, i + 2)[1] == src@[i + 1]);
                    lemma_find_skip(src@, i as int, '>');
                    lemma_find_skip(src@, i + 1, '>');
                    lemma_find_seq_from_range(src@, i + 2, seq!['>']);
                }
                let (name_end, next) = match find_from(src, i, &pats.gt) {
                    Some(g) => (g, g + 1),
                    None => {
                        let ne = if n - 1 > i + 2 {
                            n - 1
                        } else {
                            i + 2
                        };
                        (ne, n)
                    },
                };
                let name = tag_name(src, i + 2, name_end);
                self.end_element(&name, Ghost(i as int), Ghost(offs@[i as int] as int));
                proof {
                    lemma_offsets_monotone(src@, offs@, i as int, next as int);
                    lemma_state_wf_mono(self.st(), i as int, offs@[i as int] as int, next as int, offs@[next as int] as int);
                }
                next
            } else {
                match scan_tag(src, i) {
                    Some((name, sc, e)) => {
                        proof {
                            lemma_tag_name_end(src@, i + 1);
                            lemma_tag_rest_range(src@, tag_name_end(src@, i + 1), false);
                        }
                        self.start_element(&name, sc, Ghost(i as int), Ghost(offs@[i as int] as int));
                        proof {
                            lemma_offsets_monotone(src@, offs@, i as int, e as int);
                            lemma_state_wf_mono(self.st(), i + 1, offs@[i as int] as int, e as int, offs@[e as int] as int);
                        }
                        e
                    },
                    None => {
                        proof {
                            lemma_one_char_offsets(src@, offs@, i as int);
                            lemma_offsets_monotone(src@, offs@, i + 1, src@.len() as int);
                        }
                        self.push_char('<', offs[i], offs[i + 1], Ghost(i as int));
                        i + 1
                    },
                }
            }
        } else {
            proof {
                lemma_find_skip(src@, i as int, '<');
                lemma_find_seq_from_range(src@, i + 1, seq!['<']);
            }
            let next = match find_from(src, i, &pats.lt) {
                Some(f) => f,
                None => n,
            };
            self.character_data(src, offs, i, next);
            next
        }
    }
}

/// Bounds on the scan's entries that the map's operations rely on.
pub open spec fn entries_wf(text_len: int, entries: Seq<Entry>, n_chunks: int) -> bool {
    forall|k: int| 0 <= k < entries.len() ==> {
        let e = #[trigger] entries[k];
        &&& e.src_start <= e.src_end
        &&& e.norm_start + e.norm_len <= text_len
        &&& (e.kind == Kind::Run ==> e.norm_len == e.src_end - e.src_start)
        &&& (e.kind != Kind::Synthetic ==> e.chunk < n_chunks && e.char_start + e.char_len
            <= scan_limit())
    }
}

// ---------------------------------------------------------------------------
// Source spans
// ---------------------------------------------------------------------------

/// Source span of the part of entry `e` inside the normalized range
/// `[start, end)`: byte for byte within a verbatim run, the whole span for
/// whitespace runs and entities (atomic in source space).
pub open spec fn seg_piece(e: Entry, start: int, end: int) -> (usize, usize) {
    if e.kind == Kind::Run {
        let es = e.norm_start as int;
        let ee = es + e.norm_len;
        let from = (if start > es {
            start
        } else {
            es
        }) - es;
        let to = (if end < ee {
            end
        } else {
            ee
        }) - es;
        ((e.src_start + from) as usize, (e.src_start + to) as usize)
    } else {
        (e.src_start, e.src_end)
    }
}

/// Append a span, joining it to the previous one when they touch.
pub open spec fn merge_seg(out: Seq<(usize, usize)>, p: (usize, usize)) -> Seq<(usize, usize)> {
    if out.len() > 0 && out.last().1 == p.0 {
        out.update(out.len() - 1, (out.last().0, p.1))
    } else {
        out.push(p)
    }
}

/// Spans of entries `k..` overlapping `[start, end)`, appended to `out`;
/// the walk stops at the first entry starting at or after `end`.
pub open spec fn segments_from(
    entries: Seq<Entry>,
    k: int,
    start: int,
    end: int,
    out: Seq<(usize, usize)>,
) -> Seq<(usize, usize)>
    decreases entries.len() - k,
{
    if k < 0 || k >= entries.len() {
        out
    } else {
        let e = entries[k];
        let es = e.norm_start as int;
        let ee = es + e.norm_len;
        if ee <= start {
            segments_from(entries, k + 1, start, end, out)
        } else if es >= end {
            out
        } else if e.kind == Kind::Synthetic {
            segments_from(entries, k + 1, start, end, out)
        } else {
            segments_from(entries, k + 1, start, end, merge_seg(out, seg_piece(e, start, end)))
        }
    }
}

/// Source spans covering the normalized range `[start, end)`.
pub open spec fn spec_source_segments(entries: Seq<Entry>, start: int, end: int) -> Seq<(usize, usize)> {
    if start >= end {
        Seq::empty()
    } else {
        segments_from(entries, 0, start, end, Seq::empty())
    }
}

/// The entries' source spans lie in order within the first `pos` source
/// bytes, each non-empty but for synthetic spaces, a verbatim run as long
/// in the source as in the text; pending whitespace lies after them.
pub open spec fn src_ordered(st: ScanState, pos: int) -> bool {
    &&& 0 <= pos
    &&& forall|k: int| 0 <= k < st.entries.len() ==> {
        let e = #[trigger] st.entries[k];
        &&& e.src_start <= e.src_end <= pos
        &&& (e.kind != Kind::Synthetic ==> e.src_start < e.src_end)
        &&& (e.kind == Kind::Run ==> e.norm_len == e.src_end - e.src_start)
    }
    &&& forall|a: int, b: int| 0 <= a < b < st.entries.len() ==> #[trigger] st.entries[a].src_end <= #[trigger] st.entries[b].src_start
    &&& st.pending_ws matches Some(w) ==> w.src_start < w.src_end <= pos && (st.entries.len() > 0 ==> st.entries.last().src_end
        <= w.src_start)
}

proof fn lemma_src_ordered_mono(st: ScanState, p: int, q: int)
    requires
        src_ordered(st, p),
        p <= q,
    ensures
        src_ordered(st, q),
{
    assert forall|k: int| 0 <= k < st.entries.len() implies (#[trigger] st.entries[k]).src_end <= q by {}
}

/// Byte offsets of character indices grow with the index.
proof fn lemma_off_lt(src: Seq<char>, a: int, b: int)
    requires
        0 <= a < b <= src.len(),
        byte_len(src) <= usize::MAX,
    ensures
        off(src, a) < off(src, b) <= byte_len(src),
    decreases b - a,
{
    lemma_char_width_bounds(src[b - 1]);
    assert(src.take(b) =~= src.take(b - 1).push(src[b - 1]));
    lemma_encode_push(src.take(b - 1), src[b - 1]);
    lemma_byte_len_prefix(src, b);
    lemma_byte_len_prefix(src, b - 1);
    if a < b - 1 {
        lemma_off_lt(src, a, b - 1);
    }
}

proof fn lemma_src_push_char(st: ScanState, ch: char, s: usize, e: usize, p: int)
    requires
        src_ordered(st, p),
        p <= s < e,
    ensures
        src_ordered(spec_push_char(st, ch, s, e), e as int),
{
    let (st1, chunk) = spec_ensure_chunk(st);
    let char_pos = st1.chunk_chars[chunk as int];
    let st2 = ScanState { chunk_chars: st1.chunk_chars.update(chunk as int, (char_pos + 1) as usize), ..st1 };
    assert(st2.entries == st.entries && st2.pending_ws == st.pending_ws);
    let r = spec_push_char(st, ch, s, e);
    if spec_is_whitespace(ch) {
        lemma_src_ordered_mono(st, p, e as int);
        assert(r.entries == st.entries);
    } else {
        let st3 = spec_emit_pending_spaces(st2);
        // The emitted space, if any, ends at or before `s`.
        assert(src_ordered(st3, p)) by {
            if !(st2.text.len() == 0 || (st2.pending_ws is None && !st2.pending_block)) && st2.text.last() != ' ' {
                let en = st3.entries.last();
                assert(st3.entries == st2.entries.push(en));
                assert forall|a: int, b: int| 0 <= a < b < st3.entries.len() implies #[trigger] st3.entries[a].src_end
                    <= #[trigger] st3.entries[b].src_start by {
                    if b < st2.entries.len() {
                        assert(st3.entries[a] == st2.entries[a] && st3.entries[b] == st2.entries[b]);
                    } else {
                        assert(st3.entries[a] == st2.entries[a]);
                        if a < st2.entries.len() - 1 {
                            assert(st2.entries[a].src_end <= st2.entries[st2.entries.len() - 1].src_start);
                        }
                        assert(st2.entries[st2.entries.len() - 1] == st2.entries.last());
                    }
                }
                assert forall|k: int| 0 <= k < st3.entries.len() implies {
                    let x = #[trigger] st3.entries[k];
                    &&& x.src_start <= x.src_end <= p
                    &&& (x.kind != Kind::Synthetic ==> x.src_start < x.src_end)
                    &&& (x.kind == Kind::Run ==> x.norm_len == x.src_end - x.src_start)
                } by {
                    if k < st2.entries.len() {
                        assert(st3.entries[k] == st2.entries[k]);
                    } else {
                        if st2.entries.len() > 0 {
                            assert(st2.entries[st2.entries.len() - 1] == st2.entries.last());
                        }
                        match st2.pending_ws {
                            Some(w) => {
                                assert(en.kind == Kind::Ws && en.src_start == w.src_start && en.src_end == w.src_end);
                            },
                            None => {
                                assert(en.kind == Kind::Synthetic);
                            },
                        }
                    }
                }
            }
        }
        let norm_start = byte_len(st3.text) as usize;
        let norm_len = char_width(ch) as usize;
        let last = st3.entries.last();
        if norm_len == e - s && st3.entries.len() > 0 && last.kind == Kind::Run && last.chunk == chunk && last.src_end
            == s && last.norm_start + last.norm_len == norm_start && last.char_start + last.char_len == char_pos {
            let n = st3.entries.len() - 1;
            assert(r.entries == st3.entries.update(n, r.entries[n]));
            assert(st3.entries[n] == last);
            assert forall|a: int, b: int| 0 <= a < b < r.entries.len() implies #[trigger] r.entries[a].src_end
                <= #[trigger] r.entries[b].src_start by {
                assert(r.entries[a] == st3.entries[a]);
                if b < n {
                    assert(r.entries[b] == st3.entries[b]);
                }
            }
            assert forall|k: int| 0 <= k < r.entries.len() implies {
                let x = #[trigger] r.entries[k];
                &&& x.src_start <= x.src_end <= e
                &&& (x.kind != Kind::Synthetic ==> x.src_start < x.src_end)
                &&& (x.kind == Kind::Run ==> x.norm_len == x.src_end - x.src_start)
            } by {
                if k < n {
                    assert(r.entries[k] == st3.entries[k]);
                }
            }
        } else {
            let en = r.entries.last();
            assert(r.entries == st3.entries.push(en));
            assert forall|a: int, b: int| 0 <= a < b < r.entries.len() implies #[trigger] r.entries[a].src_end
                <= #[trigger] r.entries[b].src_start by {
                assert(r.entries[a] == st3.entries[a]);
                if b < st3.entries.len() {
                    assert(r.entries[b] == st3.entries[b]);
                }
            }
            assert forall|k: int| 0 <= k < r.entries.len() implies {
                let x = #[trigger] r.entries[k];
                &&& x.src_start <= x.src_end <= e
                &&& (x.kind != Kind::Synthetic ==> x.src_start < x.src_end)
                &&& (x.kind == Kind::Run ==> x.norm_len == x.src_end - x.src_start)
            } by {
                if k < st3.entries.len() {
                    assert(r.entries[k] == st3.entries[k]);
                }
            }
        }
    }
}

proof fn lemma_src_chardata(src: Seq<char>, k: int, end: int, st: ScanState, p: int)
    requires
        0 <= k,
        byte_len(src) <= usize::MAX,
        k <= src.len() ==> p <= off(src, k),
        src_ordered(st, p),
    ensures
        src_ordered(chardata_from(src, k, end, st), if k < end && end <= src.len() { off(src, end) as int } else { p }),
    decreases end - k,
{
    if !(k < 0 || k >= end || end > src.len()) {
        let ent = if src[k] == '&' {
            spec_decode_entity(src, k, end)
        } else {
            None
        };
        match ent {
            Some((ch, n)) => if n >= 1 && k + n <= end {
                lemma_off_lt(src, k, k + n);
                lemma_src_push_char(st, ch, off(src, k), off(src, k + n), p);
                lemma_src_chardata(src, k + n, end, spec_push_char(st, ch, off(src, k), off(src, k + n)), off(src, k + n) as int);
            } else {
                lemma_off_lt(src, k, end);
                lemma_src_ordered_mono(st, p, off(src, end) as int);
            },
            None => {
                lemma_off_lt(src, k, k + 1);
                lemma_src_push_char(st, src[k], off(src, k), off(src, k + 1), p);
                lemma_src_chardata(src, k + 1, end, spec_push_char(st, src[k], off(src, k), off(src, k + 1)), off(src, k + 1) as int);
            },
        }
    }
}

proof fn lemma_src_tags(st: ScanState, name: Seq<char>, sc: bool, p: int)
    requires
        src_ordered(st, p),
    ensures
        src_ordered(spec_start_element(st, name, sc), p),
        src_ordered(spec_end_element(st, name), p),
{
    let f = spec_flush_ws(st);
    assert(f.entries == st.entries);
    assert(spec_start_element(st, name, sc).entries == st.entries);
    assert(spec_end_element(st, name).entries == st.entries);
}

proof fn lemma_src_step(src: Seq<char>, i: int, st: ScanState)
    requires
        0 <= i < src.len(),
        byte_len(src) <= usize::MAX,
        src_ordered(st, off(src, i) as int),
    ensures
        src_ordered(spec_step(src, i, st).1, off(src, src.len() as int) as int),
        i < spec_step(src, i, st).0 <= src.len() ==> src_ordered(spec_step(src, i, st).1, off(src, spec_step(src, i, st).0) as int),
{
    let (j, st2) = spec_step(src, i, st);
    let n = src.len() as int;
    lemma_off_lt(src, i, n);
    if src[i] == '<' {
        if lit_at(src, i, "<!--"@) {
            if i < j <= n && j < n {
                lemma_off_lt(src, i, j);
                lemma_off_lt(src, j, n);
            }
            if i < j <= n {
                lemma_off_lt(src, i, j);
            }
            lemma_src_ordered_mono(st, off(src, i) as int, off(src, n) as int);
            if i < j <= n {
                lemma_src_ordered_mono(st, off(src, i) as int, off(src, j) as int);
            }
        } else if lit_at(src, i, "<![CDATA["@) {
            let f = find_seq_from(src, i, "]]>"@);
            let inner_end = if f < 0 { n } else { f };
            lemma_find_seq_from_range(src, i, "]]>"@);
            reveal_strlit("]]>");
            if i + 9 <= n {
                if i + 9 < n {
                    lemma_off_lt(src, i, i + 9);
                }
            }
            lemma_src_chardata(src, i + 9, inner_end, st, off(src, i) as int);
            let q = if i + 9 < inner_end && inner_end <= n { off(src, inner_end) as int } else { off(src, i) as int };
            if i + 9 < inner_end && inner_end <= n {
                lemma_off_lt(src, i, inner_end);
            }
            lemma_src_ordered_mono(st, off(src, i) as int, q);
            if i + 9 < inner_end && inner_end < n {
                lemma_off_lt(src, inner_end, n);
            }
            lemma_src_ordered_mono(st2, q, off(src, n) as int);
            if i < j <= n {
                if i + 9 < inner_end && inner_end <= n {
                    if inner_end < j {
                        lemma_off_lt(src, inner_end, j);
                    }
                } else {
                    lemma_off_lt(src, i, j);
                }
                lemma_src_ordered_mono(st2, q, off(src, j) as int);
            }
        } else if lit_at(src, i, "<?"@) || lit_at(src, i, "<!"@) {
            lemma_src_ordered_mono(st, off(src, i) as int, off(src, n) as int);
            if i < j <= n {
                lemma_off_lt(src, i, j);
                lemma_src_ordered_mono(st, off(src, i) as int, off(src, j) as int);
            }
        } else if lit_at(src, i, "</"@) {
            let g = find_seq_from(src, i, ">"@);
            let name_end = if g >= 0 { g } else if src.len() - 1 > i + 2 { src.len() - 1 } else { i + 2 };
            lemma_src_tags(st, spec_tag_name(src.subrange(i + 2, name_end)), false, off(src, i) as int);
            lemma_src_ordered_mono(st2, off(src, i) as int, off(src, n) as int);
            if i < j <= n {
                lemma_off_lt(src, i, j);
                lemma_src_ordered_mono(st2, off(src, i) as int, off(src, j) as int);
            }
        } else {
            match spec_scan_tag(src, i) {
                Some((name, sc, e)) => {
                    lemma_src_tags(st, name, sc, off(src, i) as int);
                    lemma_src_ordered_mono(st2, off(src, i) as int, off(src, n) as int);
                    if i < j <= n {
                        lemma_off_lt(src, i, j);
                        lemma_src_ordered_mono(st2, off(src, i) as int, off(src, j) as int);
                    }
                },
                None => {
                    lemma_off_lt(src, i, i + 1);
                    lemma_src_push_char(st, '<', off(src, i), off(src, i + 1), off(src, i) as int);
                    if i + 1 < n {
                        lemma_off_lt(src, i + 1, n);
                    }
                    lemma_src_ordered_mono(st2, off(src, i + 1) as int, off(src, n) as int);
                },
            }
        }
    } else {
        let f = find_seq_from(src, i, "<"@);
        let next = if f < 0 { n } else { f };
        lemma_find_seq_from_range(src, i, "<"@);
        lemma_src_chardata(src, i, next, st, off(src, i) as int);
        let q = if i < next && next <= n { off(src, next) as int } else { off(src, i) as int };
        if i < next && next <= n {
            lemma_off_lt(src, i, next);
        }
        lemma_src_ordered_mono(st, off(src, i) as int, q);
        if i < next && next < n {
            lemma_off_lt(src, next, n);
        }
        lemma_src_ordered_mono(st2, q, off(src, n) as int);
    }
}

proof fn lemma_src_run_from(src: Seq<char>, i: int, st: ScanState)
    requires
        0 <= i <= src.len(),
        byte_len(src) <= usize::MAX,
        src_ordered(st, off(src, i) as int),
    ensures
        src_ordered(run_from(src, i, st), off(src, src.len() as int) as int),
    decreases src.len() - i,
{
    if i < src.len() {
        lemma_src_step(src, i, st);
        let (j, st2) = spec_step(src, i, st);
        if !(j <= i || j > src.len()) {
            lemma_src_run_from(src, j, st2);
        }
    }
}

/// Source spans appended for entries `k..` keep `out` ordered: each span
/// non-empty, each ending before the next starts, all within `pos`.
proof fn lemma_segments_ordered(entries: Seq<Entry>, k: int, start: int, end: int, out: Seq<(usize, usize)>, pos: int)
    requires
        src_ordered(ScanState { entries, ..initial_state() }, pos),
        0 <= k,
        start < end,
        forall|i: int| 0 <= i < out.len() ==> (#[trigger] out[i]).0 < out[i].1 <= pos,
        forall|i: int| 0 <= i < out.len() - 1 ==> (#[trigger] out[i]).1 < out[i + 1].0,
        out.len() > 0 && k < entries.len() ==> out.last().1 <= entries[k].src_start,
    ensures
        ({
            let r = segments_from(entries, k, start, end, out);
            &&& forall|i: int| 0 <= i < r.len() ==> (#[trigger] r[i]).0 < r[i].1 <= pos
            &&& forall|i: int| 0 <= i < r.len() - 1 ==> (#[trigger] r[i]).1 < r[i + 1].0
        }),
    decreases entries.len() - k,
{
    let st = ScanState { entries, ..initial_state() };
    if k < entries.len() {
        let e = entries[k];
        let es = e.norm_start as int;
        let ee = es + e.norm_len;
        assert(st.entries[k] == e);
        if k + 1 < entries.len() {
            assert(st.entries[k].src_end <= st.entries[k + 1].src_start);
        }
        if ee <= start || (es < end && e.kind == Kind::Synthetic) {
            assert(segments_from(entries, k, start, end, out) == segments_from(entries, k + 1, start, end, out));
            lemma_segments_ordered(entries, k + 1, start, end, out, pos);
        } else if es < end {
            let pc = seg_piece(e, start, end);
            assert(e.src_start <= pc.0 < pc.1 <= e.src_end);
            let out2 = merge_seg(out, pc);
            if out.len() > 0 && out.last().1 == pc.0 {
                assert forall|i: int| 0 <= i < out2.len() - 1 implies (#[trigger] out2[i]).1 < out2[i + 1].0 by {
                    assert(out2[i] == out[i]);
                    if i + 1 < out.len() - 1 {
                        assert(out2[i + 1] == out[i + 1]);
                    }
                }
                assert forall|i: int| 0 <= i < out2.len() implies (#[trigger] out2[i]).0 < out2[i].1 <= pos by {
                    if i < out.len() - 1 {
                        assert(out2[i] == out[i]);
                    } else {
                        assert(out[out.len() - 1] == out.last());
                    }
                }
            } else {
                assert forall|i: int| 0 <= i < out2.len() - 1 implies (#[trigger] out2[i]).1 < out2[i + 1].0 by {
                    assert(out2[i] == out[i]);
                    if i + 1 < out.len() {
                        assert(out2[i + 1] == out[i + 1]);
                    } else {
                        assert(out[out.len() - 1] == out.last());
                    }
                }
                assert forall|i: int| 0 <= i < out2.len() implies (#[trigger] out2[i]).0 < out2[i].1 <= pos by {
                    if i < out.len() {
                        assert(out2[i] == out[i]);
                    }
                }
            }
            assert(segments_from(entries, k, start, end, out) == segments_from(entries, k + 1, start, end, out2));
            lemma_segments_ordered(entries, k + 1, start, end, out2, pos);
        }
    }
}

/// The source spans of a normalized range are in order and apart: each is
/// non-empty and lies within the source, and each ends before the next
/// begins (spans that touch are joined). An empty range has none.
pub proof fn law_source_segments_ordered(src: Seq<char>, start: int, end: int)
    requires
        byte_len(src) <= usize::MAX,
    ensures
        start >= end ==> spec_source_segments(spec_scan(src).entries, start, end).len() == 0,
        forall|i: int| 0 <= i < spec_source_segments(spec_scan(src).entries, start, end).len() ==> {
            let sg = #[trigger] spec_source_segments(spec_scan(src).entries, start, end)[i];
            sg.0 < sg.1 <= byte_len(src)
        },
        forall|i: int| 0 <= i < spec_source_segments(spec_scan(src).entries, start, end).len() - 1 ==>
            (#[trigger] spec_source_segments(spec_scan(src).entries, start, end)[i]).1
                < spec_source_segments(spec_scan(src).entries, start, end)[i + 1].0,
{
    let n = src.len() as int;
    assert(src.take(0) =~= Seq::<char>::empty());
    assert(encode_utf8(Seq::<char>::empty()) =~= Seq::<u8>::empty());
    assert(src.take(n) =~= src);
    lemma_src_run_from(src, 0, initial_state());
    let st = spec_scan(src);
    if start < end {
        let pos = off(src, n) as int;
        assert(ScanState { entries: st.entries, ..initial_state() }.entries == st.entries);
        lemma_segments_ordered(st.entries, 0, start, end, Seq::empty(), pos);
    }
}

/// Byte offset `p` of `s` is where a character starts, or the end.
pub open spec fn char_start_at(s: Seq<char>, p: int) -> bool {
    exists|a: int| 0 <= a <= s.len() && #[trigger] byte_len(s.take(a)) == p
}

/// Verbatim run `e` covers the characters `t[c0..c0 + l]` of the text, and
/// each boundary between them lands on a character boundary of `src`.
pub open spec fn run_maps(src: Seq<char>, t: Seq<char>, e: Entry, c0: int, l: int) -> bool {
    &&& 0 <= c0 && 0 <= l && c0 + l <= t.len()
    &&& byte_len(t.take(c0)) == e.norm_start
    &&& byte_len(t.take(c0 + l)) == e.norm_start + e.norm_len
    &&& forall|j: int| 0 <= j <= l ==> char_start_at(src, e.src_start + #[trigger] byte_len(t.take(c0 + j)) - e.norm_start)
}

/// The entries' source spans start and end on character boundaries of
/// `src`, and inside a verbatim run every character boundary of the text
/// maps to one of `src`; so does pending whitespace.
pub open spec fn entries_on_chars(src: Seq<char>, t: Seq<char>, entries: Seq<Entry>) -> bool {
    forall|k: int| 0 <= k < entries.len() ==> {
        let e = #[trigger] entries[k];
        &&& char_start_at(src, e.src_start as int)
        &&& char_start_at(src, e.src_end as int)
        &&& (e.kind == Kind::Run ==> e.norm_len == e.src_end - e.src_start && exists|c0: int, l: int| #[trigger] run_maps(src, t, e, c0, l))
    }
}

pub open spec fn on_chars(src: Seq<char>, st: ScanState) -> bool {
    byte_len(st.text) <= usize::MAX ==> {
        &&& entries_on_chars(src, st.text, st.entries)
        &&& st.pending_ws matches Some(w) ==> char_start_at(src, w.src_start as int) && char_start_at(src, w.src_end as int)
    }
}

proof fn lemma_run_maps_push(src: Seq<char>, t: Seq<char>, e: Entry, c0: int, l: int, ch: char)
    requires
        run_maps(src, t, e, c0, l),
    ensures
        run_maps(src, t.push(ch), e, c0, l),
{
    let t2 = t.push(ch);
    assert(t2.take(c0) =~= t.take(c0));
    assert(t2.take(c0 + l) =~= t.take(c0 + l));
    assert forall|j: int| 0 <= j <= l implies char_start_at(src, e.src_start + #[trigger] byte_len(t2.take(c0 + j)) - e.norm_start) by {
        assert(t2.take(c0 + j) =~= t.take(c0 + j));
        assert(char_start_at(src, e.src_start + byte_len(t.take(c0 + j)) - e.norm_start));
    }
}

proof fn lemma_entries_on_chars_push(src: Seq<char>, t: Seq<char>, entries: Seq<Entry>, ch: char)
    requires
        entries_on_chars(src, t, entries),
    ensures
        entries_on_chars(src, t.push(ch), entries),
{
    assert forall|k: int| 0 <= k < entries.len() implies {
        let e = #[trigger] entries[k];
        &&& char_start_at(src, e.src_start as int)
        &&& char_start_at(src, e.src_end as int)
        &&& (e.kind == Kind::Run ==> e.norm_len == e.src_end - e.src_start && exists|c0: int, l: int| #[trigger] run_maps(src, t.push(ch), e, c0, l))
    } by {
        let e = entries[k];
        if e.kind == Kind::Run {
            let (c0, l) = choose|c0: int, l: int| #[trigger] run_maps(src, t, e, c0, l);
            lemma_run_maps_push(src, t, e, c0, l, ch);
        }
    }
}

proof fn lemma_char_start_at(src: Seq<char>, k: int)
    requires
        0 <= k <= src.len(),
        byte_len(src) <= usize::MAX,
    ensures
        char_start_at(src, off(src, k) as int),
        off(src, k) as int == byte_len(src.take(k)),
{
    lemma_byte_len_prefix(src, k);
    assert(byte_len(src.take(k)) == off(src, k) as int);
}

proof fn lemma_on_chars_emit(src: Seq<char>, st: ScanState)
    requires
        on_chars(src, st),
        byte_len(spec_emit_pending_spaces(st).text) <= usize::MAX,
    ensures
        on_chars(src, spec_emit_pending_spaces(st)),
{
    let r = spec_emit_pending_spaces(st);
    lemma_emit_grows(st);
    if !(st.text.len() == 0 || (st.pending_ws is None && !st.pending_block)) && st.text.last() != ' ' {
        lemma_entries_on_chars_push(src, st.text, st.entries, ' ');
        let en = r.entries.last();
        assert(r.entries == st.entries.push(en));
        assert(char_start_at(src, en.src_start as int) && char_start_at(src, en.src_end as int)) by {
            match st.pending_ws {
                Some(w) => {},
                None => {
                    if st.entries.len() > 0 {
                        assert(st.entries[st.entries.len() - 1] == st.entries.last());
                    } else {
                        assert(src.take(0) =~= Seq::<char>::empty());
                        assert(encode_utf8(Seq::<char>::empty()) =~= Seq::<u8>::empty());
                        assert(byte_len(src.take(0)) == 0);
                    }
                },
            }
        }
        assert forall|k: int| 0 <= k < r.entries.len() implies {
            let e = #[trigger] r.entries[k];
            &&& char_start_at(src, e.src_start as int)
            &&& char_start_at(src, e.src_end as int)
            &&& (e.kind == Kind::Run ==> e.norm_len == e.src_end - e.src_start && exists|c0: int, l: int| #[trigger] run_maps(src, r.text, e, c0, l))
        } by {
            if k < st.entries.len() {
                assert(r.entries[k] == st.entries[k]);
            }
        }
    }
}

proof fn lemma_on_chars_push_char(src: Seq<char>, st: ScanState, ch: char, s: usize, e: usize)
    requires
        on_chars(src, st),
        char_start_at(src, s as int),
        char_start_at(src, e as int),
    ensures
        on_chars(src, spec_push_char(st, ch, s, e)),
{
    let (st1, chunk) = spec_ensure_chunk(st);
    let char_pos = st1.chunk_chars[chunk as int];
    let st2 = ScanState { chunk_chars: st1.chunk_chars.update(chunk as int, (char_pos + 1) as usize), ..st1 };
    assert(st2.entries == st.entries && st2.pending_ws == st.pending_ws && st2.text == st.text);
    let r = spec_push_char(st, ch, s, e);
    if spec_is_whitespace(ch) {
        assert(r.entries == st.entries && r.text == st.text);
    } else if byte_len(r.text) <= usize::MAX {
        let st3 = spec_emit_pending_spaces(st2);
        lemma_emit_grows(st2);
        lemma_encode_push(st3.text, ch);
        lemma_char_width_bounds(ch);
        lemma_on_chars_emit(src, st2);
        let norm_start = byte_len(st3.text) as usize;
        let norm_len = char_width(ch) as usize;
        let last = st3.entries.last();
        let t3 = st3.text;
        let t = t3.push(ch);
        assert(r.text == t);
        lemma_entries_on_chars_push(src, t3, st3.entries, ch);
        assert(t.take(t3.len() as int) =~= t3);
        assert(t.take(t3.len() + 1int) =~= t);
        if norm_len == e - s && st3.entries.len() > 0 && last.kind == Kind::Run && last.chunk == chunk && last.src_end
            == s && last.norm_start + last.norm_len == norm_start && last.char_start + last.char_len == char_pos {
            let n = st3.entries.len() - 1;
            assert(st3.entries[n] == last);
            let ext = r.entries[n];
            assert(r.entries == st3.entries.update(n, ext));
            let (c0, l) = choose|c0: int, l: int| #[trigger] run_maps(src, t3, last, c0, l);
            assert(c0 + l == t3.len()) by {
                if c0 + l < t3.len() {
                    lemma_byte_len_take_lt(t3, c0 + l, t3.len() as int);
                    assert(t3.take(t3.len() as int) =~= t3);
                }
            }
            assert(run_maps(src, t, ext, c0, l + 1)) by {
                assert(t.take(c0) =~= t3.take(c0));
                assert forall|j: int| 0 <= j <= l + 1 implies char_start_at(src, ext.src_start + #[trigger] byte_len(t.take(c0 + j)) - ext.norm_start) by {
                    if j <= l {
                        assert(t.take(c0 + j) =~= t3.take(c0 + j));
                        assert(char_start_at(src, last.src_start + byte_len(t3.take(c0 + j)) - last.norm_start));
                    } else {
                        assert(c0 + j == t3.len() + 1);
                    }
                }
            }
            assert forall|k: int| 0 <= k < r.entries.len() implies {
                let x = #[trigger] r.entries[k];
                &&& char_start_at(src, x.src_start as int)
                &&& char_start_at(src, x.src_end as int)
                &&& (x.kind == Kind::Run ==> x.norm_len == x.src_end - x.src_start && exists|c0: int, l: int| #[trigger] run_maps(src, r.text, x, c0, l))
            } by {
                if k < n {
                    assert(r.entries[k] == st3.entries[k]);
                }
            }
        } else {
            let en = r.entries.last();
            assert(r.entries == st3.entries.push(en));
            if norm_len == e - s {
                assert(run_maps(src, t, en, t3.len() as int, 1)) by {
                    assert forall|j: int| 0 <= j <= 1 implies char_start_at(src, en.src_start + #[trigger] byte_len(t.take(t3.len() + j)) - en.norm_start) by {
                        if j == 1 {
                            assert(t3.len() + j == t3.len() + 1);
                        } else {
                            assert(t3.len() + j == t3.len());
                        }
                    }
                }
            }
            assert forall|k: int| 0 <= k < r.entries.len() implies {
                let x = #[trigger] r.entries[k];
                &&& char_start_at(src, x.src_start as int)
                &&& char_start_at(src, x.src_end as int)
                &&& (x.kind == Kind::Run ==> x.norm_len == x.src_end - x.src_start && exists|c0: int, l: int| #[trigger] run_maps(src, r.text, x, c0, l))
            } by {
                if k < st3.entries.len() {
                    assert(r.entries[k] == st3.entries[k]);
                }
            }
        }
    }
}

proof fn lemma_on_chars_chardata(src: Seq<char>, k: int, end: int, st: ScanState)
    requires
        0 <= k,
        byte_len(src) <= usize::MAX,
        on_chars(src, st),
    ensures
        on_chars(src, chardata_from(src, k, end, st)),
    decreases end - k,
{
    if !(k < 0 || k >= end || end > src.len()) {
        let ent = if src[k] == '&' {
            spec_decode_entity(src, k, end)
        } else {
            None
        };
        match ent {
            Some((ch, n)) => if n >= 1 && k + n <= end {
                lemma_char_start_at(src, k);
                lemma_char_start_at(src, k + n);
                lemma_on_chars_push_char(src, st, ch, off(src, k), off(src, k + n));
                lemma_on_chars_chardata(src, k + n, end, spec_push_char(st, ch, off(src, k), off(src, k + n)));
            },
            None => {
                lemma_char_start_at(src, k);
                lemma_char_start_at(src, k + 1);
                lemma_on_chars_push_char(src, st, src[k], off(src, k), off(src, k + 1));
                lemma_on_chars_chardata(src, k + 1, end, spec_push_char(st, src[k], off(src, k), off(src, k + 1)));
            },
        }
    }
}

proof fn lemma_on_chars_step(src: Seq<char>, i: int, st: ScanState)
    requires
        0 <= i < src.len(),
        byte_len(src) <= usize::MAX,
        on_chars(src, st),
    ensures
        on_chars(src, spec_step(src, i, st).1),
{
    if src[i] == '<' {
        if lit_at(src, i, "<!--"@) {
        } else if lit_at(src, i, "<![CDATA["@) {
            let f = find_seq_from(src, i, "]]>"@);
            let inner_end = if f < 0 { src.len() as int } else { f };
            if st.skip_depth == 0 {
                lemma_on_chars_chardata(src, i + 9, inner_end, st);
            }
        } else if lit_at(src, i, "<?"@) {
        } else if lit_at(src, i, "<!"@) {
        } else if lit_at(src, i, "</"@) {
            let g = find_seq_from(src, i, ">"@);
            let name_end = if g >= 0 { g } else if src.len() - 1 > i + 2 { src.len() - 1 } else { i + 2 };
            let r = spec_end_element(st, spec_tag_name(src.subrange(i + 2, name_end)));
            assert(r.entries == st.entries && r.text == st.text);
        } else {
            match spec_scan_tag(src, i) {
                Some((name, sc, e)) => {
                    let r = spec_start_element(st, name, sc);
                    assert(r.entries == st.entries && r.text == st.text);
                },
                None => {
                    lemma_char_start_at(src, i);
                    lemma_char_start_at(src, i + 1);
                    lemma_on_chars_push_char(src, st, '<', off(src, i), off(src, i + 1));
                },
            }
        }
    } else {
        let f = find_seq_from(src, i, "<"@);
        let next = if f < 0 { src.len() as int } else { f };
        if st.skip_depth == 0 {
            lemma_on_chars_chardata(src, i, next, st);
        }
    }
}

proof fn lemma_on_chars_run_from(src: Seq<char>, i: int, st: ScanState)
    requires
        0 <= i,
        byte_len(src) <= usize::MAX,
        on_chars(src, st),
    ensures
        on_chars(src, run_from(src, i, st)),
    decreases src.len() - i,
{
    if i < src.len() {
        lemma_on_chars_step(src, i, st);
        let (j, st2) = spec_step(src, i, st);
        if !(j <= i || j > src.len()) {
            lemma_on_chars_run_from(src, j, st2);
        }
    }
}

/// The entries of a scanned document start and end on character boundaries
/// of the source, and a verbatim run maps the text's character boundaries
/// inside it to the source's.
pub proof fn lemma_scan_on_chars(src: Seq<char>)
    requires
        byte_len(src) <= usize::MAX,
        byte_len(spec_scan(src).text) <= usize::MAX,
    ensures
        entries_on_chars(src, spec_scan(src).text, spec_scan(src).entries),
{
    lemma_on_chars_run_from(src, 0, initial_state());
}

/// A normalized offset that is a character boundary of the text, or lies at
/// or past its end.
pub open spec fn text_pos_ok(t: Seq<char>, x: int) -> bool {
    char_start_at(t, x) || x >= byte_len(t)
}

proof fn lemma_run_piece_end(src: Seq<char>, t: Seq<char>, e: Entry, x: int)
    requires
        e.kind == Kind::Run,
        exists|c0: int, l: int| #[trigger] run_maps(src, t, e, c0, l),
        e.norm_start <= x <= e.norm_start + e.norm_len,
        x == e.norm_start || x == e.norm_start + e.norm_len || char_start_at(t, x),
    ensures
        char_start_at(src, e.src_start + x - e.norm_start),
{
    let (c0, l) = choose|c0: int, l: int| #[trigger] run_maps(src, t, e, c0, l);
    if x == e.norm_start {
        assert(c0 + 0 == c0);
        assert(char_start_at(src, e.src_start + byte_len(t.take(c0 + 0)) - e.norm_start));
    } else if x == e.norm_start + e.norm_len {
        assert(char_start_at(src, e.src_start + byte_len(t.take(c0 + l)) - e.norm_start));
    } else {
        let j0 = choose|a: int| 0 <= a <= t.len() && #[trigger] byte_len(t.take(a)) == x;
        if j0 < c0 {
            lemma_byte_len_take_lt(t, j0, c0);
        }
        if j0 > c0 + l {
            lemma_byte_len_take_lt(t, c0 + l, j0);
        }
        assert(c0 + (j0 - c0) == j0);
        assert(char_start_at(src, e.src_start + byte_len(t.take(c0 + (j0 - c0))) - e.norm_start));
    }
}

/// Source spans appended for entries `k..` start and end on character
/// boundaries of the source when the normalized range's ends are on the
/// text's.
proof fn lemma_segments_on_chars(src: Seq<char>, t: Seq<char>, entries: Seq<Entry>, k: int, start: int, end: int, out: Seq<(usize, usize)>)
    requires
        entries_on_chars(src, t, entries),
        0 <= k,
        start < end,
        text_pos_ok(t, start),
        text_pos_ok(t, end),
        forall|i: int| 0 <= i < out.len() ==> char_start_at(src, (#[trigger] out[i]).0 as int) && char_start_at(src, out[i].1 as int),
    ensures
        ({
            let r = segments_from(entries, k, start, end, out);
            forall|i: int| 0 <= i < r.len() ==> char_start_at(src, (#[trigger] r[i]).0 as int) && char_start_at(src, r[i].1 as int)
        }),
    decreases entries.len() - k,
{
    if k < entries.len() {
        let e = entries[k];
        let es = e.norm_start as int;
        let ee = es + e.norm_len;
        if ee <= start || (es < end && e.kind == Kind::Synthetic) {
            assert(segments_from(entries, k, start, end, out) == segments_from(entries, k + 1, start, end, out));
            lemma_segments_on_chars(src, t, entries, k + 1, start, end, out);
        } else if es < end {
            let pc = seg_piece(e, start, end);
            assert(char_start_at(src, pc.0 as int) && char_start_at(src, pc.1 as int)) by {
                if e.kind == Kind::Run {
                    let (c0, l) = choose|c0: int, l: int| #[trigger] run_maps(src, t, e, c0, l);
                    lemma_byte_len_prefix(t, c0 + l);
                    let a = if start > es { start } else { es };
                    let b = if end < ee { end } else { ee };
                    lemma_run_piece_end(src, t, e, a);
                    lemma_run_piece_end(src, t, e, b);
                }
            }
            let out2 = merge_seg(out, pc);
            assert forall|i: int| 0 <= i < out2.len() implies char_start_at(src, (#[trigger] out2[i]).0 as int) && char_start_at(src, out2[i].1 as int) by {
                if i < out.len() - 1 || (i < out.len() && !(out.len() > 0 && out.last().1 == pc.0)) {
                    assert(out2[i] == out[i]);
                } else if out.len() > 0 && out.last().1 == pc.0 {
                    assert(out[out.len() - 1] == out.last());
                }
            }
            assert(segments_from(entries, k, start, end, out) == segments_from(entries, k + 1, start, end, out2));
            lemma_segments_on_chars(src, t, entries, k + 1, start, end, out2);
        }
    }
}

/// The source spans of a normalized range whose ends lie on character
/// boundaries of a document's text (or past its end) start and end on
/// character boundaries of the document.
pub proof fn lemma_source_segments_on_chars(src: Seq<char>, start: int, end: int)
    requires
        byte_len(src) <= usize::MAX,
        byte_len(spec_scan(src).text) <= usize::MAX,
        text_pos_ok(spec_scan(src).text, start),
        text_pos_ok(spec_scan(src).text, end),
    ensures
        forall|i: int| 0 <= i < spec_source_segments(spec_scan(src).entries, start, end).len() ==>
            char_start_at(src, (#[trigger] spec_source_segments(spec_scan(src).entries, start, end)[i]).0 as int)
            && char_start_at(src, spec_source_segments(spec_scan(src).entries, start, end)[i].1 as int),
{
    lemma_scan_on_chars(src);
    if start < end {
        lemma_segments_on_chars(src, spec_scan(src).text, spec_scan(src).entries, 0, start, end, Seq::empty());
    }
}

/// One source span covering the normalized range: from the first
/// segment's start to the last one's end.
pub open spec fn spec_source_range(entries: Seq<Entry>, start: int, end: int) -> Option<(usize, usize)> {
    let segs = spec_source_segments(entries, start, end);
    if segs.len() > 0 {
        Some((segs[0].0, segs.last().1))
    } else {
        None
    }
}

// ---------------------------------------------------------------------------
// CFI positions
// ---------------------------------------------------------------------------

/// End of a normalized-offset conversion: the start of a range (snap
/// forward past synthetic spaces) or its exclusive end (snap backward).
#[derive(PartialEq, Eq, Structural, Clone, Copy)]
pub enum Side {
    Start,
    End,
}

/// The last entry among `entries[..k]` starting at or before `target`, or 0.
pub open spec fn last_le_from(entries: Seq<Entry>, k: int, target: int) -> int
    decreases k,
{
    if k <= 0 || k > entries.len() {
        0
    } else if entries[k - 1].norm_start <= target {
        k - 1
    } else {
        last_le_from(entries, k - 1, target)
    }
}

/// The first entry at or after `i` that belongs to a chunk.
pub open spec fn snap_fwd(entries: Seq<Entry>, i: int) -> Option<int>
    decreases entries.len() - i,
{
    if i < 0 || i >= entries.len() {
        None
    } else if entries[i].kind != Kind::Synthetic {
        Some(i)
    } else {
        snap_fwd(entries, i + 1)
    }
}

/// The last entry at or before `i` that belongs to a chunk.
pub open spec fn snap_back(entries: Seq<Entry>, i: int) -> Option<int>
    decreases i,
{
    if i < 0 || i >= entries.len() {
        None
    } else if entries[i].kind != Kind::Synthetic {
        Some(i)
    } else if i == 0 {
        None
    } else {
        snap_back(entries, i - 1)
    }
}

/// The first character index at or after `k` whose byte offset in `t` is
/// at least `b` (the length of `t` when there is none).
pub open spec fn chars_from_below(t: Seq<char>, k: int, b: int) -> int
    decreases t.len() - k,
{
    if k < 0 || k >= t.len() {
        t.len() as int
    } else if byte_len(t.take(k)) >= b {
        k
    } else {
        chars_from_below(t, k + 1, b)
    }
}

/// Number of characters of `t` that begin before byte offset `b`.
pub open spec fn count_below(t: Seq<char>, b: int) -> int {
    chars_from_below(t, 0, b)
}

/// CFI point of a normalized byte offset: the chunk's steps and the
/// character offset within the chunk.
pub open spec fn spec_point(
    text: Seq<char>,
    entries: Seq<Entry>,
    paths: Seq<Seq<usize>>,
    norm_offset: int,
    side: Side,
) -> Option<(Seq<usize>, int)> {
    if entries.len() == 0 || (side == Side::End && norm_offset == 0) {
        None
    } else {
        let target = if side == Side::Start {
            norm_offset
        } else {
            norm_offset - 1
        };
        let i = last_le_from(entries, entries.len() as int, target);
        if target >= entries[i].norm_start + entries[i].norm_len {
            None
        } else {
            let j = if side == Side::Start {
                snap_fwd(entries, i)
            } else {
                snap_back(entries, i)
            };
            match j {
                None => None,
                Some(j) => {
                    let e = entries[j];
                    let ns = e.norm_start as int;
                    if e.chunk >= paths.len() {
                        None
                    } else {
                        let off = if e.kind == Kind::Run {
                            if side == Side::Start {
                                e.char_start + (count_below(
                                    text,
                                    if target > ns {
                                        target
                                    } else {
                                        ns
                                    },
                                ) - count_below(text, ns))
                            } else {
                                e.char_start + (count_below(text, target + 1) - count_below(
                                    text,
                                    ns,
                                ))
                            }
                        } else if side == Side::Start {
                            e.char_start as int
                        } else {
                            e.char_start + e.char_len
                        };
                        Some((paths[e.chunk as int], off))
                    }
                },
            }
        }
    }
}

/// CFI steps without ID assertions.
pub open spec fn plain_steps(path: Seq<usize>) -> Seq<CfiStep> {
    path.map_values(|i: usize| CfiStep { index: i, id: None })
}

/// Whether `c` is the CFI of spine item `spine_index` at the given point.
pub open spec fn is_point_cfi(c: Cfi, spine_index: usize, pt: (Seq<usize>, int)) -> bool {
    &&& c.spine_index == spine_index
    &&& c.path@ == plain_steps(pt.0)
    &&& c.character_offset == Some(pt.1 as usize)
    &&& c.temporal_offset is None
    &&& c.spatial_offset is None
}

proof fn lemma_chars_from_below(t: Seq<char>, k: int, b: int)
    requires
        0 <= k <= t.len(),
    ensures
        k <= chars_from_below(t, k, b) <= t.len(),
    decreases t.len() - k,
{
    if k < t.len() && byte_len(t.take(k)) < b {
        lemma_chars_from_below(t, k + 1, b);
    }
}

proof fn lemma_chars_from_below_mono(t: Seq<char>, k: int, b1: int, b2: int)
    requires
        0 <= k <= t.len(),
        b1 <= b2,
    ensures
        chars_from_below(t, k, b1) <= chars_from_below(t, k, b2),
    decreases t.len() - k,
{
    lemma_chars_from_below(t, k, b2);
    if k < t.len() && byte_len(t.take(k)) < b1 {
        lemma_chars_from_below_mono(t, k + 1, b1, b2);
    }
}

proof fn lemma_last_le(entries: Seq<Entry>, k: int, target: int)
    requires
        0 < k <= entries.len(),
    ensures
        0 <= last_le_from(entries, k, target) < k,
    decreases k,
{
    reveal_with_fuel(last_le_from, 2);
    if k > 1 && entries[k - 1].norm_start > target {
        lemma_last_le(entries, k - 1, target);
    }
}

proof fn lemma_snap_fwd(entries: Seq<Entry>, i: int)
    ensures
        snap_fwd(entries, i) matches Some(j) ==> i <= j < entries.len() && entries[j].kind
            != Kind::Synthetic,
    decreases entries.len() - i,
{
    if 0 <= i < entries.len() && entries[i].kind == Kind::Synthetic {
        lemma_snap_fwd(entries, i + 1);
    }
}

proof fn lemma_snap_back(entries: Seq<Entry>, i: int)
    ensures
        snap_back(entries, i) matches Some(j) ==> 0 <= j <= i && j < entries.len()
            && entries[j].kind != Kind::Synthetic,
    decreases i,
{
    if 0 < i < entries.len() && entries[i].kind == Kind::Synthetic {
        lemma_snap_back(entries, i - 1);
    }
}

/// Normalized text of a document with the maps back to its source and to
/// CFI positions.
#[derive(Debug)]
pub struct TextMap {
    text: String,
    text_len: usize,
    char_offs: Vec<usize>,
    entries: Vec<Entry>,
    chunk_paths: Vec<Vec<usize>>,
}

impl TextMap {
    /// The normalized text.
    pub closed spec fn text_view(&self) -> Seq<char> {
        self.text@
    }

    /// The runs of normalized text and their origins.
    pub closed spec fn entries_view(&self) -> Seq<Entry> {
        self.entries@
    }

    /// For each chunk, the CFI steps addressing it.
    pub closed spec fn paths_view(&self) -> Seq<Seq<usize>> {
        self.chunk_paths@.map_values(|p: Vec<usize>| p@)
    }

    #[verifier::type_invariant]
    spec fn map_wf(&self) -> bool {
        &&& self.text_len == byte_len(self.text@)
        &&& self.text_len <= usize::MAX / 2
        &&& offsets_ok(self.text@, self.char_offs@)
        &&& tiles(self.entries@, self.text_len as int)
        &&& entries_wf(self.text_len as int, self.entries@, self.chunk_paths@.len() as int)
    }

    /// Scan a document. Never fails; malformed markup degrades gracefully.
    #[verifier::rlimit(40)]
    pub fn parse(html: &str) -> (m: TextMap)
        requires
            byte_len(html@) < scan_limit(),
        ensures
            m.text_view() == spec_scan(html@).text,
            m.entries_view() == spec_scan(html@).entries,
            m.paths_view() == spec_scan(html@).chunk_paths,
    {
        let src = chars_of(html);
        let offs = char_offsets(html, &src);
        let pats = Pats::new();
        let mut sc = Scanner::new();
        let n = src.len();
        proof {
            assert(src@.take(src@.len() as int) =~= src@);
            assert(src@.take(0) =~= Seq::<char>::empty());
            assert(encode_utf8(Seq::<char>::empty()) =~= Seq::<u8>::empty());
            assert(byte_len(Seq::<char>::empty()) == 0);
        }
        let mut i: usize = 0;
        while i < n
            invariant
                sc.inv(),
                pats.ok(),
                offsets_ok(src@, offs@),
                src@ == html@,
                n == src@.len(),
                i <= n,
                offs@[n as int] < scan_limit(),
                state_wf(sc.st(), i as int, offs@[i as int] as int),
                spec_scan(src@) == run_from(src@, i as int, sc.st()),
            decreases n - i,
        {
            let ghost st0 = sc.st();
            let next = sc.step(&src, &offs, &pats, i);
            proof {
                assert(run_from(src@, i as int, st0) == run_from(src@, next as int, sc.st()));
            }
            i = next;
        }
        let ghost fin = sc.st();
        proof {
            lemma_byte_len_ge_len(src@);
            assert(src@.take(src@.len() as int) =~= src@);
            lemma_scan_tiles(src@);
            assert(fin.chunk_paths.len() == sc.chunk_paths@.len());
            assert forall|k: int| 0 <= k < sc.entries@.len() implies {
                let e = #[trigger] sc.entries@[k];
                &&& e.src_start <= e.src_end
                &&& e.norm_start + e.norm_len <= sc.text_len
                &&& (e.kind == Kind::Run ==> e.norm_len == e.src_end - e.src_start)
                &&& (e.kind != Kind::Synthetic ==> e.chunk < sc.chunk_paths@.len() && e.char_start
                    + e.char_len <= scan_limit())
            } by {
                assert(fin.entries[k] == sc.entries@[k]);
                if sc.entries@[k].kind != Kind::Synthetic {
                    assert(fin.chunk_chars[sc.entries@[k].chunk as int] <= n);
                }
            }
        }
        let text = string_from_chars(sc.text.as_slice());
        let char_offs = char_offsets(text.as_str(), &sc.text);
        TextMap {
            text,
            text_len: sc.text_len,
            char_offs,
            entries: sc.entries,
            chunk_paths: sc.chunk_paths,
        }
    }

    /// The normalized text (what search operates on).
    pub fn text(&self) -> (r: &str)
        ensures
            r@ == self.text_view(),
            byte_len(r@) <= usize::MAX / 2,
    {
        proof {
            use_type_invariant(self);
        }
        &self.text
    }

    /// Consume, returning just the normalized text.
    pub fn into_text(self) -> (r: String)
        ensures
            r@ == self.text_view(),
    {
        self.text
    }

    /// Source byte spans covering a normalized range, split wherever markup
    /// intervenes. Splicing tags (e.g. `<mark>`) around each span keeps the
    /// document well-formed even when the range crosses element boundaries.
    pub fn source_segments(&self, start: usize, end: usize) -> (r: Vec<(usize, usize)>)
        ensures
            r@ == spec_source_segments(self.entries_view(), start as int, end as int),
    {
        proof {
            use_type_invariant(self);
        }
        let mut out: Vec<(usize, usize)> = Vec::new();
        if start >= end {
            return out;
        }
        let ghost entries = self.entries@;
        let mut k: usize = 0;
        while k < self.entries.len()
            invariant
                entries == self.entries@,
                start < end,
                k <= entries.len(),
                entries_wf(self.text_len as int, entries, self.chunk_paths@.len() as int),
                segments_from(entries, 0, start as int, end as int, Seq::empty())
                    == segments_from(entries, k as int, start as int, end as int, out@),
            decreases entries.len() - k,
        {
            let e = self.entries[k];
            assert(entries[k as int] == e);
            let e_start = e.norm_start;
            let e_end = e_start + e.norm_len;
            if e_end <= start {
                k += 1;
            } else if e_start >= end {
                return out;
            } else if e.kind == Kind::Synthetic {
                k += 1;
            } else {
                let piece = if e.kind == Kind::Run {
                    let from = (if start > e_start {
                        start
                    } else {
                        e_start
                    }) - e_start;
                    let to = (if end < e_end {
                        end
                    } else {
                        e_end
                    }) - e_start;
                    (e.src_start + from, e.src_start + to)
                } else {
                    (e.src_start, e.src_end)
                };
                assert(piece == seg_piece(e, start as int, end as int));
                let ghost before = out@;
                let n = out.len();
                if n > 0 && out[n - 1].1 == piece.0 {
                    let first = out[n - 1].0;
                    out.set(n - 1, (first, piece.1));
                } else {
                    out.push(piece);
                }
                assert(out@ == merge_seg(before, piece));
                k += 1;
            }
        }
        out
    }

    /// Source byte span covering a normalized range (for locating it in the
    /// raw document). Ends never land inside an entity or a tag.
    pub fn source_range(&self, start: usize, end: usize) -> (r: Option<(usize, usize)>)
        ensures
            r == spec_source_range(self.entries_view(), start as int, end as int),
    {
        let segments = self.source_segments(start, end);
        if segments.len() == 0 {
            return None;
        }
        let first = segments[0].0;
        let last = segments[segments.len() - 1].1;
        Some((first, last))
    }

    /// Number of characters of the text that begin before byte offset `b`.
    fn count_below_exec(&self, b: usize) -> (r: usize)
        ensures
            r as int == count_below(self.text_view(), b as int),
            r <= self.text_view().len(),
    {
        proof {
            use_type_invariant(self);
            lemma_chars_from_below(self.text@, 0, b as int);
        }
        let n = self.char_offs.len() - 1;
        let mut k: usize = 0;
        while k < n && self.char_offs[k] < b
            invariant
                n == self.text@.len(),
                offsets_ok(self.text@, self.char_offs@),
                k <= n,
                chars_from_below(self.text@, 0, b as int) == chars_from_below(self.text@, k as int, b as int),
            decreases n - k,
        {
            k += 1;
        }
        k
    }

    fn snap_fwd_exec(&self, i: usize) -> (r: Option<usize>)
        requires
            i < self.entries_view().len(),
        ensures
            r matches Some(j) ==> snap_fwd(self.entries_view(), i as int) == Some(j as int),
            r is None ==> snap_fwd(self.entries_view(), i as int) is None,
    {
        let len = self.entries.len();
        let mut j: usize = i;
        while self.entries[j].kind == Kind::Synthetic
            invariant
                i <= j < len == self.entries@.len(),
                snap_fwd(self.entries@, i as int) == snap_fwd(self.entries@, j as int),
            decreases len - j,
        {
            if j + 1 >= len {
                assert(snap_fwd(self.entries@, j + 1) is None);
                return None;
            }
            j += 1;
        }
        Some(j)
    }

    fn snap_back_exec(&self, i: usize) -> (r: Option<usize>)
        requires
            i < self.entries_view().len(),
        ensures
            r matches Some(j) ==> snap_back(self.entries_view(), i as int) == Some(j as int),
            r is None ==> snap_back(self.entries_view(), i as int) is None,
    {
        let len = self.entries.len();
        let mut j: usize = i;
        while self.entries[j].kind == Kind::Synthetic
            invariant
                j <= i < len == self.entries@.len(),
                snap_back(self.entries@, i as int) == snap_back(self.entries@, j as int),
            decreases j,
        {
            if j == 0 {
                return None;
            }
            j -= 1;
        }
        Some(j)
    }

    /// CFI point for a normalized byte offset: `(chunk steps, char offset)`.
    fn point(&self, norm_offset: usize, side: Side) -> (r: Option<(Vec<usize>, usize)>)
        ensures
            match r {
                Some((p, o)) => spec_point(self.text_view(), self.entries_view(), self.paths_view(), norm_offset as int, side) == Some((p@, o as int)),
                None => spec_point(self.text_view(), self.entries_view(), self.paths_view(), norm_offset as int, side) is None,
            },
    {
        proof {
            use_type_invariant(self);
        }
        let ghost entries = self.entries@;
        let len = self.entries.len();
        if len == 0 {
            return None;
        }
        let target = match side {
            Side::Start => norm_offset,
            Side::End => {
                if norm_offset == 0 {
                    return None;
                }
                norm_offset - 1
            },
        };
        let mut k: usize = len;
        while k > 0 && self.entries[k - 1].norm_start > target
            invariant
                entries == self.entries@,
                0 <= k <= len == entries.len(),
                len > 0,
                last_le_from(entries, len as int, target as int) == last_le_from(entries, k as int, target as int),
            decreases k,
        {
            k -= 1;
        }
        let mut i: usize = if k == 0 {
            0
        } else {
            k - 1
        };
        proof {
            lemma_last_le(entries, len as int, target as int);
        }
        assert(i as int == last_le_from(entries, len as int, target as int));
        let ei = self.entries[i];
        if target >= ei.norm_start + ei.norm_len {
            return None;
        }
        proof {
            if k == 0 {
                assert(start_after(entries, 0) == entries[0].norm_start);
            }
            assert(entries[i as int].norm_start <= target);
        }
        let ghost i0 = i;
        let snapped = match side {
            Side::Start => self.snap_fwd_exec(i),
            Side::End => self.snap_back_exec(i),
        };
        let i = match snapped {
            Some(j) => j,
            None => return None,
        };
        proof {
            lemma_snap_fwd(entries, i0 as int);
            lemma_snap_back(entries, i0 as int);
        }
        let e = self.entries[i];
        assert(entries[i as int] == e);
        proof {
            if i <= i0 {
                lemma_tiles_sorted(entries, self.text_len as int, i as int, i0 as int);
            }
        }
        if e.chunk >= self.chunk_paths.len() {
            return None;
        }
        let ns = e.norm_start;
        proof {
            lemma_byte_len_ge_len(self.text@);
        }
        let char_offset = if e.kind == Kind::Run {
            match side {
                Side::Start => {
                    let t = if target > ns {
                        target
                    } else {
                        ns
                    };
                    let a = self.count_below_exec(t);
                    let b = self.count_below_exec(ns);
                    proof {
                        lemma_chars_from_below_mono(self.text@, 0, ns as int, t as int);
                    }
                    e.char_start + (a - b)
                },
                Side::End => {
                    let a = self.count_below_exec(target + 1);
                    let b = self.count_below_exec(ns);
                    proof {
                        lemma_chars_from_below_mono(self.text@, 0, ns as int, target + 1);
                    }
                    e.char_start + (a - b)
                },
            }
        } else {
            match side {
                Side::Start => e.char_start,
                Side::End => e.char_start + e.char_len,
            }
        };
        let path = self.chunk_paths[e.chunk].clone();
        proof {
            assert(self.paths_view()[e.chunk as int] == self.chunk_paths@[e.chunk as int]@);
        }
        Some((path, char_offset))
    }

    /// Point CFI for a normalized byte offset within spine item `spine_index`.
    pub fn cfi_point(&self, spine_index: usize, offset: usize) -> (r: Option<Cfi>)
        ensures
            match spec_point(self.text_view(), self.entries_view(), self.paths_view(), offset as int, Side::Start) {
                Some(pt) => r matches Some(c) && is_point_cfi(c, spine_index, pt),
                None => r is None,
            },
    {
        match self.point(offset, Side::Start) {
            Some((path, off)) => Some(point_cfi(spine_index, &path, off)),
            None => None,
        }
    }

    /// Range CFI for a normalized byte range within spine item `spine_index`.
    pub fn cfi_range(&self, spine_index: usize, start: usize, end: usize) -> (r: Option<CfiRange>)
        ensures
            ({
                let s = spec_point(self.text_view(), self.entries_view(), self.paths_view(), start as int, Side::Start);
                let e = spec_point(self.text_view(), self.entries_view(), self.paths_view(), end as int, Side::End);
                if start >= end || end > byte_len(self.text_view()) || s is None || e is None {
                    r is None
                } else {
                    r matches Some(rg) && is_point_cfi(rg.start, spine_index, s->0) && is_point_cfi(rg.end, spine_index, e->0)
                }
            }),
    {
        proof {
            use_type_invariant(self);
        }
        if start >= end || end > self.text_len {
            return None;
        }
        let (sp, so) = match self.point(start, Side::Start) {
            Some(x) => x,
            None => return None,
        };
        let (ep, eo) = match self.point(end, Side::End) {
            Some(x) => x,
            None => return None,
        };
        Some(CfiRange { start: point_cfi(spine_index, &sp, so), end: point_cfi(spine_index, &ep, eo) })
    }
}

/// The CFI of spine item `spine_index` at chunk steps `path`, offset `off`.
fn point_cfi(spine_index: usize, path: &Vec<usize>, off: usize) -> (c: Cfi)
    ensures
        is_point_cfi(c, spine_index, (path@, off as int)),
{
    let mut steps: Vec<CfiStep> = Vec::new();
    let mut k: usize = 0;
    while k < path.len()
        invariant
            k <= path@.len(),
            steps@ == plain_steps(path@.take(k as int)),
        decreases path@.len() - k,
    {
        steps.push(CfiStep::new(path[k]));
        k += 1;
        assert(steps@ =~= plain_steps(path@.take(k as int)));
    }
    assert(path@.take(path@.len() as int) =~= path@);
    Cfi { spine_index, path: steps, character_offset: Some(off), temporal_offset: None, spatial_offset: None }
}

} // verus!
