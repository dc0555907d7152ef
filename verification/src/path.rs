//! Path and href utilities for resolving references inside an EPUB archive.
//!
//! EPUB hrefs are URLs (percent-encoded, may contain `../`, may carry a
//! `#fragment`), while ZIP entry names are plain, slash-separated paths.
//! Everything that maps one to the other goes through this module.

use vstd::prelude::*;
use vstd::utf8::*;

use crate::text::{
    byte_len, byte_offset, chars_eq_str, chars_of, contains_chars, contains_seq, find_char_from, has_prefix,
    index_of, is_whitespace, last_index_of, lemma_index_of_absent, lemma_index_of_found,
    lemma_last_index_of_absent, lemma_last_index_of_found, lower_from, lower_seq, matches_at,
    push_all, rfind_char, spec_is_whitespace, str_slice, string_from_chars, string_from_utf8,
};

verus! {

broadcast use vstd::seq::group_seq_axioms;

// ---------------------------------------------------------------------------
// is_external
// ---------------------------------------------------------------------------

/// `s` without its leading whitespace (`str::trim_start`).
pub open spec fn trim_start_ws(s: Seq<char>) -> Seq<char>
    decreases s.len(),
{
    if s.len() > 0 && spec_is_whitespace(s[0]) {
        trim_start_ws(s.drop_first())
    } else {
        s
    }
}

/// An href pointing outside the archive: after trimming leading whitespace
/// and ASCII-lowercasing, it contains `://` or starts with one of the
/// schemes `mailto:`, `data:`, `blob:`, `javascript:`, `tel:`.
pub open spec fn spec_is_external(href: Seq<char>) -> bool {
    let l = lower_seq(trim_start_ws(href));
    ||| contains_seq(l, "://"@)
    ||| has_prefix(l, "mailto:"@)
    ||| has_prefix(l, "data:"@)
    ||| has_prefix(l, "blob:"@)
    ||| has_prefix(l, "javascript:"@)
    ||| has_prefix(l, "tel:"@)
}

/// Returns `true` for hrefs that point outside the archive
/// (`http://…`, `mailto:`, `data:`, `blob:`, …).
pub fn is_external(href: &str) -> (b: bool)
    ensures
        b == spec_is_external(href@),
{
    let v = chars_of(href);
    let mut i: usize = 0;
    assert(href@.skip(0) =~= href@);
    while i < v.len() && is_whitespace(v[i])
        invariant
            v@ == href@,
            i <= v@.len(),
            trim_start_ws(href@) == trim_start_ws(href@.skip(i as int)),
        decreases v@.len() - i,
    {
        assert(href@.skip(i as int).drop_first() =~= href@.skip(i + 1));
        i += 1;
    }
    assert(trim_start_ws(href@.skip(i as int)) == href@.skip(i as int));
    let l = lower_from(&v, i);
    contains_chars(&l, &chars_of("://")) || matches_at(&l, 0, &chars_of("mailto:")) || matches_at(
        &l,
        0,
        &chars_of("data:"),
    ) || matches_at(&l, 0, &chars_of("blob:")) || matches_at(&l, 0, &chars_of("javascript:"))
        || matches_at(&l, 0, &chars_of("tel:"))
}

// ---------------------------------------------------------------------------
// split_fragment
// ---------------------------------------------------------------------------

/// The part of `href` before the first `#` (all of it when there is none).
pub open spec fn path_part(href: Seq<char>) -> Seq<char> {
    let p = index_of(href, '#');
    if p < 0 {
        href
    } else {
        href.take(p)
    }
}

/// The part of `href` after the first `#`, if there is one.
pub open spec fn fragment_part(href: Seq<char>) -> Option<Seq<char>> {
    let p = index_of(href, '#');
    if p < 0 {
        None
    } else {
        Some(href.skip(p + 1))
    }
}

/// Split `path#fragment` into `(path, Some(fragment))`.
pub fn split_fragment(href: &str) -> (r: (&str, Option<&str>))
    ensures
        r.0@ == path_part(href@),
        match r.1 {
            Some(f) => fragment_part(href@) == Some(f@),
            None => fragment_part(href@) is None,
        },
{
    let v = chars_of(href);
    match find_char_from(&v, 0, '#') {
        Some(p) => {
            proof {
                lemma_index_of_found(href@, '#', p as int);
            }
            let a = byte_offset(href, &v, p);
            let b = byte_offset(href, &v, p + 1);
            let n = byte_offset(href, &v, v.len());
            assert(href@.take(v@.len() as int) =~= href@);
            let head = str_slice(href, 0, a, Ghost(0), Ghost(p as int));
            let tail = str_slice(href, b, n, Ghost(p + 1), Ghost(v@.len() as int));
            assert(href@.subrange(0, p as int) =~= href@.take(p as int));
            assert(href@.subrange(p + 1, v@.len() as int) =~= href@.skip(p + 1));
            (head, Some(tail))
        },
        None => {
            proof {
                lemma_index_of_absent(href@, '#');
            }
            (href, None)
        },
    }
}

// ---------------------------------------------------------------------------
// percent_decode
// ---------------------------------------------------------------------------

pub open spec fn is_hex_digit(b: u8) -> bool {
    (48 <= b <= 57) || (65 <= b <= 70) || (97 <= b <= 102)
}

pub open spec fn hex_value(b: u8) -> int {
    if b <= 57 {
        b - 48
    } else if b <= 70 {
        b - 55
    } else {
        b - 87
    }
}

/// Whether a well-formed `%XX` escape starts at byte `i`.
pub open spec fn escape_at(b: Seq<u8>, i: int) -> bool {
    &&& b[i] == 37
    &&& i + 2 < b.len()
    &&& is_hex_digit(b[i + 1])
    &&& is_hex_digit(b[i + 2])
}

/// Bytes of `b[i..]` with every well-formed `%XX` escape replaced by the
/// byte it denotes; everything else copied.
pub open spec fn unescape_from(b: Seq<u8>, i: int) -> Seq<u8>
    decreases b.len() - i,
{
    if i < 0 || i >= b.len() {
        seq![]
    } else if escape_at(b, i) {
        seq![(hex_value(b[i + 1]) * 16 + hex_value(b[i + 2])) as u8] + unescape_from(b, i + 3)
    } else {
        seq![b[i]] + unescape_from(b, i + 1)
    }
}

/// Percent-decoded text: the unescaped bytes when they are valid UTF-8,
/// else the input unchanged.
pub open spec fn spec_percent_decode(s: Seq<char>) -> Seq<char> {
    let d = unescape_from(encode_utf8(s), 0);
    if valid_utf8(d) {
        decode_utf8(d)
    } else {
        s
    }
}

fn hex_digit_value(b: u8) -> (r: u8)
    requires
        is_hex_digit(b),
    ensures
        r == hex_value(b),
        r < 16,
{
    if b <= 57 {
        b - 48
    } else if b <= 70 {
        b - 55
    } else {
        b - 87
    }
}

fn is_hex(b: u8) -> (r: bool)
    ensures
        r == is_hex_digit(b),
{
    (48 <= b && b <= 57) || (65 <= b && b <= 70) || (97 <= b && b <= 102)
}

proof fn lemma_unescape_plain(b: Seq<u8>, i: int)
    requires
        0 <= i <= b.len(),
        forall|j: int| 0 <= j < b.len() ==> !#[trigger] escape_at(b, j),
    ensures
        unescape_from(b, i) == b.skip(i),
    decreases b.len() - i,
{
    if i < b.len() {
        lemma_unescape_plain(b, i + 1);
        assert(b.skip(i) =~= seq![b[i]] + b.skip(i + 1));
    } else {
        assert(b.skip(i) =~= Seq::<u8>::empty());
    }
}

/// Decode `%XX` escapes. Malformed escapes are left untouched; if the result
/// is not valid UTF-8 the input is returned unchanged.
pub fn percent_decode(s: &str) -> (r: String)
    ensures
        r@ == spec_percent_decode(s@),
{
    let bytes = s.as_bytes();
    let ghost b = bytes@;
    proof {
        encode_utf8_valid_utf8(s@);
        encode_utf8_decode_utf8(s@);
    }
    let mut has_pct = false;
    let mut k: usize = 0;
    while k < bytes.len()
        invariant
            bytes@ == b,
            k <= b.len(),
            !has_pct ==> forall|j: int| 0 <= j < k ==> b[j] != 37,
        decreases b.len() - k,
    {
        if bytes[k] == 37 {
            has_pct = true;
        }
        k += 1;
    }
    if !has_pct {
        proof {
            lemma_unescape_plain(b, 0);
            assert(b.skip(0) =~= b);
        }
        return s.to_owned();
    }
    let mut out: Vec<u8> = Vec::new();
    let mut i: usize = 0;
    while i < bytes.len()
        invariant
            bytes@ == b,
            i <= b.len(),
            out@ + unescape_from(b, i as int) == unescape_from(b, 0),
        decreases b.len() - i,
    {
        let ghost old_out = out@;
        if bytes[i] == 37 && bytes.len() - i > 2 && is_hex(bytes[i + 1]) && is_hex(bytes[i + 2]) {
            let hi = hex_digit_value(bytes[i + 1]);
            let lo = hex_digit_value(bytes[i + 2]);
            assert(hi * 16 <= 240) by (nonlinear_arith)
                requires
                    hi < 16,
            ;
            assert(hi * 16 + lo <= 255) by (nonlinear_arith)
                requires
                    hi < 16,
                    lo < 16,
            ;
            out.push(hi * 16 + lo);
            assert(out@ + unescape_from(b, i + 3) =~= old_out + unescape_from(b, i as int));
            i += 3;
        } else {
            out.push(bytes[i]);
            assert(out@ + unescape_from(b, i + 1) =~= old_out + unescape_from(b, i as int));
            i += 1;
        }
    }
    assert(out@ =~= unescape_from(b, 0));
    match string_from_utf8(out) {
        Some(decoded) => {
            proof {
                encode_utf8_decode_utf8(decoded@);
            }
            decoded
        },
        None => s.to_owned(),
    }
}

// ---------------------------------------------------------------------------
// normalize
// ---------------------------------------------------------------------------

/// `str::split('/')`: the pieces between slashes, empty ones included.
pub open spec fn split_slash(s: Seq<char>) -> Seq<Seq<char>>
    decreases s.len(),
{
    if s.len() == 0 {
        seq![Seq::<char>::empty()]
    } else {
        let pre = split_slash(s.drop_last());
        if s.last() == '/' {
            pre.push(Seq::<char>::empty())
        } else {
            pre.update(pre.len() - 1, pre.last().push(s.last()))
        }
    }
}

/// One step of path normalization: empty and `.` pieces vanish, `..` drops
/// the previous piece (if any), anything else is kept.
pub open spec fn norm_step(stack: Seq<Seq<char>>, part: Seq<char>) -> Seq<Seq<char>> {
    if part.len() == 0 || part == seq!['.'] {
        stack
    } else if part == seq!['.', '.'] {
        if stack.len() > 0 {
            stack.drop_last()
        } else {
            stack
        }
    } else {
        stack.push(part)
    }
}

pub open spec fn norm_fold(parts: Seq<Seq<char>>) -> Seq<Seq<char>>
    decreases parts.len(),
{
    if parts.len() == 0 {
        seq![]
    } else {
        norm_step(norm_fold(parts.drop_last()), parts.last())
    }
}

/// Pieces joined with `/`.
pub open spec fn join_slash(parts: Seq<Seq<char>>) -> Seq<char>
    decreases parts.len(),
{
    if parts.len() == 0 {
        seq![]
    } else if parts.len() == 1 {
        parts[0]
    } else {
        join_slash(parts.drop_last()) + seq!['/'] + parts.last()
    }
}

/// A normalized archive path.
pub open spec fn spec_normalize(s: Seq<char>) -> Seq<char> {
    join_slash(norm_fold(split_slash(s)))
}

proof fn lemma_split_slash_nonempty(s: Seq<char>)
    ensures
        split_slash(s).len() >= 1,
    decreases s.len(),
{
    if s.len() > 0 {
        lemma_split_slash_nonempty(s.drop_last());
    }
}

/// A piece of a normalized path: not empty, not `.` or `..`, no `/`.
pub open spec fn clean_part(p: Seq<char>) -> bool {
    &&& p.len() > 0
    &&& p != seq!['.']
    &&& p != seq!['.', '.']
    &&& forall|i: int| 0 <= i < p.len() ==> #[trigger] p[i] != '/'
}

pub open spec fn all_clean(ps: Seq<Seq<char>>) -> bool {
    forall|i: int| 0 <= i < ps.len() ==> #[trigger] clean_part(ps[i])
}

pub open spec fn no_slash_parts(ps: Seq<Seq<char>>) -> bool {
    forall|i: int, j: int| 0 <= i < ps.len() && 0 <= j < ps[i].len() ==> #[trigger] ps[i][j] != '/'
}

proof fn lemma_split_no_slash(s: Seq<char>)
    ensures
        no_slash_parts(split_slash(s)),
    decreases s.len(),
{
    if s.len() > 0 {
        lemma_split_no_slash(s.drop_last());
        lemma_split_slash_nonempty(s.drop_last());
        let pre = split_slash(s.drop_last());
        if s.last() != '/' {
            let q = split_slash(s);
            assert forall|i: int, j: int| 0 <= i < q.len() && 0 <= j < q[i].len() implies #[trigger] q[i][j] != '/' by {
                if i < pre.len() - 1 {
                    assert(q[i] == pre[i]);
                } else {
                    assert(q[i] == pre.last().push(s.last()));
                    if j < pre.last().len() {
                        assert(q[i][j] == pre[pre.len() - 1][j]);
                    }
                }
            }
        } else {
            let q = split_slash(s);
            assert forall|i: int, j: int| 0 <= i < q.len() && 0 <= j < q[i].len() implies #[trigger] q[i][j] != '/' by {
                if i < pre.len() {
                    assert(q[i] == pre[i]);
                }
            }
        }
    }
}

proof fn lemma_fold_clean(ps: Seq<Seq<char>>)
    requires
        no_slash_parts(ps),
    ensures
        all_clean(norm_fold(ps)),
    decreases ps.len(),
{
    if ps.len() > 0 {
        assert(no_slash_parts(ps.drop_last())) by {
            assert forall|i: int, j: int| 0 <= i < ps.drop_last().len() && 0 <= j < ps.drop_last()[i].len() implies #[trigger] ps.drop_last()[i][j] != '/' by {
                assert(ps.drop_last()[i] == ps[i]);
            }
        }
        lemma_fold_clean(ps.drop_last());
        let st = norm_fold(ps.drop_last());
        let part = ps.last();
        assert forall|j: int| 0 <= j < part.len() implies #[trigger] part[j] != '/' by {
            assert(part == ps[ps.len() - 1]);
        }
        let r = norm_fold(ps);
        assert forall|i: int| 0 <= i < r.len() implies #[trigger] clean_part(r[i]) by {
            if i < st.len() {
                assert(r[i] == st[i]);
            }
        }
    }
}

proof fn lemma_fold_of_clean(qs: Seq<Seq<char>>)
    requires
        all_clean(qs),
    ensures
        norm_fold(qs) == qs,
    decreases qs.len(),
{
    if qs.len() > 0 {
        assert(all_clean(qs.drop_last())) by {
            assert forall|i: int| 0 <= i < qs.drop_last().len() implies #[trigger] clean_part(qs.drop_last()[i]) by {
                assert(qs.drop_last()[i] == qs[i]);
            }
        }
        lemma_fold_of_clean(qs.drop_last());
        assert(clean_part(qs[qs.len() - 1]));
        assert(qs.drop_last().push(qs.last()) =~= qs);
    }
}

/// Splitting `u/w`, where `w` has no slash, gives the pieces of `u` and `w`.
proof fn lemma_split_append(u: Seq<char>, w: Seq<char>)
    requires
        forall|i: int| 0 <= i < w.len() ==> #[trigger] w[i] != '/',
    ensures
        split_slash(u + seq!['/'] + w) == split_slash(u).push(w),
    decreases w.len(),
{
    if w.len() == 0 {
        assert(u + seq!['/'] + w =~= u.push('/'));
        assert((u.push('/')).drop_last() =~= u);
        assert(w =~= Seq::<char>::empty());
    } else {
        let w1 = w.drop_last();
        assert forall|i: int| 0 <= i < w1.len() implies #[trigger] w1[i] != '/' by {
            assert(w1[i] == w[i]);
        }
        assert(w[w.len() - 1] != '/');
        lemma_split_append(u, w1);
        let s = u + seq!['/'] + w;
        assert(s.drop_last() =~= u + seq!['/'] + w1);
        assert(s.last() == w.last());
        let pre = split_slash(u).push(w1);
        assert(w1.push(w.last()) =~= w);
        assert(pre.update(pre.len() - 1, pre.last().push(w.last())) =~= split_slash(u).push(w));
    }
}

proof fn lemma_split_single(w: Seq<char>)
    requires
        forall|i: int| 0 <= i < w.len() ==> #[trigger] w[i] != '/',
    ensures
        split_slash(w) == seq![w],
    decreases w.len(),
{
    if w.len() == 0 {
        assert(w =~= Seq::<char>::empty());
    } else {
        let w1 = w.drop_last();
        assert forall|i: int| 0 <= i < w1.len() implies #[trigger] w1[i] != '/' by {
            assert(w1[i] == w[i]);
        }
        assert(w[w.len() - 1] != '/');
        lemma_split_single(w.drop_last());
        assert(w.drop_last().push(w.last()) =~= w);
        assert(seq![w.drop_last()].update(0, w.drop_last().push(w.last())) =~= seq![w]);
    }
}

proof fn lemma_split_join(qs: Seq<Seq<char>>)
    requires
        qs.len() > 0,
        all_clean(qs),
    ensures
        split_slash(join_slash(qs)) == qs,
    decreases qs.len(),
{
    assert(clean_part(qs[qs.len() - 1]));
    if qs.len() == 1 {
        lemma_split_single(qs[0]);
        assert(seq![qs[0]] =~= qs);
    } else {
        assert(all_clean(qs.drop_last())) by {
            assert forall|i: int| 0 <= i < qs.drop_last().len() implies #[trigger] clean_part(qs.drop_last()[i]) by {
                assert(qs.drop_last()[i] == qs[i]);
            }
        }
        lemma_split_join(qs.drop_last());
        lemma_split_append(join_slash(qs.drop_last()), qs.last());
        assert(qs.drop_last().push(qs.last()) =~= qs);
    }
}

/// Normalizing a normalized path changes nothing.
pub proof fn law_normalize_idempotent(s: Seq<char>)
    ensures
        spec_normalize(spec_normalize(s)) == spec_normalize(s),
{
    lemma_split_no_slash(s);
    lemma_fold_clean(split_slash(s));
    let qs = norm_fold(split_slash(s));
    if qs.len() == 0 {
        assert(join_slash(qs) =~= Seq::<char>::empty());
        assert(split_slash(Seq::<char>::empty()) == seq![Seq::<char>::empty()]);
        assert(norm_fold(seq![Seq::<char>::empty()]) =~= Seq::<Seq<char>>::empty()) by {
            let one = seq![Seq::<char>::empty()];
            assert(one.drop_last() =~= Seq::<Seq<char>>::empty());
            assert(one.last().len() == 0);
            assert(norm_fold(one.drop_last()) =~= Seq::<Seq<char>>::empty());
        }
    } else {
        lemma_split_join(qs);
        lemma_fold_of_clean(qs);
    }
}

/// A normalized path is empty, or each of its `/`-separated pieces is
/// non-empty and neither `.` nor `..`: it neither starts nor ends with `/`
/// and holds no `//`.
pub proof fn law_normalized_pieces_clean(s: Seq<char>)
    ensures
        spec_normalize(s).len() == 0 || all_clean(split_slash(spec_normalize(s))),
{
    lemma_split_no_slash(s);
    lemma_fold_clean(split_slash(s));
    let qs = norm_fold(split_slash(s));
    if qs.len() == 0 {
        assert(join_slash(qs) =~= Seq::<char>::empty());
    } else {
        lemma_split_join(qs);
    }
}

/// The pieces a list of ranges into `v` denotes.
pub open spec fn ranges_view(v: Seq<char>, st: Seq<(usize, usize)>) -> Seq<Seq<char>> {
    Seq::new(st.len(), |k: int| v.subrange(st[k].0 as int, st[k].1 as int))
}

pub open spec fn ranges_ok(v: Seq<char>, st: Seq<(usize, usize)>) -> bool {
    forall|k: int| 0 <= k < st.len() ==> #[trigger] st[k].0 <= st[k].1 <= v.len()
}

fn is_dot_piece(v: &Vec<char>, a: usize, b: usize) -> (r: u8)
    requires
        a <= b <= v@.len(),
    ensures
        r <= 2,
        r == 0 ==> (v@.subrange(a as int, b as int).len() == 0 || v@.subrange(a as int, b as int)
            == seq!['.']),
        r == 1 ==> v@.subrange(a as int, b as int) == seq!['.', '.'],
        r == 2 ==> !(v@.subrange(a as int, b as int).len() == 0 || v@.subrange(a as int, b as int)
            == seq!['.'] || v@.subrange(a as int, b as int) == seq!['.', '.']),
{
    let ghost p = v@.subrange(a as int, b as int);
    if a == b {
        0
    } else if b - a == 1 && v[a] == '.' {
        assert(p =~= seq!['.']);
        0
    } else if b - a == 2 && v[a] == '.' && v[a + 1] == '.' {
        assert(p =~= seq!['.', '.']);
        1
    } else {
        assert(p.len() == 0 ==> a == b);
        assert(p == seq!['.'] ==> p.len() == 1 && p[0] == '.');
        assert(p == seq!['.', '.'] ==> p.len() == 2 && p[0] == '.' && p[1] == '.');
        2
    }
}

fn push_piece(v: &Vec<char>, st: &mut Vec<(usize, usize)>, a: usize, b: usize, Ghost(done): Ghost<
    Seq<Seq<char>>,
>)
    requires
        a <= b <= v@.len(),
        ranges_ok(v@, old(st)@),
        ranges_view(v@, old(st)@) == norm_fold(done),
    ensures
        ranges_ok(v@, final(st)@),
        ranges_view(v@, final(st)@) == norm_fold(done.push(v@.subrange(a as int, b as int))),
{
    let ghost part = v@.subrange(a as int, b as int);
    assert(done.push(part).drop_last() =~= done);
    assert(done.push(part).last() == part);
    assert(norm_fold(done.push(part)) == norm_step(norm_fold(done), part));
    assert(seq!['.'].len() == 1);
    assert(seq!['.', '.'].len() == 2);
    let kind = is_dot_piece(v, a, b);
    if kind == 0 {
        assert(norm_step(norm_fold(done), part) == norm_fold(done));
    } else if kind == 1 {
        assert(part != seq!['.']);
        if st.len() > 0 {
            st.pop();
            assert(ranges_view(v@, st@) =~= ranges_view(v@, old(st)@).drop_last());
        }
        assert(ranges_view(v@, st@) == norm_step(norm_fold(done), part));
    } else {
        st.push((a, b));
        assert(ranges_view(v@, st@) =~= ranges_view(v@, old(st)@).push(part));
        assert(ranges_view(v@, st@) == norm_step(norm_fold(done), part));
    }
}

/// Normalization on characters.
pub fn normalize_chars(v: &Vec<char>) -> (r: Vec<char>)
    ensures
        r@ == spec_normalize(v@),
{
    let mut st: Vec<(usize, usize)> = Vec::new();
    let ghost mut done: Seq<Seq<char>> = seq![];
    let mut start: usize = 0;
    let mut i: usize = 0;
    assert(v@.take(0) =~= Seq::<char>::empty());
    assert(ranges_view(v@, st@) =~= norm_fold(done));
    while i < v.len()
        invariant
            start <= i <= v@.len(),
            split_slash(v@.take(i as int)) == done.push(v@.subrange(start as int, i as int)),
            ranges_ok(v@, st@),
            ranges_view(v@, st@) == norm_fold(done),
        decreases v@.len() - i,
    {
        let ghost pre = v@.take(i as int);
        assert(v@.take(i + 1).drop_last() =~= pre);
        assert(v@.take(i + 1).last() == v@[i as int]);
        if v[i] == '/' {
            push_piece(v, &mut st, start, i, Ghost(done));
            proof {
                done = done.push(v@.subrange(start as int, i as int));
            }
            start = i + 1;
            assert(v@.subrange(start as int, i + 1) =~= Seq::<char>::empty());
        } else {
            assert(v@.subrange(start as int, i + 1) =~= v@.subrange(start as int, i as int).push(
                v@[i as int],
            ));
            assert(done.push(v@.subrange(start as int, i as int)).update(
                done.len() as int,
                v@.subrange(start as int, i as int).push(v@[i as int]),
            ) =~= done.push(v@.subrange(start as int, i + 1)));
        }
        i += 1;
    }
    push_piece(v, &mut st, start, v.len(), Ghost(done));
    assert(v@.take(v@.len() as int) =~= v@);
    assert(ranges_view(v@, st@) == norm_fold(split_slash(v@)));
    let mut out: Vec<char> = Vec::new();
    let ghost parts = ranges_view(v@, st@);
    let mut k: usize = 0;
    while k < st.len()
        invariant
            parts == ranges_view(v@, st@),
            parts == norm_fold(split_slash(v@)),
            ranges_ok(v@, st@),
            k <= st@.len(),
            out@ == join_slash(parts.take(k as int)),
        decreases st@.len() - k,
    {
        let ghost before = out@;
        if k > 0 {
            out.push('/');
        }
        let (a, b) = st[k];
        assert(a <= b <= v@.len()) by {
            assert(st@[k as int].0 <= st@[k as int].1 <= v@.len());
        }
        let mut j: usize = a;
        while j < b
            invariant
                a <= j <= b <= v@.len(),
                out@ == (if k > 0 {
                    before + seq!['/']
                } else {
                    before
                }) + v@.subrange(a as int, j as int),
            decreases b - j,
        {
            out.push(v[j]);
            j += 1;
            assert(v@.subrange(a as int, j as int) =~= v@.subrange(a as int, j - 1).push(
                v@[j - 1],
            ));
        }
        assert(parts.take(k + 1).drop_last() =~= parts.take(k as int));
        assert(parts.take(k + 1).last() == parts[k as int]);
        if k == 0 {
            assert(before =~= Seq::<char>::empty());
            assert(parts.take(1)[0] == parts[0]);
        }
        k += 1;
    }
    assert(parts.take(st@.len() as int) =~= parts);
    assert(out@ == join_slash(parts));
    out
}

/// Normalize an archive path: strip a leading `/`, resolve `.` and `..`,
/// collapse repeated slashes.
pub fn normalize(path: &str) -> (r: String)
    ensures
        r@ == spec_normalize(path@),
{
    let v = chars_of(path);
    let o = normalize_chars(&v);
    string_from_chars(o.as_slice())
}

// ---------------------------------------------------------------------------
// dir_of
// ---------------------------------------------------------------------------

/// Directory part of a path: everything up to and including the last `/`.
pub open spec fn spec_dir_of(s: Seq<char>) -> Seq<char> {
    let p = last_index_of(s, '/');
    if p < 0 {
        seq![]
    } else {
        s.take(p + 1)
    }
}

/// Directory part of an archive path, including the trailing slash
/// (`"OEBPS/Text/ch1.xhtml"` → `"OEBPS/Text/"`, `"ch1.xhtml"` → `""`).
pub fn dir_of(path: &str) -> (r: &str)
    ensures
        r@ == spec_dir_of(path@),
{
    let v = chars_of(path);
    match rfind_char(&v, '/') {
        Some(p) => {
            proof {
                lemma_last_index_of_found(path@, '/', p as int);
            }
            assert(p < v@.len());
            assert(v@.len() <= usize::MAX);
            let e = byte_offset(path, &v, p + 1);
            let r = str_slice(path, 0, e, Ghost(0), Ghost(p + 1));
            assert(path@.subrange(0, p + 1) =~= path@.take(p + 1));
            r
        },
        None => {
            proof {
                lemma_last_index_of_absent(path@, '/');
            }
            let r = str_slice(path, 0, 0, Ghost(0), Ghost(0));
            assert(path@.subrange(0, 0) =~= Seq::<char>::empty());
            r
        },
    }
}


// ---------------------------------------------------------------------------
// resolve
// ---------------------------------------------------------------------------

/// The archive path an href denotes relative to `base_dir`: the path part
/// is percent-decoded; empty stays empty, a leading `/` makes it
/// archive-absolute, otherwise it is appended to `base_dir`; then normalized.
pub open spec fn spec_resolve_path(base_dir: Seq<char>, href: Seq<char>) -> Seq<char> {
    let d = spec_percent_decode(path_part(href));
    if d.len() == 0 {
        seq![]
    } else if d[0] == '/' {
        spec_normalize(d)
    } else {
        spec_normalize(base_dir + d)
    }
}

proof fn lemma_scalar_no_percent(c: char)
    requires
        c != '%',
    ensures
        forall|i: int| 0 <= i < encode_scalar(c as u32).len() ==> #[trigger] encode_scalar(c as u32)[i] != 37u8,
{
    let s = c as u32;
    assert(s != 37u32);
    assert(s <= 0x7fu32 && s != 37u32 ==> (s & 0x7fu32) as u8 != 37u8) by (bit_vector);
    assert((0xc0u8 | ((s >> 6u32) & 0x1fu32) as u8) >= 0xc0u8) by (bit_vector);
    assert((0xe0u8 | ((s >> 12u32) & 0x0fu32) as u8) >= 0xe0u8) by (bit_vector);
    assert((0xf0u8 | ((s >> 18u32) & 0x7u32) as u8) >= 0xf0u8) by (bit_vector);
    assert((0x80u8 | (s & 0x3fu32) as u8) >= 0x80u8) by (bit_vector);
    assert((0x80u8 | ((s >> 6u32) & 0x3fu32) as u8) >= 0x80u8) by (bit_vector);
    assert((0x80u8 | ((s >> 12u32) & 0x3fu32) as u8) >= 0x80u8) by (bit_vector);
}

proof fn lemma_encode_no_percent(t: Seq<char>)
    requires
        forall|i: int| 0 <= i < t.len() ==> t[i] != '%',
    ensures
        forall|i: int| 0 <= i < encode_utf8(t).len() ==> encode_utf8(t)[i] != 37u8,
    decreases t.len(),
{
    if t.len() > 0 {
        lemma_scalar_no_percent(t[0]);
        let r = t.drop_first();
        assert forall|i: int| 0 <= i < r.len() implies r[i] != '%' by {
            assert(r[i] == t[i + 1]);
        }
        lemma_encode_no_percent(r);
        let a = encode_scalar(t[0] as u32);
        let b = encode_utf8(r);
        assert(encode_utf8(t) == a + b);
        assert forall|i: int| 0 <= i < (a + b).len() implies (a + b)[i] != 37u8 by {
            if i < a.len() {
                assert((a + b)[i] == a[i]);
            } else {
                assert((a + b)[i] == b[i - a.len()]);
            }
        }
    }
}

/// Text without `%` is its own percent-decoding.
pub proof fn lemma_percent_decode_plain(t: Seq<char>)
    requires
        forall|i: int| 0 <= i < t.len() ==> t[i] != '%',
    ensures
        spec_percent_decode(t) == t,
{
    broadcast use vstd::utf8::encode_utf8_valid_utf8, vstd::utf8::encode_utf8_decode_utf8;

    lemma_encode_no_percent(t);
    lemma_unescape_plain(encode_utf8(t), 0);
    assert(encode_utf8(t).skip(0) =~= encode_utf8(t));
}

/// Text in which no `%` starts a well-formed `%XX` escape decodes to itself:
/// a `%` not followed by two hex digits is copied unchanged.
pub proof fn law_malformed_escapes_kept(t: Seq<char>)
    requires
        forall|i: int| 0 <= i < encode_utf8(t).len() ==> !#[trigger] escape_at(encode_utf8(t), i),
    ensures
        spec_percent_decode(t) == t,
{
    broadcast use vstd::utf8::encode_utf8_valid_utf8, vstd::utf8::encode_utf8_decode_utf8;

    lemma_unescape_plain(encode_utf8(t), 0);
    assert(encode_utf8(t).skip(0) =~= encode_utf8(t));
}

proof fn lemma_unescape_shift(p: Seq<u8>, q: Seq<u8>, j: int)
    requires
        0 <= j,
    ensures
        unescape_from(p + q, p.len() + j) == unescape_from(q, j),
    decreases q.len() - j,
{
    let pq = p + q;
    let i = p.len() + j;
    if j < q.len() {
        assert(pq[i] == q[j]);
        if j + 1 < q.len() {
            assert(pq[i + 1] == q[j + 1]);
        }
        if j + 2 < q.len() {
            assert(pq[i + 2] == q[j + 2]);
        }
        assert(escape_at(pq, i) == escape_at(q, j));
        if escape_at(q, j) {
            lemma_unescape_shift(p, q, j + 3);
        } else {
            lemma_unescape_shift(p, q, j + 1);
        }
    }
}

proof fn lemma_unescape_before_malformed(x: Seq<u8>, y: Seq<u8>, i: int)
    requires
        0 <= i <= x.len(),
        y.len() > 0,
        y[0] == 37,
        !escape_at(y, 0),
    ensures
        unescape_from(x + y, i) == unescape_from(x, i) + seq![37u8] + unescape_from(y.drop_first(), 0),
    decreases x.len() - i,
{
    let xy = x + y;
    if i == x.len() {
        assert(xy[i] == 37);
        if i + 2 < xy.len() {
            assert(xy[i + 1] == y[1] && xy[i + 2] == y[2]);
        }
        assert(!escape_at(xy, i));
        assert(seq![37u8] + y.drop_first() =~= y);
        lemma_unescape_shift(x + seq![37u8], y.drop_first(), 0);
        assert(x + seq![37u8] + y.drop_first() =~= xy);
        assert(unescape_from(x, i) =~= Seq::<u8>::empty());
        assert(unescape_from(xy, i) =~= seq![37u8] + unescape_from(y.drop_first(), 0));
    } else {
        assert(xy[i] == x[i]);
        if i + 2 < x.len() {
            assert(xy[i + 1] == x[i + 1] && xy[i + 2] == x[i + 2]);
            assert(escape_at(xy, i) == escape_at(x, i));
        } else if i + 2 == x.len() {
            assert(xy[i + 2] == 37);
            assert(!escape_at(xy, i) && !escape_at(x, i));
        } else {
            assert(xy[i + 1] == 37);
            assert(!escape_at(xy, i) && !escape_at(x, i));
        }
        if escape_at(x, i) {
            lemma_unescape_before_malformed(x, y, i + 3);
        } else {
            lemma_unescape_before_malformed(x, y, i + 1);
        }
    }
}

/// A `%` that starts no well-formed escape is copied as it stands, whatever
/// escapes come before and after it: `a`, a `%` not followed by two hex
/// digits, then `r` decode to the decoding of `a`, the `%`, then the
/// decoding of `r` (when those decode to text).
pub proof fn law_malformed_escape_copied(a: Seq<char>, r: Seq<char>)
    requires
        !escape_at(encode_utf8(seq!['%'] + r), 0),
        valid_utf8(unescape_from(encode_utf8(a), 0)),
        valid_utf8(unescape_from(encode_utf8(r), 0)),
    ensures
        spec_percent_decode(a + seq!['%'] + r) == spec_percent_decode(a) + seq!['%'] + spec_percent_decode(r),
{
    broadcast use vstd::utf8::encode_utf8_valid_utf8, vstd::utf8::encode_utf8_decode_utf8, vstd::utf8::decode_utf8_encode_utf8;

    let y = encode_utf8(seq!['%'] + r);
    crate::text::lemma_encode_concat(seq!['%'], r);
    crate::text::lemma_encode_concat(a, seq!['%'] + r);
    assert(a + seq!['%'] + r =~= a + (seq!['%'] + r));
    assert(encode_utf8(seq!['%']) =~= seq![37u8]) by {
        assert(seq!['%'].drop_first() =~= Seq::<char>::empty());
        assert(('%' as u32) == 37u32);
        assert(has_width_1_encoding(37u32));
        assert((37u32 & 0x7fu32) as u8 == 37u8) by (bit_vector);
        assert(encode_scalar(37u32) =~= seq![37u8]);
        assert(encode_utf8(Seq::<char>::empty()) =~= Seq::<u8>::empty());
        assert(encode_utf8(seq!['%']) =~= encode_scalar(('%' as u32)) + encode_utf8(Seq::<char>::empty()));
    }
    assert(y =~= seq![37u8] + encode_utf8(r));
    assert(y.drop_first() =~= encode_utf8(r));
    lemma_unescape_before_malformed(encode_utf8(a), y, 0);
    let ua = unescape_from(encode_utf8(a), 0);
    let ur = unescape_from(encode_utf8(r), 0);
    let u = ua + seq![37u8] + ur;
    assert(seq![37u8] =~= encode_utf8(seq!['%']));
    let da = decode_utf8(ua);
    let dr = decode_utf8(ur);
    crate::text::lemma_encode_concat(da, seq!['%']);
    crate::text::lemma_encode_concat(da + seq!['%'], dr);
    assert(encode_utf8(da + seq!['%'] + dr) =~= u);
    assert(valid_utf8(u));
    assert(decode_utf8(u) == da + seq!['%'] + dr);
}

/// Resolving an href gives a normalized archive path: normalizing it again
/// changes nothing.
pub proof fn law_resolved_paths_are_normalized(base_dir: Seq<char>, href: Seq<char>)
    ensures
        spec_normalize(spec_resolve_path(base_dir, href)) == spec_resolve_path(base_dir, href),
{
    let d = spec_percent_decode(path_part(href));
    if d.len() == 0 {
        law_normalize_idempotent(Seq::<char>::empty());
        assert(spec_normalize(Seq::<char>::empty()) =~= Seq::<char>::empty()) by {
            let one = seq![Seq::<char>::empty()];
            assert(split_slash(Seq::<char>::empty()) == one);
            assert(one.drop_last() =~= Seq::<Seq<char>>::empty());
            assert(norm_fold(one.drop_last()) =~= Seq::<Seq<char>>::empty());
            assert(norm_fold(one) =~= Seq::<Seq<char>>::empty());
            assert(join_slash(Seq::<Seq<char>>::empty()) =~= Seq::<char>::empty());
        }
    } else if d[0] == '/' {
        law_normalize_idempotent(d);
    } else {
        law_normalize_idempotent(base_dir + d);
    }
}

/// Resolve an href against a base directory into a normalized archive path.
///
/// Returns `(path, fragment)`. The href is percent-decoded and the fragment
/// is split off. A leading `/` makes the href archive-absolute.
pub fn resolve(base_dir: &str, href: &str) -> (r: (String, Option<String>))
    ensures
        r.0@ == spec_resolve_path(base_dir@, href@),
        match r.1 {
            Some(f) => fragment_part(href@) == Some(f@),
            None => fragment_part(href@) is None,
        },
{
    let (raw_path, fragment) = split_fragment(href);
    let decoded = percent_decode(raw_path);
    let dv = chars_of(decoded.as_str());
    let path = if dv.len() == 0 {
        String::new()
    } else if dv[0] == '/' {
        let n = normalize_chars(&dv);
        string_from_chars(n.as_slice())
    } else {
        let mut all = chars_of(base_dir);
        push_all(&mut all, &dv);
        let n = normalize_chars(&all);
        string_from_chars(n.as_slice())
    };
    let frag = match fragment {
        Some(f) => Some(f.to_owned()),
        None => None,
    };
    (path, frag)
}

// ---------------------------------------------------------------------------
// mime_type_from_extension
// ---------------------------------------------------------------------------

/// Text after the last `.` (the whole path when there is none).
pub open spec fn extension_of(path: Seq<char>) -> Seq<char> {
    let p = last_index_of(path, '.');
    if p < 0 {
        path
    } else {
        path.skip(p + 1)
    }
}

/// MIME type for a lowercased extension.
pub open spec fn spec_mime_for(ext: Seq<char>) -> Seq<char> {
    if ext == "jpg"@ || ext == "jpeg"@ {
        "image/jpeg"@
    } else if ext == "png"@ {
        "image/png"@
    } else if ext == "gif"@ {
        "image/gif"@
    } else if ext == "svg"@ {
        "image/svg+xml"@
    } else if ext == "webp"@ {
        "image/webp"@
    } else if ext == "bmp"@ {
        "image/bmp"@
    } else if ext == "avif"@ {
        "image/avif"@
    } else if ext == "woff"@ {
        "font/woff"@
    } else if ext == "woff2"@ {
        "font/woff2"@
    } else if ext == "ttf"@ {
        "font/ttf"@
    } else if ext == "otf"@ {
        "font/otf"@
    } else if ext == "css"@ {
        "text/css"@
    } else if ext == "js"@ {
        "application/javascript"@
    } else if ext == "xhtml"@ || ext == "xht"@ {
        "application/xhtml+xml"@
    } else if ext == "html"@ || ext == "htm"@ {
        "text/html"@
    } else if ext == "xml"@ {
        "application/xml"@
    } else if ext == "ncx"@ {
        "application/x-dtbncx+xml"@
    } else if ext == "mp3"@ {
        "audio/mpeg"@
    } else if ext == "mp4"@ || ext == "m4v"@ {
        "video/mp4"@
    } else if ext == "smil"@ {
        "application/smil+xml"@
    } else {
        "application/octet-stream"@
    }
}

/// Best-effort MIME type from a file extension.
pub fn mime_type_from_extension(path: &str) -> (r: &'static str)
    ensures
        r@ == spec_mime_for(lower_seq(extension_of(path@))),
{
    let v = chars_of(path);
    let start = match rfind_char(&v, '.') {
        Some(p) => {
            proof {
                lemma_last_index_of_found(path@, '.', p as int);
            }
            assert(p < v@.len());
            assert(v@.len() <= usize::MAX);
            p + 1
        },
        None => {
            proof {
                lemma_last_index_of_absent(path@, '.');
            }
            assert(path@.skip(0) =~= path@);
            0
        },
    };
    let e = lower_from(&v, start);
    if chars_eq_str(&e, "jpg") || chars_eq_str(&e, "jpeg") {
        "image/jpeg"
    } else if chars_eq_str(&e, "png") {
        "image/png"
    } else if chars_eq_str(&e, "gif") {
        "image/gif"
    } else if chars_eq_str(&e, "svg") {
        "image/svg+xml"
    } else if chars_eq_str(&e, "webp") {
        "image/webp"
    } else if chars_eq_str(&e, "bmp") {
        "image/bmp"
    } else if chars_eq_str(&e, "avif") {
        "image/avif"
    } else if chars_eq_str(&e, "woff") {
        "font/woff"
    } else if chars_eq_str(&e, "woff2") {
        "font/woff2"
    } else if chars_eq_str(&e, "ttf") {
        "font/ttf"
    } else if chars_eq_str(&e, "otf") {
        "font/otf"
    } else if chars_eq_str(&e, "css") {
        "text/css"
    } else if chars_eq_str(&e, "js") {
        "application/javascript"
    } else if chars_eq_str(&e, "xhtml") || chars_eq_str(&e, "xht") {
        "application/xhtml+xml"
    } else if chars_eq_str(&e, "html") || chars_eq_str(&e, "htm") {
        "text/html"
    } else if chars_eq_str(&e, "xml") {
        "application/xml"
    } else if chars_eq_str(&e, "ncx") {
        "application/x-dtbncx+xml"
    } else if chars_eq_str(&e, "mp3") {
        "audio/mpeg"
    } else if chars_eq_str(&e, "mp4") || chars_eq_str(&e, "m4v") {
        "video/mp4"
    } else if chars_eq_str(&e, "smil") {
        "application/smil+xml"
    } else {
        "application/octet-stream"
    }
}

} // verus!
