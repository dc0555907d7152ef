//! Character/byte bookkeeping shared by the text-processing modules.
//!
//! Text is handled as a sequence of `char`s; byte offsets (as used by
//! `str` indexing) are the UTF-8 lengths of char prefixes.

use vstd::prelude::*;
use vstd::utf8::*;

verus! {

broadcast use vstd::seq::group_seq_axioms;

/// UTF-8 width of a single character (1 to 4 bytes).
pub open spec fn char_width(c: char) -> nat {
    encode_scalar(c as u32).len()
}

/// UTF-8 byte length of a character sequence.
pub open spec fn byte_len(s: Seq<char>) -> nat {
    encode_utf8(s).len()
}

/// Encoding distributes over concatenation.
pub proof fn lemma_encode_concat(a: Seq<char>, b: Seq<char>)
    ensures
        encode_utf8(a + b) == encode_utf8(a) + encode_utf8(b),
    decreases a.len(),
{
    if a.len() == 0 {
        assert(a + b =~= b);
        assert(encode_utf8(a) + encode_utf8(b) =~= encode_utf8(b));
    } else {
        assert((a + b).drop_first() =~= a.drop_first() + b);
        assert((a + b)[0] == a[0]);
        lemma_encode_concat(a.drop_first(), b);
        assert(encode_utf8(a + b) =~= encode_scalar(a[0] as u32) + (encode_utf8(a.drop_first())
            + encode_utf8(b)));
    }
}

/// Appending one character appends its encoding.
pub proof fn lemma_encode_push(a: Seq<char>, c: char)
    ensures
        encode_utf8(a.push(c)) == encode_utf8(a) + encode_scalar(c as u32),
        byte_len(a.push(c)) == byte_len(a) + char_width(c),
{
    assert(a.push(c) =~= a + seq![c]);
    lemma_encode_concat(a, seq![c]);
    assert(seq![c].drop_first() =~= Seq::<char>::empty());
    assert(encode_utf8(seq![c]) =~= encode_scalar(c as u32) + encode_utf8(Seq::<char>::empty()));
    assert(encode_utf8(seq![c]) =~= encode_scalar(c as u32));
}

/// Byte length of a prefix never exceeds that of the whole sequence.
pub proof fn lemma_byte_len_prefix(s: Seq<char>, k: int)
    requires
        0 <= k <= s.len(),
    ensures
        byte_len(s.take(k)) <= byte_len(s),
        byte_len(s) == byte_len(s.take(k)) + byte_len(s.skip(k)),
{
    assert(s =~= s.take(k) + s.skip(k));
    lemma_encode_concat(s.take(k), s.skip(k));
}

/// A longer prefix of a text takes more bytes, and no prefix more than the
/// whole text.
pub proof fn lemma_byte_len_take_lt(t: Seq<char>, a: int, b: int)
    requires
        0 <= a < b <= t.len(),
    ensures
        byte_len(t.take(a)) < byte_len(t.take(b)) <= byte_len(t),
    decreases b - a,
{
    lemma_char_width_bounds(t[b - 1]);
    assert(t.take(b) =~= t.take(b - 1).push(t[b - 1]));
    lemma_encode_push(t.take(b - 1), t[b - 1]);
    if a < b - 1 {
        lemma_byte_len_take_lt(t, a, b - 1);
    }
    lemma_byte_len_prefix(t, b);
}

/// Every character is 1 to 4 bytes wide.
pub proof fn lemma_char_width_bounds(c: char)
    ensures
        1 <= char_width(c) <= 4,
{
    char_is_scalar(c);
}

/// UTF-8 width of `c`.
pub fn char_width_of(c: char) -> (n: usize)
    ensures
        n == char_width(c),
        1 <= n <= 4,
{
    proof {
        char_is_scalar(c);
    }
    let u: u32 = c as u32;
    if u < 0x80 {
        1
    } else if u < 0x800 {
        2
    } else if u < 0x10000 {
        3
    } else {
        4
    }
}


/// The characters of `s`, in order.
pub fn chars_of(s: &str) -> (v: Vec<char>)
    ensures
        v@ == s@,
{
    broadcast use vstd::string::group_string_axioms;

    let mut out: Vec<char> = Vec::new();
    for c in iter: s.chars()
        invariant
            out@ == iter.seq().take(iter.index() as int),
            iter.seq() == s@,
    {
        out.push(c);
    }
    let n = out.len();
    assert(out@.len() == n);
    out
}

/// A `String` holding exactly the given characters (`String: FromIterator<&char>`).
#[verifier::external_body]
pub(crate) fn string_from_chars(v: &[char]) -> (r: String)
    ensures
        r@ == v@,
{
    v.iter().collect()
}

/// `String::from_utf8`: `Some` exactly when the bytes are valid UTF-8, and
/// then the string whose encoding they are.
#[verifier::external_body]
pub(crate) fn string_from_utf8(v: Vec<u8>) -> (r: Option<String>)
    ensures
        r is Some <==> valid_utf8(v@),
        r matches Some(s) ==> encode_utf8(s@) == v@,
{
    String::from_utf8(v).ok()
}


/// The message `String::from_utf8` gives for invalid `b` (its error's
/// `Display`).
pub uninterp spec fn utf8_error_message(b: Seq<u8>) -> Seq<char>;

/// The message of the error `String::from_utf8` returns for `b` (empty
/// when `b` is valid UTF-8).
#[verifier::external_body]
pub(crate) fn utf8_error_text(b: Vec<u8>) -> (r: String)
    ensures
        !valid_utf8(b@) ==> r@ == utf8_error_message(b@),
{
    match String::from_utf8(b) {
        Ok(_) => String::new(),
        Err(e) => e.to_string(),
    }
}

/// Unicode `White_Space` (the definition `char::is_whitespace` documents).
pub open spec fn spec_is_whitespace(c: char) -> bool {
    let u: u32 = c as u32;
    ||| 0x9 <= u <= 0xD
    ||| u == 0x20
    ||| u == 0x85
    ||| u == 0xA0
    ||| u == 0x1680
    ||| 0x2000 <= u <= 0x200A
    ||| u == 0x2028
    ||| u == 0x2029
    ||| u == 0x202F
    ||| u == 0x205F
    ||| u == 0x3000
}

/// `char::is_whitespace`.
pub fn is_whitespace(c: char) -> (b: bool)
    ensures
        b == spec_is_whitespace(c),
{
    let u: u32 = c as u32;
    (0x9 <= u && u <= 0xD) || u == 0x20 || u == 0x85 || u == 0xA0 || u == 0x1680 || (0x2000 <= u
        && u <= 0x200A) || u == 0x2028 || u == 0x2029 || u == 0x202F || u == 0x205F || u == 0x3000
}

/// ASCII whitespace as `u8::is_ascii_whitespace` defines it (space, tab, LF, FF, CR).
pub open spec fn spec_is_ascii_ws(c: char) -> bool {
    c == ' ' || c == '\t' || c == '\n' || c == '\x0C' || c == '\r'
}

pub fn is_ascii_ws(c: char) -> (b: bool)
    ensures
        b == spec_is_ascii_ws(c),
{
    c == ' ' || c == '\t' || c == '\n' || c == '\x0C' || c == '\r'
}

/// ASCII lowercase mapping of one character (`char::to_ascii_lowercase`).
pub open spec fn ascii_lower(c: char) -> char {
    if 'A' <= c <= 'Z' {
        ((c as u32) + 32) as char
    } else {
        c
    }
}

/// ASCII lowercase of a whole sequence.
pub open spec fn lower_seq(s: Seq<char>) -> Seq<char> {
    s.map_values(|c: char| ascii_lower(c))
}

pub fn to_ascii_lower(c: char) -> (r: char)
    ensures
        r == ascii_lower(c),
{
    if c >= 'A' && c <= 'Z' {
        let b: u8 = c as u8;
        assert(b as u32 == c as u32);
        let l: u8 = b + 32;
        (l as char)
    } else {
        c
    }
}

/// Index of the first occurrence of `c` in `s`, or -1.
pub open spec fn index_of(s: Seq<char>, c: char) -> int
    decreases s.len(),
{
    if s.len() == 0 {
        -1
    } else if s[0] == c {
        0
    } else {
        let r = index_of(s.drop_first(), c);
        if r < 0 {
            -1
        } else {
            r + 1
        }
    }
}

/// Index of the last occurrence of `c` in `s`, or -1.
pub open spec fn last_index_of(s: Seq<char>, c: char) -> int
    decreases s.len(),
{
    if s.len() == 0 {
        -1
    } else if s.last() == c {
        s.len() - 1
    } else {
        last_index_of(s.drop_last(), c)
    }
}

pub proof fn lemma_index_of_found(s: Seq<char>, c: char, p: int)
    requires
        0 <= p < s.len(),
        s[p] == c,
        forall|j: int| 0 <= j < p ==> s[j] != c,
    ensures
        index_of(s, c) == p,
    decreases p,
{
    if p > 0 {
        lemma_index_of_found(s.drop_first(), c, p - 1);
    }
}

pub proof fn lemma_index_of_absent(s: Seq<char>, c: char)
    requires
        forall|j: int| 0 <= j < s.len() ==> s[j] != c,
    ensures
        index_of(s, c) == -1,
    decreases s.len(),
{
    if s.len() > 0 {
        lemma_index_of_absent(s.drop_first(), c);
    }
}

pub proof fn lemma_last_index_of_found(s: Seq<char>, c: char, p: int)
    requires
        0 <= p < s.len(),
        s[p] == c,
        forall|j: int| p < j < s.len() ==> s[j] != c,
    ensures
        last_index_of(s, c) == p,
    decreases s.len(),
{
    if p < s.len() - 1 {
        lemma_last_index_of_found(s.drop_last(), c, p);
    }
}

pub proof fn lemma_last_index_of_absent(s: Seq<char>, c: char)
    requires
        forall|j: int| 0 <= j < s.len() ==> s[j] != c,
    ensures
        last_index_of(s, c) == -1,
    decreases s.len(),
{
    if s.len() > 0 {
        lemma_last_index_of_absent(s.drop_last(), c);
    }
}

/// Position of the first `c` in `v` at or after `from`.
pub fn find_char_from(v: &Vec<char>, from: usize, c: char) -> (r: Option<usize>)
    requires
        from <= v@.len(),
    ensures
        match r {
            Some(p) => from <= p < v@.len() && v@[p as int] == c && forall|j: int|
                from <= j < p ==> v@[j] != c,
            None => forall|j: int| from <= j < v@.len() ==> v@[j] != c,
        },
{
    let mut i: usize = from;
    while i < v.len()
        invariant
            from <= i <= v@.len(),
            forall|j: int| from <= j < i ==> v@[j] != c,
        decreases v@.len() - i,
    {
        if v[i] == c {
            return Some(i);
        }
        i += 1;
    }
    None
}

/// Position of the last `c` in `v`.
pub fn rfind_char(v: &Vec<char>, c: char) -> (r: Option<usize>)
    ensures
        match r {
            Some(p) => p < v@.len() && v@[p as int] == c && forall|j: int|
                p < j < v@.len() ==> v@[j] != c,
            None => forall|j: int| 0 <= j < v@.len() ==> v@[j] != c,
        },
{
    let mut i: usize = v.len();
    while i > 0
        invariant
            i <= v@.len(),
            forall|j: int| i <= j < v@.len() ==> v@[j] != c,
        decreases i,
    {
        if v[i - 1] == c {
            return Some(i - 1);
        }
        i -= 1;
    }
    None
}

/// Whether `v` equals the characters of `lit`.
pub fn chars_eq_str(v: &[char], lit: &str) -> (b: bool)
    ensures
        b == (v@ == lit@),
{
    let w = chars_of(lit);
    if v.len() != w.len() {
        return false;
    }
    let mut i: usize = 0;
    while i < v.len()
        invariant
            v@.len() == w@.len(),
            w@ == lit@,
            i <= v@.len(),
            forall|j: int| 0 <= j < i ==> v@[j] == w@[j],
        decreases v@.len() - i,
    {
        if v[i] != w[i] {
            return false;
        }
        i += 1;
    }
    assert(v@ =~= w@);
    true
}


/// The encoding of a char sequence determines it.
pub proof fn lemma_encode_injective(a: Seq<char>, b: Seq<char>)
    requires
        encode_utf8(a) == encode_utf8(b),
    ensures
        a == b,
{
    encode_utf8_decode_utf8(a);
    encode_utf8_decode_utf8(b);
}

/// The byte offset of every char index is a char boundary of the encoding.
pub proof fn lemma_prefix_is_char_boundary(s: Seq<char>, k: int)
    requires
        0 <= k <= s.len(),
    ensures
        is_char_boundary(encode_utf8(s), byte_len(s.take(k)) as int),
    decreases k,
{
    let bytes = encode_utf8(s);
    encode_utf8_valid_utf8(s);
    if k == 0 {
        assert(s.take(0) =~= Seq::<char>::empty());
        assert(encode_utf8(s.take(0)) =~= Seq::<u8>::empty());
    } else {
        let rest = s.drop_first();
        encode_utf8_first_scalar(s);
        lemma_char_width_bounds(s[0]);
        assert(s.take(k) =~= seq![s[0]] + rest.take(k - 1));
        lemma_encode_concat(seq![s[0]], rest.take(k - 1));
        lemma_encode_push(Seq::<char>::empty(), s[0]);
        assert(Seq::<char>::empty().push(s[0]) =~= seq![s[0]]);
        assert(encode_utf8(Seq::<char>::empty()) =~= Seq::<u8>::empty());
        assert(encode_utf8(seq![s[0]]) =~= encode_scalar(s[0] as u32));
        lemma_byte_len_prefix(rest, k - 1);
        assert(pop_first_scalar(bytes) =~= encode_utf8(rest));
        lemma_prefix_is_char_boundary(rest, k - 1);
    }
}

/// The prefix of the encoding up to a char index is the encoding of the prefix.
pub proof fn lemma_encode_take(s: Seq<char>, k: int)
    requires
        0 <= k <= s.len(),
    ensures
        encode_utf8(s).subrange(0, byte_len(s.take(k)) as int) == encode_utf8(s.take(k)),
        encode_utf8(s).subrange(byte_len(s.take(k)) as int, byte_len(s) as int) == encode_utf8(
            s.skip(k),
        ),
{
    assert(s =~= s.take(k) + s.skip(k));
    lemma_encode_concat(s.take(k), s.skip(k));
    assert(encode_utf8(s).subrange(0, byte_len(s.take(k)) as int) =~= encode_utf8(s.take(k)));
    assert(encode_utf8(s).subrange(byte_len(s.take(k)) as int, byte_len(s) as int)
        =~= encode_utf8(s.skip(k)));
}

/// The substring of `s` between char indices `i` and `j`, located by the
/// byte offsets `from` and `to` of those indices.
pub fn str_slice<'a>(s: &'a str, from: usize, to: usize, Ghost(i): Ghost<int>, Ghost(j): Ghost<int>) -> (r: &'a str)
    requires
        0 <= i <= j <= s@.len(),
        from == byte_len(s@.take(i)),
        to == byte_len(s@.take(j)),
    ensures
        r@ == s@.subrange(i, j),
{
    proof {
        lemma_prefix_is_char_boundary(s@, j);
        lemma_encode_take(s@, j);
    }
    let (a, _) = s.split_at(to);
    proof {
        lemma_encode_injective(a@, s@.take(j));
        assert(s@.take(j).take(i) =~= s@.take(i));
        lemma_prefix_is_char_boundary(a@, i);
        lemma_encode_take(a@, i);
        lemma_byte_len_prefix(a@, i);
    }
    let (_, b) = a.split_at(from);
    proof {
        lemma_encode_injective(b@, a@.skip(i));
        assert(a@.skip(i) =~= s@.subrange(i, j));
    }
    b
}


/// Byte offset of char index `k` in `s` (`v` holds the characters of `s`).
pub fn byte_offset(s: &str, v: &Vec<char>, k: usize) -> (n: usize)
    requires
        v@ == s@,
        k <= v@.len(),
    ensures
        n == byte_len(s@.take(k as int)),
{
    let total = s.as_bytes().len();
    let mut acc: usize = 0;
    let mut i: usize = 0;
    while i < k
        invariant
            v@ == s@,
            k <= v@.len(),
            i <= k,
            total == byte_len(s@),
            acc == byte_len(s@.take(i as int)),
        decreases k - i,
    {
        let w = char_width_of(v[i]);
        proof {
            assert(s@.take(i + 1) =~= s@.take(i as int).push(s@[i as int]));
            lemma_encode_push(s@.take(i as int), s@[i as int]);
            lemma_byte_len_prefix(s@, i + 1);
            assert(acc + w == byte_len(s@.take(i + 1)));
            assert(acc + w <= total);
        }
        acc = acc + w;
        i += 1;
    }
    acc
}

/// Whether two character vectors are equal.
pub fn chars_eq(a: &Vec<char>, b: &Vec<char>) -> (r: bool)
    ensures
        r == (a@ == b@),
{
    if a.len() != b.len() {
        return false;
    }
    let mut k: usize = 0;
    while k < a.len()
        invariant
            a@.len() == b@.len(),
            k <= a@.len(),
            forall|m: int| 0 <= m < k ==> a@[m] == b@[m],
        decreases a@.len() - k,
    {
        if a[k] != b[k] {
            return false;
        }
        k += 1;
    }
    assert(a@ =~= b@);
    true
}

/// Whether two strings are equal.
pub fn str_eq(a: &str, b: &str) -> (r: bool)
    ensures
        r == (a@ == b@),
{
    let x = chars_of(a);
    let y = chars_of(b);
    chars_eq(&x, &y)
}

/// Whether `pat` occurs in `v` starting at `at`.
pub fn matches_at(v: &Vec<char>, at: usize, pat: &Vec<char>) -> (b: bool)
    ensures
        b == (at + pat@.len() <= v@.len() && v@.subrange(at as int, at + pat@.len()) == pat@),
{
    if at > v.len() || pat.len() > v.len() - at {
        return false;
    }
    let mut j: usize = 0;
    while j < pat.len()
        invariant
            at + pat@.len() <= v@.len(),
            v@.len() <= usize::MAX,
            j <= pat@.len(),
            forall|k: int| 0 <= k < j ==> v@[at + k] == pat@[k],
        decreases pat@.len() - j,
    {
        if v[at + j] != pat[j] {
            assert(v@.subrange(at as int, at + pat@.len())[j as int] != pat@[j as int]);
            return false;
        }
        j += 1;
    }
    assert(v@.subrange(at as int, at + pat@.len()) =~= pat@);
    true
}

/// Whether `p` occurs somewhere in `s`.
pub open spec fn contains_seq(s: Seq<char>, p: Seq<char>) -> bool {
    exists|i: int| 0 <= i && i + p.len() <= s.len() && #[trigger] s.subrange(i, i + p.len()) == p
}

/// Whether `s` begins with `p`.
pub open spec fn has_prefix(s: Seq<char>, p: Seq<char>) -> bool {
    p.len() <= s.len() && s.take(p.len() as int) == p
}

/// Whether `pat` occurs anywhere in `v`.
pub fn contains_chars(v: &Vec<char>, pat: &Vec<char>) -> (b: bool)
    ensures
        b == contains_seq(v@, pat@),
{
    if pat.len() > v.len() {
        return false;
    }
    let last = v.len() - pat.len();
    let mut i: usize = 0;
    while i <= last
        invariant
            last + pat@.len() == v@.len(),
            i <= last + 1,
            forall|k: int|
                0 <= k < i && k + pat@.len() <= v@.len() ==> #[trigger] v@.subrange(k, k + pat@.len())
                    != pat@,
        decreases last + 1 - i,
    {
        if matches_at(v, i, pat) {
            return true;
        }
        if i == last {
            return false;
        }
        i += 1;
    }
    false
}

/// ASCII-lowercased copy of `v[from..]`.
pub fn lower_from(v: &Vec<char>, from: usize) -> (r: Vec<char>)
    requires
        from <= v@.len(),
    ensures
        r@ == lower_seq(v@.skip(from as int)),
{
    let mut r: Vec<char> = Vec::new();
    let mut i: usize = from;
    while i < v.len()
        invariant
            from <= i <= v@.len(),
            r@ == lower_seq(v@.subrange(from as int, i as int)),
        decreases v@.len() - i,
    {
        let c = to_ascii_lower(v[i]);
        r.push(c);
        i += 1;
        assert(r@ =~= lower_seq(v@.subrange(from as int, i as int)));
    }
    assert(v@.subrange(from as int, v@.len() as int) =~= v@.skip(from as int));
    r
}


/// Append all of `src` to `out`.
pub fn push_all(out: &mut Vec<char>, src: &Vec<char>)
    ensures
        final(out)@ == old(out)@ + src@,
{
    let mut i: usize = 0;
    while i < src.len()
        invariant
            i <= src@.len(),
            out@ == old(out)@ + src@.take(i as int),
        decreases src@.len() - i,
    {
        out.push(src[i]);
        i += 1;
        assert(src@.take(i as int) =~= src@.take(i - 1).push(src@[i - 1]));
    }
    assert(src@.take(src@.len() as int) =~= src@);
}


/// First index `>= from` at which `pat` occurs in `s`, or -1.
pub open spec fn find_seq_from(s: Seq<char>, from: int, pat: Seq<char>) -> int
    decreases s.len() + 1 - from,
{
    if from < 0 || from > s.len() || from + pat.len() > s.len() {
        -1
    } else if s.subrange(from, from + pat.len()) == pat {
        from
    } else {
        find_seq_from(s, from + 1, pat)
    }
}

/// Exec form of [`find_seq_from`] for a non-empty pattern.
pub fn find_from(v: &Vec<char>, from: usize, pat: &Vec<char>) -> (r: Option<usize>)
    requires
        from <= v@.len(),
        pat@.len() > 0,
    ensures
        match r {
            Some(p) => p as int == find_seq_from(v@, from as int, pat@) && p + pat@.len() <= v@.len(),
            None => find_seq_from(v@, from as int, pat@) == -1,
        },
{
    let mut j: usize = from;
    while j < v.len() && pat.len() <= v.len() - j
        invariant
            from <= j <= v@.len(),
            pat@.len() > 0,
            find_seq_from(v@, from as int, pat@) == find_seq_from(v@, j as int, pat@),
        decreases v@.len() - j,
    {
        if matches_at(v, j, pat) {
            return Some(j);
        }
        j += 1;
    }
    None
}

/// The characters of `s` after its last `:` (all of it when there is none).
pub open spec fn strip_prefix_ns(s: Seq<char>) -> Seq<char> {
    s.skip(last_index_of(s, ':') + 1)
}

proof fn lemma_last_index_of_range(s: Seq<char>, c: char)
    ensures
        -1 <= last_index_of(s, c) < s.len(),
    decreases s.len(),
{
    if s.len() > 0 {
        lemma_last_index_of_range(s.drop_last(), c);
    }
}

/// Exec form of [`strip_prefix_ns`].
pub fn strip_ns(v: Vec<char>) -> (r: Vec<char>)
    ensures
        r@ == strip_prefix_ns(v@),
{
    proof {
        lemma_last_index_of_range(v@, ':');
    }
    let start = match rfind_char(&v, ':') {
        Some(p) => {
            proof {
                lemma_last_index_of_found(v@, ':', p as int);
            }
            assert(p < v@.len());
            assert(v@.len() == v.len());
            p + 1
        },
        None => {
            proof {
                lemma_last_index_of_absent(v@, ':');
            }
            0
        },
    };
    let mut r: Vec<char> = Vec::new();
    let mut i: usize = start;
    while i < v.len()
        invariant
            start <= i <= v@.len(),
            r@ == v@.subrange(start as int, i as int),
        decreases v@.len() - i,
    {
        r.push(v[i]);
        i += 1;
        assert(r@ =~= v@.subrange(start as int, i as int));
    }
    assert(r@ =~= v@.skip(start as int));
    r
}

/// Copy of `v[a..b]`.
pub fn sub_vec(v: &Vec<char>, a: usize, b: usize) -> (r: Vec<char>)
    requires
        a <= b <= v@.len(),
    ensures
        r@ == v@.subrange(a as int, b as int),
{
    let mut r: Vec<char> = Vec::new();
    let mut i: usize = a;
    while i < b
        invariant
            a <= i <= b <= v@.len(),
            r@ == v@.subrange(a as int, i as int),
        decreases b - i,
    {
        r.push(v[i]);
        i += 1;
        assert(r@ =~= v@.subrange(a as int, i as int));
    }
    r
}

/// `char::from_u32`: the character with that scalar value, if it is one.
#[verifier::external_body]
pub(crate) fn char_from_u32(u: u32) -> (r: Option<char>)
    ensures
        r is Some <==> is_scalar(u),
        r matches Some(c) ==> c as u32 == u,
{
    char::from_u32(u)
}

} // verus!
