//! Reading CFIs from their textual form.
//!
//! A CFI reads as `epubcfi(<spine path>!<document path>)`. The spine path
//! `/6/N` names spine item `N / 2 - 1`; the document path is a list of
//! steps `/index[id]`, where the last may carry a character offset `:n`, a
//! temporal offset `~t` and a spatial offset `@x:y`. A range reads as
//! `epubcfi(parent,start,end)`.

use vstd::prelude::*;

use crate::cfi::{decimal, push_decimal, Cfi, CfiRange, CfiStep};
use crate::error::{err_view, EpubError, ErrView};
use crate::text::{
    ascii_lower, chars_of, find_char_from, has_prefix, index_of, lemma_index_of_absent, lemma_index_of_found,
    lower_seq, push_all, string_from_chars, sub_vec,
};

verus! {

// ---------------------------------------------------------------------------
// Numbers
// ---------------------------------------------------------------------------

pub open spec fn is_digit(c: char) -> bool {
    '0' <= c <= '9'
}

pub open spec fn all_digits(s: Seq<char>) -> bool {
    forall|i: int| 0 <= i < s.len() ==> is_digit(#[trigger] s[i])
}

/// The value of a string of decimal digits.
pub open spec fn digits_value(s: Seq<char>) -> nat
    decreases s.len(),
{
    if s.len() == 0 {
        0
    } else {
        digits_value(s.drop_last()) * 10 + ((s.last() as u32) - ('0' as u32)) as nat
    }
}

/// `usize::from_str` on a string of digits: its value, when it has at
/// least one digit, nothing else, and fits.
pub open spec fn digits_usize(s: Seq<char>) -> Option<usize> {
    if s.len() > 0 && all_digits(s) && digits_value(s) <= usize::MAX {
        Some(digits_value(s) as usize)
    } else {
        None
    }
}

/// `usize::from_str`: an optional `+`, then digits.
pub open spec fn parse_usize(s: Seq<char>) -> Option<usize> {
    if s.len() > 0 && s[0] == '+' {
        digits_usize(s.drop_first())
    } else {
        digits_usize(s)
    }
}

/// The length of the run of characters at the start of `s` satisfying
/// `digit_or_dot ? (digit or '.') : digit`.
pub open spec fn run_len(s: Seq<char>, dots: bool, k: int) -> int
    decreases s.len() - k,
{
    if k < 0 || k >= s.len() || !(is_digit(s[k]) || (dots && s[k] == '.')) {
        k
    } else {
        run_len(s, dots, k + 1)
    }
}

/// A sign, if `s` starts with one, dropped.
pub open spec fn unsigned(s: Seq<char>) -> Seq<char> {
    if s.len() > 0 && (s[0] == '+' || s[0] == '-') {
        s.drop_first()
    } else {
        s
    }
}

/// `Digit+ | Digit+ '.' Digit* | Digit* '.' Digit+`
pub open spec fn mantissa_ok(m: Seq<char>) -> bool {
    let d = index_of(m, '.');
    if d < 0 {
        m.len() > 0 && all_digits(m)
    } else {
        all_digits(m.take(d)) && all_digits(m.skip(d + 1)) && (d > 0 || m.len() > d + 1)
    }
}

/// `Sign? Digit+`
pub open spec fn exponent_ok(x: Seq<char>) -> bool {
    let b = unsigned(x);
    b.len() > 0 && all_digits(b)
}

/// `Number ::= Mantissa ('e' Exponent)?` (`e` in either case).
pub open spec fn number_ok(s: Seq<char>) -> bool {
    let e = index_of(lower_seq(s), 'e');
    if e < 0 {
        mantissa_ok(s)
    } else {
        mantissa_ok(s.take(e)) && exponent_ok(s.skip(e + 1))
    }
}

/// Whether `f64::from_str` accepts `s`: the grammar its documentation
/// gives, `Sign? ('inf' | 'infinity' | 'nan' | Number)`, case ignored.
pub open spec fn float_ok(s: Seq<char>) -> bool {
    let b = unsigned(s);
    let l = lower_seq(b);
    l == "inf"@ || l == "infinity"@ || l == "nan"@ || number_ok(b)
}

// ---------------------------------------------------------------------------
// Splitting
// ---------------------------------------------------------------------------

/// `str::split(c)`, collected.
pub open spec fn split_on(s: Seq<char>, c: char) -> Seq<Seq<char>>
    decreases s.len(),
{
    if s.len() == 0 {
        seq![Seq::<char>::empty()]
    } else {
        let p = split_on(s.drop_last(), c);
        if s.last() == c {
            p.push(Seq::empty())
        } else {
            p.update(p.len() - 1, p.last().push(s.last()))
        }
    }
}

/// The non-empty parts.
pub open spec fn nonempty(ps: Seq<Seq<char>>) -> Seq<Seq<char>>
    decreases ps.len(),
{
    if ps.len() == 0 {
        Seq::empty()
    } else if ps.last().len() > 0 {
        nonempty(ps.drop_last()).push(ps.last())
    } else {
        nonempty(ps.drop_last())
    }
}

/// `s` without its `epubcfi(` ... `)` wrapper, when it has one.
pub open spec fn unwrapped(s: Seq<char>) -> Seq<char> {
    if has_prefix(s, "epubcfi("@) && s.len() >= 9 && s.last() == ')' {
        s.subrange(8, s.len() - 1)
    } else {
        s
    }
}

// ---------------------------------------------------------------------------
// The grammar
// ---------------------------------------------------------------------------

pub open spec fn bad_cfi(m: Seq<char>) -> ErrView {
    ErrView::InvalidCfi(m)
}

/// A step, abstractly: its index and ID assertion.
pub type StepV = (usize, Option<Seq<char>>);

/// What a document path has given so far.
pub struct DocSt {
    pub steps: Seq<StepV>,
    pub offset: Option<usize>,
    pub temporal: Option<Seq<char>>,
    pub spatial: Option<(Seq<char>, Seq<char>)>,
}

pub open spec fn empty_doc() -> DocSt {
    DocSt { steps: Seq::empty(), offset: None, temporal: None, spatial: None }
}

/// A step `N` or `N[id]`. `None` when the `]` comes before the `[`, where
/// the step cannot be read at all.
pub open spec fn parse_step(s: Seq<char>) -> Option<Result<StepV, ErrView>> {
    let b = index_of(s, '[');
    let e = index_of(s, ']');
    if b >= 0 && e >= 0 && e < b {
        None
    } else {
        let id = if b >= 0 && e >= 0 {
            Some(s.subrange(b + 1, e))
        } else {
            None
        };
        let digits = if b >= 0 {
            s.take(b)
        } else {
            s
        };
        match parse_usize(digits) {
            None => Some(Err(bad_cfi("Invalid step index: "@ + s))),
            Some(n) => Some(Ok((n, id))),
        }
    }
}

/// The spine item a spine path `/6/N` names: `N / 2 - 1`, for an even
/// `N >= 2`.
pub open spec fn spine_index_of(p: Seq<char>) -> Result<usize, ErrView> {
    let segs = nonempty(split_on(p, '/'));
    if segs.len() < 2 {
        Err(bad_cfi("Invalid spine path: "@ + p))
    } else {
        let st = segs[1];
        let b = index_of(st, '[');
        let digits = if b >= 0 {
            st.take(b)
        } else {
            st
        };
        match parse_usize(digits) {
            None => Err(bad_cfi("Invalid step index: "@ + st)),
            Some(n) => if n < 2 || n % 2 != 0 {
                Err(bad_cfi("Invalid spine index: "@ + decimal(n as nat)))
            } else {
                Ok((n / 2 - 1) as usize)
            },
        }
    }
}

/// A spatial offset `x:y` of two numbers.
pub open spec fn parse_spatial(s: Seq<char>) -> Result<(Seq<char>, Seq<char>), ErrView> {
    let ps = split_on(s, ':');
    if ps.len() != 2 {
        Err(bad_cfi("Invalid spatial offset: "@ + s))
    } else if !float_ok(ps[0]) {
        Err(bad_cfi("Invalid x coordinate: "@ + ps[0]))
    } else if !float_ok(ps[1]) {
        Err(bad_cfi("Invalid y coordinate: "@ + ps[1]))
    } else {
        Ok((ps[0], ps[1]))
    }
}

/// After `~`: a number of digits and dots, then maybe `@` and a spatial
/// offset.
pub open spec fn temporal_then(st: DocSt, t: Seq<char>) -> Result<DocSt, ErrView> {
    let k = run_len(t, true, 0);
    let v = t.take(k);
    let rem = t.skip(k);
    if !float_ok(v) {
        Err(bad_cfi("Invalid float: "@ + t))
    } else if rem.len() > 0 && rem[0] == '@' {
        match parse_spatial(rem.drop_first()) {
            Ok(p) => Ok(DocSt { temporal: Some(v), spatial: Some(p), ..st }),
            Err(e) => Err(e),
        }
    } else {
        Ok(DocSt { temporal: Some(v), ..st })
    }
}

/// After `:`: a character offset, then maybe a temporal or spatial offset.
pub open spec fn offset_then(st: DocSt, s: Seq<char>) -> Result<DocSt, ErrView> {
    let k = run_len(s, false, 0);
    let rem = s.skip(k);
    match digits_usize(s.take(k)) {
        None => Err(bad_cfi("Invalid offset: "@ + s)),
        Some(o) => {
            let st2 = DocSt { offset: Some(o), ..st };
            if rem.len() > 0 && rem[0] == '~' {
                temporal_then(st2, rem.drop_first())
            } else if rem.len() > 0 && rem[0] == '@' {
                match parse_spatial(rem.drop_first()) {
                    Ok(p) => Ok(DocSt { spatial: Some(p), ..st2 }),
                    Err(e) => Err(e),
                }
            } else {
                Ok(st2)
            }
        },
    }
}

/// The step before an offset, when there is one.
pub open spec fn with_step(st: DocSt, s: Seq<char>) -> Option<Result<DocSt, ErrView>> {
    if s.len() == 0 {
        Some(Ok(st))
    } else {
        match parse_step(s) {
            None => None,
            Some(Err(e)) => Some(Err(e)),
            Some(Ok(x)) => Some(Ok(DocSt { steps: st.steps.push(x), ..st })),
        }
    }
}

/// One `/`-separated part of a document path.
pub open spec fn doc_part(st: DocSt, part: Seq<char>) -> Option<Result<DocSt, ErrView>> {
    let c = index_of(part, ':');
    let t = index_of(part, '~');
    let a = index_of(part, '@');
    let cut = if c >= 0 {
        c
    } else if t >= 0 {
        t
    } else if a >= 0 {
        a
    } else {
        part.len() as int
    };
    match with_step(st, part.take(cut)) {
        None => None,
        Some(Err(e)) => Some(Err(e)),
        Some(Ok(st1)) => if c >= 0 {
            Some(offset_then(st1, part.skip(c + 1)))
        } else if t >= 0 {
            Some(temporal_then(st1, part.skip(t + 1)))
        } else if a >= 0 {
            match parse_spatial(part.skip(a + 1)) {
                Ok(p) => Some(Ok(DocSt { spatial: Some(p), ..st1 })),
                Err(e) => Some(Err(e)),
            }
        } else {
            Some(Ok(st1))
        },
    }
}

/// The parts `ps[k..]` of a document path, one after another; stops at the
/// first error.
pub open spec fn doc_run(ps: Seq<Seq<char>>, k: int, st: DocSt) -> Option<Result<DocSt, ErrView>>
    decreases ps.len() - k,
{
    if k < 0 || k >= ps.len() {
        Some(Ok(st))
    } else {
        match doc_part(st, ps[k]) {
            None => None,
            Some(Err(e)) => Some(Err(e)),
            Some(Ok(st2)) => doc_run(ps, k + 1, st2),
        }
    }
}

/// What a CFI string reads as: its spine item and what its document path
/// gives. `None` where a step cannot be read at all.
pub open spec fn spec_parse_cfi(s: Seq<char>) -> Option<Result<(usize, DocSt), ErrView>> {
    let parts = split_on(unwrapped(s), '!');
    if parts.len() > 2 {
        Some(Err(bad_cfi("Multiple ! separators in CFI"@)))
    } else {
        match spine_index_of(parts[0]) {
            Err(e) => Some(Err(e)),
            Ok(si) => if parts.len() == 1 {
                Some(Ok((si, empty_doc())))
            } else {
                match doc_run(nonempty(split_on(parts[1], '/')), 0, empty_doc()) {
                    None => None,
                    Some(Err(e)) => Some(Err(e)),
                    Some(Ok(st)) => Some(Ok((si, st))),
                }
            },
        }
    }
}

/// What a range CFI string reads as: the parent path joined with each end.
pub open spec fn spec_parse_range(s: Seq<char>) -> Option<Result<((usize, DocSt), (usize, DocSt)), ErrView>> {
    let ps = split_on(unwrapped(s), ',');
    if ps.len() != 3 {
        Some(Err(bad_cfi("Not a range CFI (expected 2 commas): "@ + s)))
    } else {
        match spec_parse_cfi(ps[0] + ps[1]) {
            None => None,
            Some(Err(e)) => Some(Err(e)),
            Some(Ok(a)) => match spec_parse_cfi(ps[0] + ps[2]) {
                None => None,
                Some(Err(e)) => Some(Err(e)),
                Some(Ok(b)) => Some(Ok((a, b))),
            },
        }
    }
}

/// A CFI, abstractly.
pub open spec fn cfi_view(c: Cfi) -> (usize, DocSt) {
    (
        c.spine_index,
        DocSt {
            steps: Seq::new(c.path@.len(), |i: int| (c.path@[i].index, crate::navigation::opt_view(c.path@[i].id))),
            offset: c.character_offset,
            temporal: crate::navigation::opt_view(c.temporal_offset),
            spatial: match c.spatial_offset {
                Some(p) => Some((p.0@, p.1@)),
                None => None,
            },
        },
    )
}

// ---------------------------------------------------------------------------
// Reading
// ---------------------------------------------------------------------------

fn index_in(v: &Vec<char>, c: char) -> (r: Option<usize>)
    ensures
        match r {
            Some(p) => p as int == index_of(v@, c) && p < v@.len() && v@[p as int] == c,
            None => index_of(v@, c) == -1,
        },
{
    match find_char_from(v, 0, c) {
        Some(p) => {
            proof {
                lemma_index_of_found(v@, c, p as int);
            }
            Some(p)
        },
        None => {
            proof {
                lemma_index_of_absent(v@, c);
            }
            None
        },
    }
}

fn bad(prefix: &str, tail: &Vec<char>) -> (e: EpubError)
    ensures
        err_view(e) == bad_cfi(prefix@ + tail@),
{
    let mut m = chars_of(prefix);
    push_all(&mut m, tail);
    EpubError::InvalidCfi(string_from_chars(m.as_slice()))
}

proof fn lemma_digits_step(s: Seq<char>, k: int)
    requires
        0 <= k < s.len(),
    ensures
        digits_value(s.take(k + 1)) == digits_value(s.take(k)) * 10 + ((s[k] as u32) - ('0' as u32)) as nat,
{
    let t = s.take(k + 1);
    assert(t.drop_last() =~= s.take(k));
}

proof fn lemma_digits_mono(s: Seq<char>, k: int)
    requires
        0 <= k <= s.len(),
        all_digits(s),
    ensures
        digits_value(s.take(k)) <= digits_value(s),
    decreases s.len(),
{
    if k < s.len() {
        assert(all_digits(s.drop_last()));
        lemma_digits_mono(s.drop_last(), k);
        assert(s.drop_last().take(k) =~= s.take(k));
    } else {
        assert(s.take(k) =~= s);
    }
}

/// `digits_usize` of `v[a..b]`.
fn digits_usize_exec(v: &Vec<char>, a: usize, b: usize) -> (r: Option<usize>)
    requires
        a <= b <= v@.len(),
    ensures
        r == digits_usize(v@.subrange(a as int, b as int)),
{
    let ghost s = v@.subrange(a as int, b as int);
    if a == b {
        return None;
    }
    let mut k = a;
    while k < b
        invariant
            a <= k <= b <= v@.len(),
            s == v@.subrange(a as int, b as int),
            forall|j: int| 0 <= j < k - a ==> is_digit(#[trigger] s[j]),
        decreases b - k,
    {
        if !(v[k] >= '0' && v[k] <= '9') {
            assert(!is_digit(s[k - a]));
            return None;
        }
        k += 1;
    }
    assert(all_digits(s));
    let mut val: usize = 0;
    let mut k = a;
    assert(s.take(0) =~= Seq::<char>::empty());
    while k < b
        invariant
            a <= k <= b <= v@.len(),
            s == v@.subrange(a as int, b as int),
            all_digits(s),
            val as nat == digits_value(s.take(k - a)),
        decreases b - k,
    {
        proof {
            assert(s[k - a] == v@[k as int]);
            assert(is_digit(s[k - a]));
            lemma_digits_step(s, k - a);
        }
        let d: u32 = (v[k] as u32) - ('0' as u32);
        if val > (usize::MAX - d as usize) / 10 {
            proof {
                assert(digits_value(s.take(k - a + 1)) > usize::MAX) by (nonlinear_arith)
                    requires
                        val > (usize::MAX - d as usize) / 10,
                        digits_value(s.take(k - a + 1)) == val * 10 + d,
                        d <= 9,
                ;
                lemma_digits_mono(s, k - a + 1);
            }
            return None;
        }
        proof {
            assert(val * 10 + d <= usize::MAX) by (nonlinear_arith)
                requires
                    val <= (usize::MAX - d as usize) / 10,
                    d <= 9,
            ;
        }
        val = val * 10 + d as usize;
        k += 1;
    }
    assert(s.take(b - a) =~= s);
    Some(val)
}

/// `parse_usize` of `v[a..b]`.
fn parse_usize_exec(v: &Vec<char>, a: usize, b: usize) -> (r: Option<usize>)
    requires
        a <= b <= v@.len(),
    ensures
        r == parse_usize(v@.subrange(a as int, b as int)),
{
    if a < b && v[a] == '+' {
        assert(v@.subrange(a as int, b as int).drop_first() =~= v@.subrange(a + 1, b as int));
        digits_usize_exec(v, a + 1, b)
    } else {
        digits_usize_exec(v, a, b)
    }
}

/// `run_len(v, dots, 0)`.
fn run_len_exec(v: &Vec<char>, dots: bool) -> (r: usize)
    ensures
        r as int == run_len(v@, dots, 0),
        r <= v@.len(),
{
    let mut k: usize = 0;
    while k < v.len() && ((v[k] >= '0' && v[k] <= '9') || (dots && v[k] == '.'))
        invariant
            k <= v@.len(),
            run_len(v@, dots, 0) == run_len(v@, dots, k as int),
        decreases v@.len() - k,
    {
        k += 1;
    }
    k
}

/// `split_on(v, c)`.
fn split_exec(v: &Vec<char>, c: char) -> (r: Vec<Vec<char>>)
    ensures
        r@.len() == split_on(v@, c).len(),
        forall|i: int| 0 <= i < r@.len() ==> #[trigger] r@[i]@ == split_on(v@, c)[i],
{
    let mut out: Vec<Vec<char>> = Vec::new();
    let mut cur: Vec<char> = Vec::new();
    let mut k: usize = 0;
    assert(v@.take(0) =~= Seq::<char>::empty());
    while k < v.len()
        invariant
            k <= v@.len(),
            out@.len() + 1 == split_on(v@.take(k as int), c).len(),
            forall|i: int| 0 <= i < out@.len() ==> #[trigger] out@[i]@ == split_on(v@.take(k as int), c)[i],
            cur@ == split_on(v@.take(k as int), c).last(),
        decreases v@.len() - k,
    {
        let ghost p = split_on(v@.take(k as int), c);
        proof {
            let t = v@.take(k + 1);
            assert(t.drop_last() =~= v@.take(k as int));
            assert(t.last() == v@[k as int]);
        }
        if v[k] == c {
            let mut done: Vec<char> = Vec::new();
            std::mem::swap(&mut done, &mut cur);
            out.push(done);
            assert(cur@ =~= Seq::<char>::empty());
        } else {
            cur.push(v[k]);
        }
        k += 1;
    }
    assert(v@.take(k as int) =~= v@);
    out.push(cur);
    out
}

/// The non-empty parts.
fn nonempty_exec(ps: Vec<Vec<char>>) -> (r: Vec<Vec<char>>)
    ensures
        r@.len() == nonempty(views(ps@)).len(),
        forall|i: int| 0 <= i < r@.len() ==> #[trigger] r@[i]@ == nonempty(views(ps@))[i],
{
    let mut out: Vec<Vec<char>> = Vec::new();
    let mut k: usize = 0;
    let n = ps.len();
    let mut rest = ps;
    let ghost all = views(rest@);
    assert(all.take(0) =~= Seq::<Seq<char>>::empty());
    assert(rest@.skip(0) =~= rest@);
    let ghost orig = rest@;
    while k < n
        invariant
            n == orig.len(),
            all == views(orig),
            k <= n,
            rest@ == orig.skip(k as int),
            out@.len() == nonempty(all.take(k as int)).len(),
            forall|i: int| 0 <= i < out@.len() ==> #[trigger] out@[i]@ == nonempty(all.take(k as int))[i],
        decreases n - k,
    {
        let part = rest.remove(0);
        proof {
            assert(part == orig[k as int]);
            let t = all.take(k + 1);
            assert(t.drop_last() =~= all.take(k as int));
            assert(t.last() == part@);
            assert(rest@ =~= orig.skip(k + 1));
        }
        if part.len() > 0 {
            out.push(part);
        }
        k += 1;
    }
    assert(all.take(k as int) =~= all);
    out
}

pub open spec fn views(ps: Seq<Vec<char>>) -> Seq<Seq<char>> {
    Seq::new(ps.len(), |i: int| ps[i]@)
}

proof fn lemma_views_split(r: Seq<Vec<char>>, s: Seq<char>, c: char)
    requires
        r.len() == split_on(s, c).len(),
        forall|i: int| 0 <= i < r.len() ==> #[trigger] r[i]@ == split_on(s, c)[i],
    ensures
        views(r) == split_on(s, c),
{
    assert(views(r) =~= split_on(s, c));
}

proof fn lemma_split_nonempty(s: Seq<char>, c: char)
    ensures
        split_on(s, c).len() >= 1,
    decreases s.len(),
{
    if s.len() > 0 {
        lemma_split_nonempty(s.drop_last(), c);
    }
}

/// `unwrapped(v)`.
fn unwrap_exec(v: &Vec<char>) -> (r: Vec<char>)
    ensures
        r@ == unwrapped(v@),
{
    let p = chars_of("epubcfi(");
    proof {
        reveal_strlit("epubcfi(");
    }
    if v.len() >= 9 && v[v.len() - 1] == ')' {
        let head = sub_vec(v, 0, 8);
        if crate::text::chars_eq(&head, &p) {
            assert(v@.take(8) =~= head@);
            return sub_vec(v, 8, v.len() - 1);
        }
        assert(v@.take(8) =~= head@);
    }
    let mut out: Vec<char> = Vec::new();
    push_all(&mut out, v);
    assert(out@ =~= v@);
    out
}

/// The step `v` (see [`parse_step`]).
fn parse_step_exec(v: &Vec<char>) -> (r: Result<CfiStep, EpubError>)
    requires
        parse_step(v@) is Some,
    ensures
        match (r, parse_step(v@)) {
            (Ok(st), Some(Ok(x))) => (st.index, crate::navigation::opt_view(st.id)) == x,
            (Err(e), Some(Err(x))) => err_view(e) == x,
            _ => false,
        },
{
    let b = index_in(v, '[');
    let e = index_in(v, ']');
    let id = match (b, e) {
        (Some(bi), Some(ei)) => {
            let s = sub_vec(v, bi + 1, ei);
            Some(string_from_chars(s.as_slice()))
        },
        _ => None,
    };
    let end = match b {
        Some(bi) => bi,
        None => v.len(),
    };
    assert(v@.subrange(0, v@.len() as int) =~= v@);
    assert(v@.subrange(0, end as int) =~= v@.take(end as int));
    match parse_usize_exec(v, 0, end) {
        Some(n) => Ok(CfiStep { index: n, id }),
        None => Err(bad("Invalid step index: ", v)),
    }
}


fn all_digits_exec(v: &Vec<char>) -> (b: bool)
    ensures
        b == all_digits(v@),
{
    let mut k: usize = 0;
    while k < v.len()
        invariant
            k <= v@.len(),
            forall|j: int| 0 <= j < k ==> is_digit(#[trigger] v@[j]),
        decreases v@.len() - k,
    {
        if !(v[k] >= '0' && v[k] <= '9') {
            assert(!is_digit(v@[k as int]));
            return false;
        }
        k += 1;
    }
    true
}

fn unsigned_exec(v: &Vec<char>) -> (r: Vec<char>)
    ensures
        r@ == unsigned(v@),
{
    if v.len() > 0 && (v[0] == '+' || v[0] == '-') {
        let r = sub_vec(v, 1, v.len());
        assert(r@ =~= v@.drop_first());
        r
    } else {
        let r = sub_vec(v, 0, v.len());
        assert(r@ =~= v@);
        r
    }
}

fn mantissa_ok_exec(m: &Vec<char>) -> (b: bool)
    ensures
        b == mantissa_ok(m@),
{
    let n = m.len();
    match index_in(m, '.') {
        None => n > 0 && all_digits_exec(m),
        Some(d) => {
            let a = sub_vec(m, 0, d);
            let c = sub_vec(m, d + 1, n);
            assert(a@ =~= m@.take(d as int));
            assert(c@ =~= m@.skip(d + 1));
            all_digits_exec(&a) && all_digits_exec(&c) && (d > 0 || n > d + 1)
        },
    }
}

fn exponent_ok_exec(x: &Vec<char>) -> (b: bool)
    ensures
        b == exponent_ok(x@),
{
    let u = unsigned_exec(x);
    u.len() > 0 && all_digits_exec(&u)
}

/// Whether `f64::from_str` accepts `v` (see [`float_ok`]).
fn float_ok_exec(v: &Vec<char>) -> (b: bool)
    ensures
        b == float_ok(v@),
{
    let u = unsigned_exec(v);
    let l = crate::text::lower_from(&u, 0);
    assert(u@.skip(0) =~= u@);
    if crate::text::chars_eq_str(l.as_slice(), "inf") || crate::text::chars_eq_str(l.as_slice(), "infinity")
        || crate::text::chars_eq_str(l.as_slice(), "nan") {
        return true;
    }
    match index_in(&l, 'e') {
        None => mantissa_ok_exec(&u),
        Some(e) => {
            let m = sub_vec(&u, 0, e);
            let x = sub_vec(&u, e + 1, u.len());
            assert(m@ =~= u@.take(e as int));
            assert(x@ =~= u@.skip(e + 1));
            mantissa_ok_exec(&m) && exponent_ok_exec(&x)
        },
    }
}

/// The spine item a spine path names (see [`spine_index_of`]).
fn spine_index_exec(p: &Vec<char>) -> (r: Result<usize, EpubError>)
    ensures
        match (r, spine_index_of(p@)) {
            (Ok(i), Ok(j)) => i == j,
            (Err(e), Err(x)) => err_view(e) == x,
            _ => false,
        },
{
    let parts = split_exec(p, '/');
    proof {
        lemma_views_split(parts@, p@, '/');
    }
    let segs = nonempty_exec(parts);
    if segs.len() < 2 {
        return Err(bad("Invalid spine path: ", p));
    }
    let st = &segs[1];
    let end = match index_in(st, '[') {
        Some(b) => b,
        None => st.len(),
    };
    assert(st@.subrange(0, st@.len() as int) =~= st@);
    assert(st@.subrange(0, end as int) =~= st@.take(end as int));
    match parse_usize_exec(st, 0, end) {
        None => Err(bad("Invalid step index: ", st)),
        Some(n) => {
            if n < 2 || n % 2 != 0 {
                let mut m = chars_of("Invalid spine index: ");
                push_decimal(&mut m, n);
                Err(EpubError::InvalidCfi(string_from_chars(m.as_slice())))
            } else {
                Ok(n / 2 - 1)
            }
        },
    }
}

/// A spatial offset (see [`parse_spatial`]).
fn spatial_exec(s: &Vec<char>) -> (r: Result<(String, String), EpubError>)
    ensures
        match (r, parse_spatial(s@)) {
            (Ok(p), Ok(q)) => p.0@ == q.0 && p.1@ == q.1,
            (Err(e), Err(x)) => err_view(e) == x,
            _ => false,
        },
{
    let ps = split_exec(s, ':');
    if ps.len() != 2 {
        return Err(bad("Invalid spatial offset: ", s));
    }
    if !float_ok_exec(&ps[0]) {
        return Err(bad("Invalid x coordinate: ", &ps[0]));
    }
    if !float_ok_exec(&ps[1]) {
        return Err(bad("Invalid y coordinate: ", &ps[1]));
    }
    Ok((string_from_chars(ps[0].as_slice()), string_from_chars(ps[1].as_slice())))
}

/// What a document path has given so far, as values.
struct DocExec {
    steps: Vec<CfiStep>,
    offset: Option<usize>,
    temporal: Option<String>,
    spatial: Option<(String, String)>,
}

spec fn doc_view(d: DocExec) -> DocSt {
    DocSt {
        steps: Seq::new(d.steps@.len(), |i: int| (d.steps@[i].index, crate::navigation::opt_view(d.steps@[i].id))),
        offset: d.offset,
        temporal: crate::navigation::opt_view(d.temporal),
        spatial: match d.spatial {
            Some(p) => Some((p.0@, p.1@)),
            None => None,
        },
    }
}

spec fn doc_res(r: Result<DocExec, EpubError>) -> Result<DocSt, ErrView> {
    match r {
        Ok(d) => Ok(doc_view(d)),
        Err(e) => Err(err_view(e)),
    }
}

fn temporal_exec(st: DocExec, t: &Vec<char>) -> (r: Result<DocExec, EpubError>)
    ensures
        doc_res(r) == temporal_then(doc_view(st), t@),
{
    let k = run_len_exec(t, true);
    let v = sub_vec(t, 0, k);
    let rem = sub_vec(t, k, t.len());
    assert(v@ =~= t@.take(k as int));
    assert(rem@ =~= t@.skip(k as int));
    if !float_ok_exec(&v) {
        return Err(bad("Invalid float: ", t));
    }
    let mut st = st;
    st.temporal = Some(string_from_chars(v.as_slice()));
    if rem.len() > 0 && rem[0] == '@' {
        let after = sub_vec(&rem, 1, rem.len());
        assert(after@ =~= rem@.drop_first());
        match spatial_exec(&after) {
            Ok(p) => {
                st.spatial = Some(p);
                Ok(st)
            },
            Err(e) => Err(e),
        }
    } else {
        Ok(st)
    }
}

fn offset_exec(st: DocExec, s: &Vec<char>) -> (r: Result<DocExec, EpubError>)
    ensures
        doc_res(r) == offset_then(doc_view(st), s@),
{
    let k = run_len_exec(s, false);
    let rem = sub_vec(s, k, s.len());
    assert(rem@ =~= s@.skip(k as int));
    assert(s@.subrange(0, k as int) =~= s@.take(k as int));
    let o = match digits_usize_exec(s, 0, k) {
        Some(o) => o,
        None => return Err(bad("Invalid offset: ", s)),
    };
    let mut st = st;
    st.offset = Some(o);
    if rem.len() > 0 && rem[0] == '~' {
        let after = sub_vec(&rem, 1, rem.len());
        assert(after@ =~= rem@.drop_first());
        temporal_exec(st, &after)
    } else if rem.len() > 0 && rem[0] == '@' {
        let after = sub_vec(&rem, 1, rem.len());
        assert(after@ =~= rem@.drop_first());
        match spatial_exec(&after) {
            Ok(p) => {
                st.spatial = Some(p);
                Ok(st)
            },
            Err(e) => Err(e),
        }
    } else {
        Ok(st)
    }
}

fn with_step_exec(st: DocExec, s: &Vec<char>) -> (r: Result<DocExec, EpubError>)
    requires
        with_step(doc_view(st), s@) is Some,
    ensures
        doc_res(r) == with_step(doc_view(st), s@)->Some_0,
{
    if s.len() == 0 {
        return Ok(st);
    }
    match parse_step_exec(s) {
        Ok(step) => {
            let mut st = st;
            let ghost before = doc_view(st);
            st.steps.push(step);
            assert(doc_view(st).steps =~= before.steps.push((step.index, crate::navigation::opt_view(step.id))));
            Ok(st)
        },
        Err(e) => Err(e),
    }
}

fn doc_part_exec(st: DocExec, part: &Vec<char>) -> (r: Result<DocExec, EpubError>)
    requires
        doc_part(doc_view(st), part@) is Some,
    ensures
        doc_res(r) == doc_part(doc_view(st), part@)->Some_0,
{
    let n = part.len();
    let c = index_in(part, ':');
    let t = index_in(part, '~');
    let a = index_in(part, '@');
    let cut = match c {
        Some(i) => i,
        None => match t {
            Some(i) => i,
            None => match a {
                Some(i) => i,
                None => part.len(),
            },
        },
    };
    let head = sub_vec(part, 0, cut);
    assert(head@ =~= part@.take(cut as int));
    let st1 = match with_step_exec(st, &head) {
        Ok(x) => x,
        Err(e) => return Err(e),
    };
    match c {
        Some(i) => {
            let after = sub_vec(part, i + 1, n);
            assert(after@ =~= part@.skip(i + 1));
            offset_exec(st1, &after)
        },
        None => match t {
            Some(i) => {
                let after = sub_vec(part, i + 1, n);
                assert(after@ =~= part@.skip(i + 1));
                temporal_exec(st1, &after)
            },
            None => match a {
                Some(i) => {
                    let after = sub_vec(part, i + 1, n);
                    assert(after@ =~= part@.skip(i + 1));
                    match spatial_exec(&after) {
                        Ok(p) => {
                            let mut st1 = st1;
                            st1.spatial = Some(p);
                            Ok(st1)
                        },
                        Err(e) => Err(e),
                    }
                },
                None => Ok(st1),
            },
        },
    }
}

/// Read a CFI from its characters (see [`spec_parse_cfi`]).
fn parse_cfi_chars(v: &Vec<char>) -> (r: Result<Cfi, EpubError>)
    requires
        spec_parse_cfi(v@) is Some,
    ensures
        match (r, spec_parse_cfi(v@)) {
            (Ok(c), Some(Ok(x))) => cfi_view(c) == x,
            (Err(e), Some(Err(x))) => err_view(e) == x,
            _ => false,
        },
{
    let inner = unwrap_exec(v);
    let parts = split_exec(&inner, '!');
    proof {
        lemma_split_nonempty(inner@, '!');
    }
    if parts.len() > 2 {
        return Err(EpubError::InvalidCfi("Multiple ! separators in CFI".to_owned()));
    }
    let spine_index = match spine_index_exec(&parts[0]) {
        Ok(i) => i,
        Err(e) => return Err(e),
    };
    let mut st = DocExec { steps: Vec::new(), offset: None, temporal: None, spatial: None };
    assert(doc_view(st).steps =~= Seq::<StepV>::empty());
    assert(doc_view(st) == empty_doc());
    proof {
        lemma_views_split(parts@, inner@, '!');
    }
    if parts.len() == 2 {
        let ps = split_exec(&parts[1], '/');
        proof {
            lemma_views_split(ps@, parts@[1]@, '/');
        }
        let segs = nonempty_exec(ps);
        let ghost sv = nonempty(split_on(parts@[1]@, '/'));
        assert(views(segs@) =~= sv);
        assert(spec_parse_cfi(v@) == match doc_run(sv, 0, empty_doc()) {
            None => None,
            Some(Err(e)) => Some(Err(e)),
            Some(Ok(d)) => Some(Ok((spine_index, d))),
        });
        let mut k: usize = 0;
        while k < segs.len()
            invariant
                k <= segs@.len(),
                views(segs@) == sv,
                spec_parse_cfi(v@) == match doc_run(sv, 0, empty_doc()) {
                    None => None,
                    Some(Err(e)) => Some(Err(e)),
                    Some(Ok(d)) => Some(Ok((spine_index, d))),
                },
                doc_run(sv, 0, empty_doc()) is Some,
                doc_run(sv, 0, empty_doc()) == doc_run(sv, k as int, doc_view(st)),
            decreases segs@.len() - k,
        {
            assert(sv[k as int] == segs@[k as int]@);
            st = match doc_part_exec(st, &segs[k]) {
                Ok(x) => x,
                Err(e) => return Err(e),
            };
            k += 1;
        }
    }
    Ok(Cfi {
        spine_index,
        path: st.steps,
        character_offset: st.offset,
        temporal_offset: st.temporal,
        spatial_offset: st.spatial,
    })
}

impl Cfi {
    /// Parse a CFI string (see [`spec_parse_cfi`]). A step whose `]` comes
    /// before its `[` cannot be read, and is not accepted.
    pub fn parse(cfi: &str) -> (r: Result<Cfi, EpubError>)
        requires
            spec_parse_cfi(cfi@) is Some,
        ensures
            match (r, spec_parse_cfi(cfi@)) {
                (Ok(c), Some(Ok(x))) => cfi_view(c) == x,
                (Err(e), Some(Err(x))) => err_view(e) == x,
                _ => false,
            },
    {
        let v = chars_of(cfi);
        parse_cfi_chars(&v)
    }
}

impl CfiRange {
    /// Parse a range CFI string (see [`spec_parse_range`]).
    pub fn parse(s: &str) -> (r: Result<CfiRange, EpubError>)
        requires
            spec_parse_range(s@) is Some,
        ensures
            match (r, spec_parse_range(s@)) {
                (Ok(c), Some(Ok(x))) => cfi_view(c.start) == x.0 && cfi_view(c.end) == x.1,
                (Err(e), Some(Err(x))) => err_view(e) == x,
                _ => false,
            },
    {
        let v = chars_of(s);
        let inner = unwrap_exec(&v);
        let ps = split_exec(&inner, ',');
        if ps.len() != 3 {
            return Err(bad("Not a range CFI (expected 2 commas): ", &v));
        }
        let mut a = Vec::new();
        push_all(&mut a, &ps[0]);
        push_all(&mut a, &ps[1]);
        let mut b = Vec::new();
        push_all(&mut b, &ps[0]);
        push_all(&mut b, &ps[2]);
        let start = match parse_cfi_chars(&a) {
            Ok(c) => c,
            Err(e) => return Err(e),
        };
        let end = match parse_cfi_chars(&b) {
            Ok(c) => c,
            Err(e) => return Err(e),
        };
        Ok(CfiRange { start, end })
    }
}

} // verus!
