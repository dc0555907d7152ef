//! What reading gives back of writing: a CFI written out and read again is
//! the same CFI.

use vstd::prelude::*;

use crate::cfi::{
    cfi_text, decimal, digit_char, offset_text, range_split, range_text, same_step, spatial_text, spine_prefix,
    step_text, steps_text, temporal_text, Cfi, CfiRange, CfiStep, common_prefix_from,
};
use crate::cfi_parse::{
    all_digits, cfi_view, digits_usize, digits_value, doc_part, doc_run, empty_doc, float_ok, is_digit, nonempty,
    offset_then, parse_spatial, parse_step, parse_usize, run_len, spec_parse_cfi, spec_parse_range, spine_index_of, split_on,
    temporal_then, unwrapped, DocSt,
};
use crate::text::{has_prefix, lemma_index_of_absent, lemma_index_of_found};

verus! {

broadcast use vstd::seq::group_seq_axioms;

/// `s` does not hold `c`.
pub open spec fn lacks(s: Seq<char>, c: char) -> bool {
    forall|i: int| 0 <= i < s.len() ==> s[i] != c
}

proof fn lemma_digit_char(d: nat)
    requires
        d < 10,
    ensures
        is_digit(digit_char(d)),
        (digit_char(d) as u32) - ('0' as u32) == d,
{
}

proof fn lemma_decimal(n: nat)
    ensures
        decimal(n).len() > 0,
        all_digits(decimal(n)),
        digits_value(decimal(n)) == n,
    decreases n,
{
    if n < 10 {
        lemma_digit_char(n);
        let s = decimal(n);
        assert(s.drop_last() =~= Seq::<char>::empty());
        assert(digits_value(s.drop_last()) == 0);
        assert(s.last() == digit_char(n));
        assert(digits_value(s) == digits_value(s.drop_last()) * 10 + ((s.last() as u32) - ('0' as u32)) as nat);
    } else {
        lemma_decimal(n / 10);
        lemma_digit_char(n % 10);
        let s = decimal(n);
        assert(s.drop_last() =~= decimal(n / 10));
        assert(s.last() == digit_char(n % 10));
        assert((n / 10) * 10 + n % 10 == n) by (nonlinear_arith);
        assert(digits_value(s) == digits_value(s.drop_last()) * 10 + ((s.last() as u32) - ('0' as u32)) as nat);
        assert(digits_value(s.drop_last()) == n / 10);
        assert(all_digits(s)) by {
            assert forall|i: int| 0 <= i < s.len() implies is_digit(#[trigger] s[i]) by {
                if i < s.len() - 1 {
                    assert(s[i] == decimal(n / 10)[i]);
                }
            }
        }
    }
}

/// A decimal numeral reads back as its value.
proof fn lemma_parse_decimal(n: usize)
    ensures
        parse_usize(decimal(n as nat)) == Some(n),
        digits_usize(decimal(n as nat)) == Some(n),
{
    lemma_decimal(n as nat);
    assert(decimal(n as nat)[0] != '+') by {
        assert(is_digit(decimal(n as nat)[0]));
    }
}

/// Splitting at a separator splits the two sides.
proof fn lemma_split_concat(a: Seq<char>, b: Seq<char>, c: char)
    ensures
        split_on(a + seq![c] + b, c) == split_on(a, c) + split_on(b, c),
    decreases b.len(),
{
    let s = a + seq![c] + b;
    if b.len() == 0 {
        assert(s.drop_last() =~= a);
        assert(split_on(b, c) =~= seq![Seq::<char>::empty()]);
        assert(split_on(s, c) =~= split_on(a, c) + split_on(b, c));
    } else {
        let b1 = b.drop_last();
        assert(s.drop_last() =~= a + seq![c] + b1);
        lemma_split_concat(a, b1, c);
        lemma_split_len(b1, c);
        let p = split_on(s.drop_last(), c);
        let q = split_on(b1, c);
        if b.last() == c {
            assert(split_on(s, c) =~= split_on(a, c) + split_on(b, c));
        } else {
            assert(p =~= split_on(a, c) + q);
            assert(p.update(p.len() - 1, p.last().push(s.last())) =~= split_on(a, c) + q.update(
                q.len() - 1,
                q.last().push(b.last()),
            ));
        }
    }
}

proof fn lemma_split_len(s: Seq<char>, c: char)
    ensures
        split_on(s, c).len() >= 1,
    decreases s.len(),
{
    if s.len() > 0 {
        lemma_split_len(s.drop_last(), c);
    }
}

/// Without the separator there is one part, the whole.
proof fn lemma_split_none(s: Seq<char>, c: char)
    requires
        lacks(s, c),
    ensures
        split_on(s, c) == seq![s],
    decreases s.len(),
{
    if s.len() > 0 {
        lemma_split_none(s.drop_last(), c);
        assert(s.drop_last().push(s.last()) =~= s);
        let p = split_on(s.drop_last(), c);
        assert(s.last() != c);
        assert(p.update(p.len() - 1, p.last().push(s.last())) =~= seq![s]);
    } else {
        assert(s =~= Seq::<char>::empty());
    }
}

/// The digits (and dots) at the start of `a` run to its end when `b` does
/// not go on with one.
proof fn lemma_run_len(a: Seq<char>, b: Seq<char>, dots: bool, k: int)
    requires
        0 <= k <= a.len(),
        forall|i: int| k <= i < a.len() ==> is_digit(#[trigger] a[i]) || (dots && a[i] == '.'),
        b.len() > 0 ==> !(is_digit(b[0]) || (dots && b[0] == '.')),
    ensures
        run_len(a + b, dots, k) == a.len(),
    decreases a.len() - k,
{
    let s = a + b;
    if k < a.len() {
        assert(s[k] == a[k]);
        lemma_run_len(a, b, dots, k + 1);
    } else {
        if b.len() > 0 {
            assert(s[k] == b[0]);
        }
    }
}


/// A step without its leading `/`: `index` or `index[id]`.
pub open spec fn step_body(s: CfiStep) -> Seq<char> {
    decimal(s.index as nat) + match s.id {
        Some(id) => seq!['['] + id@ + seq![']'],
        None => Seq::<char>::empty(),
    }
}

/// The bodies of the steps.
pub open spec fn step_bodies(path: Seq<CfiStep>) -> Seq<Seq<char>> {
    Seq::new(path.len(), |i: int| step_body(path[i]))
}

/// The steps as a CFI reads them.
pub open spec fn step_views(path: Seq<CfiStep>) -> Seq<(usize, Option<Seq<char>>)> {
    Seq::new(path.len(), |i: int| (path[i].index, crate::navigation::opt_view(path[i].id)))
}

/// The ID assertion of a step, if any, does not hold `c`.
pub open spec fn id_lacks(s: CfiStep, c: char) -> bool {
    match s.id {
        Some(id) => lacks(id@, c),
        None => true,
    }
}

/// The ID assertions of the steps do not hold `c`.
pub open spec fn ids_lack(path: Seq<CfiStep>, c: char) -> bool {
    forall|i: int| 0 <= i < path.len() ==> id_lacks(#[trigger] path[i], c)
}

proof fn lemma_decimal_lacks(n: nat, c: char)
    requires
        !is_digit(c),
    ensures
        lacks(decimal(n), c),
{
    lemma_decimal(n);
    assert forall|i: int| 0 <= i < decimal(n).len() implies decimal(n)[i] != c by {
        assert(is_digit(decimal(n)[i]));
    }
}

proof fn lemma_body_lacks(s: CfiStep, c: char)
    requires
        !is_digit(c),
        c != '[',
        c != ']',
        id_lacks(s, c),
    ensures
        lacks(step_body(s), c),
{
    lemma_decimal_lacks(s.index as nat, c);
    let b = step_body(s);
    let d = decimal(s.index as nat);
    assert forall|i: int| 0 <= i < b.len() implies b[i] != c by {
        if i >= d.len() {
            match s.id {
                Some(id) => {
                    if i > d.len() && i < b.len() - 1 {
                        assert(b[i] == id@[i - d.len() - 1]);
                    }
                },
                None => {},
            }
        } else {
            assert(b[i] == d[i]);
        }
    }
}

proof fn lemma_steps_lack(path: Seq<CfiStep>, c: char)
    requires
        !is_digit(c),
        c != '[',
        c != ']',
        c != '/',
        ids_lack(path, c),
    ensures
        lacks(steps_text(path), c),
    decreases path.len(),
{
    if path.len() > 0 {
        let p1 = path.drop_last();
        assert(ids_lack(p1, c)) by {
            assert forall|i: int| 0 <= i < p1.len() implies id_lacks(#[trigger] p1[i], c) by {
                assert(p1[i] == path[i]);
            }
        }
        lemma_steps_lack(p1, c);
        assert(path[path.len() - 1] == path.last());
        lemma_body_lacks(path.last(), c);
        let a = steps_text(p1);
        let b = step_text(path.last());
        assert(b =~= seq!['/'] + step_body(path.last()));
        assert forall|i: int| 0 <= i < (a + b).len() implies (a + b)[i] != c by {
            if i < a.len() {
                assert((a + b)[i] == a[i]);
            } else if i > a.len() {
                assert((a + b)[i] == step_body(path.last())[i - a.len() - 1]);
            }
        }
    }
}

proof fn lemma_nonempty_push(ps: Seq<Seq<char>>, y: Seq<char>)
    requires
        y.len() > 0,
    ensures
        nonempty(ps.push(y)) == nonempty(ps).push(y),
{
    assert(ps.push(y).drop_last() =~= ps);
}

/// The `/`-separated parts of a document path: the step bodies, the last
/// one followed by the offsets.
proof fn lemma_split_steps(path: Seq<CfiStep>, e: Seq<char>)
    requires
        ids_lack(path, '/'),
        lacks(e, '/'),
    ensures
        nonempty(split_on(steps_text(path) + e, '/')) == if path.len() == 0 {
            if e.len() > 0 {
                seq![e]
            } else {
                Seq::<Seq<char>>::empty()
            }
        } else {
            step_bodies(path.drop_last()).push(step_body(path.last()) + e)
        },
    decreases path.len(),
{
    if path.len() == 0 {
        assert(steps_text(path) + e =~= e);
        lemma_split_none(e, '/');
        if e.len() == 0 {
            assert(nonempty(seq![e]) =~= Seq::<Seq<char>>::empty()) by {
                assert(seq![e].drop_last() =~= Seq::<Seq<char>>::empty());
                assert(seq![e].last() == e);
                assert(nonempty(Seq::<Seq<char>>::empty()) =~= Seq::<Seq<char>>::empty());
            }
        } else {
            assert(seq![e] =~= Seq::<Seq<char>>::empty().push(e));
            lemma_nonempty_push(Seq::<Seq<char>>::empty(), e);
        }
    } else {
        let p1 = path.drop_last();
        let last = path.last();
        assert(ids_lack(p1, '/')) by {
            assert forall|i: int| 0 <= i < p1.len() implies id_lacks(#[trigger] p1[i], '/') by {
                assert(p1[i] == path[i]);
            }
        }
        assert(path[path.len() - 1] == last);
        lemma_body_lacks(last, '/');
        lemma_split_steps(p1, Seq::<char>::empty());
        assert(steps_text(p1) + Seq::<char>::empty() =~= steps_text(p1));
        let y = step_body(last) + e;
        assert(lacks(y, '/')) by {
            assert forall|i: int| 0 <= i < y.len() implies y[i] != '/' by {
                if i < step_body(last).len() {
                    assert(y[i] == step_body(last)[i]);
                } else {
                    assert(y[i] == e[i - step_body(last).len()]);
                }
            }
        }
        assert(steps_text(path) + e =~= steps_text(p1) + seq!['/'] + y);
        lemma_split_concat(steps_text(p1), y, '/');
        lemma_split_none(y, '/');
        assert(split_on(steps_text(p1), '/') + split_on(y, '/') =~= split_on(steps_text(p1), '/').push(y));
        lemma_decimal(last.index as nat);
        lemma_nonempty_push(split_on(steps_text(p1), '/'), y);
        assert(nonempty(split_on(steps_text(p1), '/')) =~= step_bodies(p1)) by {
            if p1.len() > 0 {
                assert(p1.drop_last().len() + 1 == p1.len());
                assert(step_bodies(p1.drop_last()).push(step_body(p1.last()) + Seq::<char>::empty()) =~= step_bodies(p1)) by {
                    assert(step_body(p1.last()) + Seq::<char>::empty() =~= step_body(p1.last()));
                    assert(p1[p1.len() - 1] == p1.last());
                }
            }
        }
        assert(step_bodies(p1) == step_bodies(path.drop_last()));
    }
}


/// A step reads back as itself.
proof fn lemma_parse_step(s: CfiStep)
    requires
        id_lacks(s, '['),
        id_lacks(s, ']'),
    ensures
        parse_step(step_body(s)) == Some(Ok::<(usize, Option<Seq<char>>), crate::error::ErrView>((s.index, crate::navigation::opt_view(s.id)))),
{
    let d = decimal(s.index as nat);
    let b = step_body(s);
    lemma_decimal_lacks(s.index as nat, '[');
    lemma_decimal_lacks(s.index as nat, ']');
    lemma_parse_decimal(s.index);
    match s.id {
        Some(id) => {
            let v = id@;
            assert(b =~= d + seq!['['] + v + seq![']']);
            assert forall|j: int| 0 <= j < d.len() implies b[j] != '[' by {
                assert(b[j] == d[j]);
            }
            assert(b[d.len() as int] == '[');
            lemma_index_of_found(b, '[', d.len() as int);
            let e: int = (d.len() + 1 + v.len()) as int;
            assert forall|j: int| 0 <= j < e implies b[j] != ']' by {
                if j < d.len() {
                    assert(b[j] == d[j]);
                } else if j > d.len() {
                    assert(b[j] == v[j - d.len() - 1]);
                }
            }
            assert(b[e] == ']');
            lemma_index_of_found(b, ']', e);
            assert(b.subrange(d.len() + 1int, e) =~= v);
            assert(b.take(d.len() as int) =~= d);
        },
        None => {
            assert(b =~= d);
            lemma_index_of_absent(b, '[');
            lemma_index_of_absent(b, ']');
        },
    }
}

/// A step part of a document path adds the step.
proof fn lemma_doc_part_step(st: DocSt, s: CfiStep)
    requires
        id_lacks(s, '['),
        id_lacks(s, ']'),
        id_lacks(s, ':'),
        id_lacks(s, '~'),
        id_lacks(s, '@'),
    ensures
        doc_part(st, step_body(s)) == Some(Ok::<DocSt, crate::error::ErrView>(DocSt { steps: st.steps.push((s.index, crate::navigation::opt_view(s.id))), ..st })),
{
    let b = step_body(s);
    lemma_body_lacks(s, ':');
    lemma_body_lacks(s, '~');
    lemma_body_lacks(s, '@');
    lemma_index_of_absent(b, ':');
    lemma_index_of_absent(b, '~');
    lemma_index_of_absent(b, '@');
    assert(b.take(b.len() as int) =~= b);
    lemma_decimal(s.index as nat);
    lemma_parse_step(s);
}


/// Only digits and dots.
pub open spec fn digits_and_dots(s: Seq<char>) -> bool {
    forall|i: int| 0 <= i < s.len() ==> is_digit(#[trigger] s[i]) || s[i] == '.'
}

/// The offsets after the last step.
pub open spec fn tail_text(c: Cfi) -> Seq<char> {
    offset_text(c.character_offset) + temporal_text(c.temporal_offset) + spatial_text(c.spatial_offset)
}

/// The spatial offset as a CFI reads it.
pub open spec fn spatial_view(p: Option<(String, String)>) -> Option<(Seq<char>, Seq<char>)> {
    match p {
        Some(xy) => Some((xy.0@, xy.1@)),
        None => None,
    }
}

/// What the offsets give on top of `st`.
pub open spec fn with_tail(c: Cfi, st: DocSt) -> DocSt {
    DocSt {
        offset: c.character_offset,
        temporal: crate::navigation::opt_view(c.temporal_offset),
        spatial: spatial_view(c.spatial_offset),
        ..st
    }
}

/// Offsets that read back as themselves: a temporal offset of digits and
/// dots that is a number; a spatial offset of two numbers, after a
/// character offset.
pub open spec fn tail_ok(c: Cfi) -> bool {
    &&& (c.temporal_offset matches Some(t) ==> digits_and_dots(t@) && float_ok(t@))
    &&& (c.spatial_offset matches Some(xy) ==> float_ok(xy.0@) && float_ok(xy.1@) && lacks(xy.0@, ':')
        && lacks(xy.1@, ':'))
    &&& (c.spatial_offset is Some ==> c.character_offset is Some)
}

proof fn lemma_parse_spatial(x: Seq<char>, y: Seq<char>)
    requires
        float_ok(x),
        float_ok(y),
        lacks(x, ':'),
        lacks(y, ':'),
    ensures
        parse_spatial(x + seq![':'] + y) == Ok::<(Seq<char>, Seq<char>), crate::error::ErrView>((x, y)),
{
    lemma_split_concat(x, y, ':');
    lemma_split_none(x, ':');
    lemma_split_none(y, ':');
    assert(split_on(x + seq![':'] + y, ':') =~= seq![x, y]);
}

proof fn lemma_temporal_then(c: Cfi, st: DocSt)
    requires
        tail_ok(c),
        c.temporal_offset is Some,
        st.spatial is None,
    ensures
        temporal_then(st, c.temporal_offset->Some_0@ + spatial_text(c.spatial_offset)) == Ok::<DocSt, crate::error::ErrView>(
            DocSt {
                temporal: crate::navigation::opt_view(c.temporal_offset),
                spatial: spatial_view(c.spatial_offset),
                ..st
            },
        ),
{
    let t = c.temporal_offset->Some_0@;
    let sp = spatial_text(c.spatial_offset);
    let s = t + sp;
    lemma_run_len(t, sp, true, 0);
    assert(s.take(t.len() as int) =~= t);
    assert(s.skip(t.len() as int) =~= sp);
    match c.spatial_offset {
        Some(xy) => {
            assert(sp.drop_first() =~= xy.0@ + seq![':'] + xy.1@);
            lemma_parse_spatial(xy.0@, xy.1@);
        },
        None => {},
    }
}

proof fn lemma_offset_then(c: Cfi, st: DocSt)
    requires
        tail_ok(c),
        c.character_offset is Some,
        st.temporal is None,
        st.spatial is None,
    ensures
        offset_then(st, tail_text(c).drop_first()) == Ok::<DocSt, crate::error::ErrView>(with_tail(c, st)),
{
    let o = c.character_offset->Some_0;
    let d = decimal(o as nat);
    let rest = temporal_text(c.temporal_offset) + spatial_text(c.spatial_offset);
    let s = tail_text(c).drop_first();
    assert(s =~= d + rest);
    lemma_decimal(o as nat);
    assert forall|i: int| 0 <= i < d.len() implies is_digit(#[trigger] d[i]) || (false && d[i] == '.') by {}
    lemma_run_len(d, rest, false, 0);
    assert(s.take(d.len() as int) =~= d);
    assert(s.skip(d.len() as int) =~= rest);
    lemma_parse_decimal(o);
    let st2 = DocSt { offset: Some(o), ..st };
    match c.temporal_offset {
        Some(t) => {
            assert(rest.drop_first() =~= t@ + spatial_text(c.spatial_offset));
            lemma_temporal_then(c, st2);
        },
        None => {
            assert(rest =~= spatial_text(c.spatial_offset));
            match c.spatial_offset {
                Some(xy) => {
                    assert(rest.drop_first() =~= xy.0@ + seq![':'] + xy.1@);
                    lemma_parse_spatial(xy.0@, xy.1@);
                },
                None => {},
            }
        },
    }
}


proof fn lemma_digits_dots_lack(t: Seq<char>, ch: char)
    requires
        digits_and_dots(t),
        !is_digit(ch),
        ch != '.',
    ensures
        lacks(t, ch),
{
    assert forall|i: int| 0 <= i < t.len() implies t[i] != ch by {
        assert(is_digit(t[i]) || t[i] == '.');
    }
}

/// A step followed by offsets that start with a character offset, or by
/// none at all: `st` before it, the step with its offsets after it.
proof fn lemma_doc_part_last(st: DocSt, c: Cfi, s: CfiStep)
    requires
        tail_ok(c),
        st.offset is None,
        st.temporal is None,
        st.spatial is None,
        id_lacks(s, '['),
        id_lacks(s, ']'),
        id_lacks(s, ':'),
        id_lacks(s, '~'),
        id_lacks(s, '@'),
    ensures
        doc_part(st, step_body(s) + tail_text(c)) == Some(Ok::<DocSt, crate::error::ErrView>(
            with_tail(c, DocSt { steps: st.steps.push((s.index, crate::navigation::opt_view(s.id))), ..st }),
        )),
{
    let b = step_body(s);
    let tl = tail_text(c);
    let part = b + tl;
    let st1 = DocSt { steps: st.steps.push((s.index, crate::navigation::opt_view(s.id))), ..st };
    lemma_body_lacks(s, ':');
    lemma_body_lacks(s, '~');
    lemma_body_lacks(s, '@');
    lemma_decimal(s.index as nat);
    lemma_parse_step(s);
    assert(part.take(b.len() as int) =~= b);
    assert forall|j: int| 0 <= j < b.len() implies part[j] != ':' && part[j] != '~' && part[j] != '@' by {
        assert(part[j] == b[j]);
    }
    match c.character_offset {
        Some(o) => {
            assert(part[b.len() as int] == ':');
            lemma_index_of_found(part, ':', b.len() as int);
            assert(part.skip(b.len() + 1int) =~= tl.drop_first());
            lemma_offset_then(c, st1);
        },
        None => {
            match c.temporal_offset {
                Some(t) => {
                    assert(c.spatial_offset is None);
                    assert(tl =~= seq!['~'] + t@);
                    lemma_digits_dots_lack(t@, ':');
                    assert forall|j: int| 0 <= j < part.len() implies part[j] != ':' by {
                        if j > b.len() {
                            assert(part[j] == t@[j - b.len() - 1]);
                        }
                    }
                    lemma_index_of_absent(part, ':');
                    assert(part[b.len() as int] == '~');
                    lemma_index_of_found(part, '~', b.len() as int);
                    assert(part.skip(b.len() + 1int) =~= t@ + spatial_text(c.spatial_offset));
                    lemma_temporal_then(c, st1);
                },
                None => {
                    assert(c.spatial_offset is None);
                    assert(tl =~= Seq::<char>::empty());
                    assert(part =~= b);
                    lemma_doc_part_step(st, s);
                },
            }
        },
    }
}

/// Offsets alone, starting with a character offset.
proof fn lemma_doc_part_tail(st: DocSt, c: Cfi)
    requires
        tail_ok(c),
        c.character_offset is Some,
        st.temporal is None,
        st.spatial is None,
    ensures
        doc_part(st, tail_text(c)) == Some(Ok::<DocSt, crate::error::ErrView>(with_tail(c, st))),
{
    let tl = tail_text(c);
    assert(tl[0] == ':');
    lemma_index_of_found(tl, ':', 0);
    assert(tl.take(0) =~= Seq::<char>::empty());
    assert(tl.skip(1) =~= tl.drop_first());
    lemma_offset_then(c, st);
}


/// The state after the first `k` steps.
pub open spec fn steps_state(path: Seq<CfiStep>, k: int) -> DocSt {
    DocSt { steps: step_views(path.take(k)), offset: None, temporal: None, spatial: None }
}

/// Steps whose ID assertions hold none of the CFI punctuation.
pub open spec fn plain_ids(path: Seq<CfiStep>) -> bool {
    &&& ids_lack(path, '/')
    &&& ids_lack(path, '!')
    &&& ids_lack(path, '[')
    &&& ids_lack(path, ']')
    &&& ids_lack(path, ':')
    &&& ids_lack(path, '~')
    &&& ids_lack(path, '@')
}

proof fn lemma_doc_run_steps(ps: Seq<Seq<char>>, path: Seq<CfiStep>, k: int)
    requires
        plain_ids(path),
        path.len() > 0,
        ps.len() == path.len(),
        0 <= k <= path.len() - 1,
        forall|i: int| 0 <= i < path.len() - 1 ==> ps[i] == step_body(path[i]),
    ensures
        doc_run(ps, k, steps_state(path, k)) == doc_run(ps, path.len() - 1, steps_state(path, path.len() - 1)),
    decreases path.len() - 1 - k,
{
    if k < path.len() - 1 {
        let s = path[k];
        lemma_doc_part_step(steps_state(path, k), s);
        assert(steps_state(path, k).steps.push((s.index, crate::navigation::opt_view(s.id))) =~= steps_state(path, k + 1).steps);
        lemma_doc_run_steps(ps, path, k + 1);
    }
}

/// A number that reads back as itself between the other parts of a CFI.
pub open spec fn plain_number(s: Seq<char>) -> bool {
    float_ok(s) && lacks(s, ':') && lacks(s, '/') && lacks(s, '!')
}

/// A CFI whose text reads back as itself: its spine step fits a `usize`,
/// its ID assertions hold no CFI punctuation, a temporal offset is digits
/// and dots forming a number, a spatial offset is two numbers and comes
/// after a character offset, and the offsets of a CFI without a document
/// path come after a character offset.
pub open spec fn reads_back(c: Cfi) -> bool {
    &&& (c.spine_index + 1) * 2 <= usize::MAX
    &&& plain_ids(c.path@)
    &&& (c.temporal_offset matches Some(t) ==> digits_and_dots(t@) && float_ok(t@))
    &&& (c.spatial_offset matches Some(xy) ==> plain_number(xy.0@) && plain_number(xy.1@))
    &&& (c.spatial_offset is Some ==> c.character_offset is Some)
    &&& (c.path@.len() == 0 && c.character_offset is None ==> c.temporal_offset is None && c.spatial_offset is None)
}

proof fn lemma_tail_lacks(c: Cfi, ch: char)
    requires
        reads_back(c),
        ch == '/' || ch == '!',
    ensures
        lacks(tail_text(c), ch),
{
    let o = offset_text(c.character_offset);
    let t = temporal_text(c.temporal_offset);
    let sp = spatial_text(c.spatial_offset);
    match c.character_offset {
        Some(n) => {
            lemma_decimal_lacks(n as nat, ch);
        },
        None => {},
    }
    match c.temporal_offset {
        Some(x) => {
            lemma_digits_dots_lack(x@, ch);
        },
        None => {},
    }
    let tl = tail_text(c);
    assert forall|i: int| 0 <= i < tl.len() implies tl[i] != ch by {
        if i < o.len() {
            assert(tl[i] == o[i]);
            if i > 0 {
                assert(o[i] == decimal(c.character_offset->Some_0 as nat)[i - 1]);
            }
        } else if i < o.len() + t.len() {
            assert(tl[i] == t[i - o.len()]);
            if i > o.len() {
                assert(t[i - o.len()] == c.temporal_offset->Some_0@[i - o.len() - 1]);
            }
        } else {
            let j = i - o.len() - t.len();
            assert(tl[i] == sp[j]);
            match c.spatial_offset {
                Some(xy) => {
                    let x = xy.0@;
                    let y = xy.1@;
                    assert(sp =~= seq!['@'] + x + seq![':'] + y);
                    if 0 < j <= x.len() {
                        assert(sp[j] == x[j - 1]);
                    } else if j > x.len() + 1 {
                        assert(sp[j] == y[j - x.len() - 2]);
                    }
                },
                None => {},
            }
        }
    }
}

/// The spine path `/6/N` of spine item `si`.
pub open spec fn spine_path(si: usize) -> Seq<char> {
    seq!['/', '6', '/'] + decimal(((si + 1) * 2) as nat)
}

/// The document path of a CFI: its steps and offsets.
pub open spec fn doc_path(c: Cfi) -> Seq<char> {
    steps_text(c.path@) + tail_text(c)
}

/// Whether a CFI's text has a document path.
pub open spec fn has_doc(c: Cfi) -> bool {
    c.path@.len() > 0 || c.character_offset is Some
}

proof fn lemma_spine_path(si: usize)
    requires
        (si + 1) * 2 <= usize::MAX,
    ensures
        spine_index_of(spine_path(si)) == Ok::<usize, crate::error::ErrView>(si),
        lacks(spine_path(si), '!'),
{
    let n: nat = ((si + 1) * 2) as nat;
    let dec = decimal(n);
    let pp = spine_path(si);
    lemma_decimal(n);
    lemma_decimal_lacks(n, '/');
    lemma_decimal_lacks(n, '!');
    lemma_decimal_lacks(n, '[');
    assert forall|i: int| 0 <= i < pp.len() implies pp[i] != '!' by {
        if i >= 3 {
            assert(pp[i] == dec[i - 3]);
        }
    }
    lemma_split_concat(seq!['6'], dec, '/');
    lemma_split_none(seq!['6'], '/');
    lemma_split_none(dec, '/');
    lemma_split_concat(Seq::<char>::empty(), seq!['6', '/'] + dec, '/');
    assert(Seq::<char>::empty() + seq!['/'] + (seq!['6', '/'] + dec) =~= pp);
    assert(seq!['6'] + seq!['/'] + dec =~= seq!['6', '/'] + dec);
    let sp = split_on(pp, '/');
    assert(split_on(Seq::<char>::empty(), '/') =~= seq![Seq::<char>::empty()]);
    assert(sp =~= seq![Seq::<char>::empty(), seq!['6'], dec]);
    assert(nonempty(sp) =~= seq![seq!['6'], dec]) by {
        let s2 = seq![Seq::<char>::empty(), seq!['6']];
        let s1 = seq![Seq::<char>::empty()];
        assert(sp.drop_last() =~= s2);
        assert(s2.drop_last() =~= s1);
        assert(s1.drop_last() =~= Seq::<Seq<char>>::empty());
        assert(s1.last().len() == 0);
        assert(nonempty(Seq::<Seq<char>>::empty()) =~= Seq::<Seq<char>>::empty());
        assert(nonempty(s1) =~= Seq::<Seq<char>>::empty());
        assert(s2.last() == seq!['6']);
        assert(s2.last().len() > 0);
        assert(nonempty(s2) == nonempty(s1).push(seq!['6']));
        assert(nonempty(s2) =~= seq![seq!['6']]);
        assert(sp.last() == dec);
        assert(sp.last().len() > 0);
        assert(nonempty(sp) == nonempty(s2).push(dec));
    }
    lemma_index_of_absent(dec, '[');
    lemma_parse_decimal(((si + 1) * 2) as usize);
    assert(n >= 2 && n % 2 == 0 && n / 2 - 1 == si) by (nonlinear_arith)
        requires
            n == (si + 1) * 2,
    ;
}

proof fn lemma_unwrapped(c: Cfi)
    ensures
        unwrapped(cfi_text(c)) == spine_path(c.spine_index) + if has_doc(c) {
            seq!['!'] + doc_path(c)
        } else {
            Seq::<char>::empty()
        },
{
    reveal_strlit("epubcfi(/6/");
    reveal_strlit("epubcfi(");
    let w = seq!['e', 'p', 'u', 'b', 'c', 'f', 'i', '('];
    let pp = spine_path(c.spine_index);
    let d = if has_doc(c) {
        seq!['!'] + doc_path(c)
    } else {
        Seq::<char>::empty()
    };
    let t = cfi_text(c);
    assert(spine_prefix(c.spine_index as nat) =~= w + pp);
    assert(t =~= w + pp + d + seq![')']) by {
        assert(steps_text(c.path@) + offset_text(c.character_offset) + temporal_text(c.temporal_offset)
            + spatial_text(c.spatial_offset) =~= doc_path(c));
    }
    assert("epubcfi("@ =~= w);
    assert(t.take(8) =~= w);
    assert(unwrapped(t) =~= pp + d);
}

proof fn lemma_doc_run_all(c: Cfi)
    requires
        reads_back(c),
        has_doc(c),
    ensures
        doc_run(nonempty(split_on(doc_path(c), '/')), 0, empty_doc()) == Some(
            Ok::<DocSt, crate::error::ErrView>(cfi_view(c).1),
        ),
{
    let path = c.path@;
    let tl = tail_text(c);
    lemma_tail_lacks(c, '/');
    lemma_split_steps(path, tl);
    let ps = nonempty(split_on(doc_path(c), '/'));
    let fin = with_tail(c, DocSt { steps: step_views(path), offset: None, temporal: None, spatial: None });
    assert(fin =~= cfi_view(c).1);
    if path.len() == 0 {
        assert(tl.len() > 0);
        assert(ps == seq![tl]);
        lemma_doc_part_tail(empty_doc(), c);
        assert(step_views(path) =~= Seq::<(usize, Option<Seq<char>>)>::empty());
        assert(doc_run(ps, 1, with_tail(c, empty_doc())) == Some(Ok::<DocSt, crate::error::ErrView>(with_tail(c, empty_doc()))));
    } else {
        let last = path.last();
        let m = path.len() - 1;
        assert(ps.len() == path.len());
        assert forall|i: int| 0 <= i < path.len() - 1 implies ps[i] == step_body(path[i]) by {
            assert(path.drop_last()[i] == path[i]);
        }
        lemma_doc_run_steps(ps, path, 0);
        assert(steps_state(path, 0) =~= empty_doc()) by {
            assert(step_views(path.take(0)) =~= Seq::<(usize, Option<Seq<char>>)>::empty());
        }
        let stm = steps_state(path, m);
        assert(path[m] == last);
        assert(id_lacks(last, '[') && id_lacks(last, ']') && id_lacks(last, ':') && id_lacks(last, '~') && id_lacks(last, '@'));
        lemma_doc_part_last(stm, c, last);
        assert(stm.steps.push((last.index, crate::navigation::opt_view(last.id))) =~= step_views(path)) by {
            assert(path.take(m) =~= path.drop_last());
        }
        let stn = with_tail(c, DocSt { steps: stm.steps.push((last.index, crate::navigation::opt_view(last.id))), ..stm });
        assert(stn == fin);
        assert(doc_run(ps, path.len() as int, stn) == Some(Ok::<DocSt, crate::error::ErrView>(stn)));
    }
}

/// Written out and read again, a CFI is the same CFI.
pub proof fn law_cfi_text_reads_back(c: Cfi)
    requires
        reads_back(c),
    ensures
        spec_parse_cfi(cfi_text(c)) == Some(Ok::<(usize, DocSt), crate::error::ErrView>(cfi_view(c))),
{
    let pp = spine_path(c.spine_index);
    lemma_unwrapped(c);
    lemma_spine_path(c.spine_index);
    lemma_split_none(pp, '!');
    if !has_doc(c) {
        assert(unwrapped(cfi_text(c)) =~= pp);
        assert(cfi_view(c).1 =~= empty_doc()) by {
            assert(cfi_view(c).1.steps =~= Seq::<(usize, Option<Seq<char>>)>::empty());
        }
    } else {
        let r = doc_path(c);
        lemma_tail_lacks(c, '!');
        lemma_steps_lack(c.path@, '!');
        assert(lacks(r, '!')) by {
            let st = steps_text(c.path@);
            assert forall|i: int| 0 <= i < r.len() implies r[i] != '!' by {
                if i < st.len() {
                    assert(r[i] == st[i]);
                } else {
                    assert(r[i] == tail_text(c)[i - st.len()]);
                }
            }
        }
        assert(pp + (seq!['!'] + r) =~= pp + seq!['!'] + r);
        lemma_split_concat(pp, r, '!');
        lemma_split_none(r, '!');
        assert(split_on(unwrapped(cfi_text(c)), '!') =~= seq![pp, r]);
        lemma_doc_run_all(c);
    }
}


/// A spine path, `!` and a document path read as the CFI they come from.
proof fn lemma_parse_bang(c: Cfi)
    requires
        reads_back(c),
    ensures
        spec_parse_cfi(spine_path(c.spine_index) + seq!['!'] + doc_path(c)) == Some(
            Ok::<(usize, DocSt), crate::error::ErrView>(cfi_view(c)),
        ),
{
    reveal_strlit("epubcfi(");
    let pp = spine_path(c.spine_index);
    let r = doc_path(c);
    let s = pp + seq!['!'] + r;
    assert(s[0] == '/');
    assert("epubcfi("@[0] == 'e');
    assert(!has_prefix(s, "epubcfi("@));
    assert(unwrapped(s) == s);
    lemma_spine_path(c.spine_index);
    lemma_split_none(pp, '!');
    lemma_tail_lacks(c, '!');
    lemma_steps_lack(c.path@, '!');
    assert(lacks(r, '!')) by {
        let st = steps_text(c.path@);
        assert forall|i: int| 0 <= i < r.len() implies r[i] != '!' by {
            if i < st.len() {
                assert(r[i] == st[i]);
            } else {
                assert(r[i] == tail_text(c)[i - st.len()]);
            }
        }
    }
    lemma_split_concat(pp, r, '!');
    lemma_split_none(r, '!');
    assert(split_on(s, '!') =~= seq![pp, r]);
    if has_doc(c) {
        lemma_doc_run_all(c);
    } else {
        assert(r =~= Seq::<char>::empty());
        assert(split_on(r, '/') =~= seq![Seq::<char>::empty()]);
        assert(nonempty(split_on(r, '/')) =~= Seq::<Seq<char>>::empty()) by {
            let one = seq![Seq::<char>::empty()];
            assert(one.drop_last() =~= Seq::<Seq<char>>::empty());
            assert(one.last().len() == 0);
            assert(nonempty(Seq::<Seq<char>>::empty()) =~= Seq::<Seq<char>>::empty());
        }
        assert(cfi_view(c).1 =~= empty_doc()) by {
            assert(cfi_view(c).1.steps =~= Seq::<(usize, Option<Seq<char>>)>::empty());
        }
    }
}

proof fn lemma_steps_split(x: Seq<CfiStep>, l: int)
    requires
        0 <= l <= x.len(),
    ensures
        steps_text(x.take(l)) + steps_text(x.skip(l)) == steps_text(x),
    decreases x.len(),
{
    if l == x.len() {
        assert(x.take(l) =~= x);
        assert(x.skip(l) =~= Seq::<CfiStep>::empty());
        assert(steps_text(x) + Seq::<char>::empty() =~= steps_text(x));
    } else {
        let x1 = x.drop_last();
        lemma_steps_split(x1, l);
        assert(x1.take(l) =~= x.take(l));
        assert(x.skip(l).drop_last() =~= x1.skip(l));
        assert(x.skip(l).last() == x.last());
        assert(steps_text(x.take(l)) + steps_text(x.skip(l)) =~= steps_text(x));
    }
}

proof fn lemma_steps_same(s: Seq<CfiStep>, e: Seq<CfiStep>, l: int)
    requires
        0 <= l <= s.len(),
        l <= e.len(),
        forall|i: int| 0 <= i < l ==> same_step(#[trigger] s[i], e[i]),
    ensures
        steps_text(s.take(l)) == steps_text(e.take(l)),
    decreases l,
{
    if l > 0 {
        lemma_steps_same(s, e, l - 1);
        assert(s.take(l).drop_last() =~= s.take(l - 1));
        assert(e.take(l).drop_last() =~= e.take(l - 1));
        assert(same_step(s[l - 1], e[l - 1]));
        assert(step_text(s[l - 1]) == step_text(e[l - 1]));
    }
}

proof fn lemma_common_prefix_same(s: Seq<CfiStep>, e: Seq<CfiStep>, k: int, i: int)
    requires
        0 <= k <= i < common_prefix_from(s, e, k),
    ensures
        i < s.len() && i < e.len() && same_step(s[i], e[i]),
    decreases s.len() - k,
{
    if i > k {
        lemma_common_prefix_same(s, e, k + 1, i);
    }
}

/// One end of a range that reads back: a CFI without temporal or spatial
/// offsets (the range text has none) that reads back and whose ID
/// assertions hold no `,`.
pub open spec fn range_end_reads_back(c: Cfi) -> bool {
    &&& reads_back(c)
    &&& c.temporal_offset is None
    &&& c.spatial_offset is None
    &&& ids_lack(c.path@, ',')
}

proof fn lemma_lacks_concat(a: Seq<char>, b: Seq<char>, ch: char)
    requires
        lacks(a, ch),
        lacks(b, ch),
    ensures
        lacks(a + b, ch),
{
    assert forall|i: int| 0 <= i < (a + b).len() implies (a + b)[i] != ch by {
        if i < a.len() {
            assert((a + b)[i] == a[i]);
        } else {
            assert((a + b)[i] == b[i - a.len()]);
        }
    }
}

proof fn lemma_ids_lack_sub(x: Seq<CfiStep>, y: Seq<CfiStep>, ch: char)
    requires
        ids_lack(x, ch),
        forall|i: int| 0 <= i < y.len() ==> exists|j: int| 0 <= j < x.len() && #[trigger] y[i] == x[j],
    ensures
        ids_lack(y, ch),
{
    assert forall|i: int| 0 <= i < y.len() implies id_lacks(#[trigger] y[i], ch) by {
        let j = choose|j: int| 0 <= j < x.len() && y[i] == x[j];
        assert(id_lacks(x[j], ch));
    }
}

/// The parent part of a range's text: spine path, `!` and the shared steps.
pub open spec fn range_parent(r: CfiRange) -> Seq<char> {
    spine_path(r.start.spine_index) + seq!['!'] + steps_text(r.start.path@.take(range_split(r.start.path@, r.end.path@)))
}

/// The start's own part of a range's text.
pub open spec fn range_start_part(r: CfiRange) -> Seq<char> {
    steps_text(r.start.path@.skip(range_split(r.start.path@, r.end.path@))) + offset_text(r.start.character_offset)
}

/// The end's own part of a range's text.
pub open spec fn range_end_part(r: CfiRange) -> Seq<char> {
    steps_text(r.end.path@.skip(range_split(r.start.path@, r.end.path@))) + offset_text(r.end.character_offset)
}

proof fn lemma_range_split_bounds(r: CfiRange)
    ensures
        0 <= range_split(r.start.path@, r.end.path@) <= r.start.path@.len(),
        range_split(r.start.path@, r.end.path@) <= r.end.path@.len(),
        range_split(r.start.path@, r.end.path@) <= common_prefix_from(r.start.path@, r.end.path@, 0),
{
    crate::cfi::lemma_common_prefix(r.start.path@, r.end.path@, 0);
}

proof fn lemma_range_unwrapped(r: CfiRange)
    ensures
        unwrapped(range_text(r)) == range_parent(r) + seq![','] + range_start_part(r) + seq![','] + range_end_part(r),
{
    reveal_strlit("epubcfi(/6/");
    reveal_strlit("epubcfi(");
    let w = seq!['e', 'p', 'u', 'b', 'c', 'f', 'i', '('];
    let t = range_text(r);
    let inner = range_parent(r) + seq![','] + range_start_part(r) + seq![','] + range_end_part(r);
    assert(spine_prefix(r.start.spine_index as nat) =~= w + spine_path(r.start.spine_index));
    assert(t =~= w + inner + seq![')']);
    assert("epubcfi("@ =~= w);
    assert(t.take(8) =~= w);
}

proof fn lemma_offset_lacks(o: Option<usize>, ch: char)
    requires
        !is_digit(ch),
        ch != ':',
    ensures
        lacks(offset_text(o), ch),
{
    match o {
        Some(n) => {
            lemma_decimal_lacks(n as nat, ch);
            let ot = offset_text(o);
            assert forall|i: int| 0 <= i < ot.len() implies ot[i] != ch by {
                if i > 0 {
                    assert(ot[i] == decimal(n as nat)[i - 1]);
                }
            }
        },
        None => {},
    }
}

proof fn lemma_range_parts_lack_comma(r: CfiRange)
    requires
        range_end_reads_back(r.start),
        range_end_reads_back(r.end),
    ensures
        lacks(range_parent(r), ','),
        lacks(range_start_part(r), ','),
        lacks(range_end_part(r), ','),
{
    let sp = r.start.path@;
    let ep = r.end.path@;
    let l = range_split(sp, ep);
    lemma_range_split_bounds(r);
    let pp = spine_path(r.start.spine_index);
    lemma_decimal_lacks(((r.start.spine_index + 1) * 2) as nat, ',');
    assert(lacks(pp, ',')) by {
        assert forall|i: int| 0 <= i < pp.len() implies pp[i] != ',' by {
            if i >= 3 {
                assert(pp[i] == decimal(((r.start.spine_index + 1) * 2) as nat)[i - 3]);
            }
        }
    }
    assert forall|i: int| 0 <= i < sp.take(l).len() implies exists|j: int| 0 <= j < sp.len() && #[trigger] sp.take(l)[i] == sp[j] by {
        assert(sp.take(l)[i] == sp[i]);
    }
    assert forall|i: int| 0 <= i < sp.skip(l).len() implies exists|j: int| 0 <= j < sp.len() && #[trigger] sp.skip(l)[i] == sp[j] by {
        assert(sp.skip(l)[i] == sp[i + l]);
    }
    assert forall|i: int| 0 <= i < ep.skip(l).len() implies exists|j: int| 0 <= j < ep.len() && #[trigger] ep.skip(l)[i] == ep[j] by {
        assert(ep.skip(l)[i] == ep[i + l]);
    }
    lemma_ids_lack_sub(sp, sp.take(l), ',');
    lemma_ids_lack_sub(sp, sp.skip(l), ',');
    lemma_ids_lack_sub(ep, ep.skip(l), ',');
    lemma_steps_lack(sp.take(l), ',');
    lemma_steps_lack(sp.skip(l), ',');
    lemma_steps_lack(ep.skip(l), ',');
    lemma_offset_lacks(r.start.character_offset, ',');
    lemma_offset_lacks(r.end.character_offset, ',');
    lemma_lacks_concat(pp, seq!['!'], ',');
    lemma_lacks_concat(pp + seq!['!'], steps_text(sp.take(l)), ',');
    lemma_lacks_concat(steps_text(sp.skip(l)), offset_text(r.start.character_offset), ',');
    lemma_lacks_concat(steps_text(ep.skip(l)), offset_text(r.end.character_offset), ',');
}

proof fn lemma_range_ends(r: CfiRange)
    requires
        r.start.spine_index == r.end.spine_index,
        r.start.temporal_offset is None,
        r.start.spatial_offset is None,
        r.end.temporal_offset is None,
        r.end.spatial_offset is None,
    ensures
        range_parent(r) + range_start_part(r) == spine_path(r.start.spine_index) + seq!['!'] + doc_path(r.start),
        range_parent(r) + range_end_part(r) == spine_path(r.end.spine_index) + seq!['!'] + doc_path(r.end),
{
    let sp = r.start.path@;
    let ep = r.end.path@;
    let l = range_split(sp, ep);
    lemma_range_split_bounds(r);
    lemma_steps_split(sp, l);
    lemma_steps_split(ep, l);
    assert forall|i: int| 0 <= i < l implies same_step(#[trigger] sp[i], ep[i]) by {
        lemma_common_prefix_same(sp, ep, 0, i);
    }
    lemma_steps_same(sp, ep, l);
    assert(tail_text(r.start) =~= offset_text(r.start.character_offset));
    assert(tail_text(r.end) =~= offset_text(r.end.character_offset));
    assert(range_parent(r) + range_start_part(r) =~= spine_path(r.start.spine_index) + seq!['!'] + doc_path(r.start));
    assert(range_parent(r) + range_end_part(r) =~= spine_path(r.end.spine_index) + seq!['!'] + doc_path(r.end));
}

/// Written out and read again, a range is the same range: both ends come
/// back, each as its parent path joined with its own steps and offset.
pub proof fn law_range_text_reads_back(r: CfiRange)
    requires
        r.start.spine_index == r.end.spine_index,
        range_end_reads_back(r.start),
        range_end_reads_back(r.end),
    ensures
        spec_parse_range(range_text(r)) == Some(
            Ok::<((usize, DocSt), (usize, DocSt)), crate::error::ErrView>((cfi_view(r.start), cfi_view(r.end))),
        ),
{
    let a = range_parent(r);
    let b = range_start_part(r);
    let c = range_end_part(r);
    lemma_range_unwrapped(r);
    lemma_range_parts_lack_comma(r);
    lemma_split_concat(a, b + seq![','] + c, ',');
    lemma_split_concat(b, c, ',');
    lemma_split_none(a, ',');
    lemma_split_none(b, ',');
    lemma_split_none(c, ',');
    assert(a + seq![','] + b + seq![','] + c =~= a + seq![','] + (b + seq![','] + c));
    assert(split_on(unwrapped(range_text(r)), ',') =~= seq![a, b, c]);
    lemma_range_ends(r);
    lemma_parse_bang(r.start);
    lemma_parse_bang(r.end);
}

} // verus!
