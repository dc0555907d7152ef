//! Rewrites references (`src`, `href`, `xlink:href`, `poster`, CSS `url()`)
//! inside an XHTML document without parsing it into a DOM, so the document
//! is otherwise emitted byte-for-byte.

use vstd::prelude::*;

use crate::path::trim_start_ws;
use crate::text::{
    chars_eq_str, chars_of, find_from, find_seq_from, index_of, is_ascii_ws, is_whitespace, lemma_index_of_absent,
    lemma_index_of_found, lower_seq, matches_at, push_all, spec_is_ascii_ws, spec_is_whitespace,
    string_from_chars, sub_vec, to_ascii_lower,
};
use crate::text_map::{
    after_find, after_find_exec, lemma_after_find, lemma_find_seq_from_range, lemma_find_skip,
    lemma_find_char_at, lemma_tag_name_end, lit_at, tag_name_end, trim_end_ws,
};

verus! {

broadcast use vstd::seq::group_seq_axioms;

/// What kind of reference was found.
#[derive(Debug, Clone, Copy, PartialEq, Eq, Structural)]
pub enum RefKind {
    /// `<a href>` / `<area href>` — a navigation link
    Link,
    /// `src`, `poster`, `xlink:href`, `<link href>`, `<image href>`, … — an asset
    Resource,
    /// `url(...)` inside a `<style>` element or `style=""` attribute
    CssUrl,
}

/// A reference handed to the callback.
#[derive(Debug, Clone, Copy)]
pub struct Reference<'a> {
    pub kind: RefKind,
    /// Lower-cased tag name (`"img"`, `"a"`, `"style"`, …)
    pub tag: &'a str,
    /// Attribute name as written (`"src"`, `"xlink:href"`, or `"url"` for CSS)
    pub attr: &'a str,
    /// The raw value (entities decoded for `&amp;` only)
    pub value: &'a str,
}

/// What to do with a reference.
pub enum Replacement {
    /// Replace only the value (works for every kind)
    Value(String),
    /// Replace the whole attribute with these `(name, value)` pairs
    /// (ignored for `CssUrl`)
    Attrs(Vec<(String, String)>),
}

/// A reply of the callback, abstractly.
pub enum ReplyView {
    Value(Seq<char>),
    Attrs(Seq<(Seq<char>, Seq<char>)>),
}

/// The abstract form of a callback reply.
pub open spec fn reply_view(r: Option<Replacement>) -> Option<ReplyView> {
    match r {
        Some(Replacement::Value(v)) => Some(ReplyView::Value(v@)),
        Some(Replacement::Attrs(p)) => Some(
            ReplyView::Attrs(p@.map_values(|x: (String, String)| (x.0@, x.1@))),
        ),
        None => None,
    }
}

/// The replies as answers to `url()`s.
pub open spec fn css_replies(R: Seq<Option<ReplyView>>) -> Seq<Option<Seq<char>>> {
    R.map_values(|r: Option<ReplyView>| css_reply(r))
}

/// What a reply means for a CSS `url()`: only a new value counts.
pub open spec fn css_reply(r: Option<ReplyView>) -> Option<Seq<char>> {
    match r {
        Some(ReplyView::Value(v)) => Some(v),
        _ => None,
    }
}

// ---------------------------------------------------------------------------
// String replacement
// ---------------------------------------------------------------------------

/// `s[j..]` with every non-overlapping occurrence of `pat`, from the left,
/// replaced by `rep` (`str::replace`).
pub open spec fn replace_from(s: Seq<char>, j: int, pat: Seq<char>, rep: Seq<char>) -> Seq<char>
    decreases s.len() - j,
{
    if j < 0 || j >= s.len() {
        Seq::empty()
    } else if pat.len() > 0 && j + pat.len() <= s.len() && s.subrange(j, j + pat.len()) == pat {
        rep + replace_from(s, j + pat.len(), pat, rep)
    } else {
        seq![s[j]] + replace_from(s, j + 1, pat, rep)
    }
}

/// `s` with every occurrence of `pat` replaced by `rep`.
pub open spec fn replace_all(s: Seq<char>, pat: Seq<char>, rep: Seq<char>) -> Seq<char> {
    replace_from(s, 0, pat, rep)
}

fn replace_chars(s: &Vec<char>, pat: &Vec<char>, rep: &Vec<char>) -> (r: Vec<char>)
    ensures
        r@ == replace_all(s@, pat@, rep@),
{
    let mut out: Vec<char> = Vec::new();
    let mut j: usize = 0;
    while j < s.len()
        invariant
            j <= s@.len(),
            replace_all(s@, pat@, rep@) == out@ + replace_from(s@, j as int, pat@, rep@),
        decreases s@.len() - j,
    {
        if pat.len() > 0 && matches_at(s, j, pat) {
            push_all(&mut out, rep);
            assert(pat@.len() == pat.len());
            j = j + pat.len();
        } else {
            out.push(s[j]);
            j += 1;
        }
        assert(out@ + replace_from(s@, j as int, pat@, rep@) == replace_all(s@, pat@, rep@)) by {
            assert(forall|a: Seq<char>, b: Seq<char>, c: Seq<char>| (a + b) + c =~= a + (b + c));
        }
    }
    assert(out@ + Seq::<char>::empty() =~= out@);
    out
}

fn lit(s: &str) -> (v: Vec<char>)
    ensures
        v@ == s@,
{
    chars_of(s)
}

/// `&amp;`, `&quot;`, `&#39;` and `&apos;` decoded, one after another,
/// when the value holds a `&`.
pub open spec fn decode_amp(v: Seq<char>) -> Seq<char> {
    if index_of(v, '&') >= 0 {
        replace_all(
            replace_all(replace_all(replace_all(v, "&amp;"@, "&"@), "&quot;"@, "\""@), "&#39;"@, "'"@),
            "&apos;"@,
            "'"@,
        )
    } else {
        v
    }
}

/// `&` and `"` escaped for a double-quoted attribute value.
pub open spec fn escape_attr(v: Seq<char>) -> Seq<char> {
    replace_all(replace_all(v, "&"@, "&amp;"@), "\""@, "&quot;"@)
}

/// `name="value"` with the value escaped.
pub open spec fn attr_text(name: Seq<char>, value: Seq<char>) -> Seq<char> {
    name + "=\""@ + escape_attr(value) + "\""@
}

fn decode_amp_exec(v: &Vec<char>) -> (r: Vec<char>)
    ensures
        r@ == decode_amp(v@),
{
    let mut k: usize = 0;
    while k < v.len() && v[k] != '&'
        invariant
            k <= v@.len(),
            forall|m: int| 0 <= m < k ==> v@[m] != '&',
        decreases v@.len() - k,
    {
        k += 1;
    }
    if k == v.len() {
        proof {
            lemma_index_of_absent(v@, '&');
        }
        return sub_vec(v, 0, v.len());
    }
    proof {
        lemma_index_of_found(v@, '&', k as int);
    }
    let a = replace_chars(v, &lit("&amp;"), &lit("&"));
    let b = replace_chars(&a, &lit("&quot;"), &lit("\""));
    let c = replace_chars(&b, &lit("&#39;"), &lit("'"));
    replace_chars(&c, &lit("&apos;"), &lit("'"))
}

fn push_attr(out: &mut Vec<char>, name: &Vec<char>, value: &Vec<char>)
    ensures
        final(out)@ == old(out)@ + attr_text(name@, value@),
{
    push_all(out, name);
    push_all(out, &lit("=\""));
    let a = replace_chars(value, &lit("&"), &lit("&amp;"));
    let b = replace_chars(&a, &lit("\""), &lit("&quot;"));
    push_all(out, &b);
    push_all(out, &lit("\""));
    assert(final(out)@ =~= old(out)@ + attr_text(name@, value@));
}

// ---------------------------------------------------------------------------
// CSS
// ---------------------------------------------------------------------------

/// First index at or after `j` whose character is not whitespace.
pub open spec fn skip_ws_from(s: Seq<char>, j: int) -> int
    decreases s.len() - j,
{
    if j < 0 || j >= s.len() {
        j
    } else if spec_is_whitespace(s[j]) {
        skip_ws_from(s, j + 1)
    } else {
        j
    }
}

/// `url(...)` rewriting from index `j` of `c`: `replies` answer the URLs
/// in order, starting at `replies[ri]`. The result is the text produced
/// and the number of replies used.
pub open spec fn css_rw(c: Seq<char>, j: int, replies: Seq<Option<Seq<char>>>, ri: int) -> (Seq<char>, int)
    decreases c.len() - j,
{
    if j < 0 || j > c.len() {
        (Seq::empty(), ri)
    } else {
        let p = find_seq_from(lower_seq(c), j, "url("@);
        if p < j || p + 4 > c.len() {
            (c.subrange(j, c.len() as int), ri)
        } else {
            let a = p + 4;
            let w = skip_ws_from(c, a);
            let quoted = w < c.len() && (c[w] == '"' || c[w] == '\'');
            let close = if quoted {
                find_seq_from(c, w + 1, seq![c[w]])
            } else {
                find_seq_from(c, w, seq![')'])
            };
            let next = if quoted {
                close + 1
            } else {
                close
            };
            if close < 0 || close < w || w < a || next > c.len() {
                (c.subrange(j, c.len() as int), ri)
            } else {
                let head = c.subrange(j, w);
                let piece = match replies[ri] {
                    Some(new) => seq!['"'] + replace_all(new, "\""@, "%22"@) + seq!['"'],
                    None => c.subrange(w, next),
                };
                let (rest, rj) = css_rw(c, next, replies, ri + 1);
                (head + piece + rest, rj)
            }
        }
    }
}

/// The URLs `css_rw` hands out, in order.
pub open spec fn css_urls(c: Seq<char>, j: int) -> Seq<Seq<char>>
    decreases c.len() - j,
{
    if j < 0 || j > c.len() {
        Seq::empty()
    } else {
        let p = find_seq_from(lower_seq(c), j, "url("@);
        if p < j || p + 4 > c.len() {
            Seq::empty()
        } else {
            let a = p + 4;
            let w = skip_ws_from(c, a);
            let quoted = w < c.len() && (c[w] == '"' || c[w] == '\'');
            let close = if quoted {
                find_seq_from(c, w + 1, seq![c[w]])
            } else {
                find_seq_from(c, w, seq![')'])
            };
            let next = if quoted {
                close + 1
            } else {
                close
            };
            if close < 0 || close < w || w < a || next > c.len() {
                Seq::empty()
            } else {
                let vs = if quoted {
                    w + 1
                } else {
                    w
                };
                seq![trim_end_ws(trim_start_ws(c.subrange(vs, close)))] + css_urls(c, next)
            }
        }
    }
}


/// The abstract form of replies to `url()`s.
pub open spec fn url_views(reps: Seq<Option<String>>) -> Seq<Option<Seq<char>>> {
    reps.map_values(|o: Option<String>| match o {
        Some(v) => Some(v@),
        None => None,
    })
}

/// `c[a..b]` without leading or trailing whitespace.
pub(crate) fn trimmed(c: &Vec<char>, a: usize, b: usize) -> (r: Vec<char>)
    requires
        a <= b <= c@.len(),
    ensures
        r@ == trim_end_ws(trim_start_ws(c@.subrange(a as int, b as int))),
{
    let ghost s = c@.subrange(a as int, b as int);
    let mut x: usize = a;
    assert(s.skip(0) =~= s);
    while x < b && is_whitespace(c[x])
        invariant
            a <= x <= b <= c@.len(),
            s == c@.subrange(a as int, b as int),
            trim_start_ws(s) == trim_start_ws(c@.subrange(x as int, b as int)),
        decreases b - x,
    {
        assert(c@.subrange(x as int, b as int).drop_first() =~= c@.subrange(x + 1, b as int));
        x += 1;
    }
    let mut y: usize = b;
    while y > x && is_whitespace(c[y - 1])
        invariant
            a <= x <= y <= b <= c@.len(),
            trim_end_ws(trim_start_ws(s)) == trim_end_ws(c@.subrange(x as int, y as int)),
        decreases y - x,
    {
        assert(c@.subrange(x as int, y as int).drop_last() =~= c@.subrange(x as int, y - 1));
        y -= 1;
    }
    sub_vec(c, x, y)
}

/// One `url()` found at or after `j`: `(w, close, next, quoted)` as in
/// [`css_rw`], or `None` when the rest holds no complete one.
fn next_url(c: &Vec<char>, lower: &Vec<char>, pat: &Vec<char>, j: usize) -> (r: Option<(usize, usize, usize, bool)>)
    requires
        j <= c@.len(),
        lower@ == lower_seq(c@),
        pat@ == "url("@,
        "url("@.len() == 4,
    ensures
        match r {
            Some((w, close, next, quoted)) => {
                let p = find_seq_from(lower_seq(c@), j as int, "url("@);
                &&& j <= p
                &&& p + 4 <= c@.len()
                &&& w == skip_ws_from(c@, p + 4)
                &&& quoted == (w < c@.len() && (c@[w as int] == '"' || c@[w as int] == '\''))
                &&& close == (if quoted {
                    find_seq_from(c@, w + 1, seq![c@[w as int]])
                } else {
                    find_seq_from(c@, w as int, seq![')'])
                })
                &&& next == (if quoted {
                    close + 1
                } else {
                    close as int
                })
                &&& p + 4 <= w
                &&& quoted ==> w + 1 <= close
                &&& !quoted ==> w <= close
                &&& next <= c@.len()
            },
            None => {
                let p = find_seq_from(lower_seq(c@), j as int, "url("@);
                ||| p < j || p + 4 > c@.len()
                ||| {
                    let a = p + 4;
                    let w = skip_ws_from(c@, a);
                    let quoted = w < c@.len() && (c@[w] == '"' || c@[w] == '\'');
                    let close = if quoted {
                        find_seq_from(c@, w + 1, seq![c@[w]])
                    } else {
                        find_seq_from(c@, w, seq![')'])
                    };
                    let next = if quoted {
                        close + 1
                    } else {
                        close
                    };
                    close < 0 || close < w || w < a || next > c@.len()
                }
            },
        },
{
    assert(lower@.len() == c@.len());
    assert(c@.len() == c.len());
    let p = match find_from(lower, j, pat) {
        Some(p) => p,
        None => return None,
    };
    proof {
        lemma_find_seq_from_range(lower@, j as int, pat@);
    }
    let a = p + 4;
    let n = c.len();
    let mut w: usize = a;
    while w < n && is_whitespace(c[w])
        invariant
            a <= w <= n == c@.len(),
            skip_ws_from(c@, a as int) == skip_ws_from(c@, w as int),
        decreases n - w,
    {
        w += 1;
    }
    assert(skip_ws_from(c@, w as int) == w);
    let quoted = w < n && (c[w] == '"' || c[w] == '\'');
    if quoted {
        let q = vec![c[w]];
        assert(q@ =~= seq![c@[w as int]]);
        proof {
            lemma_find_seq_from_range(c@, w + 1, q@);
        }
        match find_from(c, w + 1, &q) {
            Some(close) => Some((w, close, close + 1, true)),
            None => None,
        }
    } else {
        let q = vec![')'];
        assert(q@ =~= seq![')']);
        proof {
            lemma_find_seq_from_range(c@, w as int, q@);
        }
        match find_from(c, w, &q) {
            Some(close) => Some((w, close, close, false)),
            None => None,
        }
    }
}

/// Whether `f` may answer `rep` for a URL with the characters `url`.
pub open spec fn answered<F: FnMut(&str) -> Option<String>>(f: F, url: Seq<char>, rep: Option<String>) -> bool {
    exists|u: &str| u@ == url && #[trigger] f.ensures((u,), rep)
}

/// Rewrite every `url(...)` in a CSS string. `f` returns the replacement URL.
pub fn rewrite_css<F>(css: &str, f: &mut F) -> (r: String)
where
    F: FnMut(&str) -> Option<String>,
    requires
        forall|u: &str| (*old(f)).requires((u,)),
    ensures
        exists|reps: Seq<Option<String>>|
            {
                &&& reps.len() == css_urls(css@, 0).len()
                &&& r@ == #[trigger] css_rw(css@, 0, url_views(reps), 0).0
                &&& forall|k: int|
                    0 <= k < reps.len() ==> answered(*old(f), css_urls(css@, 0)[k], #[trigger] reps[k])
            },
        (forall|u: &str, y: Option<String>| (*old(f)).ensures((u,), y) ==> y is None) ==> r@ == css@,
{
    let c = chars_of(css);
    let lower = crate::text::lower_from(&c, 0);
    assert(c@.skip(0) =~= c@);
    proof {
        reveal_strlit("url(");
        reveal_strlit("\"");
        reveal_strlit("%22");
    }
    let pat = lit("url(");
    let dq = lit("\"");
    let esc = lit("%22");
    let mut out: Vec<char> = Vec::new();
    let mut j: usize = 0;
    let ghost mut reps: Seq<Option<String>> = Seq::empty();
    let ghost mut seen: Seq<Seq<char>> = Seq::empty();
    let ghost all_none = forall|u: &str, y: Option<String>| (*old(f)).ensures((u,), y) ==> y is None;
    loop
        invariant
            c@ == css@,
            lower@ == lower_seq(c@),
            pat@ == "url("@,
            "url("@.len() == 4,
            dq@ == "\""@,
            esc@ == "%22"@,
            j <= c@.len(),
            *f == *old(f),
            forall|u: &str| (*f).requires((u,)),
            all_none == forall|u: &str, y: Option<String>| (*old(f)).ensures((u,), y) ==> y is None,
            reps.len() == seen.len(),
            css_urls(c@, 0) == seen + css_urls(c@, j as int),
            forall|k: int| 0 <= k < reps.len() ==> answered(*old(f), seen[k], #[trigger] reps[k]),
            all_none ==> forall|k: int| 0 <= k < reps.len() ==> #[trigger] reps[k] is None,
            all_none ==> out@ == c@.take(j as int),
            forall|rr: Seq<Option<Seq<char>>>|
                rr.len() >= reps.len() && rr.take(reps.len() as int) == url_views(reps) ==> #[trigger] css_rw(c@, 0, rr, 0)
                    == (out@ + css_rw(c@, j as int, rr, reps.len() as int).0, css_rw(c@, j as int, rr, reps.len() as int).1),
        decreases c@.len() - j,
    {
        let found = next_url(&c, &lower, &pat, j);
        match found {
            None => {
                let tail = sub_vec(&c, j, c.len());
                let ghost out0 = out@;
                push_all(&mut out, &tail);
                proof {
                    assert forall|rr: Seq<Option<Seq<char>>>|
                        rr.len() >= reps.len() && rr.take(reps.len() as int) == url_views(reps) implies #[trigger] css_rw(c@, 0, rr, 0).0 == out@ by {
                        assert(css_rw(c@, j as int, rr, reps.len() as int).0 == c@.subrange(j as int, c@.len() as int));
                    }
                    assert(url_views(reps).take(reps.len() as int) =~= url_views(reps));
                    assert(css_rw(c@, 0, url_views(reps), 0).0 == out@);
                    assert(css_urls(c@, j as int) =~= Seq::<Seq<char>>::empty());
                    assert(css_urls(c@, 0) =~= seen);
                    if all_none {
                        assert(out@ =~= c@);
                    }
                }
                return string_from_chars(out.as_slice());
            },
            Some((w, close, next, quoted)) => {
                let vs = if quoted {
                    w + 1
                } else {
                    w
                };
                let value = trimmed(&c, vs, close);
                let vstr = string_from_chars(value.as_slice());
                let vref = vstr.as_str();
                let rep = (*f)(vref);
                let head = sub_vec(&c, j, w);
                let ghost out0 = out@;
                push_all(&mut out, &head);
                let ghost rep_view: Option<Seq<char>> = url_views(seq![rep])[0];
                match &rep {
                    Some(new) => {
                        let nc = chars_of(new.as_str());
                        let enc = replace_chars(&nc, &dq, &esc);
                        out.push('"');
                        push_all(&mut out, &enc);
                        out.push('"');
                    },
                    None => {
                        let mid = sub_vec(&c, w, next);
                        push_all(&mut out, &mid);
                    },
                }
                proof {
                    let k: int = reps.len() as int;
                    let reps2 = reps.push(rep);
                    assert(url_views(reps2) =~= url_views(reps).push(rep_view));
                    assert forall|rr: Seq<Option<Seq<char>>>|
                        rr.len() >= reps2.len() && rr.take(reps2.len() as int) == url_views(reps2) implies #[trigger] css_rw(c@, 0, rr, 0)
                            == (out@ + css_rw(c@, next as int, rr, reps2.len() as int).0, css_rw(c@, next as int, rr, reps2.len() as int).1) by {
                        assert(rr.take(reps.len() as int) =~= rr.take(reps2.len() as int).take(reps.len() as int));
                        assert(rr.take(reps2.len() as int).take(reps.len() as int) =~= url_views(reps));
                        assert(rr[k as int] == rr.take(reps2.len() as int)[k as int]);
                        assert(rr[k as int] == rep_view);
                        let (rest, rj) = css_rw(c@, next as int, rr, (k + 1) as int);
                        assert(css_rw(c@, j as int, rr, k as int) == (c@.subrange(j as int, w as int) + (match rr[k as int] {
                            Some(new) => seq!['"'] + replace_all(new, "\""@, "%22"@) + seq!['"'],
                            None => c@.subrange(w as int, next as int),
                        }) + rest, rj));
                        assert(out@ =~= out0 + c@.subrange(j as int, w as int) + (match rr[k as int] {
                            Some(new) => seq!['"'] + replace_all(new, "\""@, "%22"@) + seq!['"'],
                            None => c@.subrange(w as int, next as int),
                        }));
                    }
                    assert(css_urls(c@, j as int) == seq![value@] + css_urls(c@, next as int));
                    assert(css_urls(c@, 0) =~= seen.push(value@) + css_urls(c@, next as int));
                    assert forall|m: int| 0 <= m < reps2.len() implies answered(*old(f), seen.push(value@)[m], #[trigger] reps2[m]) by {
                        if m < k {
                            assert(reps2[m] == reps[m]);
                            assert(seen.push(value@)[m] == seen[m]);
                        } else {
                            assert(reps2[m] == rep);
                            assert(vref@ == value@);
                        }
                    }
                    if all_none {
                        assert(rep is None);
                        assert(out@ =~= c@.take(next as int));
                        assert forall|m: int| 0 <= m < reps2.len() implies #[trigger] reps2[m] is None by {
                            if m < k {
                                assert(reps2[m] == reps[m]);
                            }
                        }
                    }
                    reps = reps2;
                    seen = seen.push(value@);
                }
                j = next;
            },
        }
    }
}


// ---------------------------------------------------------------------------
// Start tags
// ---------------------------------------------------------------------------

/// An attribute of a start tag, as indices into the document: `name` is
/// `[start, name_end)`, the value (without quotes) `value`, and the whole
/// `name="value"` text `[start, end)`.
pub struct AttrSpan {
    pub start: int,
    pub name_end: int,
    pub value: Option<(int, int)>,
    pub end: int,
}

/// A start tag at `i`: name `[i + 1, name_end)`, attributes, the index
/// just past its `>`, and whether it ends with `/>`.
pub struct TagSpan {
    pub name_end: int,
    pub attrs: Seq<AttrSpan>,
    pub end: int,
    pub self_closing: bool,
}

/// First index at or after `j` that is not ASCII whitespace.
pub open spec fn ascii_ws_end(s: Seq<char>, j: int) -> int
    decreases s.len() - j,
{
    if j < 0 || j >= s.len() || !spec_is_ascii_ws(s[j]) {
        j
    } else {
        ascii_ws_end(s, j + 1)
    }
}

/// End of an attribute name starting at `j`.
pub open spec fn attr_name_end(s: Seq<char>, j: int) -> int
    decreases s.len() - j,
{
    if j < 0 || j >= s.len() || spec_is_ascii_ws(s[j]) || s[j] == '=' || s[j] == '>' || s[j] == '/' {
        j
    } else {
        attr_name_end(s, j + 1)
    }
}

/// End of an unquoted attribute value starting at `j`.
pub open spec fn unquoted_end(s: Seq<char>, j: int) -> int
    decreases s.len() - j,
{
    if j < 0 || j >= s.len() || spec_is_ascii_ws(s[j]) || s[j] == '>' {
        j
    } else {
        unquoted_end(s, j + 1)
    }
}

/// Attributes from `j` on, after those in `attrs`, up to the tag's `>`:
/// `(attributes, index past '>', self-closing)`, or `None` when the tag
/// never closes.
pub open spec fn tag_attrs(s: Seq<char>, j: int, attrs: Seq<AttrSpan>) -> Option<(Seq<AttrSpan>, int, bool)>
    decreases s.len() - j,
{
    let i = ascii_ws_end(s, j);
    if j < 0 || i < j || i >= s.len() {
        None
    } else if s[i] == '>' {
        Some((attrs, i + 1, false))
    } else if s[i] == '/' {
        let k = ascii_ws_end(s, i + 1);
        if k < s.len() && s[k] == '>' {
            Some((attrs, k + 1, true))
        } else {
            tag_attrs(s, i + 1, attrs)
        }
    } else {
        let ne = attr_name_end(s, i);
        if ne <= i || ne > s.len() {
            tag_attrs(s, i + 1, attrs)
        } else {
            let k = ascii_ws_end(s, ne);
            if k < s.len() && s[k] == '=' {
                let v = ascii_ws_end(s, k + 1);
                if v >= s.len() || v <= j {
                    None
                } else if s[v] == '"' || s[v] == '\'' {
                    let close = find_seq_from(s, v + 1, seq![s[v]]);
                    if close < v + 1 || close >= s.len() {
                        None
                    } else {
                        tag_attrs(
                            s,
                            close + 1,
                            attrs.push(AttrSpan { start: i, name_end: ne, value: Some((v + 1, close)), end: close + 1 }),
                        )
                    }
                } else {
                    let ve = unquoted_end(s, v);
                    if ve <= j || ve > s.len() {
                        None
                    } else {
                        tag_attrs(
                            s,
                            ve,
                            attrs.push(AttrSpan { start: i, name_end: ne, value: Some((v, ve)), end: ve }),
                        )
                    }
                }
            } else {
                tag_attrs(s, ne, attrs.push(AttrSpan { start: i, name_end: ne, value: None, end: ne }))
            }
        }
    }
}

/// The start tag at `i` (where `s[i] == '<'`), if well formed.
pub open spec fn parse_tag(s: Seq<char>, i: int) -> Option<TagSpan> {
    let ne = tag_name_end(s, i + 1);
    if ne <= i + 1 {
        None
    } else {
        match tag_attrs(s, ne, Seq::empty()) {
            Some((attrs, end, sc)) => Some(TagSpan { name_end: ne, attrs, end, self_closing: sc }),
            None => None,
        }
    }
}

/// Attribute spans of the exec scanner.
pub struct AttrPos {
    pub start: usize,
    pub name_end: usize,
    pub value: Option<(usize, usize)>,
    pub end: usize,
}

pub open spec fn attr_pos_view(a: AttrPos) -> AttrSpan {
    AttrSpan {
        start: a.start as int,
        name_end: a.name_end as int,
        value: match a.value {
            Some((x, y)) => Some((x as int, y as int)),
            None => None,
        },
        end: a.end as int,
    }
}

pub open spec fn attrs_view(v: Seq<AttrPos>) -> Seq<AttrSpan> {
    v.map_values(|a: AttrPos| attr_pos_view(a))
}

fn ascii_ws_end_exec(v: &Vec<char>, j: usize) -> (r: usize)
    requires
        j <= v@.len(),
    ensures
        r as int == ascii_ws_end(v@, j as int),
        j <= r <= v@.len(),
{
    let mut k = j;
    while k < v.len() && is_ascii_ws(v[k])
        invariant
            j <= k <= v@.len(),
            ascii_ws_end(v@, j as int) == ascii_ws_end(v@, k as int),
        decreases v@.len() - k,
    {
        k += 1;
    }
    k
}

/// The attributes of the start tag whose name ends at `ne`.
fn tag_attrs_exec(v: &Vec<char>, ne: usize) -> (r: Option<(Vec<AttrPos>, usize, bool)>)
    requires
        ne <= v@.len(),
    ensures
        match r {
            Some((attrs, end, sc)) => tag_attrs(v@, ne as int, Seq::empty()) == Some((attrs_view(attrs@), end as int, sc))
                && (forall|k: int| 0 <= k < attrs@.len() ==> {
                    let a = #[trigger] attrs@[k];
                    &&& ne <= a.start < a.name_end <= a.end <= end
                    &&& (a.value matches Some((x, y)) ==> a.name_end <= x <= y <= a.end)
                })
                && (forall|k: int, m: int| 0 <= k < m < attrs@.len() ==> #[trigger] attrs@[k].end <= #[trigger] attrs@[m].start),
            None => tag_attrs(v@, ne as int, Seq::empty()) is None,
        },
        r matches Some((_, end, _)) ==> ne < end <= v@.len(),
{
    let n = v.len();
    let mut attrs: Vec<AttrPos> = Vec::new();
    let mut j: usize = ne;
    assert(attrs_view(attrs@) =~= Seq::<AttrSpan>::empty());
    loop
        invariant
            ne <= j <= n == v@.len(),
            tag_attrs(v@, ne as int, Seq::empty()) == tag_attrs(v@, j as int, attrs_view(attrs@)),
            forall|k: int| 0 <= k < attrs@.len() ==> {
                let a = #[trigger] attrs@[k];
                &&& ne <= a.start < a.name_end <= a.end <= j
                &&& (a.value matches Some((x, y)) ==> a.name_end <= x <= y <= a.end)
            },
            forall|k: int, m: int| 0 <= k < m < attrs@.len() ==> #[trigger] attrs@[k].end <= #[trigger] attrs@[m].start,
        decreases n - j,
    {
        let i = ascii_ws_end_exec(v, j);
        if i >= n {
            return None;
        }
        if v[i] == '>' {
            return Some((attrs, i + 1, false));
        }
        if v[i] == '/' {
            let k = ascii_ws_end_exec(v, i + 1);
            if k < n && v[k] == '>' {
                return Some((attrs, k + 1, true));
            }
            j = i + 1;
            continue;
        }
        let mut e = i;
        while e < n && !is_ascii_ws(v[e]) && v[e] != '=' && v[e] != '>' && v[e] != '/'
            invariant
                i <= e <= n == v@.len(),
                attr_name_end(v@, i as int) == attr_name_end(v@, e as int),
            decreases n - e,
        {
            e += 1;
        }
        if e <= i {
            j = i + 1;
            continue;
        }
        let k = ascii_ws_end_exec(v, e);
        let ghost old_attrs = attrs@;
        if k < n && v[k] == '=' {
            let w = ascii_ws_end_exec(v, k + 1);
            if w >= n {
                return None;
            }
            if v[w] == '"' || v[w] == '\'' {
                let q = vec![v[w]];
                assert(q@ =~= seq![v@[w as int]]);
                proof {
                    lemma_find_seq_from_range(v@, w + 1, q@);
                }
                match find_from(v, w + 1, &q) {
                    Some(close) => {
                        attrs.push(AttrPos { start: i, name_end: e, value: Some((w + 1, close)), end: close + 1 });
                        assert(attrs_view(attrs@) =~= attrs_view(old_attrs).push(
                            AttrSpan { start: i as int, name_end: e as int, value: Some((w + 1, close as int)), end: close + 1 },
                        ));
                        j = close + 1;
                    },
                    None => {
                        return None;
                    },
                }
            } else {
                let mut ve = w;
                while ve < n && !is_ascii_ws(v[ve]) && v[ve] != '>'
                    invariant
                        w <= ve <= n == v@.len(),
                        unquoted_end(v@, w as int) == unquoted_end(v@, ve as int),
                    decreases n - ve,
                {
                    ve += 1;
                }
                attrs.push(AttrPos { start: i, name_end: e, value: Some((w, ve)), end: ve });
                assert(attrs_view(attrs@) =~= attrs_view(old_attrs).push(
                    AttrSpan { start: i as int, name_end: e as int, value: Some((w as int, ve as int)), end: ve as int },
                ));
                j = ve;
            }
        } else {
            attrs.push(AttrPos { start: i, name_end: e, value: None, end: e });
            assert(attrs_view(attrs@) =~= attrs_view(old_attrs).push(
                AttrSpan { start: i as int, name_end: e as int, value: None, end: e as int },
            ));
            j = e;
        }
    }
}


// ---------------------------------------------------------------------------
// Documents
// ---------------------------------------------------------------------------

/// A reference handed to the callback, abstractly.
pub struct RefView {
    pub kind: RefKind,
    pub tag: Seq<char>,
    pub attr: Seq<char>,
    pub value: Seq<char>,
}

pub open spec fn ref_view(r: Reference) -> RefView {
    RefView { kind: r.kind, tag: r.tag@, attr: r.attr@, value: r.value@ }
}

/// Whether `f` may answer `rep` to a reference that looks like `rv`.
pub open spec fn answered_ref<F: FnMut(Reference<'_>) -> Option<Replacement>>(
    f: F,
    rv: RefView,
    rep: Option<Replacement>,
) -> bool {
    exists|x: Reference| ref_view(x) == rv && #[trigger] f.ensures((x,), rep)
}

/// The kind of reference an attribute holds, if any.
pub open spec fn classify(tag: Seq<char>, attr: Seq<char>) -> Option<RefKind> {
    if attr == "src"@ || attr == "poster"@ || attr == "xlink:href"@ || attr == "data"@ {
        Some(RefKind::Resource)
    } else if attr == "href"@ {
        if tag == "a"@ || tag == "area"@ {
            Some(RefKind::Link)
        } else if tag == "link"@ || tag == "image"@ || tag == "use"@ {
            Some(RefKind::Resource)
        } else {
            None
        }
    } else {
        None
    }
}

/// `name="value"` pairs separated by single spaces.
pub open spec fn join_attrs(pairs: Seq<(Seq<char>, Seq<char>)>) -> Seq<char>
    decreases pairs.len(),
{
    if pairs.len() == 0 {
        Seq::empty()
    } else if pairs.len() == 1 {
        attr_text(pairs[0].0, pairs[0].1)
    } else {
        join_attrs(pairs.drop_last()) + seq![' '] + attr_text(pairs.last().0, pairs.last().1)
    }
}

/// The text an attribute becomes for a reply.
pub open spec fn reply_text(s: Seq<char>, a: AttrSpan, r: Option<ReplyView>) -> Seq<char> {
    match r {
        None => s.subrange(a.start, a.end),
        Some(ReplyView::Value(v)) => attr_text(s.subrange(a.start, a.name_end), v),
        Some(ReplyView::Attrs(p)) => join_attrs(p),
    }
}

/// The references handed out for the `url()`s of `css`.
pub open spec fn css_refs(css: Seq<char>, tag: Seq<char>) -> Seq<RefView> {
    css_urls(css, 0).map_values(|u: Seq<char>| RefView { kind: RefKind::CssUrl, tag, attr: "url"@, value: u })
}

/// The raw value of an attribute (empty when it has none).
pub open spec fn raw_value(s: Seq<char>, a: AttrSpan) -> Seq<char> {
    match a.value {
        Some((x, y)) => s.subrange(x, y),
        None => Seq::empty(),
    }
}

/// Attributes `attrs[k..]` of a start tag named `tag` (lowercased), with
/// the text since `cursor`: the output, the new cursor and the references
/// handed out. `R` holds every reply; the next one is `R[refs.len()]`.
pub open spec fn attrs_rw(
    s: Seq<char>,
    tag: Seq<char>,
    attrs: Seq<AttrSpan>,
    k: int,
    cursor: int,
    R: Seq<Option<ReplyView>>,
    out: Seq<char>,
    refs: Seq<RefView>,
) -> (Seq<char>, int, Seq<RefView>)
    decreases attrs.len() - k,
{
    if k < 0 || k >= attrs.len() {
        (out, cursor, refs)
    } else {
        let a = attrs[k];
        let name = s.subrange(a.start, a.name_end);
        let lname = lower_seq(name);
        let value = decode_amp(raw_value(s, a));
        let out1 = out + s.subrange(cursor, a.start);
        let kind = classify(tag, lname);
        if kind is Some && a.value is Some {
            let reply = R[refs.len() as int];
            attrs_rw(
                s,
                tag,
                attrs,
                k + 1,
                a.end,
                R,
                out1 + reply_text(s, a, reply),
                refs.push(RefView { kind: kind->0, tag, attr: name, value }),
            )
        } else if kind is None && lname == "style"@ && a.value is Some {
            let rewritten = css_rw(value, 0, css_replies(R), refs.len() as int).0;
            let reply = if rewritten != value {
                Some(ReplyView::Value(rewritten))
            } else {
                None
            };
            attrs_rw(s, tag, attrs, k + 1, a.end, R, out1 + reply_text(s, a, reply), refs + css_refs(value, tag))
        } else {
            attrs_rw(s, tag, attrs, k + 1, a.end, R, out1 + s.subrange(a.start, a.end), refs)
        }
    }
}

/// Where the content before the closing tag `</tag` starts at or after `k`
/// (ASCII case-insensitively), or the end.
pub open spec fn find_close(s: Seq<char>, k: int, tag: Seq<char>) -> int {
    let p = find_seq_from(lower_seq(s), k, lower_seq("</"@ + tag));
    if p < 0 {
        s.len() as int
    } else {
        p
    }
}

/// Just past the closing tag `</tag ...>` at or after `k`, or the end.
pub open spec fn skip_past_close(s: Seq<char>, k: int, tag: Seq<char>) -> int {
    let b = find_close(s, k, tag);
    let g = find_seq_from(s, b, ">"@);
    if g < 0 {
        s.len() as int
    } else {
        g + 1
    }
}

/// One step of the rewrite at `i`: the next index, the output and the
/// references handed out so far.
pub open spec fn rw_step(
    s: Seq<char>,
    i: int,
    strip: bool,
    R: Seq<Option<ReplyView>>,
    out: Seq<char>,
    refs: Seq<RefView>,
) -> (int, Seq<char>, Seq<RefView>) {
    if s[i] != '<' {
        let f = find_seq_from(s, i, "<"@);
        let t = if f < 0 {
            s.len() as int
        } else {
            f
        };
        (t, out + s.subrange(i, t), refs)
    } else if lit_at(s, i, "<!--"@) {
        let e = after_find(s, i, "-->"@);
        (e, out + s.subrange(i, e), refs)
    } else if lit_at(s, i, "<![CDATA["@) {
        let e = after_find(s, i, "]]>"@);
        (e, out + s.subrange(i, e), refs)
    } else if lit_at(s, i, "<?"@) {
        let e = after_find(s, i, "?>"@);
        (e, out + s.subrange(i, e), refs)
    } else if lit_at(s, i, "<!"@) || lit_at(s, i, "</"@) {
        let e = after_find(s, i, ">"@);
        (e, out + s.subrange(i, e), refs)
    } else {
        match parse_tag(s, i) {
            None => (i + 1, out.push('<'), refs),
            Some(t) => {
                let name = lower_seq(s.subrange(i + 1, t.name_end));
                if strip && name == "script"@ {
                    let next = if t.self_closing {
                        t.end
                    } else {
                        skip_past_close(s, t.end, "script"@)
                    };
                    (next, out, refs)
                } else {
                    let (o1, cur, r1) = attrs_rw(
                        s,
                        name,
                        t.attrs,
                        0,
                        t.name_end,
                        R,
                        out + s.subrange(i, t.name_end),
                        refs,
                    );
                    let o2 = o1 + s.subrange(cur, t.end);
                    if name == "style"@ && !t.self_closing {
                        let be = find_close(s, t.end, "style"@);
                        let css = s.subrange(t.end, be);
                        (
                            be,
                            o2 + css_rw(css, 0, css_replies(R), r1.len() as int).0,
                            r1 + css_refs(css, "style"@),
                        )
                    } else {
                        (t.end, o2, r1)
                    }
                }
            },
        }
    }
}

/// The rewrite from `i` on.
pub open spec fn rw_from(
    s: Seq<char>,
    i: int,
    strip: bool,
    R: Seq<Option<ReplyView>>,
    out: Seq<char>,
    refs: Seq<RefView>,
) -> (Seq<char>, Seq<RefView>)
    decreases s.len() - i,
{
    if i < 0 || i >= s.len() {
        (out, refs)
    } else {
        let (n, o, r) = rw_step(s, i, strip, R, out, refs);
        if n <= i || n > s.len() {
            (o, r)
        } else {
            rw_from(s, n, strip, R, o, r)
        }
    }
}

/// The rewritten document for the replies `R` and the references handed
/// out, in order.
pub open spec fn spec_rewrite(s: Seq<char>, strip: bool, R: Seq<Option<ReplyView>>) -> (Seq<char>, Seq<RefView>) {
    rw_from(s, 0, strip, R, Seq::empty(), Seq::empty())
}


proof fn lemma_not_lit(s: Seq<char>, p: Seq<char>)
    requires
        p.len() >= 2,
        s.len() >= 2,
        s[1] != p[1],
    ensures
        !lit_at(s, 0, p),
{
    if p.len() <= s.len() {
        assert(s.subrange(0, p.len() as int)[1] == s[1]);
    }
}

/// An SVG `image` element's `href` names an asset of the book: rewriting
/// `<image href="v"/>` hands the callback exactly one reference, a
/// `Resource` for the `image` element's `href` with the value `v` (entities
/// `&amp;` decoded), and writes the reply in its place.
pub proof fn law_svg_image_href_is_resource(v: Seq<char>, strip: bool, R: Seq<Option<ReplyView>>)
    requires
        forall|i: int| 0 <= i < v.len() ==> v[i] != '"',
    ensures
        ({
            let pre = seq!['<', 'i', 'm', 'a', 'g', 'e', ' ', 'h', 'r', 'e', 'f', '=', '"'];
            let s = pre + v + seq!['"', '/', '>'];
            let n: int = 13 + v.len() as int;
            let span = AttrSpan { start: 7, name_end: 11, value: Some((13, n)), end: n + 1 };
            &&& spec_rewrite(s, strip, R).1 == seq![
                RefView {
                    kind: RefKind::Resource,
                    tag: seq!['i', 'm', 'a', 'g', 'e'],
                    attr: seq!['h', 'r', 'e', 'f'],
                    value: decode_amp(v),
                },
            ]
            &&& spec_rewrite(s, strip, R).0 == seq!['<', 'i', 'm', 'a', 'g', 'e', ' '] + reply_text(s, span, R[0]) + seq!['/', '>']
            &&& R[0] matches Some(ReplyView::Value(w)) ==> spec_rewrite(s, strip, R).0 == seq!['<', 'i', 'm', 'a', 'g', 'e', ' ']
                + attr_text(seq!['h', 'r', 'e', 'f'], w) + seq!['/', '>']
        }),
{
    let pre = seq!['<', 'i', 'm', 'a', 'g', 'e', ' ', 'h', 'r', 'e', 'f', '=', '"'];
    let post = seq!['"', '/', '>'];
    let s = pre + v + post;
    let n: int = 13 + v.len() as int;
    assert(s.len() == n + 3);
    assert forall|i: int| 0 <= i < 13 implies s[i] == pre[i] by {}
    assert forall|i: int| 13 <= i < n implies s[i] == v[i - 13] by {}
    assert(s[n] == '"' && s[n + 1] == '/' && s[n + 2] == '>');
    let image = seq!['i', 'm', 'a', 'g', 'e'];
    let href = seq!['h', 'r', 'e', 'f'];
    // Not a comment, CDATA, instruction, declaration or end tag.
    reveal_strlit("<!--");
    reveal_strlit("<![CDATA[");
    reveal_strlit("<?");
    reveal_strlit("<!");
    reveal_strlit("</");
    reveal_strlit("script");
    reveal_strlit("style");
    reveal_strlit("image");
    reveal_strlit("href");
    reveal_strlit("a");
    reveal_strlit("area");
    reveal_strlit("link");
    reveal_strlit("src");
    reveal_strlit("poster");
    reveal_strlit("xlink:href");
    reveal_strlit("data");
    lemma_not_lit(s, "<!--"@);
    lemma_not_lit(s, "<![CDATA["@);
    lemma_not_lit(s, "<?"@);
    lemma_not_lit(s, "<!"@);
    lemma_not_lit(s, "</"@);
    // The tag name.
    assert(tag_name_end(s, 6) == 6);
    assert(tag_name_end(s, 5) == 6);
    assert(tag_name_end(s, 4) == 6);
    assert(tag_name_end(s, 3) == 6);
    assert(tag_name_end(s, 2) == 6);
    assert(tag_name_end(s, 1) == 6);
    // The attribute.
    assert(ascii_ws_end(s, 7) == 7);
    assert(ascii_ws_end(s, 6) == 7);
    assert(attr_name_end(s, 11) == 11);
    assert(attr_name_end(s, 10) == 11);
    assert(attr_name_end(s, 9) == 11);
    assert(attr_name_end(s, 8) == 11);
    assert(attr_name_end(s, 7) == 11);
    assert(ascii_ws_end(s, 11) == 11);
    assert(ascii_ws_end(s, 12) == 12);
    lemma_find_char_at(s, 13, n, '"');
    let span = AttrSpan { start: 7, name_end: 11, value: Some((13, n)), end: n + 1 };
    assert(ascii_ws_end(s, n + 1) == n + 1);
    assert(ascii_ws_end(s, n + 2) == n + 2);
    assert(tag_attrs(s, n + 1, seq![span]) == Some((seq![span], n + 3, true)));
    assert(Seq::<AttrSpan>::empty().push(span) =~= seq![span]);
    assert(tag_attrs(s, 6, Seq::empty()) == Some((seq![span], n + 3, true)));
    let t = TagSpan { name_end: 6, attrs: seq![span], end: n + 3, self_closing: true };
    assert(parse_tag(s, 0) == Some(t));
    assert(s.subrange(1, 6) =~= image);
    assert(lower_seq(image) =~= image);
    assert(image =~= "image"@);
    assert(image != "script"@);
    assert(image != "style"@);
    assert(s.subrange(7, 11) =~= href);
    assert(lower_seq(href) =~= href);
    assert(href =~= "href"@);
    assert(href != "src"@ && href != "poster"@ && href != "xlink:href"@ && href != "data"@);
    assert(image != "a"@ && image != "area"@ && image != "link"@);
    assert(classify(image, href) == Some(RefKind::Resource));
    assert(s.subrange(13, n) =~= v);
    let out0 = s.subrange(0, 6);
    let out1 = out0 + s.subrange(6, 7);
    let refs1 = Seq::<RefView>::empty().push(RefView { kind: RefKind::Resource, tag: image, attr: href, value: decode_amp(v) });
    let o1 = out1 + reply_text(s, span, R[0]);
    assert(attrs_rw(s, image, seq![span], 1, n + 1, R, o1, refs1) == (o1, n + 1, refs1));
    assert(attrs_rw(s, image, seq![span], 0, 6, R, out0, Seq::empty()) == (o1, n + 1, refs1));
    let o2 = o1 + s.subrange(n + 1, n + 3);
    assert(rw_step(s, 0, strip, R, Seq::empty(), Seq::empty()) == (n + 3, o2, refs1));
    assert(rw_from(s, n + 3, strip, R, o2, refs1) == (o2, refs1));
    assert(refs1 =~= seq![RefView { kind: RefKind::Resource, tag: image, attr: href, value: decode_amp(v) }]);
    assert(Seq::<char>::empty() + s.subrange(0, 6) =~= out0);
    assert(out1 =~= seq!['<', 'i', 'm', 'a', 'g', 'e', ' ']);
    assert(s.subrange(n + 1, n + 3) =~= seq!['/', '>']);
    match R[0] {
        Some(ReplyView::Value(w)) => {
            assert(s.subrange(7, 11) =~= href);
        },
        _ => {},
    }
}

/// Whether `R` holds the replies `reps` from index `base` on.
pub open spec fn extends(R: Seq<Option<ReplyView>>, base: int, reps: Seq<Option<Replacement>>) -> bool {
    &&& 0 <= base
    &&& R.len() >= base + reps.len()
    &&& forall|k: int| 0 <= k < reps.len() ==> #[trigger] R[base + k] == reply_view(reps[k])
}

/// Whether `f` only ever answers `None`.
pub open spec fn never_replaces<F: FnMut(Reference<'_>) -> Option<Replacement>>(f: F) -> bool {
    forall|x: Reference, y: Option<Replacement>| f.ensures((x,), y) ==> y is None
}

/// The `url()`s of `c` answered by `f` for a reference from element `tag`;
/// `base` is the number of replies before these.
fn css_core<F>(c: &Vec<char>, f: &mut F, tag: &str, Ghost(base): Ghost<int>) -> (r: (Vec<char>, Ghost<Seq<Option<Replacement>>>))
where
    F: FnMut(Reference<'_>) -> Option<Replacement>,
    requires
        forall|x: Reference| (*old(f)).requires((x,)),
        0 <= base,
    ensures
        *final(f) == *old(f),
        r.1@.len() == css_urls(c@, 0).len(),
        forall|R: Seq<Option<ReplyView>>|
            extends(R, base, r.1@) ==> #[trigger] css_rw(c@, 0, css_replies(R), base).0 == r.0@,
        forall|k: int|
            0 <= k < r.1@.len() ==> answered_ref(*old(f), css_refs(c@, tag@)[k], #[trigger] r.1@[k]),
        never_replaces(*old(f)) ==> r.0@ == c@,
        never_replaces(*old(f)) ==> forall|k: int| 0 <= k < r.1@.len() ==> #[trigger] r.1@[k] is None,
{
    let lower = crate::text::lower_from(c, 0);
    assert(c@.skip(0) =~= c@);
    proof {
        reveal_strlit("url(");
        reveal_strlit("\"");
        reveal_strlit("%22");
    }
    let pat = lit("url(");
    let dq = lit("\"");
    let esc = lit("%22");
    let mut out: Vec<char> = Vec::new();
    let mut j: usize = 0;
    let ghost mut reps: Seq<Option<Replacement>> = Seq::empty();
    let ghost mut seen: Seq<Seq<char>> = Seq::empty();
    let ghost all_none = never_replaces(*old(f));
    loop
        invariant
            lower@ == lower_seq(c@),
            pat@ == "url("@,
            "url("@.len() == 4,
            dq@ == "\""@,
            esc@ == "%22"@,
            j <= c@.len(),
            0 <= base,
            *f == *old(f),
            forall|x: Reference| (*f).requires((x,)),
            all_none == never_replaces(*old(f)),
            reps.len() == seen.len(),
            css_urls(c@, 0) == seen + css_urls(c@, j as int),
            forall|k: int|
                0 <= k < reps.len() ==> answered_ref(
                    *old(f),
                    RefView { kind: RefKind::CssUrl, tag: tag@, attr: "url"@, value: seen[k] },
                    #[trigger] reps[k],
                ),
            all_none ==> forall|k: int| 0 <= k < reps.len() ==> #[trigger] reps[k] is None,
            all_none ==> out@ == c@.take(j as int),
            forall|R: Seq<Option<ReplyView>>|
                extends(R, base, reps) ==> #[trigger] css_rw(c@, 0, css_replies(R), base)
                    == (out@ + css_rw(c@, j as int, css_replies(R), base + reps.len()).0,
                        css_rw(c@, j as int, css_replies(R), base + reps.len()).1),
        decreases c@.len() - j,
    {
        let found = next_url(c, &lower, &pat, j);
        match found {
            None => {
                let tail = sub_vec(c, j, c.len());
                push_all(&mut out, &tail);
                proof {
                    assert forall|R: Seq<Option<ReplyView>>|
                        extends(R, base, reps) implies #[trigger] css_rw(c@, 0, css_replies(R), base).0 == out@ by {
                        let RR = css_replies(R);
                        assert(css_rw(c@, j as int, RR, base + reps.len()).0 == c@.subrange(j as int, c@.len() as int));
                    }
                    assert(css_urls(c@, j as int) =~= Seq::<Seq<char>>::empty());
                    assert(css_urls(c@, 0) =~= seen);
                    assert forall|k: int| 0 <= k < reps.len() implies answered_ref(*old(f), css_refs(c@, tag@)[k], #[trigger] reps[k]) by {
                        assert(css_refs(c@, tag@)[k] == RefView { kind: RefKind::CssUrl, tag: tag@, attr: "url"@, value: seen[k] });
                    }
                    if all_none {
                        assert(out@ =~= c@);
                    }
                }
                return (out, Ghost(reps));
            },
            Some((w, close, next, quoted)) => {
                let vs = if quoted {
                    w + 1
                } else {
                    w
                };
                let value = trimmed(c, vs, close);
                let vstr = string_from_chars(value.as_slice());
                let vref = vstr.as_str();
                let refr = Reference { kind: RefKind::CssUrl, tag, attr: "url", value: vref };
                proof {
                    reveal_strlit("url");
                }
                let rep = (*f)(refr);
                let head = sub_vec(c, j, w);
                let ghost out0 = out@;
                push_all(&mut out, &head);
                let ghost rep_view: Option<Seq<char>> = css_reply(reply_view(rep));
                match &rep {
                    Some(Replacement::Value(new)) => {
                        let nc = chars_of(new.as_str());
                        let enc = replace_chars(&nc, &dq, &esc);
                        out.push('"');
                        push_all(&mut out, &enc);
                        out.push('"');
                    },
                    _ => {
                        let mid = sub_vec(c, w, next);
                        push_all(&mut out, &mid);
                    },
                }
                proof {
                    let k: int = reps.len() as int;
                    let reps2 = reps.push(rep);
                    assert forall|R: Seq<Option<ReplyView>>|
                        extends(R, base, reps2) implies #[trigger] css_rw(c@, 0, css_replies(R), base)
                            == (out@ + css_rw(c@, next as int, css_replies(R), base + reps2.len()).0,
                                css_rw(c@, next as int, css_replies(R), base + reps2.len()).1) by {
                        let RR = css_replies(R);
                        assert forall|m: int| 0 <= m < reps.len() implies #[trigger] R[base + m] == reply_view(reps[m]) by {
                            assert(reps2[m] == reps[m]);
                        }
                        assert(extends(R, base, reps));
                        assert(R[base + k] == reply_view(reps2[k]));
                        assert(RR[base + k] == rep_view);
                        let (rest, rj) = css_rw(c@, next as int, RR, base + k + 1);
                        assert(css_rw(c@, j as int, RR, base + k) == (c@.subrange(j as int, w as int) + (match RR[base + k] {
                            Some(new) => seq!['"'] + replace_all(new, "\""@, "%22"@) + seq!['"'],
                            None => c@.subrange(w as int, next as int),
                        }) + rest, rj));
                        assert(out@ =~= out0 + c@.subrange(j as int, w as int) + (match RR[base + k] {
                            Some(new) => seq!['"'] + replace_all(new, "\""@, "%22"@) + seq!['"'],
                            None => c@.subrange(w as int, next as int),
                        }));
                    }
                    assert(css_urls(c@, j as int) == seq![value@] + css_urls(c@, next as int));
                    assert(css_urls(c@, 0) =~= seen.push(value@) + css_urls(c@, next as int));
                    assert(ref_view(refr) == RefView { kind: RefKind::CssUrl, tag: tag@, attr: "url"@, value: value@ });
                    assert forall|m: int| 0 <= m < reps2.len() implies answered_ref(
                        *old(f),
                        RefView { kind: RefKind::CssUrl, tag: tag@, attr: "url"@, value: seen.push(value@)[m] },
                        #[trigger] reps2[m],
                    ) by {
                        if m < k {
                            assert(reps2[m] == reps[m]);
                            assert(seen.push(value@)[m] == seen[m]);
                        } else {
                            assert(reps2[m] == rep);
                        }
                    }
                    if all_none {
                        assert(rep is None);
                        assert(out@ =~= c@.take(next as int));
                        assert forall|m: int| 0 <= m < reps2.len() implies #[trigger] reps2[m] is None by {
                            if m < k {
                                assert(reps2[m] == reps[m]);
                            }
                        }
                    }
                    reps = reps2;
                    seen = seen.push(value@);
                }
                j = next;
            },
        }
    }
}


fn classify_exec(tag: &Vec<char>, attr: &Vec<char>) -> (r: Option<RefKind>)
    ensures
        r == classify(tag@, attr@),
{
    if chars_eq_str(attr, "src") || chars_eq_str(attr, "poster") || chars_eq_str(attr, "xlink:href")
        || chars_eq_str(attr, "data") {
        Some(RefKind::Resource)
    } else if chars_eq_str(attr, "href") {
        if chars_eq_str(tag, "a") || chars_eq_str(tag, "area") {
            Some(RefKind::Link)
        } else if chars_eq_str(tag, "link") || chars_eq_str(tag, "image") || chars_eq_str(tag, "use") {
            Some(RefKind::Resource)
        } else {
            None
        }
    } else {
        None
    }
}

/// ASCII-lowercased copy of `v[a..b]`.
fn lower_chars(v: &Vec<char>, a: usize, b: usize) -> (r: Vec<char>)
    requires
        a <= b <= v@.len(),
    ensures
        r@ == lower_seq(v@.subrange(a as int, b as int)),
{
    let mut r: Vec<char> = Vec::new();
    let mut i: usize = a;
    while i < b
        invariant
            a <= i <= b <= v@.len(),
            r@ == lower_seq(v@.subrange(a as int, i as int)),
        decreases b - i,
    {
        let c = to_ascii_lower(v[i]);
        r.push(c);
        i += 1;
        assert(r@ =~= lower_seq(v@.subrange(a as int, i as int)));
    }
    r
}

/// The text of a `Replacement::Attrs` reply.
fn push_attr_pairs(out: &mut Vec<char>, pairs: &Vec<(String, String)>)
    ensures
        final(out)@ == old(out)@ + join_attrs(pairs@.map_values(|x: (String, String)| (x.0@, x.1@))),
{
    let ghost p = pairs@.map_values(|x: (String, String)| (x.0@, x.1@));
    let mut k: usize = 0;
    assert(p.take(0) =~= Seq::<(Seq<char>, Seq<char>)>::empty());
    while k < pairs.len()
        invariant
            k <= pairs@.len(),
            p == pairs@.map_values(|x: (String, String)| (x.0@, x.1@)),
            out@ == old(out)@ + join_attrs(p.take(k as int)),
        decreases pairs@.len() - k,
    {
        let ghost before = out@;
        if k > 0 {
            out.push(' ');
        }
        let name = chars_of(pairs[k].0.as_str());
        let value = chars_of(pairs[k].1.as_str());
        push_attr(out, &name, &value);
        proof {
            assert(p.take(k + 1).drop_last() =~= p.take(k as int));
            assert(p.take(k + 1).last() == p[k as int]);
            if k == 0 {
                assert(join_attrs(p.take(1)) == attr_text(p[0].0, p[0].1));
                assert(out@ =~= old(out)@ + join_attrs(p.take(k + 1)));
            } else {
                assert(out@ =~= old(out)@ + join_attrs(p.take(k + 1)));
            }
        }
        k += 1;
    }
    assert(p.take(pairs@.len() as int) =~= p);
}

/// The attributes of a start tag named `tag` (lowercased; `tag_str` is the
/// same text), from `cursor0`: output appended to `out`, the cursor after
/// the last attribute, and the replies and references of the callback.
fn rewrite_attrs<F>(
    s: &Vec<char>,
    tag: &Vec<char>,
    tag_str: &str,
    attrs: &Vec<AttrPos>,
    cursor0: usize,
    end: usize,
    f: &mut F,
    out: &mut Vec<char>,
    Ghost(base): Ghost<int>,
) -> (r: (usize, Ghost<Seq<Option<Replacement>>>, Ghost<Seq<RefView>>))
where
    F: FnMut(Reference<'_>) -> Option<Replacement>,
    requires
        forall|x: Reference| (*old(f)).requires((x,)),
        0 <= base,
        tag_str@ == tag@,
        cursor0 <= end <= s@.len(),
        forall|k: int| 0 <= k < attrs@.len() ==> {
            let a = #[trigger] attrs@[k];
            &&& cursor0 <= a.start < a.name_end <= a.end <= end
            &&& (a.value matches Some((x, y)) ==> a.name_end <= x <= y <= a.end)
        },
        forall|k: int, m: int| 0 <= k < m < attrs@.len() ==> #[trigger] attrs@[k].end <= #[trigger] attrs@[m].start,
    ensures
        *final(f) == *old(f),
        cursor0 <= r.0 <= end,
        r.1@.len() == r.2@.len(),
        forall|R: Seq<Option<ReplyView>>, refs0: Seq<RefView>|
            extends(R, base, r.1@) && refs0.len() == base ==> #[trigger] attrs_rw(
                s@,
                tag@,
                attrs_view(attrs@),
                0,
                cursor0 as int,
                R,
                old(out)@,
                refs0,
            ) == (final(out)@, r.0 as int, refs0 + r.2@),
        forall|k: int| 0 <= k < r.1@.len() ==> answered_ref(*old(f), r.2@[k], #[trigger] r.1@[k]),
        never_replaces(*old(f)) ==> final(out)@ == old(out)@ + s@.subrange(cursor0 as int, r.0 as int),
        never_replaces(*old(f)) ==> forall|k: int| 0 <= k < r.1@.len() ==> #[trigger] r.1@[k] is None,
{
    let ghost out0 = out@;
    let ghost av = attrs_view(attrs@);
    let ghost all_none = never_replaces(*old(f));
    let mut cursor = cursor0;
    let mut k: usize = 0;
    let ghost mut reps: Seq<Option<Replacement>> = Seq::empty();
    let ghost mut refs: Seq<RefView> = Seq::empty();
    proof {
        reveal_strlit("style");
        reveal_strlit("url");
    }
    while k < attrs.len()
        invariant
            k <= attrs@.len(),
            av == attrs_view(attrs@),
            cursor0 <= cursor <= end <= s@.len(),
            k < attrs@.len() ==> cursor <= attrs@[k as int].start,
            forall|q: int| 0 <= q < attrs@.len() ==> {
                let a = #[trigger] attrs@[q];
                &&& cursor0 <= a.start < a.name_end <= a.end <= end
                &&& (a.value matches Some((x, y)) ==> a.name_end <= x <= y <= a.end)
            },
            forall|q: int, m: int| 0 <= q < m < attrs@.len() ==> #[trigger] attrs@[q].end <= #[trigger] attrs@[m].start,
            0 <= base,
            tag_str@ == tag@,
            *f == *old(f),
            forall|x: Reference| (*f).requires((x,)),
            all_none == never_replaces(*old(f)),
            reps.len() == refs.len(),
            forall|q: int| 0 <= q < reps.len() ==> answered_ref(*old(f), refs[q], #[trigger] reps[q]),
            all_none ==> out@ == out0 + s@.subrange(cursor0 as int, cursor as int),
            all_none ==> forall|q: int| 0 <= q < reps.len() ==> #[trigger] reps[q] is None,
            forall|R: Seq<Option<ReplyView>>, refs0: Seq<RefView>|
                extends(R, base, reps) && refs0.len() == base ==> #[trigger] attrs_rw(s@, tag@, av, 0, cursor0 as int, R, out0, refs0)
                    == attrs_rw(s@, tag@, av, k as int, cursor as int, R, out@, refs0 + refs),
        decreases attrs@.len() - k,
    {
        let a = &attrs[k];
        let astart = a.start;
        let aend = a.end;
        let gap = sub_vec(s, cursor, astart);
        let ghost out_k = out@;
        push_all(out, &gap);
        let ghost out1 = out@;
        let name = sub_vec(s, astart, a.name_end);
        let lname = lower_chars(s, astart, a.name_end);
        let raw = match a.value {
            Some((x, y)) => sub_vec(s, x, y),
            None => Vec::new(),
        };
        let value = decode_amp_exec(&raw);
        let kind = classify_exec(tag, &lname);
        let ghost span = av[k as int];
        assert(span == attr_pos_view(attrs@[k as int]));
        assert(raw@ == raw_value(s@, span));
        let has_value = a.value.is_some();
        let ghost reps_k = reps;
        let ghost refs_k = refs;
        if kind.is_some() && has_value {
            let kd = match kind {
                Some(x) => x,
                None => RefKind::Link,
            };
            let name_str = string_from_chars(name.as_slice());
            let value_str = string_from_chars(value.as_slice());
            let refr = Reference { kind: kd, tag: tag_str, attr: name_str.as_str(), value: value_str.as_str() };
            let rep = (*f)(refr);
            match &rep {
                None => {
                    let whole = sub_vec(s, astart, aend);
                    push_all(out, &whole);
                },
                Some(Replacement::Value(v)) => {
                    let vc = chars_of(v.as_str());
                    push_attr(out, &name, &vc);
                },
                Some(Replacement::Attrs(pairs)) => {
                    push_attr_pairs(out, pairs);
                },
            }
            proof {
                let rv = RefView { kind: kd, tag: tag@, attr: name@, value: value@ };
                assert(ref_view(refr) == rv);
                let reps2 = reps.push(rep);
                let refs2 = refs.push(rv);
                assert(out@ == out1 + reply_text(s@, span, reply_view(rep)));
                assert forall|R: Seq<Option<ReplyView>>, refs0: Seq<RefView>|
                    extends(R, base, reps2) && refs0.len() == base implies #[trigger] attrs_rw(s@, tag@, av, 0, cursor0 as int, R, out0, refs0)
                        == attrs_rw(s@, tag@, av, k + 1, aend as int, R, out@, refs0 + refs2) by {
                    assert forall|m: int| 0 <= m < reps.len() implies #[trigger] R[base + m] == reply_view(reps[m]) by {
                        assert(reps2[m] == reps[m]);
                    }
                    assert(extends(R, base, reps));
                    assert(R[base + reps.len()] == reply_view(reps2[reps.len() as int]));
                    assert((refs0 + refs).len() == base + reps.len());
                    assert(refs0 + refs2 =~= (refs0 + refs).push(rv));
                }
                assert forall|q: int| 0 <= q < reps2.len() implies answered_ref(*old(f), refs2[q], #[trigger] reps2[q]) by {
                    if q < reps.len() {
                        assert(reps2[q] == reps[q] && refs2[q] == refs[q]);
                    }
                }
                if all_none {
                    assert(rep is None);
                    assert(out@ =~= out0 + s@.subrange(cursor0 as int, aend as int));
                    assert forall|q: int| 0 <= q < reps2.len() implies #[trigger] reps2[q] is None by {
                        if q < reps.len() {
                            assert(reps2[q] == reps[q]);
                        }
                    }
                }
                reps = reps2;
                refs = refs2;
            }
        } else if kind.is_none() && has_value && chars_eq_str(&lname, "style") {
            let (rewritten, Ghost(creps)) = css_core(&value, f, tag_str, Ghost(base + reps.len()));
            let same = crate::text::chars_eq(&rewritten, &value);
            if !same {
                push_attr(out, &name, &rewritten);
            } else {
                let whole = sub_vec(s, astart, aend);
                push_all(out, &whole);
            }
            proof {
                let crefs = css_refs(value@, tag@);
                let reps2 = reps + creps;
                let refs2 = refs + crefs;
                assert forall|R: Seq<Option<ReplyView>>, refs0: Seq<RefView>|
                    extends(R, base, reps2) && refs0.len() == base implies #[trigger] attrs_rw(s@, tag@, av, 0, cursor0 as int, R, out0, refs0)
                        == attrs_rw(s@, tag@, av, k + 1, aend as int, R, out@, refs0 + refs2) by {
                    assert forall|m: int| 0 <= m < reps.len() implies #[trigger] R[base + m] == reply_view(reps[m]) by {
                        assert(reps2[m] == reps[m]);
                    }
                    assert(extends(R, base, reps));
                    assert forall|m: int| 0 <= m < creps.len() implies #[trigger] R[(base + reps.len()) + m] == reply_view(creps[m]) by {
                        assert(reps2[reps.len() + m] == creps[m]);
                        assert(R[base + (reps.len() + m)] == reply_view(reps2[reps.len() + m]));
                    }
                    assert(extends(R, base + reps.len(), creps));
                    assert((refs0 + refs).len() == base + reps.len());
                    assert(refs0 + refs2 =~= (refs0 + refs) + crefs);
                    let rw = css_rw(value@, 0, css_replies(R), (base + reps.len()) as int).0;
                    assert(rw == rewritten@);
                }
                assert forall|q: int| 0 <= q < reps2.len() implies answered_ref(*old(f), refs2[q], #[trigger] reps2[q]) by {
                    if q < reps.len() {
                        assert(reps2[q] == reps[q] && refs2[q] == refs[q]);
                    } else {
                        assert(reps2[q] == creps[q - reps.len()] && refs2[q] == crefs[q - reps.len()]);
                    }
                }
                if all_none {
                    assert(out@ =~= out0 + s@.subrange(cursor0 as int, aend as int));
                    assert forall|q: int| 0 <= q < reps2.len() implies #[trigger] reps2[q] is None by {
                        if q < reps.len() {
                            assert(reps2[q] == reps[q]);
                        } else {
                            assert(reps2[q] == creps[q - reps.len()]);
                        }
                    }
                }
                reps = reps2;
                refs = refs2;
            }
        } else {
            let whole = sub_vec(s, astart, aend);
            push_all(out, &whole);
            proof {
                assert forall|R: Seq<Option<ReplyView>>, refs0: Seq<RefView>|
                    extends(R, base, reps) && refs0.len() == base implies #[trigger] attrs_rw(s@, tag@, av, 0, cursor0 as int, R, out0, refs0)
                        == attrs_rw(s@, tag@, av, k + 1, aend as int, R, out@, refs0 + refs) by {
                }
                if all_none {
                    assert(out@ =~= out0 + s@.subrange(cursor0 as int, aend as int));
                }
            }
        }
        cursor = aend;
        k += 1;
    }
    (cursor, Ghost(reps), Ghost(refs))
}


/// The literal patterns of the scan.
struct Lits {
    comment: Vec<char>,
    comment_end: Vec<char>,
    cdata: Vec<char>,
    cdata_end: Vec<char>,
    pi: Vec<char>,
    pi_end: Vec<char>,
    bang: Vec<char>,
    close: Vec<char>,
    gt: Vec<char>,
    lt: Vec<char>,
    close_script: Vec<char>,
    close_style: Vec<char>,
}

impl Lits {
    spec fn ok(&self) -> bool {
        &&& self.comment@ == "<!--"@
        &&& self.comment_end@ == "-->"@
        &&& self.cdata@ == "<![CDATA["@
        &&& self.cdata_end@ == "]]>"@
        &&& self.pi@ == "<?"@
        &&& self.pi_end@ == "?>"@
        &&& self.bang@ == "<!"@
        &&& self.close@ == "</"@
        &&& self.gt@ == ">"@
        &&& self.lt@ == "<"@
        &&& self.close_script@ == lower_seq("</"@ + "script"@)
        &&& self.close_style@ == lower_seq("</"@ + "style"@)
        &&& "-->"@.len() == 3
        &&& "]]>"@.len() == 3
        &&& "?>"@.len() == 2
        &&& ">"@ == seq!['>']
        &&& "<"@ == seq!['<']
        &&& "</script"@.len() > 0
        &&& "</style"@.len() > 0
        &&& self.close_script@.len() > 0
        &&& self.close_style@.len() > 0
    }

    fn new() -> (l: Lits)
        ensures
            l.ok(),
    {
        proof {
            reveal_strlit("-->");
            reveal_strlit("]]>");
            reveal_strlit("?>");
            reveal_strlit(">");
            reveal_strlit("<");
            reveal_strlit("</");
            reveal_strlit("script");
            reveal_strlit("style");
            reveal_strlit("</script");
            reveal_strlit("</style");
        }
        let l = Lits {
            comment: lit("<!--"),
            comment_end: lit("-->"),
            cdata: lit("<![CDATA["),
            cdata_end: lit("]]>"),
            pi: lit("<?"),
            pi_end: lit("?>"),
            bang: lit("<!"),
            close: lit("</"),
            gt: lit(">"),
            lt: lit("<"),
            close_script: lit("</script"),
            close_style: lit("</style"),
        };
        assert(">"@ =~= seq!['>']);
        assert("<"@ =~= seq!['<']);
        assert(l.close_script@ =~= lower_seq("</"@ + "script"@));
        assert(l.close_style@ =~= lower_seq("</"@ + "style"@));
        l
    }
}

/// The start tag at `i`: `(name end, attributes, end, self-closing)`.
fn parse_tag_exec(s: &Vec<char>, i: usize) -> (r: Option<(usize, Vec<AttrPos>, usize, bool)>)
    requires
        i < s@.len(),
    ensures
        match r {
            Some((ne, attrs, end, sc)) => {
                &&& parse_tag(s@, i as int) == Some(
                    TagSpan { name_end: ne as int, attrs: attrs_view(attrs@), end: end as int, self_closing: sc },
                )
                &&& i + 1 < ne < end <= s@.len()
                &&& forall|k: int| 0 <= k < attrs@.len() ==> {
                    let a = #[trigger] attrs@[k];
                    &&& ne <= a.start < a.name_end <= a.end <= end
                    &&& (a.value matches Some((x, y)) ==> a.name_end <= x <= y <= a.end)
                }
                &&& forall|k: int, m: int| 0 <= k < m < attrs@.len() ==> #[trigger] attrs@[k].end <= #[trigger] attrs@[m].start
            },
            None => parse_tag(s@, i as int) is None,
        },
{
    let n = s.len();
    let mut j: usize = i + 1;
    while j < n && !is_ascii_ws(s[j]) && s[j] != '>' && s[j] != '/'
        invariant
            n == s@.len(),
            i + 1 <= j <= n,
            tag_name_end(s@, i + 1) == tag_name_end(s@, j as int),
        decreases n - j,
    {
        j += 1;
    }
    if j <= i + 1 {
        return None;
    }
    match tag_attrs_exec(s, j) {
        Some((attrs, end, sc)) => Some((j, attrs, end, sc)),
        None => None,
    }
}

/// `find_close` on the lowercased document.
fn find_close_exec(s: &Vec<char>, lower: &Vec<char>, k: usize, pat: &Vec<char>, Ghost(tag): Ghost<Seq<char>>) -> (r: usize)
    requires
        lower@ == lower_seq(s@),
        k <= s@.len(),
        pat@ == lower_seq("</"@ + tag),
        pat@.len() > 0,
    ensures
        r as int == find_close(s@, k as int, tag),
        k <= r <= s@.len(),
{
    proof {
        lemma_find_seq_from_range(lower@, k as int, pat@);
    }
    match find_from(lower, k, pat) {
        Some(p) => p,
        None => s.len(),
    }
}

fn skip_past_close_exec(s: &Vec<char>, lower: &Vec<char>, k: usize, pat: &Vec<char>, gt: &Vec<char>, Ghost(tag): Ghost<Seq<char>>) -> (r: usize)
    requires
        lower@ == lower_seq(s@),
        k <= s@.len(),
        pat@ == lower_seq("</"@ + tag),
        pat@.len() > 0,
        gt@ == ">"@,
        ">"@ == seq!['>'],
    ensures
        r as int == skip_past_close(s@, k as int, tag),
        k <= r <= s@.len(),
{
    let b = find_close_exec(s, lower, k, pat, Ghost(tag));
    proof {
        lemma_find_seq_from_range(s@, b as int, gt@);
    }
    assert(gt@.len() == 1 && s@.len() == s.len());
    match find_from(s, b, gt) {
        Some(g) => g + 1,
        None => s.len(),
    }
}

/// The abstract replies.
pub open spec fn reply_views(reps: Seq<Option<Replacement>>) -> Seq<Option<ReplyView>> {
    reps.map_values(|q: Option<Replacement>| reply_view(q))
}

/// One step of the rewrite at `i`.
#[verifier::rlimit(60)]
fn rewrite_step<F>(
    s: &Vec<char>,
    lower: &Vec<char>,
    lits: &Lits,
    i: usize,
    strip: bool,
    f: &mut F,
    out: &mut Vec<char>,
    Ghost(base): Ghost<int>,
) -> (r: (usize, Ghost<Seq<Option<Replacement>>>, Ghost<Seq<RefView>>))
where
    F: FnMut(Reference<'_>) -> Option<Replacement>,
    requires
        forall|x: Reference| (*old(f)).requires((x,)),
        0 <= base,
        lits.ok(),
        lower@ == lower_seq(s@),
        i < s@.len(),
    ensures
        *final(f) == *old(f),
        i < r.0 <= s@.len(),
        r.1@.len() == r.2@.len(),
        forall|R: Seq<Option<ReplyView>>, refs0: Seq<RefView>|
            extends(R, base, r.1@) && refs0.len() == base ==> #[trigger] rw_step(s@, i as int, strip, R, old(out)@, refs0)
                == (r.0 as int, final(out)@, refs0 + r.2@),
        forall|k: int| 0 <= k < r.1@.len() ==> answered_ref(*old(f), r.2@[k], #[trigger] r.1@[k]),
        never_replaces(*old(f)) && !strip ==> final(out)@ == old(out)@ + s@.subrange(i as int, r.0 as int),
        never_replaces(*old(f)) ==> forall|k: int| 0 <= k < r.1@.len() ==> #[trigger] r.1@[k] is None,
{
    let n = s.len();
    let ghost out0 = out@;
    let ghost none_reps: Seq<Option<Replacement>> = Seq::empty();
    let ghost none_refs: Seq<RefView> = Seq::empty();
    proof {
        assert forall|refs0: Seq<RefView>| #[trigger] (refs0 + none_refs) == refs0 by {
            assert(refs0 + none_refs =~= refs0);
        }
    }
    if s[i] != '<' {
        proof {
            lemma_find_skip(s@, i as int, '<');
            lemma_find_seq_from_range(s@, i + 1, seq!['<']);
        }
        let t = match find_from(s, i, &lits.lt) {
            Some(p) => p,
            None => n,
        };
        let piece = sub_vec(s, i, t);
        push_all(out, &piece);
        return (t, Ghost(none_reps), Ghost(none_refs));
    }
    let skip_end = if matches_at(s, i, &lits.comment) {
        Some(&lits.comment_end)
    } else if matches_at(s, i, &lits.cdata) {
        Some(&lits.cdata_end)
    } else if matches_at(s, i, &lits.pi) {
        Some(&lits.pi_end)
    } else if matches_at(s, i, &lits.bang) || matches_at(s, i, &lits.close) {
        Some(&lits.gt)
    } else {
        None
    };
    match skip_end {
        Some(pat) => {
            let e = after_find_exec(s, i, pat);
            let piece = sub_vec(s, i, e);
            push_all(out, &piece);
            return (e, Ghost(none_reps), Ghost(none_refs));
        },
        None => {},
    }
    match parse_tag_exec(s, i) {
        None => {
            out.push('<');
            proof {
                assert(s@.subrange(i as int, i + 1) =~= seq!['<']);
            }
            (i + 1, Ghost(none_reps), Ghost(none_refs))
        },
        Some((ne, attrs, end, sc)) => {
            let name = lower_chars(s, i + 1, ne);
            let is_script = chars_eq_str(&name, "script");
            let is_style = chars_eq_str(&name, "style");
            if strip && is_script {
                let next = if sc {
                    end
                } else {
                    skip_past_close_exec(s, lower, end, &lits.close_script, &lits.gt, Ghost("script"@))
                };
                return (next, Ghost(none_reps), Ghost(none_refs));
            }
            let name_str = string_from_chars(name.as_slice());
            let head = sub_vec(s, i, ne);
            push_all(out, &head);
            let ghost out1 = out@;
            let (cur, Ghost(areps), Ghost(arefs)) = rewrite_attrs(
                s,
                &name,
                name_str.as_str(),
                &attrs,
                ne,
                end,
                f,
                out,
                Ghost(base),
            );
            let tailp = sub_vec(s, cur, end);
            push_all(out, &tailp);
            let ghost out2 = out@;
            if is_style && !sc {
                let be = find_close_exec(s, lower, end, &lits.close_style, Ghost("style"@));
                let css = sub_vec(s, end, be);
                let (rew, Ghost(creps)) = css_core(&css, f, "style", Ghost(base + areps.len()));
                push_all(out, &rew);
                proof {
                    reveal_strlit("style");
                    let crefs = css_refs(css@, "style"@);
                    let reps2 = areps + creps;
                    let refs2 = arefs + crefs;
                    assert forall|R: Seq<Option<ReplyView>>, refs0: Seq<RefView>|
                        extends(R, base, reps2) && refs0.len() == base implies #[trigger] rw_step(s@, i as int, strip, R, out0, refs0)
                            == (be as int, out@, refs0 + refs2) by {
                        assert forall|m: int| 0 <= m < areps.len() implies #[trigger] R[base + m] == reply_view(areps[m]) by {
                            assert(reps2[m] == areps[m]);
                        }
                        assert(extends(R, base, areps));
                        assert forall|m: int| 0 <= m < creps.len() implies #[trigger] R[(base + areps.len()) + m] == reply_view(creps[m]) by {
                            assert(reps2[areps.len() + m] == creps[m]);
                            assert(R[base + (areps.len() + m)] == reply_view(reps2[areps.len() + m]));
                        }
                        assert(extends(R, base + areps.len(), creps));
                        assert(refs0 + refs2 =~= (refs0 + arefs) + crefs);
                    }
                    assert forall|q: int| 0 <= q < reps2.len() implies answered_ref(*old(f), refs2[q], #[trigger] reps2[q]) by {
                        if q < areps.len() {
                            assert(reps2[q] == areps[q] && refs2[q] == arefs[q]);
                        } else {
                            assert(reps2[q] == creps[q - areps.len()] && refs2[q] == crefs[q - areps.len()]);
                        }
                    }
                    if never_replaces(*old(f)) {
                        assert forall|q: int| 0 <= q < reps2.len() implies #[trigger] reps2[q] is None by {
                            if q < areps.len() {
                                assert(reps2[q] == areps[q]);
                            } else {
                                assert(reps2[q] == creps[q - areps.len()]);
                            }
                        }
                        if !strip {
                            assert(out@ =~= out0 + s@.subrange(i as int, be as int));
                        }
                    }
                }
                (be, Ghost(areps + creps), Ghost(arefs + css_refs(css@, "style"@)))
            } else {
                proof {
                    if never_replaces(*old(f)) && !strip {
                        assert(out@ =~= out0 + s@.subrange(i as int, end as int));
                    }
                }
                (end, Ghost(areps), Ghost(arefs))
            }
        },
    }
}


/// Rewrite an HTML/XHTML document. `f` is called for every reference; return
/// `None` to leave it untouched. `<script>` elements are removed entirely when
/// `strip_scripts` is set.
pub fn rewrite_html<F>(html: &str, strip_scripts: bool, mut f: F) -> (r: String)
where
    F: FnMut(Reference<'_>) -> Option<Replacement>,
    requires
        forall|x: Reference| f.requires((x,)),
    ensures
        exists|reps: Seq<Option<Replacement>>|
            {
                &&& #[trigger] spec_rewrite(html@, strip_scripts, reply_views(reps)).0 == r@
                &&& spec_rewrite(html@, strip_scripts, reply_views(reps)).1.len() == reps.len()
                &&& forall|k: int|
                    0 <= k < reps.len() ==> answered_ref(
                        f,
                        spec_rewrite(html@, strip_scripts, reply_views(reps)).1[k],
                        #[trigger] reps[k],
                    )
            },
        never_replaces(f) && !strip_scripts ==> r@ == html@,
{
    let ghost f0 = f;
    let s = chars_of(html);
    let lower = crate::text::lower_from(&s, 0);
    assert(s@.skip(0) =~= s@);
    let lits = Lits::new();
    let mut out: Vec<char> = Vec::new();
    let mut i: usize = 0;
    let ghost mut reps: Seq<Option<Replacement>> = Seq::empty();
    let ghost mut refs: Seq<RefView> = Seq::empty();
    let ghost all_none = never_replaces(f0);
    while i < s.len()
        invariant
            s@ == html@,
            lower@ == lower_seq(s@),
            lits.ok(),
            i <= s@.len(),
            f == f0,
            forall|x: Reference| f.requires((x,)),
            all_none == never_replaces(f0),
            reps.len() == refs.len(),
            forall|k: int| 0 <= k < reps.len() ==> answered_ref(f0, refs[k], #[trigger] reps[k]),
            all_none ==> forall|k: int| 0 <= k < reps.len() ==> #[trigger] reps[k] is None,
            all_none && !strip_scripts ==> out@ == s@.take(i as int),
            forall|R: Seq<Option<ReplyView>>|
                extends(R, 0, reps) ==> #[trigger] spec_rewrite(s@, strip_scripts, R) == rw_from(
                    s@,
                    i as int,
                    strip_scripts,
                    R,
                    out@,
                    refs,
                ),
        decreases s@.len() - i,
    {
        let ghost out0 = out@;
        let (next, Ghost(nreps), Ghost(nrefs)) = rewrite_step(
            &s,
            &lower,
            &lits,
            i,
            strip_scripts,
            &mut f,
            &mut out,
            Ghost(reps.len() as int),
        );
        proof {
            let reps2 = reps + nreps;
            let refs2 = refs + nrefs;
            assert forall|R: Seq<Option<ReplyView>>|
                extends(R, 0, reps2) implies #[trigger] spec_rewrite(s@, strip_scripts, R) == rw_from(
                    s@,
                    next as int,
                    strip_scripts,
                    R,
                    out@,
                    refs2,
                ) by {
                assert forall|m: int| 0 <= m < reps.len() implies #[trigger] R[0 + m] == reply_view(reps[m]) by {
                    assert(reps2[m] == reps[m]);
                }
                assert(extends(R, 0, reps));
                assert forall|m: int| 0 <= m < nreps.len() implies #[trigger] R[reps.len() + m] == reply_view(nreps[m]) by {
                    assert(reps2[reps.len() + m] == nreps[m]);
                    assert(R[0 + (reps.len() + m)] == reply_view(reps2[reps.len() + m]));
                }
                assert(extends(R, reps.len() as int, nreps));
                assert(rw_step(s@, i as int, strip_scripts, R, out0, refs) == (next as int, out@, refs + nrefs));
            }
            assert forall|q: int| 0 <= q < reps2.len() implies answered_ref(f0, refs2[q], #[trigger] reps2[q]) by {
                if q < reps.len() {
                    assert(reps2[q] == reps[q] && refs2[q] == refs[q]);
                } else {
                    assert(reps2[q] == nreps[q - reps.len()] && refs2[q] == nrefs[q - reps.len()]);
                }
            }
            if all_none {
                assert forall|q: int| 0 <= q < reps2.len() implies #[trigger] reps2[q] is None by {
                    if q < reps.len() {
                        assert(reps2[q] == reps[q]);
                    } else {
                        assert(reps2[q] == nreps[q - reps.len()]);
                    }
                }
                if !strip_scripts {
                    assert(out@ =~= s@.take(next as int));
                }
            }
            reps = reps2;
            refs = refs2;
        }
        i = next;
    }
    proof {
        let R = reply_views(reps);
        assert forall|m: int| 0 <= m < reps.len() implies #[trigger] R[0 + m] == reply_view(reps[m]) by {}
        assert(extends(R, 0, reps));
        assert(spec_rewrite(s@, strip_scripts, R) == (out@, refs));
        if all_none && !strip_scripts {
            assert(s@.take(s@.len() as int) =~= s@);
        }
    }
    let r = string_from_chars(out.as_slice());
    proof {
        let R = reply_views(reps);
        assert(spec_rewrite(html@, strip_scripts, R).0 == r@);
        assert(spec_rewrite(html@, strip_scripts, R).1 == refs);
        assert forall|k: int| 0 <= k < reps.len() implies answered_ref(
            f0,
            spec_rewrite(html@, strip_scripts, reply_views(reps)).1[k],
            #[trigger] reps[k],
        ) by {}
    }
    r
}

/// `html` with `fragment` inserted just before `</head>`; if there is no
/// head, one made before `<body`; otherwise the fragment prepended (ASCII
/// case-insensitive matching).
pub open spec fn spec_inject(html: Seq<char>, fragment: Seq<char>) -> Seq<char> {
    let l = lower_seq(html);
    let h = find_seq_from(l, 0, "</head>"@);
    let b = find_seq_from(l, 0, "<body"@);
    if fragment.len() == 0 {
        html
    } else if h >= 0 {
        html.take(h) + fragment + html.skip(h)
    } else if b >= 0 {
        html.take(b) + "<head>"@ + fragment + "</head>"@ + html.skip(b)
    } else {
        fragment + html
    }
}

/// Insert `fragment` just before `</head>`; if there is no head, create one
/// before `<body`; otherwise prepend.
pub fn inject_into_head(html: &str, fragment: &str) -> (r: String)
    ensures
        r@ == spec_inject(html@, fragment@),
{
    let s = chars_of(html);
    let fr = chars_of(fragment);
    if fr.len() == 0 {
        return string_from_chars(s.as_slice());
    }
    let lower = crate::text::lower_from(&s, 0);
    assert(s@.skip(0) =~= s@);
    proof {
        reveal_strlit("</head>");
        reveal_strlit("<body");
    }
    let head_close = lit("</head>");
    let body_open = lit("<body");
    let mut out: Vec<char> = Vec::new();
    match find_from(&lower, 0, &head_close) {
        Some(h) => {
            proof {
                lemma_find_seq_from_range(lower@, 0, head_close@);
            }
            let a = sub_vec(&s, 0, h);
            let b = sub_vec(&s, h, s.len());
            push_all(&mut out, &a);
            push_all(&mut out, &fr);
            push_all(&mut out, &b);
            assert(out@ =~= spec_inject(html@, fragment@));
        },
        None => match find_from(&lower, 0, &body_open) {
            Some(p) => {
                proof {
                    lemma_find_seq_from_range(lower@, 0, body_open@);
                }
                let a = sub_vec(&s, 0, p);
                let b = sub_vec(&s, p, s.len());
                push_all(&mut out, &a);
                push_all(&mut out, &lit("<head>"));
                push_all(&mut out, &fr);
                push_all(&mut out, &head_close);
                push_all(&mut out, &b);
                assert(out@ =~= spec_inject(html@, fragment@));
            },
            None => {
                push_all(&mut out, &fr);
                push_all(&mut out, &s);
                assert(out@ =~= spec_inject(html@, fragment@));
            },
        },
    }
    string_from_chars(out.as_slice())
}

} // verus!
