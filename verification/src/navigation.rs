//! Navigation (table of contents) entries.

use vstd::prelude::*;

use vstd::utf8::*;

use crate::dom::{
    all_at, all_at_exec, attr, attr_exec, child_from, dom_derefs, dom_forest, dom_view, first_child, first_from,
    first_in, html_document, html_dom, is_wanted, is_wanted_exec, kids, lemma_child_from, lemma_dom_forest,
    texts_at, texts_at_exec, DomView, HtmlNode, Want,
};
use crate::error::{err_view, EpubError, ErrView};
use crate::package::{strs, trim_ws, words};
use crate::path::{fragment_part, is_external, law_resolved_paths_are_normalized, resolve, spec_is_external, spec_normalize, spec_resolve_path};
use crate::text::{
    chars_of, contains_chars, contains_seq, push_all, str_eq, string_from_chars, string_from_utf8,
};
use crate::xml::{
    last_colon, lossy_utf8, token_view, tokens_view, utf8_lossy, spec_xml_tokens, xml_tokens, TokenView, XmlToken,
};

verus! {

/// A navigation item (TOC entry)
#[derive(Debug)]
pub struct NavItem {
    pub id: Option<String>,
    /// Target. After a book loads it this is a normalized archive path plus
    /// optional `#fragment` (e.g. `OEBPS/ch1.xhtml#sec2`); empty for
    /// heading-only entries.
    pub href: String,
    pub label: String,
    pub children: Vec<NavItem>,
}

/// Number of items in a forest.
pub open spec fn forest_size(items: Seq<NavItem>) -> nat
    decreases items,
{
    if items.len() == 0 {
        0
    } else {
        forest_size(items.drop_last()) + 1 + forest_size(items.last().children@)
    }
}


/// A navigation item, abstractly.
pub struct NavView {
    pub id: Option<Seq<char>>,
    pub href: Seq<char>,
    pub label: Seq<char>,
    pub children: Seq<NavView>,
}

pub open spec fn opt_view(o: Option<String>) -> Option<Seq<char>> {
    match o {
        Some(s) => Some(s@),
        None => None,
    }
}

/// The abstract form of an item.
pub open spec fn nav_view(n: NavItem) -> NavView
    decreases n, 1int,
{
    NavView { id: opt_view(n.id), href: n.href@, label: n.label@, children: forest_view(n.children@) }
}

/// The abstract form of a list of items.
pub open spec fn forest_view(items: Seq<NavItem>) -> Seq<NavView>
    decreases items, 0int,
{
    if items.len() == 0 {
        Seq::empty()
    } else {
        forest_view(items.drop_last()).push(nav_view(items.last()))
    }
}

/// The items of a list in pre-order (each item before its children).
pub open spec fn preorder(items: Seq<NavItem>) -> Seq<NavItem>
    decreases items,
{
    if items.len() == 0 {
        Seq::empty()
    } else {
        preorder(items.drop_last()) + seq![items.last()] + preorder(items.last().children@)
    }
}

/// Where an href resolves against `base_dir`: the normalized archive path
/// plus any `#fragment`; empty and external hrefs stay as they are.
pub open spec fn resolved_href(href: Seq<char>, base_dir: Seq<char>) -> Seq<char> {
    if href.len() == 0 || spec_is_external(href) {
        href
    } else {
        let p = spec_resolve_path(base_dir, href);
        match fragment_part(href) {
            Some(f) => p + seq!['#'] + f,
            None => p,
        }
    }
}

/// Every href of a tree resolved against `base_dir`.
pub open spec fn resolved_item(n: NavView, base_dir: Seq<char>) -> NavView
    decreases n, 1int,
{
    NavView { href: resolved_href(n.href, base_dir), children: resolved_forest(n.children, base_dir), ..n }
}

/// Every href of a list of trees resolved against `base_dir`.
pub open spec fn resolved_forest(items: Seq<NavView>, base_dir: Seq<char>) -> Seq<NavView>
    decreases items, 0int,
{
    if items.len() == 0 {
        Seq::empty()
    } else {
        resolved_forest(items.drop_last(), base_dir).push(resolved_item(items.last(), base_dir))
    }
}

/// An href as the book hands it out: empty (a heading), external, or a
/// normalized archive path with an optional `#fragment`.
pub open spec fn is_archive_href(h: Seq<char>) -> bool {
    ||| h.len() == 0
    ||| spec_is_external(h)
    ||| exists|p: Seq<char>, f: Option<Seq<char>>| spec_normalize(p) == p && h == #[trigger] with_fragment(p, f)
}

/// A path with an optional `#fragment`.
pub open spec fn with_fragment(p: Seq<char>, f: Option<Seq<char>>) -> Seq<char> {
    match f {
        Some(f) => p + seq!['#'] + f,
        None => p,
    }
}

/// Every href in a list of trees is an archive href.
pub open spec fn archive_hrefs(items: Seq<NavView>) -> bool
    decreases items, 0int,
{
    if items.len() == 0 {
        true
    } else {
        archive_hrefs(items.drop_last()) && node_archive_hrefs(items.last())
    }
}

/// Every href in a tree is an archive href.
pub open spec fn node_archive_hrefs(n: NavView) -> bool
    decreases n, 1int,
{
    is_archive_href(n.href) && archive_hrefs(n.children)
}

/// A resolved href is an archive href.
pub proof fn law_resolved_href_is_archive_href(href: Seq<char>, base_dir: Seq<char>)
    ensures
        is_archive_href(resolved_href(href, base_dir)),
{
    if !(href.len() == 0 || spec_is_external(href)) {
        let p = spec_resolve_path(base_dir, href);
        law_resolved_paths_are_normalized(base_dir, href);
        let f = fragment_part(href);
        assert(spec_normalize(p) == p && resolved_href(href, base_dir) == with_fragment(p, f));
    }
}

proof fn lemma_resolved_item_hrefs(n: NavView, base_dir: Seq<char>)
    ensures
        node_archive_hrefs(resolved_item(n, base_dir)),
    decreases n, 1int,
{
    law_resolved_href_is_archive_href(n.href, base_dir);
    lemma_resolved_forest_hrefs(n.children, base_dir);
}

/// After resolution every href of a table of contents is empty, external,
/// or a normalized archive path with an optional `#fragment`.
pub proof fn lemma_resolved_forest_hrefs(items: Seq<NavView>, base_dir: Seq<char>)
    ensures
        archive_hrefs(resolved_forest(items, base_dir)),
    decreases items, 0int,
{
    if items.len() > 0 {
        lemma_resolved_forest_hrefs(items.drop_last(), base_dir);
        lemma_resolved_item_hrefs(items.last(), base_dir);
        let r = resolved_forest(items, base_dir);
        assert(r.drop_last() =~= resolved_forest(items.drop_last(), base_dir));
    }
}

proof fn lemma_forest_size_child(items: Seq<NavItem>, k: int)
    requires
        0 <= k < items.len(),
    ensures
        forest_size(items[k].children@) < forest_size(items),
    decreases items,
{
    if k < items.len() - 1 {
        lemma_forest_size_child(items.drop_last(), k);
        assert(items.drop_last()[k] == items[k]);
    }
}

proof fn lemma_forest_view_push(items: Seq<NavItem>, n: NavItem)
    ensures
        forest_view(items.push(n)) == forest_view(items).push(nav_view(n)),
{
    assert(items.push(n).drop_last() =~= items);
}

proof fn lemma_resolved_forest_push(items: Seq<NavView>, n: NavView, base: Seq<char>)
    ensures
        resolved_forest(items.push(n), base) == resolved_forest(items, base).push(resolved_item(n, base)),
{
    assert(items.push(n).drop_last() =~= items);
}

proof fn lemma_forest_view_pop(items: Seq<NavItem>)
    requires
        items.len() > 0,
    ensures
        forest_view(items.drop_last()) == forest_view(items).drop_last(),
        forest_view(items).last() == nav_view(items.last()),
{
    assert(forest_view(items).drop_last() =~= forest_view(items.drop_last()));
}

pub proof fn lemma_forest_view_len(items: Seq<NavItem>)
    ensures
        forest_view(items).len() == items.len(),
    decreases items.len(),
{
    if items.len() > 0 {
        lemma_forest_view_len(items.drop_last());
    }
}

proof fn lemma_forest_view_index(items: Seq<NavItem>, k: int)
    requires
        0 <= k < items.len(),
    ensures
        forest_view(items)[k] == nav_view(items[k]),
    decreases items.len(),
{
    lemma_forest_view_len(items.drop_last());
    if k < items.len() - 1 {
        lemma_forest_view_index(items.drop_last(), k);
    }
}

proof fn lemma_forest_view_skip(items: Seq<NavItem>, k: int)
    requires
        0 <= k <= items.len(),
    ensures
        forest_view(items) == forest_view(items.take(k)) + forest_view(items.skip(k)),
    decreases items.len(),
{
    if k < items.len() {
        lemma_forest_view_skip(items.drop_last(), k);
        assert(items.drop_last().take(k) =~= items.take(k));
        assert(items.skip(k).drop_last() =~= items.drop_last().skip(k));
        assert(items.skip(k).last() == items.last());
    } else {
        assert(items.take(k) =~= items);
        assert(items.skip(k) =~= Seq::<NavItem>::empty());
        assert(forest_view(items) + Seq::<NavView>::empty() =~= forest_view(items));
    }
}

/// The items a list of references points to.
pub open spec fn derefs(s: Seq<&NavItem>) -> Seq<NavItem> {
    s.map_values(|x: &NavItem| *x)
}

proof fn lemma_derefs_push(s: Seq<&NavItem>, x: &NavItem)
    ensures
        derefs(s.push(x)) == derefs(s).push(*x),
{
    assert(derefs(s.push(x)) =~= derefs(s).push(*x));
}

impl NavItem {
    /// Create a new navigation item
    pub fn new(label: &str, href: &str) -> (n: NavItem)
        ensures
            n.id is None,
            n.label@ == label@,
            n.href@ == href@,
            n.children@.len() == 0,
    {
        NavItem { id: None, href: href.to_owned(), label: label.to_owned(), children: Vec::new() }
    }

    /// Flatten the navigation tree into a list (pre-order)
    pub fn flatten(&self) -> (r: Vec<&NavItem>)
        ensures
            derefs(r@) == preorder(seq![*self]),
        decreases self,
    {
        let mut items: Vec<&NavItem> = Vec::new();
        items.push(self);
        assert(derefs(items@) =~= seq![*self]);
        assert(preorder(Seq::<NavItem>::empty()) =~= Seq::<NavItem>::empty());
        let mut k: usize = 0;
        assert(self.children@.take(0) =~= Seq::<NavItem>::empty());
        while k < self.children.len()
            invariant
                k <= self.children@.len(),
                derefs(items@) == seq![*self] + preorder(self.children@.take(k as int)),
            decreases self.children@.len() - k,
        {
            let child = &self.children[k];
            assert(decreases_to!(*self => self.children@[k as int]));
            let sub = child.flatten();
            let mut j: usize = 0;
            let ghost before = derefs(items@);
            while j < sub.len()
                invariant
                    j <= sub@.len(),
                    derefs(items@) == before + derefs(sub@).take(j as int),
                decreases sub@.len() - j,
            {
                let ghost prev = items@;
                items.push(sub[j]);
                proof {
                    lemma_derefs_push(prev, sub@[j as int]);
                    assert(derefs(sub@)[j as int] == *sub@[j as int]);
                    assert(derefs(sub@).take(j + 1) =~= derefs(sub@).take(j as int).push(*sub@[j as int]));
                }
                j += 1;
                assert(derefs(items@) =~= before + derefs(sub@).take(j as int));
            }
            proof {
                assert(derefs(sub@).take(j as int) =~= derefs(sub@));
                let t = self.children@.take(k + 1);
                assert(t.drop_last() =~= self.children@.take(k as int));
                assert(t.last() == *child);
                assert(seq![*child].drop_last() =~= Seq::<NavItem>::empty());
                assert(seq![*child].last() == *child);
                assert(preorder(Seq::<NavItem>::empty()) =~= Seq::<NavItem>::empty());
                assert(preorder(seq![*child]) == preorder(Seq::<NavItem>::empty()) + seq![*child] + preorder(child.children@));
                assert(preorder(t) == preorder(self.children@.take(k as int)) + seq![*child] + preorder(child.children@));
                assert(derefs(items@) =~= seq![*self] + preorder(t));
            }
            k += 1;
        }
        proof {
            assert(self.children@.take(self.children@.len() as int) =~= self.children@);
            assert(seq![*self].drop_last() =~= Seq::<NavItem>::empty());
            assert(seq![*self].last() == *self);
            assert(preorder(Seq::<NavItem>::empty()) =~= Seq::<NavItem>::empty());
            assert(preorder(seq![*self]) == preorder(Seq::<NavItem>::empty()) + seq![*self] + preorder(self.children@));
            assert(derefs(items@) =~= preorder(seq![*self]));
        }
        items
    }
}

/// Rewrite every href in the tree to a normalized archive path (keeping any
/// fragment), resolving relative to `base_dir` (the directory of the document
/// the TOC came from). External URLs are left untouched.
pub fn resolve_hrefs(items: &mut Vec<NavItem>, base_dir: &str)
    ensures
        forest_view(final(items)@) == resolved_forest(forest_view(old(items)@), base_dir@),
    decreases forest_size(old(items)@),
{
    let ghost orig = items@;
    let mut rest: Vec<NavItem> = Vec::new();
    std::mem::swap(items, &mut rest);
    assert(orig.skip(0) =~= orig);
    let ghost mut done: Seq<NavItem> = Seq::empty();
    while rest.len() > 0
        invariant
            orig == old(items)@,
            rest@ == orig.skip(done.len() as int),
            done.len() <= orig.len(),
            forest_view(items@) == resolved_forest(forest_view(orig.take(done.len() as int)), base_dir@),
        decreases rest@.len(),
    {
        let ghost k: int = done.len() as int;
        let mut item = rest.remove(0);
        assert(item == orig[k]);
        let ghost item0 = item;
        if !item.href.as_str().is_empty() && !is_external(item.href.as_str()) {
            let (p, frag) = resolve(base_dir, item.href.as_str());
            let new_href = match frag {
                Some(f) => {
                    let mut v = crate::text::chars_of(p.as_str());
                    v.push('#');
                    let fc = crate::text::chars_of(f.as_str());
                    crate::text::push_all(&mut v, &fc);
                    crate::text::string_from_chars(v.as_slice())
                },
                None => p,
            };
            item.href = new_href;
        }
        proof {
            lemma_forest_size_child(orig, k);
            assert(item.children@ == orig[k].children@);
            assert(forest_size(item.children@) < forest_size(orig));
        }
        resolve_hrefs(&mut item.children, base_dir);
        let ghost prev = items@;
        items.push(item);
        proof {
            assert(orig.take(k + 1) =~= orig.take(k).push(item0));
            lemma_forest_view_push(orig.take(k), item0);
            lemma_resolved_forest_push(forest_view(orig.take(k)), nav_view(item0), base_dir@);
            lemma_forest_view_push(prev, item);
            assert(item.href@ == resolved_href(item0.href@, base_dir@));
            assert(item.id == item0.id && item.label == item0.label);
            assert(nav_view(item) =~~= resolved_item(nav_view(item0), base_dir@));
            done = done.push(item0);
            assert(rest@ =~= orig.skip(done.len() as int));
        }
    }
    assert(orig.take(done.len() as int) =~= orig);
}


// ---------------------------------------------------------------------------
// NCX (EPUB2)
// ---------------------------------------------------------------------------

/// The local part of an element name, when it is valid UTF-8 (else empty).
pub open spec fn ncx_local(name: Seq<u8>) -> Seq<char> {
    let b = name.skip(last_colon(name) + 1);
    if valid_utf8(b) {
        decode_utf8(b)
    } else {
        Seq::empty()
    }
}

/// The raw value of the last well-formed attribute among `attrs[..k]` with
/// key `key` (malformed attributes are skipped).
pub open spec fn last_attr(attrs: Seq<Result<(Seq<u8>, Seq<u8>), Seq<char>>>, key: Seq<u8>, k: int) -> Option<Seq<u8>>
    decreases k,
{
    if k <= 0 || k > attrs.len() {
        None
    } else {
        match attrs[k - 1] {
            Ok((kk, v)) => if kk == key {
                Some(v)
            } else {
                last_attr(attrs, key, k - 1)
            },
            Err(_) => last_attr(attrs, key, k - 1),
        }
    }
}

/// The NCX parser's state: finished top-level items, the open `navPoint`s
/// and the text of the current `<text>`.
pub struct NcxState {
    pub items: Seq<NavView>,
    pub stack: Seq<NavView>,
    pub text: Seq<char>,
    pub in_text: bool,
}

/// Replace the innermost open item.
pub open spec fn set_top(stack: Seq<NavView>, n: NavView) -> Seq<NavView> {
    stack.update(stack.len() - 1, n)
}

/// The effect of a start tag named `n` in an NCX document.
pub open spec fn ncx_start(st: NcxState, n: Seq<char>, attrs: Seq<Result<(Seq<u8>, Seq<u8>), Seq<char>>>) -> NcxState {
    if n == "navPoint"@ {
        let id = match last_attr(attrs, encode_utf8("id"@), attrs.len() as int) {
            Some(v) => Some(lossy_utf8(v)),
            None => None,
        };
        NcxState {
            stack: st.stack.push(NavView { id, href: Seq::empty(), label: Seq::empty(), children: Seq::empty() }),
            ..st
        }
    } else if n == "text"@ {
        NcxState { in_text: true, text: Seq::empty(), ..st }
    } else if n == "content"@ {
        match last_attr(attrs, encode_utf8("src"@), attrs.len() as int) {
            Some(v) => if st.stack.len() > 0 {
                NcxState { stack: set_top(st.stack, NavView { href: lossy_utf8(v), ..st.stack.last() }), ..st }
            } else {
                st
            },
            None => st,
        }
    } else {
        st
    }
}

/// The effect of an end tag named `n` in an NCX document.
pub open spec fn ncx_end(st: NcxState, n: Seq<char>) -> NcxState {
    if n == "navPoint"@ {
        if st.stack.len() == 0 {
            st
        } else {
            let item = st.stack.last();
            let rest = st.stack.drop_last();
            if rest.len() > 0 {
                NcxState {
                    stack: set_top(rest, NavView { children: rest.last().children.push(item), ..rest.last() }),
                    ..st
                }
            } else {
                NcxState { stack: rest, items: st.items.push(item), ..st }
            }
        }
    } else if n == "text"@ {
        if st.stack.len() > 0 && st.stack.last().label.len() == 0 {
            NcxState {
                in_text: false,
                stack: set_top(st.stack, NavView { label: trim_ws(st.text), ..st.stack.last() }),
                ..st
            }
        } else {
            NcxState { in_text: false, ..st }
        }
    } else {
        st
    }
}

/// The effect of one token of an NCX document.
pub open spec fn ncx_step(st: NcxState, t: TokenView) -> Result<NcxState, ErrView> {
    match t {
        TokenView::Start { name, attrs, empty } => if empty {
            Ok(st)
        } else {
            Ok(ncx_start(st, ncx_local(name), attrs))
        },
        TokenView::End { name } => Ok(ncx_end(st, ncx_local(name))),
        TokenView::Text(x) => if st.in_text {
            Ok(NcxState {
                text: st.text + match x {
                    Some(y) => y,
                    None => Seq::empty(),
                },
                ..st
            })
        } else {
            Ok(st)
        },
        TokenView::Error(m) => Err(ErrView::Xml(m)),
        _ => Ok(st),
    }
}

/// The NCX state after tokens `ts[k..]`, up to the first `Eof`.
pub open spec fn ncx_run(ts: Seq<TokenView>, k: int, st: NcxState) -> Result<NcxState, ErrView>
    decreases ts.len() - k,
{
    if k < 0 || k >= ts.len() || ts[k] is Eof {
        Ok(st)
    } else {
        match ncx_step(st, ts[k]) {
            Err(e) => Err(e),
            Ok(st2) => ncx_run(ts, k + 1, st2),
        }
    }
}

/// How many entries a tree of the table of contents holds: itself and all
/// below it.
pub open spec fn view_size(n: NavView) -> nat
    decreases n, 1int,
{
    1 + views_size(n.children)
}

/// How many entries a forest holds, nested ones included.
pub open spec fn views_size(f: Seq<NavView>) -> nat
    decreases f, 0int,
{
    if f.len() == 0 {
        0
    } else {
        views_size(f.drop_last()) + view_size(f.last())
    }
}

/// Entries held by an NCX state: finished and still open.
pub open spec fn ncx_held(st: NcxState) -> nat {
    views_size(st.items) + views_size(st.stack)
}

/// Whether token `t` opens a `navPoint`.
pub open spec fn opens_point(t: TokenView) -> bool {
    t matches TokenView::Start { name, empty, .. } && !empty && ncx_local(name) == "navPoint"@
}

/// How many `navPoint`s the tokens `ts[k..]` open before the first `Eof`.
pub open spec fn points_opened(ts: Seq<TokenView>, k: int) -> nat
    decreases ts.len() - k,
{
    if k < 0 || k >= ts.len() || ts[k] is Eof {
        0
    } else {
        points_opened(ts, k + 1) + if opens_point(ts[k]) { 1nat } else { 0nat }
    }
}

proof fn lemma_views_size_push(f: Seq<NavView>, x: NavView)
    ensures
        views_size(f.push(x)) == views_size(f) + view_size(x),
{
    assert(f.push(x).drop_last() =~= f);
}

proof fn lemma_views_size_set_top(f: Seq<NavView>, x: NavView)
    requires
        f.len() > 0,
    ensures
        views_size(set_top(f, x)) + view_size(f.last()) == views_size(f) + view_size(x),
{
    assert(set_top(f, x) =~= f.drop_last().push(x));
    lemma_views_size_push(f.drop_last(), x);
}

/// One token never loses an entry: opening a `navPoint` adds one, and
/// everything else (closing one included) keeps every entry, open or
/// finished.
pub proof fn law_ncx_step_keeps_entries(st: NcxState, t: TokenView)
    ensures
        ncx_step(st, t) matches Ok(s2) ==> ncx_held(s2) == ncx_held(st) + if opens_point(t) { 1nat } else { 0nat },
{
    reveal_strlit("navPoint");
    reveal_strlit("text");
    reveal_strlit("content");
    assert("navPoint"@ != "text"@ && "navPoint"@ != "content"@ && "text"@ != "content"@) by {
        assert("navPoint"@.len() == 8 && "text"@.len() == 4 && "content"@.len() == 7);
    }
    match t {
        TokenView::Start { name, attrs, empty } => {
            if !empty {
                let n = ncx_local(name);
                if n == "navPoint"@ {
                    let id = match last_attr(attrs, encode_utf8("id"@), attrs.len() as int) {
                        Some(v) => Some(lossy_utf8(v)),
                        None => None,
                    };
                    let nw = NavView { id, href: Seq::empty(), label: Seq::empty(), children: Seq::empty() };
                    lemma_views_size_push(st.stack, nw);
                    assert(views_size(nw.children) == 0);
                } else if n == "content"@ {
                    if st.stack.len() > 0 {
                        match last_attr(attrs, encode_utf8("src"@), attrs.len() as int) {
                            Some(v) => {
                                lemma_views_size_set_top(st.stack, NavView { href: lossy_utf8(v), ..st.stack.last() });
                            },
                            None => {},
                        }
                    }
                }
            }
        },
        TokenView::End { name } => {
            let n = ncx_local(name);
            if n == "navPoint"@ {
                if st.stack.len() > 0 {
                    let item = st.stack.last();
                    let rest = st.stack.drop_last();
                    lemma_views_size_push(rest, item);
                    assert(rest.push(item) =~= st.stack);
                    if rest.len() > 0 {
                        let p = NavView { children: rest.last().children.push(item), ..rest.last() };
                        lemma_views_size_push(rest.last().children, item);
                        lemma_views_size_set_top(rest, p);
                    } else {
                        lemma_views_size_push(st.items, item);
                    }
                }
            } else if n == "text"@ {
                if st.stack.len() > 0 && st.stack.last().label.len() == 0 {
                    lemma_views_size_set_top(st.stack, NavView { label: trim_ws(st.text), ..st.stack.last() });
                }
            }
        },
        _ => {},
    }
}

/// Reading NCX tokens keeps every `navPoint`: the entries held at the end,
/// finished and still open, number those held at the start plus one per
/// `navPoint` opened.
pub proof fn law_ncx_run_keeps_points(ts: Seq<TokenView>, k: int, st: NcxState)
    requires
        0 <= k,
    ensures
        ncx_run(ts, k, st) matches Ok(s2) ==> ncx_held(s2) == ncx_held(st) + points_opened(ts, k),
    decreases ts.len() - k,
{
    if !(k >= ts.len() || ts[k] is Eof) {
        law_ncx_step_keeps_entries(st, ts[k]);
        match ncx_step(st, ts[k]) {
            Ok(s2) => law_ncx_run_keeps_points(ts, k + 1, s2),
            Err(_) => {},
        }
    }
}

/// Every `navPoint` of an NCX document is in its table of contents exactly
/// once, nested ones included: when every point opened is closed, the
/// result's entries number the `navPoint`s opened.
pub proof fn law_ncx_every_point_once(ts: Seq<TokenView>)
    ensures
        ncx_run(ts, 0, NcxState { items: Seq::empty(), stack: Seq::empty(), text: Seq::empty(), in_text: false }) matches Ok(st)
            ==> views_size(st.items) + views_size(st.stack) == points_opened(ts, 0),
        match ncx_run(ts, 0, NcxState { items: Seq::empty(), stack: Seq::empty(), text: Seq::empty(), in_text: false }) {
            Ok(st) => st.stack.len() == 0 ==> (spec_ncx(ts) matches Ok(items) && views_size(items) == points_opened(ts, 0)),
            Err(_) => true,
        },
{
    let init = NcxState { items: Seq::empty(), stack: Seq::empty(), text: Seq::empty(), in_text: false };
    law_ncx_run_keeps_points(ts, 0, init);
    match ncx_run(ts, 0, init) {
        Ok(st) => {
            if st.stack.len() == 0 {
                assert(views_size(st.stack) == 0);
            }
        },
        Err(_) => {},
    }
}

/// The table of contents an NCX token list describes: the top-level
/// `navPoint`s closed before the end, with their nested points.
pub open spec fn spec_ncx(ts: Seq<TokenView>) -> Result<Seq<NavView>, ErrView> {
    match ncx_run(ts, 0, NcxState { items: Seq::empty(), stack: Seq::empty(), text: Seq::empty(), in_text: false }) {
        Ok(st) => Ok(st.items),
        Err(e) => Err(e),
    }
}

pub open spec fn nav_result_view(r: Result<Vec<NavItem>, EpubError>) -> Result<Seq<NavView>, ErrView> {
    match r {
        Ok(v) => Ok(forest_view(v@)),
        Err(e) => Err(err_view(e)),
    }
}

/// The local part of an element name, when valid UTF-8 (`local_name`).
fn ncx_local_exec(name: &Vec<u8>) -> (r: String)
    ensures
        r@ == ncx_local(name@),
{
    let mut k = name.len();
    assert(name@.take(k as int) =~= name@);
    while k > 0 && name[k - 1] != 58u8
        invariant
            k <= name@.len(),
            last_colon(name@) == last_colon(name@.take(k as int)),
        decreases k,
    {
        assert(name@.take(k as int).drop_last() =~= name@.take(k - 1));
        k -= 1;
    }
    if k > 0 {
        assert(name@.take(k as int).last() == name@[k - 1]);
    }
    let mut rest: Vec<u8> = Vec::new();
    let mut j = k;
    while j < name.len()
        invariant
            k <= j <= name@.len(),
            rest@ == name@.subrange(k as int, j as int),
        decreases name@.len() - j,
    {
        rest.push(name[j]);
        j += 1;
        assert(rest@ =~= name@.subrange(k as int, j as int));
    }
    assert(rest@ =~= name@.skip(last_colon(name@) + 1));
    match string_from_utf8(rest) {
        Some(s) => {
            proof {
                encode_utf8_decode_utf8(s@);
            }
            s
        },
        None => String::new(),
    }
}

/// The last well-formed attribute with key `key`.
fn last_attr_exec(attrs: &Vec<Result<(Vec<u8>, Vec<u8>), String>>, key: &str) -> (r: Option<String>)
    ensures
        match last_attr(crate::xml::attrs_view(attrs@), encode_utf8(key@), attrs@.len() as int) {
            Some(v) => r matches Some(s) && s@ == lossy_utf8(v),
            None => r is None,
        },
{
    let kb = key.as_bytes();
    let ghost av = crate::xml::attrs_view(attrs@);
    let mut k = attrs.len();
    while k > 0
        invariant
            k <= attrs@.len(),
            av == crate::xml::attrs_view(attrs@),
            kb@ == encode_utf8(key@),
            last_attr(av, encode_utf8(key@), attrs@.len() as int) == last_attr(av, encode_utf8(key@), k as int),
        decreases k,
    {
        assert(av[k - 1] == crate::xml::attr_view(attrs@[k - 1]));
        match &attrs[k - 1] {
            Ok((kk, v)) => {
                if crate::xml::bytes_eq(kk.as_slice(), kb) {
                    return Some(utf8_lossy(v.as_slice()));
                }
            },
            Err(_) => {},
        }
        k -= 1;
    }
    None
}

/// The NCX parser's state, as values.
struct NcxExec {
    items: Vec<NavItem>,
    stack: Vec<NavItem>,
    text: Vec<char>,
    in_text: bool,
}

impl NcxExec {
    spec fn view(&self) -> NcxState {
        NcxState { items: forest_view(self.items@), stack: forest_view(self.stack@), text: self.text@, in_text: self.in_text }
    }

    fn start(&mut self, n: &str, attrs: &Vec<Result<(Vec<u8>, Vec<u8>), String>>)
        ensures
            final(self).view() == ncx_start(old(self).view(), n@, crate::xml::attrs_view(attrs@)),
    {
        let ghost st = self.view();
        proof {
            lemma_forest_view_len(self.stack@);
        }
                if str_eq(n, "navPoint") {
                    let id = last_attr_exec(attrs, "id");
                    let item = NavItem { id, href: String::new(), label: String::new(), children: Vec::new() };
                    let ghost before = self.stack@;
                    self.stack.push(item);
                    proof {
                        lemma_forest_view_push(before, item);
                        assert(forest_view(item.children@) =~= Seq::<NavView>::empty());
                        assert(nav_view(item) =~~= NavView { id: opt_view(item.id), href: Seq::empty(), label: Seq::empty(), children: Seq::empty() });
                    }
                } else if str_eq(n, "text") {
                    self.in_text = true;
                    self.text = Vec::new();
                    assert(self.text@ =~= Seq::<char>::empty());
                } else if str_eq(n, "content") {
                    match last_attr_exec(attrs, "src") {
                        Some(v) => {
                            if self.stack.len() > 0 {
                                let ghost before = self.stack@;
                                let mut top = self.stack.pop().unwrap();
                                let ghost top0 = top;
                                top.href = v;
                                self.stack.push(top);
                                proof {
                                    assert(before.drop_last().push(top0) =~= before);
                                    lemma_forest_view_push(before.drop_last(), top0);
                                    lemma_forest_view_push(before.drop_last(), top);
                                    lemma_forest_view_len(before.drop_last());
                                    assert(forest_view(self.stack@) =~= set_top(st.stack, NavView { href: v@, ..st.stack.last() }));
                                }
                            }
                        },
                        None => {},
                    }
                }
    }

    /// Close the innermost open `navPoint`.
    fn close_point(&mut self)
        ensures
            final(self).view() == ncx_end(old(self).view(), "navPoint"@),
    {
        let ghost st = self.view();
        proof {
            lemma_forest_view_len(self.stack@);
        }
        if self.stack.len() > 0 {
            let ghost before = self.stack@;
            let item = self.stack.pop().unwrap();
            proof {
                lemma_forest_view_pop(before);
                lemma_forest_view_len(before.drop_last());
                assert(self.stack@ =~= before.drop_last());
            }
            if self.stack.len() > 0 {
                let ghost rest = self.stack@;
                let mut parent = self.stack.pop().unwrap();
                let ghost p0 = parent;
                let ghost kids = parent.children@;
                parent.children.push(item);
                self.stack.push(parent);
                proof {
                    lemma_forest_view_pop(rest);
                    assert(self.stack@ =~= rest.drop_last().push(parent));
                    lemma_forest_view_push(rest.drop_last(), parent);
                    lemma_forest_view_push(kids, item);
                    assert(nav_view(parent) =~~= NavView { children: nav_view(p0).children.push(nav_view(item)), ..nav_view(p0) });
                    assert(forest_view(self.stack@) =~~= set_top(forest_view(rest), NavView { children: forest_view(rest).last().children.push(nav_view(item)), ..forest_view(rest).last() }));
                }
            } else {
                let ghost its = self.items@;
                self.items.push(item);
                proof {
                    lemma_forest_view_push(its, item);
                }
            }
        }
    }

    /// Close a `text` element: its text labels the innermost open item
    /// that has no label yet.
    fn close_text(&mut self)
        ensures
            final(self).view() == ncx_end(old(self).view(), "text"@),
    {
        let ghost st = self.view();
        proof {
            lemma_forest_view_len(self.stack@);
            reveal_strlit("text");
            reveal_strlit("navPoint");
            assert("text"@.len() != "navPoint"@.len());
        }
        self.in_text = false;
        if self.stack.len() > 0 {
            let ghost before = self.stack@;
            let mut top = self.stack.pop().unwrap();
            proof {
                lemma_forest_view_pop(before);
                assert(self.stack@ =~= before.drop_last());
            }
            if top.label.as_str().is_empty() {
                let tt = crate::rewrite::trimmed(&self.text, 0, self.text.len());
                assert(self.text@.subrange(0, self.text@.len() as int) =~= self.text@);
                top.label = string_from_chars(tt.as_slice());
                self.stack.push(top);
                proof {
                    lemma_forest_view_push(before.drop_last(), top);
                    lemma_forest_view_len(before.drop_last());
                    assert(forest_view(self.stack@) =~= set_top(st.stack, NavView { label: trim_ws(st.text), ..st.stack.last() }));
                }
            } else {
                self.stack.push(top);
                assert(self.stack@ =~= before);
            }
        }
    }

    fn end(&mut self, n: &str)
        ensures
            final(self).view() == ncx_end(old(self).view(), n@),
    {
        if str_eq(n, "navPoint") {
            self.close_point();
        } else if str_eq(n, "text") {
            self.close_text();
        }
    }

    fn step(&mut self, t: &XmlToken) -> (r: Result<(), EpubError>)
        requires
            !(t is Eof),
        ensures
            match (r, ncx_step(old(self).view(), token_view(*t))) {
                (Ok(()), Ok(v)) => final(self).view() == v,
                (Err(e), Err(v)) => err_view(e) == v,
                _ => false,
            },
    {
        match t {
            XmlToken::Start { name, attrs, empty } => {
                if *empty {
                    return Ok(());
                }
                let n = ncx_local_exec(name);
                self.start(n.as_str(), attrs);
                Ok(())
            },
            XmlToken::End { name } => {
                let n = ncx_local_exec(name);
                self.end(n.as_str());
                Ok(())
            },
            XmlToken::Text(x) => {
                if self.in_text {
                    match x {
                        Some(y) => {
                            let c = chars_of(y.as_str());
                            push_all(&mut self.text, &c);
                        },
                        None => {
                            assert(self.text@ + Seq::<char>::empty() =~= self.text@);
                        },
                    }
                }
                Ok(())
            },
            XmlToken::Error(m) => Err(EpubError::XmlError(m.clone())),
            _ => Ok(()),
        }
    }
}

/// The table of contents an NCX token list describes (see [`spec_ncx`]).
pub fn ncx_from_tokens(tokens: &Vec<XmlToken>) -> (r: Result<Vec<NavItem>, EpubError>)
    ensures
        nav_result_view(r) == spec_ncx(tokens_view(tokens@)),
{
    let ghost tv = tokens_view(tokens@);
    let mut st = NcxExec { items: Vec::new(), stack: Vec::new(), text: Vec::new(), in_text: false };
    proof {
        assert(st.view() =~~= NcxState { items: Seq::empty(), stack: Seq::empty(), text: Seq::empty(), in_text: false });
    }
    let mut k: usize = 0;
    while k < tokens.len()
        invariant
            k <= tokens@.len(),
            tv == tokens_view(tokens@),
            ncx_run(tv, 0, NcxState { items: Seq::empty(), stack: Seq::empty(), text: Seq::empty(), in_text: false })
                == ncx_run(tv, k as int, st.view()),
        decreases tokens@.len() - k,
    {
        assert(tv[k as int] == token_view(tokens@[k as int]));
        if let XmlToken::Eof = &tokens[k] {
            return Ok(st.items);
        }
        match st.step(&tokens[k]) {
            Ok(()) => {},
            Err(e) => return Err(e),
        }
        k += 1;
    }
    Ok(st.items)
}

/// Parse an EPUB2 NCX document. The document is read with `quick_xml`
/// (text trimmed, empty elements expanded); the result is what
/// [`ncx_from_tokens`] makes of the tokens read. Hrefs are returned as
/// written.
pub fn parse_ncx(xml: &str) -> (r: Result<Vec<NavItem>, EpubError>)
    ensures
        nav_result_view(r) == spec_ncx(spec_xml_tokens(xml@, true, true)),
{
    let tokens = xml_tokens(xml, true, true);
    ncx_from_tokens(&tokens)
}

// ---------------------------------------------------------------------------
// EPUB3 navigation documents
// ---------------------------------------------------------------------------

/// Words joined by single spaces.
pub open spec fn join_spaced(ws: Seq<Seq<char>>) -> Seq<char>
    decreases ws.len(),
{
    if ws.len() == 0 {
        Seq::empty()
    } else if ws.len() == 1 {
        ws[0]
    } else {
        join_spaced(ws.drop_last()) + seq![' '] + ws.last()
    }
}

/// The text of an element: its text nodes joined by spaces, with runs of
/// whitespace collapsed to one space and none at either end.
pub open spec fn text_of(n: DomView) -> Seq<char> {
    join_spaced(words(join_spaced(texts_at(n))))
}

/// `epub:type` lists `toc`.
pub open spec fn toc_typed(n: DomView) -> bool {
    match attr(n, "epub:type"@) {
        Some(t) => words(t).contains("toc"@),
        None => false,
    }
}

/// `class` or `id` mentions `toc`.
pub open spec fn toc_hinted(n: DomView) -> bool {
    ||| (match attr(n, "class"@) {
        Some(c) => contains_seq(c, "toc"@),
        None => false,
    })
    ||| (match attr(n, "id"@) {
        Some(i) => contains_seq(i, "toc"@),
        None => false,
    })
}

/// The element has an `ol` or `ul` below it.
pub open spec fn has_list(n: DomView) -> bool {
    first_from(kids(n), 0, Want::List) is Some
}

/// The three ways a TOC `nav` is recognised, in order of preference.
pub enum TocMark {
    Typed,
    Hinted,
    Listed,
}

pub open spec fn marked(m: TocMark, n: DomView) -> bool {
    match m {
        TocMark::Typed => toc_typed(n),
        TocMark::Hinted => toc_hinted(n),
        TocMark::Listed => has_list(n),
    }
}

/// The first of `s[k..]` recognised by `m`.
pub open spec fn first_where(s: Seq<DomView>, k: int, m: TocMark) -> Option<DomView>
    decreases s.len() - k,
{
    if k < 0 || k >= s.len() {
        None
    } else if marked(m, s[k]) {
        Some(s[k])
    } else {
        first_where(s, k + 1, m)
    }
}

/// The `nav` element holding the table of contents: the first `nav` whose
/// `epub:type` lists `toc`; else the first whose class or id mentions `toc`;
/// else the first with a list below it.
pub open spec fn spec_toc_nav(root: DomView) -> Option<DomView> {
    let navs = all_at(root, Want::Nav);
    match first_where(navs, 0, TocMark::Typed) {
        Some(x) => Some(x),
        None => match first_where(navs, 0, TocMark::Hinted) {
            Some(x) => Some(x),
            None => first_where(navs, 0, TocMark::Listed),
        },
    }
}

/// The list of a TOC `nav`: its first `ol`/`ul` child, else its first
/// `ol`/`ul` descendant.
pub open spec fn nav_list_of(nav: DomView) -> Option<DomView> {
    let c = child_from(kids(nav), 0, Want::List);
    if 0 <= c < kids(nav).len() {
        Some(kids(nav)[c])
    } else {
        first_from(kids(nav), 0, Want::List)
    }
}

/// Target, label and id of a link.
pub open spec fn link_head(a: DomView) -> (Seq<char>, Seq<char>, Option<Seq<char>>) {
    (
        match attr(a, "href"@) {
            Some(h) => h,
            None => Seq::empty(),
        },
        text_of(a),
        attr(a, "id"@),
    )
}

/// The entries of the `li` elements among `ns[k..]`.
pub open spec fn entries_from(ns: Seq<DomView>, k: int) -> Seq<NavView>
    decreases ns, 0int, ns.len() - k,
{
    if k < 0 || k >= ns.len() {
        Seq::empty()
    } else {
        (if is_wanted(Want::Item, ns[k]) {
            match li_entry(ns[k]) {
                Some(e) => seq![e],
                None => Seq::empty(),
            }
        } else {
            Seq::empty()
        }) + entries_from(ns, k + 1)
    }
}

/// The entry an `li` element makes: labelled by its first `a` child, else
/// by its first `span` child (no target), else, when it has no nested list,
/// by the first `a` below it; with the entries of its first `ol`/`ul` child
/// as children. `None` when it has no label.
pub open spec fn li_entry(li: DomView) -> Option<NavView>
    decreases li, 1int, 0int,
{
    match li {
        DomView::Element { children, .. } => {
            let nested = child_from(children, 0, Want::List);
            let a = child_from(children, 0, Want::Anchor);
            let sp = child_from(children, 0, Want::Span);
            let head: Option<(Seq<char>, Seq<char>, Option<Seq<char>>)> = if 0 <= a < children.len() {
                Some(link_head(children[a]))
            } else if 0 <= sp < children.len() {
                Some((Seq::empty(), text_of(children[sp]), attr(children[sp], "id"@)))
            } else if nested < 0 {
                match first_from(children, 0, Want::Anchor) {
                    Some(x) => Some(link_head(x)),
                    None => None,
                }
            } else {
                None
            };
            match head {
                None => None,
                Some(h) => Some(NavView {
                    id: h.2,
                    href: h.0,
                    label: h.1,
                    children: if 0 <= nested < children.len() {
                        match children[nested] {
                            DomView::Element { children: sub, .. } => entries_from(sub, 0),
                            _ => Seq::empty(),
                        }
                    } else {
                        Seq::empty()
                    },
                }),
            }
        },
        _ => None,
    }
}

/// The table of contents of an HTML navigation document, read from its tree.
pub open spec fn spec_nav_from_dom(root: DomView) -> Result<Seq<NavView>, ErrView> {
    match spec_toc_nav(root) {
        None => Err(ErrView::InvalidStructure("No TOC nav element found"@)),
        Some(nav) => match nav_list_of(nav) {
            None => Err(ErrView::InvalidStructure("No list in TOC nav"@)),
            Some(l) => Ok(entries_from(kids(l), 0)),
        },
    }
}

fn join_spaced_exec(ws: &Vec<String>) -> (r: Vec<char>)
    ensures
        r@ == join_spaced(strs(ws@)),
{
    let mut out: Vec<char> = Vec::new();
    let mut k: usize = 0;
    while k < ws.len()
        invariant
            k <= ws@.len(),
            out@ == join_spaced(strs(ws@).take(k as int)),
        decreases ws@.len() - k,
    {
        let ghost before = out@;
        if k > 0 {
            out.push(' ');
        }
        let c = chars_of(ws[k].as_str());
        push_all(&mut out, &c);
        proof {
            let t = strs(ws@).take(k + 1);
            assert(t.drop_last() =~= strs(ws@).take(k as int));
            assert(t.last() == ws@[k as int]@);
            if k == 0 {
                assert(out@ =~= t[0]);
            } else {
                assert(out@ =~= join_spaced(t.drop_last()) + seq![' '] + t.last());
            }
        }
        k += 1;
    }
    assert(strs(ws@).take(k as int) =~= strs(ws@));
    out
}

/// The text of an element (see [`text_of`]).
fn text_of_exec(n: &HtmlNode) -> (r: String)
    ensures
        r@ == text_of(dom_view(*n)),
{
    let mut texts: Vec<String> = Vec::new();
    texts_at_exec(n, &mut texts);
    assert(strs(texts@) =~= texts_at(dom_view(*n)));
    let joined = join_spaced_exec(&texts);
    let ws = crate::package::words_exec(&joined);
    let out = join_spaced_exec(&ws);
    string_from_chars(out.as_slice())
}

fn toc_typed_exec(n: &HtmlNode) -> (b: bool)
    ensures
        b == toc_typed(dom_view(*n)),
{
    match attr_exec(n, "epub:type") {
        Some(t) => {
            let c = chars_of(t.as_str());
            let ws = crate::package::words_exec(&c);
            let mut k: usize = 0;
            while k < ws.len()
                invariant
                    k <= ws@.len(),
                    strs(ws@) == words(t@),
                    attr(dom_view(*n), "epub:type"@) == Some(t@),
                    forall|j: int| 0 <= j < k ==> strs(ws@)[j] != "toc"@,
                decreases ws@.len() - k,
            {
                if str_eq(ws[k].as_str(), "toc") {
                    assert(strs(ws@)[k as int] == "toc"@);
                    assert(words(t@)[k as int] == "toc"@);
                    return true;
                }
                k += 1;
            }
            false
        },
        None => false,
    }
}

fn mentions_toc(v: Option<String>) -> (b: bool)
    ensures
        b == match v {
            Some(s) => contains_seq(s@, "toc"@),
            None => false,
        },
{
    match v {
        Some(s) => {
            let c = chars_of(s.as_str());
            let p = chars_of("toc");
            contains_chars(&c, &p)
        },
        None => false,
    }
}

fn toc_hinted_exec(n: &HtmlNode) -> (b: bool)
    ensures
        b == toc_hinted(dom_view(*n)),
{
    mentions_toc(attr_exec(n, "class")) || mentions_toc(attr_exec(n, "id"))
}

fn has_list_exec(n: &HtmlNode) -> (b: bool)
    ensures
        b == has_list(dom_view(*n)),
{
    match n {
        HtmlNode::Element { name: _, attrs: _, children } => first_in(children, &Want::List).is_some(),
        _ => false,
    }
}

/// Find the TOC `nav` element (see [`spec_toc_nav`]).
fn find_toc_nav(document: &HtmlNode) -> (r: Result<&HtmlNode, EpubError>)
    ensures
        match (r, spec_toc_nav(dom_view(*document))) {
            (Ok(n), Some(v)) => dom_view(*n) == v,
            (Err(e), None) => err_view(e) == ErrView::InvalidStructure("No TOC nav element found"@),
            _ => false,
        },
{
    let mut navs: Vec<&HtmlNode> = Vec::new();
    all_at_exec(document, &Want::Nav, &mut navs);
    let ghost nv = all_at(dom_view(*document), Want::Nav);
    assert(dom_derefs(navs@) =~= nv);
    let mut k: usize = 0;
    while k < navs.len()
        invariant
            k <= navs@.len(),
            dom_derefs(navs@) == nv,
            nv == all_at(dom_view(*document), Want::Nav),
            first_where(nv, 0, TocMark::Typed) == first_where(nv, k as int, TocMark::Typed),
        decreases navs@.len() - k,
    {
        assert(nv[k as int] == dom_view(*navs@[k as int]));
        if toc_typed_exec(navs[k]) {
            return Ok(navs[k]);
        }
        k += 1;
    }
    k = 0;
    while k < navs.len()
        invariant
            k <= navs@.len(),
            dom_derefs(navs@) == nv,
            nv == all_at(dom_view(*document), Want::Nav),
            first_where(nv, 0, TocMark::Typed) is None,
            first_where(nv, 0, TocMark::Hinted) == first_where(nv, k as int, TocMark::Hinted),
        decreases navs@.len() - k,
    {
        assert(nv[k as int] == dom_view(*navs@[k as int]));
        if toc_hinted_exec(navs[k]) {
            return Ok(navs[k]);
        }
        k += 1;
    }
    k = 0;
    while k < navs.len()
        invariant
            k <= navs@.len(),
            dom_derefs(navs@) == nv,
            nv == all_at(dom_view(*document), Want::Nav),
            first_where(nv, 0, TocMark::Typed) is None,
            first_where(nv, 0, TocMark::Hinted) is None,
            first_where(nv, 0, TocMark::Listed) == first_where(nv, k as int, TocMark::Listed),
        decreases navs@.len() - k,
    {
        assert(nv[k as int] == dom_view(*navs@[k as int]));
        if has_list_exec(navs[k]) {
            return Ok(navs[k]);
        }
        k += 1;
    }
    Err(EpubError::InvalidStructure("No TOC nav element found".to_owned()))
}

/// The target, label and id of a link element.
fn link_head_exec(a: &HtmlNode) -> (r: (String, String, Option<String>))
    ensures
        r.0@ == link_head(dom_view(*a)).0,
        r.1@ == link_head(dom_view(*a)).1,
        opt_view(r.2) == link_head(dom_view(*a)).2,
{
    let href = match attr_exec(a, "href") {
        Some(h) => h,
        None => String::new(),
    };
    let label = text_of_exec(a);
    let id = attr_exec(a, "id");
    (href, label, id)
}

/// The entries of the `li` children of a list (see [`entries_from`]).
fn parse_nav_list(list: &HtmlNode) -> (r: Vec<NavItem>)
    ensures
        forest_view(r@) == entries_from(kids(dom_view(*list)), 0),
    decreases *list,
{
    let mut items: Vec<NavItem> = Vec::new();
    match list {
        HtmlNode::Element { name, attrs, children } => {
            proof {
                lemma_dom_forest(children@);
            }
            let ghost f = dom_forest(children@);
            let mut k: usize = 0;
            while k < children.len()
                invariant
                    *list == (HtmlNode::Element { name: *name, attrs: *attrs, children: *children }),
                    k <= children@.len(),
                    f == dom_forest(children@),
                    f.len() == children@.len(),
                    forall|j: int| 0 <= j < children@.len() ==> #[trigger] f[j] == dom_view(children@[j]),
                    forest_view(items@) + entries_from(f, k as int) == entries_from(f, 0),
                decreases children@.len() - k,
            {
                let li = &children[k];
                assert(*children == list->children);
                assert(decreases_to!(*list => list->children));
                assert(decreases_to!(*children => children@));
                assert(decreases_to!(children@ => children@[k as int]));
                let ghost before = forest_view(items@);
                if is_wanted_exec(&Want::Item, li) {
                    match li {
                        HtmlNode::Element { name: li_name, attrs: li_attrs, children: lk } => {
                            proof {
                                lemma_dom_forest(lk@);
                                lemma_child_from(dom_forest(lk@), 0, Want::List);
                                lemma_child_from(dom_forest(lk@), 0, Want::Anchor);
                                lemma_child_from(dom_forest(lk@), 0, Want::Span);
                            }
                            let nested = first_child(lk, &Want::List);
                            let head: Option<(String, String, Option<String>)> = match first_child(lk, &Want::Anchor) {
                                Some(ai) => Some(link_head_exec(&lk[ai])),
                                None => match first_child(lk, &Want::Span) {
                                    Some(si) => Some((String::new(), text_of_exec(&lk[si]), attr_exec(&lk[si], "id"))),
                                    None => if nested.is_none() {
                                        match first_in(lk, &Want::Anchor) {
                                            Some(x) => Some(link_head_exec(x)),
                                            None => None,
                                        }
                                    } else {
                                        None
                                    },
                                },
                            };
                            match head {
                                Some((href, label, id)) => {
                                    let sub = match nested {
                                        Some(ni) => {
                                            assert(*lk == li->children);
                                            assert(decreases_to!(*li => li->children));
                                            assert(decreases_to!(*lk => lk@));
                                            assert(decreases_to!(lk@ => lk@[ni as int]));
                                            assert(decreases_to!(*list => lk@[ni as int]));
                                            parse_nav_list(&lk[ni])
                                        },
                                        None => Vec::new(),
                                    };
                                    let item = NavItem { id, href, label, children: sub };
                                    let ghost old_items = items@;
                                    items.push(item);
                                    proof {
                                        lemma_forest_view_push(old_items, item);
                                        let fl = dom_forest(lk@);
                                        assert(f[k as int] == dom_view(*li));
                                        let e = li_entry(dom_view(*li));
                                        assert(e is Some);
                                        assert(nav_view(item).children == e->Some_0.children) by {
                                            match nested {
                                                Some(ni) => {
                                                    assert(fl[ni as int] == dom_view(lk@[ni as int]));
                                                },
                                                None => {
                                                    assert(forest_view(sub@) =~= Seq::<NavView>::empty());
                                                },
                                            }
                                        }
                                        assert(nav_view(item) =~~= e->Some_0);
                                        assert(forest_view(items@) =~= before + seq![nav_view(item)]);
                                    }
                                },
                                None => {
                                    assert(li_entry(dom_view(*li)) is None);
                                },
                            }
                        },
                        _ => {},
                    }
                }
                proof {
                    let ghost w = f[k as int];
                    assert(entries_from(f, k as int) == (if is_wanted(Want::Item, w) {
                        match li_entry(w) {
                            Some(e) => seq![e],
                            None => Seq::empty(),
                        }
                    } else {
                        Seq::empty()
                    }) + entries_from(f, k + 1));
                    assert(forest_view(items@) + entries_from(f, k + 1) =~= entries_from(f, 0));
                }
                k += 1;
            }
            proof {
                assert(entries_from(f, k as int) =~= Seq::<NavView>::empty());
                assert(forest_view(items@) =~= entries_from(f, 0));
            }
        },
        _ => {
            assert(forest_view(items@) =~= Seq::<NavView>::empty());
        },
    }
    items
}

/// The table of contents of a navigation document's tree (see
/// [`spec_nav_from_dom`]). Hrefs are returned as written.
pub fn nav_from_dom(document: &HtmlNode) -> (r: Result<Vec<NavItem>, EpubError>)
    ensures
        nav_result_view(r) == spec_nav_from_dom(dom_view(*document)),
{
    let nav = match find_toc_nav(document) {
        Ok(n) => n,
        Err(e) => return Err(e),
    };
    match nav {
        HtmlNode::Element { name: _, attrs: _, children } => {
            proof {
                lemma_dom_forest(children@);
                lemma_child_from(dom_forest(children@), 0, Want::List);
            }
            let list = match first_child(children, &Want::List) {
                Some(i) => &children[i],
                None => match first_in(children, &Want::List) {
                    Some(l) => l,
                    None => return Err(EpubError::InvalidStructure("No list in TOC nav".to_owned())),
                },
            };
            Ok(parse_nav_list(list))
        },
        _ => Err(EpubError::InvalidStructure("No list in TOC nav".to_owned())),
    }
}

/// Parse an EPUB3 navigation document. The document is parsed with
/// `scraper` (see [`html_document`]); the table of contents is what
/// [`nav_from_dom`] reads from the tree. Hrefs are returned as written.
pub fn parse_nav(html: &str) -> (r: Result<Vec<NavItem>, EpubError>)
    ensures
        nav_result_view(r) == spec_nav_from_dom(html_dom(html@)),
{
    let document = html_document(html);
    nav_from_dom(&document)
}

} // verus!
