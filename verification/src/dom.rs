//! HTML documents as plain trees.
//!
//! The HTML parser is `scraper` (html5ever). What it builds is copied into
//! [`HtmlNode`], a tree of plain values; everything the library reads from
//! an HTML document is then computed, and verified, over that tree.

use vstd::prelude::*;

verus! {

#[verifier::external_type_specification]
#[verifier::external_body]
pub struct ExElementRef<'a>(scraper::ElementRef<'a>);

/// A node of a parsed HTML document.
pub enum HtmlNode {
    /// An element: its local name, its attributes (local name, value) in the
    /// parser's order, and its child nodes.
    Element { name: String, attrs: Vec<(String, String)>, children: Vec<HtmlNode> },
    /// A text node.
    Text(String),
    /// A comment, a processing instruction or a doctype.
    Other,
}

/// A node of an HTML document, abstractly.
pub enum DomView {
    Element { name: Seq<char>, attrs: Seq<(Seq<char>, Seq<char>)>, children: Seq<DomView> },
    Text(Seq<char>),
    Other,
}

pub open spec fn pair_views(a: Seq<(String, String)>) -> Seq<(Seq<char>, Seq<char>)> {
    Seq::new(a.len(), |i: int| (a[i].0@, a[i].1@))
}

/// The abstract form of a node.
pub open spec fn dom_view(n: HtmlNode) -> DomView
    decreases n, 1int,
{
    match n {
        HtmlNode::Element { name, attrs, children } => DomView::Element {
            name: name@,
            attrs: pair_views(attrs@),
            children: dom_forest(children@),
        },
        HtmlNode::Text(t) => DomView::Text(t@),
        HtmlNode::Other => DomView::Other,
    }
}

/// The abstract form of a list of nodes.
pub open spec fn dom_forest(ns: Seq<HtmlNode>) -> Seq<DomView>
    decreases ns, 0int,
{
    if ns.len() == 0 {
        Seq::empty()
    } else {
        dom_forest(ns.drop_last()).push(dom_view(ns.last()))
    }
}

pub proof fn lemma_dom_forest(ns: Seq<HtmlNode>)
    ensures
        dom_forest(ns).len() == ns.len(),
        forall|k: int| 0 <= k < ns.len() ==> #[trigger] dom_forest(ns)[k] == dom_view(ns[k]),
    decreases ns.len(),
{
    if ns.len() > 0 {
        lemma_dom_forest(ns.drop_last());
        assert forall|k: int| 0 <= k < ns.len() implies #[trigger] dom_forest(ns)[k] == dom_view(ns[k]) by {
            if k < ns.len() - 1 {
                assert(ns.drop_last()[k] == ns[k]);
            }
        }
    }
}

/// The tree that `scraper`'s HTML parser builds for a document, from its
/// root element down. Attributes come in document order: with its
/// `deterministic` feature (enabled here) `scraper` keeps them in an
/// insertion-ordered map.
pub uninterp spec fn html_dom(html: Seq<char>) -> DomView;

/// The children of a node (none for text and other nodes).
pub open spec fn kids(n: DomView) -> Seq<DomView> {
    match n {
        DomView::Element { children, .. } => children,
        _ => Seq::empty(),
    }
}

/// The attributes of a node (none for text and other nodes).
pub open spec fn attrs_of(n: DomView) -> Seq<(Seq<char>, Seq<char>)> {
    match n {
        DomView::Element { attrs, .. } => attrs,
        _ => Seq::empty(),
    }
}

/// The value of the first attribute named `key`.
pub open spec fn attr_from(a: Seq<(Seq<char>, Seq<char>)>, key: Seq<char>, k: int) -> Option<Seq<char>>
    decreases a.len() - k,
{
    if k < 0 || k >= a.len() {
        None
    } else if a[k].0 == key {
        Some(a[k].1)
    } else {
        attr_from(a, key, k + 1)
    }
}

/// The value of attribute `key` of a node.
pub open spec fn attr(n: DomView, key: Seq<char>) -> Option<Seq<char>> {
    attr_from(attrs_of(n), key, 0)
}

/// What kind of element a search looks for.
pub enum Want {
    Nav,
    /// `ol` or `ul`
    List,
    Item,
    Anchor,
    Span,
}

pub open spec fn wanted(w: Want, name: Seq<char>) -> bool {
    match w {
        Want::Nav => name == "nav"@,
        Want::List => name == "ol"@ || name == "ul"@,
        Want::Item => name == "li"@,
        Want::Anchor => name == "a"@,
        Want::Span => name == "span"@,
    }
}

/// Whether a node is an element of the kind wanted.
pub open spec fn is_wanted(w: Want, n: DomView) -> bool {
    match n {
        DomView::Element { name, .. } => wanted(w, name),
        _ => false,
    }
}

/// The first element of the kind wanted among `ns[k..]` and their
/// descendants, in document order.
pub open spec fn first_from(ns: Seq<DomView>, k: int, w: Want) -> Option<DomView>
    decreases ns, 0int, ns.len() - k,
{
    if k < 0 || k >= ns.len() {
        None
    } else {
        match first_at(ns[k], w) {
            Some(x) => Some(x),
            None => first_from(ns, k + 1, w),
        }
    }
}

/// The first element of the kind wanted in the subtree of `n` (`n` itself
/// included), in document order.
pub open spec fn first_at(n: DomView, w: Want) -> Option<DomView>
    decreases n, 1int, 0int,
{
    match n {
        DomView::Element { name, children, .. } => if wanted(w, name) {
            Some(n)
        } else {
            first_from(children, 0, w)
        },
        _ => None,
    }
}

/// Every element of the kind wanted among `ns[k..]` and their descendants,
/// in document order.
pub open spec fn all_from(ns: Seq<DomView>, k: int, w: Want) -> Seq<DomView>
    decreases ns, 0int, ns.len() - k,
{
    if k < 0 || k >= ns.len() {
        Seq::empty()
    } else {
        all_at(ns[k], w) + all_from(ns, k + 1, w)
    }
}

/// Every element of the kind wanted in the subtree of `n`, in document order.
pub open spec fn all_at(n: DomView, w: Want) -> Seq<DomView>
    decreases n, 1int, 0int,
{
    match n {
        DomView::Element { name, children, .. } => if wanted(w, name) {
            seq![n] + all_from(children, 0, w)
        } else {
            all_from(children, 0, w)
        },
        _ => Seq::empty(),
    }
}

/// The text nodes among `ns[k..]` and their descendants, in document order.
pub open spec fn texts_from(ns: Seq<DomView>, k: int) -> Seq<Seq<char>>
    decreases ns, 0int, ns.len() - k,
{
    if k < 0 || k >= ns.len() {
        Seq::empty()
    } else {
        texts_at(ns[k]) + texts_from(ns, k + 1)
    }
}

/// The text nodes in the subtree of `n`, in document order.
pub open spec fn texts_at(n: DomView) -> Seq<Seq<char>>
    decreases n, 1int, 0int,
{
    match n {
        DomView::Element { children, .. } => texts_from(children, 0),
        DomView::Text(t) => seq![t],
        DomView::Other => Seq::empty(),
    }
}

/// The index of the first of `ns[k..]` that is an element of the kind
/// wanted, or `-1`.
pub open spec fn child_from(ns: Seq<DomView>, k: int, w: Want) -> int
    decreases ns.len() - k,
{
    if k < 0 || k >= ns.len() {
        -1
    } else if is_wanted(w, ns[k]) {
        k
    } else {
        child_from(ns, k + 1, w)
    }
}

pub proof fn lemma_child_from(ns: Seq<DomView>, k: int, w: Want)
    requires
        0 <= k,
    ensures
        child_from(ns, k, w) == -1 || (k <= child_from(ns, k, w) < ns.len() && is_wanted(w, ns[child_from(ns, k, w)])),
    decreases ns.len() - k,
{
    if k < ns.len() && !is_wanted(w, ns[k]) {
        lemma_child_from(ns, k + 1, w);
    }
}

/// Parse an HTML document with `scraper::Html::parse_document` and copy the
/// tree under its root element. The contract claims only that the copy is
/// the tree the parser builds for `html` (see [`html_dom`]).
#[verifier::external_body]
pub(crate) fn html_document(html: &str) -> (r: HtmlNode)
    ensures
        dom_view(r) == html_dom(html@),
{
    let doc = scraper::Html::parse_document(html);
    element_tree(doc.root_element())
}

/// Copy an element of a `scraper` tree: `Element::name`, `Element::attrs`
/// and, for each child node, a copy of it by its `scraper::Node` variant.
#[verifier::external_body]
fn element_tree(e: scraper::ElementRef<'_>) -> (r: HtmlNode) {
    let children = e.children().map(|c| match scraper::ElementRef::wrap(c) {
        Some(el) => element_tree(el),
        None => match c.value() {
            scraper::Node::Text(t) => HtmlNode::Text(t.to_string()),
            _ => HtmlNode::Other,
        },
    }).collect();
    let attrs = e.value().attrs().map(|(k, v)| (k.to_string(), v.to_string())).collect();
    HtmlNode::Element { name: e.value().name().to_string(), attrs, children }
}

// ---------------------------------------------------------------------------
// Searching the tree
// ---------------------------------------------------------------------------

pub open spec fn opt_dom(r: Option<&HtmlNode>) -> Option<DomView> {
    match r {
        Some(n) => Some(dom_view(*n)),
        None => None,
    }
}

pub(crate) fn is_wanted_exec(w: &Want, n: &HtmlNode) -> (b: bool)
    ensures
        b == is_wanted(*w, dom_view(*n)),
{
    match n {
        HtmlNode::Element { name, .. } => {
            let s = name.as_str();
            proof {
                reveal_strlit("nav");
                reveal_strlit("ol");
                reveal_strlit("ul");
                reveal_strlit("li");
                reveal_strlit("a");
                reveal_strlit("span");
            }
            match w {
                Want::Nav => crate::text::str_eq(s, "nav"),
                Want::List => crate::text::str_eq(s, "ol") || crate::text::str_eq(s, "ul"),
                Want::Item => crate::text::str_eq(s, "li"),
                Want::Anchor => crate::text::str_eq(s, "a"),
                Want::Span => crate::text::str_eq(s, "span"),
            }
        },
        _ => false,
    }
}

/// The first element of the kind wanted in the subtree of `n`.
pub fn first_at_exec<'a>(n: &'a HtmlNode, w: &Want) -> (r: Option<&'a HtmlNode>)
    ensures
        opt_dom(r) == first_at(dom_view(*n), *w),
    decreases *n,
{
    match n {
        HtmlNode::Element { name, attrs, children } => {
            if is_wanted_exec(w, n) {
                return Some(n);
            }
            proof {
                lemma_dom_forest(children@);
            }
            let mut k: usize = 0;
            while k < children.len()
                invariant
                    *n == (HtmlNode::Element { name: *name, attrs: *attrs, children: *children }),
                    k <= children@.len(),
                    dom_forest(children@).len() == children@.len(),
                    forall|j: int| 0 <= j < children@.len() ==> #[trigger] dom_forest(children@)[j] == dom_view(children@[j]),
                    first_at(dom_view(*n), *w) == first_from(dom_forest(children@), k as int, *w),
                decreases children@.len() - k,
            {
                assert(*children == n->children);
                assert(decreases_to!(*n => n->children));
                assert(decreases_to!(*children => children@));
                assert(decreases_to!(children@ => children@[k as int]));
                assert(decreases_to!(*n => children@[k as int]));
                let r = first_at_exec(&children[k], w);
                if r.is_some() {
                    return r;
                }
                k += 1;
            }
            None
        },
        _ => None,
    }
}

/// The first element of the kind wanted among `ns` and their descendants.
pub fn first_in<'a>(ns: &'a Vec<HtmlNode>, w: &Want) -> (r: Option<&'a HtmlNode>)
    ensures
        opt_dom(r) == first_from(dom_forest(ns@), 0, *w),
{
    proof {
        lemma_dom_forest(ns@);
    }
    let mut k: usize = 0;
    while k < ns.len()
        invariant
            k <= ns@.len(),
            dom_forest(ns@).len() == ns@.len(),
            forall|j: int| 0 <= j < ns@.len() ==> #[trigger] dom_forest(ns@)[j] == dom_view(ns@[j]),
            first_from(dom_forest(ns@), 0, *w) == first_from(dom_forest(ns@), k as int, *w),
        decreases ns@.len() - k,
    {
        let r = first_at_exec(&ns[k], w);
        if r.is_some() {
            return r;
        }
        k += 1;
    }
    None
}

/// The index of the first of `ns` that is an element of the kind wanted.
pub fn first_child(ns: &Vec<HtmlNode>, w: &Want) -> (r: Option<usize>)
    ensures
        match r {
            Some(i) => i as int == child_from(dom_forest(ns@), 0, *w) && i < ns@.len(),
            None => child_from(dom_forest(ns@), 0, *w) == -1,
        },
{
    proof {
        lemma_dom_forest(ns@);
    }
    let mut k: usize = 0;
    while k < ns.len()
        invariant
            k <= ns@.len(),
            dom_forest(ns@).len() == ns@.len(),
            forall|j: int| 0 <= j < ns@.len() ==> #[trigger] dom_forest(ns@)[j] == dom_view(ns@[j]),
            child_from(dom_forest(ns@), 0, *w) == child_from(dom_forest(ns@), k as int, *w),
        decreases ns@.len() - k,
    {
        if is_wanted_exec(w, &ns[k]) {
            return Some(k);
        }
        k += 1;
    }
    None
}

pub open spec fn dom_derefs(s: Seq<&HtmlNode>) -> Seq<DomView> {
    Seq::new(s.len(), |i: int| dom_view(*s[i]))
}

/// Append every element of the kind wanted in the subtree of `n`.
pub fn all_at_exec<'a>(n: &'a HtmlNode, w: &Want, out: &mut Vec<&'a HtmlNode>)
    ensures
        dom_derefs(final(out)@) == dom_derefs(old(out)@) + all_at(dom_view(*n), *w),
    decreases *n,
{
    match n {
        HtmlNode::Element { name, attrs, children } => {
            let ghost start = dom_derefs(out@);
            if is_wanted_exec(w, n) {
                out.push(n);
                assert(dom_derefs(out@) =~= start + seq![dom_view(*n)]);
            }
            let ghost mid = dom_derefs(out@);
            proof {
                lemma_dom_forest(children@);
            }
            let mut k: usize = 0;
            while k < children.len()
                invariant
                    *n == (HtmlNode::Element { name: *name, attrs: *attrs, children: *children }),
                    k <= children@.len(),
                    dom_forest(children@).len() == children@.len(),
                    forall|j: int| 0 <= j < children@.len() ==> #[trigger] dom_forest(children@)[j] == dom_view(children@[j]),
                    dom_derefs(out@) + all_from(dom_forest(children@), k as int, *w) == mid + all_from(dom_forest(children@), 0, *w),
                decreases children@.len() - k,
            {
                assert(*children == n->children);
                assert(decreases_to!(*n => n->children));
                assert(decreases_to!(*children => children@));
                assert(decreases_to!(children@ => children@[k as int]));
                assert(decreases_to!(*n => children@[k as int]));
                let ghost before = dom_derefs(out@);
                all_at_exec(&children[k], w, out);
                proof {
                    let f = dom_forest(children@);
                    assert(all_from(f, k as int, *w) == all_at(f[k as int], *w) + all_from(f, k + 1, *w));
                    assert(before + all_from(f, k as int, *w) =~= dom_derefs(out@) + all_from(f, k + 1, *w));
                }
                k += 1;
            }
            proof {
                assert(all_from(dom_forest(children@), k as int, *w) =~= Seq::<DomView>::empty());
                assert(dom_derefs(out@) =~= mid + all_from(dom_forest(children@), 0, *w));
            }
        },
        _ => {
            assert(dom_derefs(out@) =~= dom_derefs(out@) + Seq::<DomView>::empty());
        },
    }
}

/// Append the text nodes in the subtree of `n`.
pub fn texts_at_exec(n: &HtmlNode, out: &mut Vec<String>)
    ensures
        crate::package::strs(final(out)@) == crate::package::strs(old(out)@) + texts_at(dom_view(*n)),
    decreases *n,
{
    match n {
        HtmlNode::Element { name, attrs, children } => {
            let ghost start = crate::package::strs(out@);
            proof {
                lemma_dom_forest(children@);
            }
            let mut k: usize = 0;
            while k < children.len()
                invariant
                    *n == (HtmlNode::Element { name: *name, attrs: *attrs, children: *children }),
                    k <= children@.len(),
                    dom_forest(children@).len() == children@.len(),
                    forall|j: int| 0 <= j < children@.len() ==> #[trigger] dom_forest(children@)[j] == dom_view(children@[j]),
                    crate::package::strs(out@) + texts_from(dom_forest(children@), k as int) == start + texts_from(dom_forest(children@), 0),
                decreases children@.len() - k,
            {
                assert(*children == n->children);
                assert(decreases_to!(*n => n->children));
                assert(decreases_to!(*children => children@));
                assert(decreases_to!(children@ => children@[k as int]));
                assert(decreases_to!(*n => children@[k as int]));
                let ghost before = crate::package::strs(out@);
                texts_at_exec(&children[k], out);
                proof {
                    let f = dom_forest(children@);
                    assert(texts_from(f, k as int) == texts_at(f[k as int]) + texts_from(f, k + 1));
                    assert(before + texts_from(f, k as int) =~= crate::package::strs(out@) + texts_from(f, k + 1));
                }
                k += 1;
            }
            proof {
                assert(texts_from(dom_forest(children@), k as int) =~= Seq::<Seq<char>>::empty());
                assert(crate::package::strs(out@) =~= start + texts_from(dom_forest(children@), 0));
            }
        },
        HtmlNode::Text(t) => {
            let ghost start = crate::package::strs(out@);
            let c = crate::text::chars_of(t.as_str());
            out.push(crate::text::string_from_chars(c.as_slice()));
            assert(crate::package::strs(out@) =~= start + seq![t@]);
        },
        HtmlNode::Other => {
            assert(crate::package::strs(out@) =~= crate::package::strs(out@) + Seq::<Seq<char>>::empty());
        },
    }
}

/// The value of the first attribute of `n` named `key`.
pub fn attr_exec(n: &HtmlNode, key: &str) -> (r: Option<String>)
    ensures
        match (r, attr(dom_view(*n), key@)) {
            (Some(s), Some(v)) => s@ == v,
            (None, None) => true,
            _ => false,
        },
{
    match n {
        HtmlNode::Element { name, attrs, children } => {
            let ghost a = pair_views(attrs@);
            let mut k: usize = 0;
            while k < attrs.len()
                invariant
                    *n == (HtmlNode::Element { name: *name, attrs: *attrs, children: *children }),
                    k <= attrs@.len(),
                    a == pair_views(attrs@),
                    attr_from(a, key@, 0) == attr_from(a, key@, k as int),
                decreases attrs@.len() - k,
            {
                assert(a[k as int] == (attrs@[k as int].0@, attrs@[k as int].1@));
                if crate::text::str_eq(attrs[k].0.as_str(), key) {
                    let c = crate::text::chars_of(attrs[k].1.as_str());
                    let v = crate::text::string_from_chars(c.as_slice());
                    assert(attr_from(a, key@, k as int) == Some(a[k as int].1));
                    assert(attr(dom_view(*n), key@) == attr_from(a, key@, 0));
                    return Some(v);
                }
                k += 1;
            }
            None
        },
        _ => None,
    }
}

} // verus!
