//! Display preparation of a section: the styles added to its `<head>` and
//! the rewriting of its links.

use vstd::prelude::*;

use crate::book::{loaded_content, no_section, section_at, spec_from_section, spec_resource_path, Book};
use crate::cfi::{decimal, push_decimal};
use crate::error::{err_view, EpubError};
use crate::highlight::{
    highlight_marks, inject_marks, is_boundary, law_marks_on_char_boundaries, merge_of, range_marks, spec_splice, HighlightRange,
};
use crate::path::{dir_of, is_external, path_part, resolve, spec_dir_of, spec_is_external, spec_resolve_path};
use crate::rewrite::{
    css_rw, css_urls, rewrite_css, url_views,
    inject_into_head, ref_view, reply_view, reply_views, rewrite_html, spec_inject, spec_rewrite, RefKind, RefView,
    Reference, Replacement, ReplyView,
};
use crate::section::Section;
use crate::text::{byte_len, chars_of, push_all, string_from_chars};
use crate::text_map::{scan_limit, spec_scan, text_pos_ok};

verus! {

/// Options for rendering a section
pub struct RenderOptions {
    /// Extra CSS appended to the document `<head>`
    pub styles: Option<String>,
    /// Include a small default stylesheet (responsive images). Default: true
    pub base_styles: bool,
    /// Remove `<script>` elements. Default: true
    pub strip_scripts: bool,
    /// Rewrite internal `<a href>` links to `href="#"` with `data-epub-*`
    /// attributes, and external links to open in a new tab. Default: true
    pub resolve_links: bool,
    /// Plain-text ranges to highlight with `<mark>` elements. The first
    /// mark of each range carries `data-epub-offset="<start>"` so it can be
    /// scrolled to. Default: none
    pub highlights: Vec<HighlightRange>,
}

impl Default for RenderOptions {
    fn default() -> (o: Self)
        ensures
            o.styles is None,
            o.base_styles,
            o.strip_scripts,
            o.resolve_links,
            o.highlights@.len() == 0,
    {
        Self {
            styles: None,
            base_styles: true,
            strip_scripts: true,
            resolve_links: true,
            highlights: Vec::new(),
        }
    }
}

/// The default stylesheet: responsive images.
pub open spec fn base_styles() -> Seq<char> {
    "img, svg, video { max-width: 100%; height: auto; }"@
}

/// The stylesheet of highlight marks.
pub open spec fn highlight_styles() -> Seq<char> {
    "mark.epub-highlight { background: #ffe08a; color: inherit; }"@
}

/// `css` in a `<style>` element.
pub open spec fn style_element(css: Seq<char>) -> Seq<char> {
    "<style>"@ + css + "</style>"@
}

/// What goes into the `<head>`: the base stylesheet, the highlight
/// stylesheet when there are highlights, then the caller's CSS, each in
/// a `<style>` element of its own and only when asked for.
pub open spec fn spec_head(opts: RenderOptions) -> Seq<char> {
    (if opts.base_styles {
        style_element(base_styles())
    } else {
        Seq::empty()
    }) + (if opts.highlights@.len() > 0 {
        style_element(highlight_styles())
    } else {
        Seq::empty()
    }) + match opts.styles {
        Some(css) => style_element(css@),
        None => Seq::empty(),
    }
}

fn push_style(out: &mut Vec<char>, css: &Vec<char>)
    ensures
        final(out)@ == old(out)@ + style_element(css@),
{
    let open = chars_of("<style>");
    let close = chars_of("</style>");
    push_all(out, &open);
    push_all(out, css);
    push_all(out, &close);
    assert(final(out)@ =~= old(out)@ + style_element(css@));
}

/// The markup to add to the `<head>` of a rendered section.
pub fn head_markup(opts: &RenderOptions) -> (r: String)
    ensures
        r@ == spec_head(*opts),
{
    let mut head: Vec<char> = Vec::new();
    if opts.base_styles {
        let css = chars_of("img, svg, video { max-width: 100%; height: auto; }");
        push_style(&mut head, &css);
    }
    let ghost a = head@;
    if opts.highlights.len() > 0 {
        let css = chars_of("mark.epub-highlight { background: #ffe08a; color: inherit; }");
        push_style(&mut head, &css);
    }
    let ghost b = head@;
    match &opts.styles {
        Some(css) => {
            let c = chars_of(css.as_str());
            push_style(&mut head, &c);
        },
        None => {},
    }
    assert(head@ =~= spec_head(*opts));
    string_from_chars(head.as_slice())
}

/// The section (and fragment) an href inside section `index` leads to.
pub open spec fn link_target(secs: Seq<Section>, index: int, href: Seq<char>) -> Option<(int, Option<Seq<char>>)> {
    if index < 0 || index >= secs.len() {
        None
    } else {
        match spec_from_section(secs[index].href@, href) {
            Some(x) => {
                let i = section_at(secs, path_part(x.0), 0);
                if i < 0 {
                    None
                } else {
                    Some((i, x.1))
                }
            },
            None => None,
        }
    }
}

/// The attributes of a link into the book: `href="#"`, and the target
/// section's archive path (with the fragment), index and fragment as
/// `data-epub-*` attributes.
pub open spec fn section_link_attrs(target_href: Seq<char>, target: nat, fragment: Option<Seq<char>>) -> Seq<(Seq<char>, Seq<char>)> {
    seq![
        ("href"@, "#"@),
        ("data-epub-href"@, match fragment {
            Some(f) => target_href + seq!['#'] + f,
            None => target_href,
        }),
        ("data-epub-section"@, decimal(target)),
        ("data-epub-fragment"@, match fragment {
            Some(f) => f,
            None => Seq::empty(),
        }),
    ]
}

/// The attributes of an external link: it opens in a new tab.
pub open spec fn external_link_attrs(href: Seq<char>) -> Seq<(Seq<char>, Seq<char>)> {
    seq![("href"@, href), ("target"@, "_blank"@), ("rel"@, "noopener"@)]
}

/// How a link found in section `index` is rewritten: empty hrefs are left
/// alone, external ones open in a new tab, and hrefs of sections become
/// `data-epub-*` links; `None` for anything else (a file that is not a
/// section is served as a resource instead).
pub open spec fn spec_link_rewrite(secs: Seq<Section>, index: int, href: Seq<char>) -> Option<ReplyView> {
    if href.len() == 0 {
        None
    } else if spec_is_external(href) {
        Some(ReplyView::Attrs(external_link_attrs(href)))
    } else {
        match link_target(secs, index, href) {
            Some((t, f)) => Some(ReplyView::Attrs(section_link_attrs(secs[t].href@, t as nat, f))),
            None => None,
        }
    }
}

proof fn lemma_section_at_range(secs: Seq<Section>, p: Seq<char>, k: int)
    ensures
        section_at(secs, p, k) < secs.len(),
        section_at(secs, p, k) >= 0 ==> secs[section_at(secs, p, k)].href@ == p,
    decreases secs.len() - k,
{
    if !(k < 0 || k >= secs.len()) && secs[k].href@ != p {
        lemma_section_at_range(secs, p, k + 1);
    }
}

fn pair(name: &str, value: Vec<char>) -> (r: (String, String))
    ensures
        r.0@ == name@,
        r.1@ == value@,
{
    let n = chars_of(name);
    (string_from_chars(n.as_slice()), string_from_chars(value.as_slice()))
}

/// The rewrite of a link found in section `index` (see
/// [`spec_link_rewrite`]).
pub fn link_rewrite(book: &Book, index: usize, href: &str) -> (r: Option<Replacement>)
    ensures
        reply_view(r) == spec_link_rewrite(book.secs(), index as int, href@),
{
    let hv = chars_of(href);
    if hv.len() == 0 {
        return None;
    }
    if is_external(href) {
        let v = chars_of(href);
        let attrs = vec![
            pair("href", v),
            pair("target", chars_of("_blank")),
            pair("rel", chars_of("noopener")),
        ];
        proof {
            assert(attrs@.map_values(|p: (String, String)| (p.0@, p.1@)) =~= external_link_attrs(href@));
        }
        return Some(Replacement::Attrs(attrs));
    }
    match book.resolve_href(index, href) {
        Some((target, fragment)) => {
            proof {
                lemma_section_at_range(book.secs(), path_part(spec_from_section(book.secs()[index as int].href@, href@)->Some_0.0), 0);
            }
            let s = match book.section(target) {
                Some(s) => s,
                None => return None,
            };
            let mut full = chars_of(s.href.as_str());
            let mut frag: Vec<char> = Vec::new();
            match &fragment {
                Some(f) => {
                    full.push('#');
                    frag = chars_of(f.as_str());
                    push_all(&mut full, &frag);
                },
                None => {},
            }
            let mut num: Vec<char> = Vec::new();
            push_decimal(&mut num, target);
            let attrs = vec![
                pair("href", chars_of("#")),
                pair("data-epub-href", full),
                pair("data-epub-section", num),
                pair("data-epub-fragment", frag),
            ];
            proof {
                let fo = crate::book::opt_str(fragment);
                assert(full@ == (match fo {
                    Some(f) => book.secs()[target as int].href@ + seq!['#'] + f,
                    None => book.secs()[target as int].href@,
                }));
                assert(frag@ == (match fo {
                    Some(f) => f,
                    None => Seq::empty(),
                }));
                assert(num@ == decimal(target as nat));
                assert(attrs@.map_values(|p: (String, String)| (p.0@, p.1@)) =~= section_link_attrs(
                    book.secs()[target as int].href@,
                    target as nat,
                    crate::book::opt_str(fragment),
                ));
            }
            Some(Replacement::Attrs(attrs))
        },
        None => None,
    }
}

/// The URL the caller supplied for archive path `p` (the first entry
/// naming it, from `k` on).
pub open spec fn url_lookup(urls: Seq<(String, String)>, p: Seq<char>, k: int) -> Option<Seq<char>>
    decreases urls.len() - k,
{
    if k < 0 || k >= urls.len() {
        None
    } else if urls[k].0@ == p {
        Some(urls[k].1@)
    } else {
        url_lookup(urls, p, k + 1)
    }
}

/// The archive path an asset href found in directory `dir` names: resolved
/// against `dir`, else against the package directory; `None` when neither
/// is a resource of the book.
pub open spec fn asset_path(files: Seq<(Seq<char>, Seq<u8>)>, base: Seq<char>, dir: Seq<char>, href: Seq<char>) -> Option<Seq<char>> {
    let p = spec_resolve_path(dir, href);
    if spec_resource_path(files, base, p) is Some {
        Some(p)
    } else {
        let alt = spec_resolve_path(base, href);
        if spec_resource_path(files, base, alt) is Some {
            Some(alt)
        } else {
            None
        }
    }
}

/// The URL of the asset an href found in directory `dir` names.
pub open spec fn asset_url(
    files: Seq<(Seq<char>, Seq<u8>)>,
    base: Seq<char>,
    urls: Seq<(String, String)>,
    dir: Seq<char>,
    href: Seq<char>,
) -> Option<Seq<char>> {
    match asset_path(files, base, dir, href) {
        Some(p) => url_lookup(urls, p, 0),
        None => None,
    }
}

/// How a reference found in section `index` (whose directory is `dir`) is
/// rewritten: links as [`spec_link_rewrite`] says (when links are resolved),
/// a link to a file that is not a section to that file's URL in a new tab;
/// assets to their URL, unless external or a bare `#fragment`.
pub open spec fn spec_reply(
    secs: Seq<Section>,
    files: Seq<(Seq<char>, Seq<u8>)>,
    base: Seq<char>,
    index: int,
    resolve_links: bool,
    urls: Seq<(String, String)>,
    dir: Seq<char>,
    rv: RefView,
) -> Option<ReplyView> {
    let v = rv.value;
    if v.len() == 0 {
        None
    } else if rv.kind == RefKind::Link {
        if !resolve_links {
            None
        } else if spec_link_rewrite(secs, index, v) is Some {
            spec_link_rewrite(secs, index, v)
        } else {
            match asset_url(files, base, urls, dir, v) {
                Some(u) => Some(ReplyView::Attrs(seq![("href"@, u), ("target"@, "_blank"@)])),
                None => None,
            }
        }
    } else if spec_is_external(v) || v[0] == '#' {
        None
    } else {
        match asset_url(files, base, urls, dir, v) {
            Some(u) => Some(ReplyView::Value(u)),
            None => None,
        }
    }
}

/// `out` is `doc` rewritten with every reference answered as `reply` says,
/// and `head` added to its `<head>`.
pub open spec fn rendered(out: Seq<char>, doc: Seq<char>, strip: bool, head: Seq<char>, reply: spec_fn(RefView) -> Option<ReplyView>) -> bool {
    exists|reps: Seq<Option<Replacement>>|
        {
            &&& spec_rewrite(doc, strip, reply_views(reps)).1.len() == reps.len()
            &&& forall|k: int| 0 <= k < reps.len() ==> reply_view(#[trigger] reps[k]) == reply(spec_rewrite(doc, strip, reply_views(reps)).1[k])
            &&& out == spec_inject(#[trigger] spec_rewrite(doc, strip, reply_views(reps)).0, head)
        }
}

/// The document that is rewritten: the content with its highlights spliced in.
pub open spec fn marked_content(c: Seq<char>, highlights: Seq<HighlightRange>) -> Seq<char> {
    if highlights.len() > 0 {
        spec_splice(c, highlight_marks(spec_scan(c).entries, highlights))
    } else {
        c
    }
}

fn asset_url_exec(book: &Book, urls: &[(String, String)], dir: &str, href: &str) -> (r: Option<String>)
    ensures
        crate::book::opt_str(r) == asset_url(book.files(), book.base(), urls@, dir@, href@),
{
    let (p, _) = resolve(dir, href);
    let key = match book.get_resource(p.as_str()) {
        Some(_) => p,
        None => {
            let (alt, _) = resolve(book.base_path(), href);
            match book.get_resource(alt.as_str()) {
                Some(_) => alt,
                None => return None,
            }
        },
    };
    let kv = chars_of(key.as_str());
    let mut k: usize = 0;
    while k < urls.len()
        invariant
            k <= urls@.len(),
            kv@ == key@,
            Some(key@) == asset_path(book.files(), book.base(), dir@, href@),
            url_lookup(urls@, key@, 0) == url_lookup(urls@, key@, k as int),
        decreases urls@.len() - k,
    {
        let u = chars_of(urls[k].0.as_str());
        if crate::text::chars_eq(&u, &kv) {
            let w = chars_of(urls[k].1.as_str());
            return Some(string_from_chars(w.as_slice()));
        }
        k += 1;
    }
    None
}

fn replier<F: Fn(Reference<'_>) -> Option<Replacement>>(f: F) -> (r: F)
    ensures
        r == f,
{
    f
}

/// `doc`, found in section `index` (whose directory is `dir`), rewritten
/// for display and with the requested styles in its `<head>`.
fn render_document(b: &Book, index: usize, dir: &str, doc: &str, opts: &RenderOptions, urls: &[(String, String)]) -> (out: String)
    ensures
        rendered(
            out@,
            doc@,
            opts.strip_scripts,
            spec_head(*opts),
            |rv: RefView| spec_reply(b.secs(), b.files(), b.base(), index as int, opts.resolve_links, urls@, dir@, rv),
        ),
{
    let resolve_links = opts.resolve_links;
    let ghost secs = b.secs();
    let ghost files = b.files();
    let ghost base = b.base();
    let ghost idx: int = index as int;
    let reply = replier(
        (|r: Reference<'_>| -> (o: Option<Replacement>)
            ensures
                reply_view(o) == spec_reply(
                    secs,
                    files,
                    base,
                    idx,
                    resolve_links,
                    urls@,
                    dir@,
                    ref_view(r),
                ),
        {
            let v = chars_of(r.value);
            if v.len() == 0 {
                return None;
            }
            match r.kind {
                RefKind::Link => {
                    if !resolve_links {
                        return None;
                    }
                    match link_rewrite(b, index, r.value) {
                        Some(x) => Some(x),
                        None => match asset_url_exec(b, urls, dir, r.value) {
                            Some(u) => {
                                let attrs = vec![pair("href", chars_of(u.as_str())), pair("target", chars_of("_blank"))];
                                proof {
                                    assert(attrs@.map_values(|p: (String, String)| (p.0@, p.1@)) =~= seq![("href"@, u@), ("target"@, "_blank"@)]);
                                }
                                Some(Replacement::Attrs(attrs))
                            },
                            None => None,
                        },
                    }
                },
                _ => {
                    if is_external(r.value) || v[0] == '#' {
                        return None;
                    }
                    match asset_url_exec(b, urls, dir, r.value) {
                        Some(u) => Some(Replacement::Value(u)),
                        None => None,
                    }
                },
            }
        }),
    );
    let ghost g = reply;
    let html = rewrite_html(doc, opts.strip_scripts, reply);
    let head = head_markup(opts);
    let out = inject_into_head(html.as_str(), head.as_str());
    proof {
        let reps = choose|reps: Seq<Option<Replacement>>|
            {
                &&& #[trigger] spec_rewrite(doc@, opts.strip_scripts, reply_views(reps)).0 == html@
                &&& spec_rewrite(doc@, opts.strip_scripts, reply_views(reps)).1.len() == reps.len()
                &&& forall|k: int|
                    0 <= k < reps.len() ==> crate::rewrite::answered_ref(
                        g,
                        spec_rewrite(doc@, opts.strip_scripts, reply_views(reps)).1[k],
                        #[trigger] reps[k],
                    )
            };
        let refs = spec_rewrite(doc@, opts.strip_scripts, reply_views(reps)).1;
        let rf = |rv: RefView| spec_reply(secs, files, base, idx, resolve_links, urls@, dir@, rv);
        assert forall|k: int| 0 <= k < reps.len() implies reply_view(#[trigger] reps[k]) == rf(refs[k]) by {
            let x = choose|x: Reference| ref_view(x) == refs[k] && #[trigger] g.ensures((x,), reps[k]);
        }
        assert(rendered(out@, doc@, opts.strip_scripts, spec_head(*opts), rf));
    }
    out
}

/// Section content ready to display: internal links become
/// `<a href="#" data-epub-href="…" data-epub-section="N" data-epub-fragment="…">`,
/// external links open in a new tab, images, stylesheets and other assets
/// point at the URL `urls` gives for their archive path (an asset without
/// one is left as it is), scripts are removed, highlights are marked and
/// the requested styles are added to the `<head>`.
///
/// Every non-empty highlight range must start and end on a character
/// boundary of the section's normalized text (or at or past its end), as
/// the offsets of search results do; its marks then fall on character
/// boundaries of the content (see [`law_marks_on_char_boundaries`]).
pub fn render_section(book: &mut Book, index: usize, opts: &RenderOptions, urls: &[(String, String)]) -> (r: Result<String, EpubError>)
    requires
        old(book).wf(),
        index < old(book).secs().len() ==> (loaded_content(old(book).secs()[index as int], old(book).files()) matches Ok(c)
            ==> forall|i: int| 0 <= i < opts.highlights@.len() && opts.highlights@[i].start < opts.highlights@[i].end
                ==> text_pos_ok(spec_scan(c).text, (#[trigger] opts.highlights@[i]).start as int)
                && text_pos_ok(spec_scan(c).text, opts.highlights@[i].end as int)),
    ensures
        final(book).wf(),
        final(book).same_but(old(book), index as int),
        if index >= old(book).secs().len() {
            r matches Err(e) && err_view(e) == no_section(index as int)
        } else {
            match loaded_content(old(book).secs()[index as int], old(book).files()) {
                Ok(c) => r matches Ok(out) && rendered(
                    out@,
                    marked_content(c, opts.highlights@),
                    opts.strip_scripts,
                    spec_head(*opts),
                    |rv: RefView| spec_reply(
                        final(book).secs(),
                        final(book).files(),
                        final(book).base(),
                        index as int,
                        opts.resolve_links,
                        urls@,
                        spec_dir_of(old(book).secs()[index as int].href@),
                        rv,
                    ),
                ) && final(book).secs()[index as int].content_view() == Some(c),
                Err(v) => r matches Err(e) && err_view(e) == v && final(book).secs()[index as int] == old(book).secs()[index as int],
            }
        },
{
    let content = match book.section_content(index) {
        Ok(t) => chars_of(t),
        Err(e) => return Err(e),
    };
    let ghost c = content@;
    proof {
        assert(book.secs()[index as int].wf());
        assert(byte_len(c) < scan_limit());
    }
    let mut doc = string_from_chars(content.as_slice());
    if opts.highlights.len() > 0 {
        let marked = match book.section_map(index) {
            Ok(map) => {
                let t = map.text();
                proof {
                    assert forall|m: Seq<(usize, usize)>| #[trigger] merge_of(opts.highlights@, m) implies forall|i: int|
                        0 <= i < range_marks(map.entries_view(), m).len() ==> is_boundary(doc@, (#[trigger] range_marks(map.entries_view(), m)[i]).0) by {
                        law_marks_on_char_boundaries(c, opts.highlights@, m);
                    }
                }
                inject_marks(doc.as_str(), map, opts.highlights.as_slice())
            },
            Err(e) => return Err(e),
        };
        doc = marked;
    }
    assert(doc@ == marked_content(c, opts.highlights@));
    let b: &Book = book;
    let sec = match b.section(index) {
        Some(s) => s,
        None => return Err(EpubError::ContentNotFound(string_from_chars(chars_of("Section not found").as_slice()))),
    };
    let dir = dir_of(sec.href.as_str());
    let out = render_document(b, index, dir, doc.as_str(), opts, urls);
    Ok(out)
}


/// What a `url()` found in a stylesheet in directory `dir` becomes: the URL
/// of the asset it names, unless it is external or a bare `#fragment`.
pub open spec fn css_reply(
    files: Seq<(Seq<char>, Seq<u8>)>,
    base: Seq<char>,
    urls: Seq<(String, String)>,
    dir: Seq<char>,
    u: Seq<char>,
) -> Option<Seq<char>> {
    if spec_is_external(u) || (u.len() > 0 && u[0] == '#') {
        None
    } else {
        asset_url(files, base, urls, dir, u)
    }
}

/// The stylesheet at archive path `path`, decoded leniently, with each of
/// its `url()`s answered as [`css_reply`] says from the stylesheet's own
/// directory; `None` when the archive has no such file.
pub open spec fn spec_stylesheet(
    files: Seq<(Seq<char>, Seq<u8>)>,
    base: Seq<char>,
    urls: Seq<(String, String)>,
    path: Seq<char>,
) -> Option<Seq<char>> {
    match crate::archive::lookup(files, crate::archive::trim_slashes(path)) {
        None => None,
        Some(b) => {
            let css = crate::xml::lossy_utf8(b);
            let dir = spec_dir_of(path);
            Some(
                css_rw(
                    css,
                    0,
                    css_urls(css, 0).map_values(|u: Seq<char>| css_reply(files, base, urls, dir, u)),
                    0,
                ).0,
            )
        },
    }
}

/// The text of the stylesheet at `archive_path` ready to display: every
/// `url()` in it that names an asset of the book points at the URL `urls`
/// gives for that asset's archive path (see [`spec_stylesheet`]).
pub fn stylesheet_text(book: &Book, archive_path: &str, urls: &[(String, String)]) -> (r: Option<String>)
    ensures
        crate::book::opt_str(r) == spec_stylesheet(book.files(), book.base(), urls@, archive_path@),
{
    let data = match book.archive_file(archive_path) {
        Some(d) => d,
        None => return None,
    };
    let css = crate::xml::utf8_lossy(data);
    let dir = dir_of(archive_path);
    let ghost files = book.files();
    let ghost base = book.base();
    let mut reply = (|u: &str| -> (o: Option<String>)
        ensures
            crate::book::opt_str(o) == css_reply(book.files(), book.base(), urls@, dir@, u@),
        {
            let v = chars_of(u);
            if is_external(u) || (v.len() > 0 && v[0] == '#') {
                None
            } else {
                asset_url_exec(book, urls, dir, u)
            }
        });
    let ghost g = reply;
    let out = rewrite_css(css.as_str(), &mut reply);
    proof {
        let us = css_urls(css@, 0);
        let reps = choose|reps: Seq<Option<String>>|
            {
                &&& reps.len() == us.len()
                &&& out@ == #[trigger] css_rw(css@, 0, url_views(reps), 0).0
                &&& forall|k: int| 0 <= k < reps.len() ==> crate::rewrite::answered(g, us[k], #[trigger] reps[k])
            };
        let want = us.map_values(|u: Seq<char>| css_reply(files, base, urls@, dir@, u));
        assert forall|k: int| 0 <= k < reps.len() implies #[trigger] url_views(reps)[k] == want[k] by {
            let x = choose|x: &str| x@ == us[k] && #[trigger] g.ensures((x,), reps[k]);
        }
        assert(url_views(reps) =~= want);
    }
    Some(out)
}

} // verus!
