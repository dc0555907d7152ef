//! OPF package data: metadata, manifest and spine.

use vstd::prelude::*;
use vstd::utf8::*;

use crate::error::{err_view, EpubError, ErrView};
use crate::path::trim_start_ws;
use crate::text::{chars_of, is_whitespace, spec_is_whitespace, str_eq, string_from_chars, sub_vec};
use crate::text_map::trim_end_ws;
use crate::xml::{
    attr_lookup, attr_lookup_exec, attr_view, attrs_view, local_name, local_name_exec, lossy_utf8, opt_str,
    token_view, tokens_view, utf8_lossy, spec_xml_tokens, xml_tokens, TokenView, XmlToken,
};

verus! {

/// Book metadata from the OPF file
#[derive(Debug, Clone)]
pub struct Metadata {
    pub title: String,
    pub creators: Vec<String>,
    pub language: Option<String>,
    pub identifier: Option<String>,
    pub description: Option<String>,
    pub publisher: Option<String>,
    pub date: Option<String>,
    pub subjects: Vec<String>,
    pub rights: Option<String>,
    pub cover_id: Option<String>,
}

impl Metadata {
    /// Metadata with nothing set.
    pub fn new() -> (m: Metadata)
        ensures
            m.title@.len() == 0,
            m.creators@.len() == 0,
            m.language is None,
            m.identifier is None,
            m.description is None,
            m.publisher is None,
            m.date is None,
            m.subjects@.len() == 0,
            m.rights is None,
            m.cover_id is None,
    {
        Metadata {
            title: String::new(),
            creators: Vec::new(),
            language: None,
            identifier: None,
            description: None,
            publisher: None,
            date: None,
            subjects: Vec::new(),
            rights: None,
            cover_id: None,
        }
    }
}

impl Default for Metadata {
    fn default() -> (m: Metadata)
        ensures
            m.title@.len() == 0,
            m.creators@.len() == 0,
            m.language is None,
            m.identifier is None,
            m.description is None,
            m.publisher is None,
            m.date is None,
            m.subjects@.len() == 0,
            m.rights is None,
            m.cover_id is None,
    {
        Metadata::new()
    }
}

/// An item in the manifest
#[derive(Debug, Clone)]
pub struct ManifestItem {
    pub id: String,
    /// href exactly as written in the OPF (relative to the OPF directory)
    pub href: String,
    pub media_type: String,
    pub properties: Vec<String>,
}

/// An item in the spine (reading order)
#[derive(Debug, Clone)]
pub struct SpineItem {
    pub id: String,
    pub idref: String,
    pub linear: bool,
    pub properties: Vec<String>,
}

/// The parsed OPF package. The manifest holds each id at most once.
#[derive(Debug, Clone)]
pub struct Package {
    pub metadata: Metadata,
    pub manifest: Vec<ManifestItem>,
    pub spine: Vec<SpineItem>,
    /// href (relative to OPF dir) of the EPUB3 navigation document
    pub nav_path: Option<String>,
    /// href (relative to OPF dir) of the EPUB2 NCX document
    pub ncx_path: Option<String>,
    /// `page-progression-direction` from `<spine>` (`ltr`, `rtl`, `default`)
    pub page_progression_direction: Option<String>,
}

/// Index of the manifest item with id `id`, or -1.
pub open spec fn manifest_index(items: Seq<ManifestItem>, id: Seq<char>) -> int
    decreases items.len(),
{
    if items.len() == 0 {
        -1
    } else if items.last().id@ == id {
        items.len() - 1
    } else {
        manifest_index(items.drop_last(), id)
    }
}

pub proof fn lemma_manifest_index(items: Seq<ManifestItem>, id: Seq<char>)
    ensures
        -1 <= manifest_index(items, id) < items.len(),
        manifest_index(items, id) >= 0 ==> items[manifest_index(items, id)].id@ == id,
        manifest_index(items, id) < 0 ==> forall|k: int| 0 <= k < items.len() ==> #[trigger] items[k].id@ != id,
    decreases items.len(),
{
    if items.len() > 0 && items.last().id@ != id {
        lemma_manifest_index(items.drop_last(), id);
        assert forall|k: int| 0 <= k < items.len() - 1 implies #[trigger] items[k] == items.drop_last()[k] by {}
    }
}

/// The manifest item with id `id`.
pub fn manifest_lookup<'a>(items: &'a Vec<ManifestItem>, id: &str) -> (r: Option<&'a ManifestItem>)
    ensures
        match r {
            Some(m) => manifest_index(items@, id@) >= 0 && *m == items@[manifest_index(items@, id@)],
            None => manifest_index(items@, id@) < 0,
        },
{
    let mut k = items.len();
    assert(items@.take(k as int) =~= items@);
    while k > 0
        invariant
            k <= items@.len(),
            manifest_index(items@, id@) == manifest_index(items@.take(k as int), id@),
        decreases k,
    {
        let ghost t = items@.take(k as int);
        assert(t.last() == items@[k - 1]);
        assert(t.drop_last() =~= items@.take(k - 1));
        if crate::text::str_eq(items[k - 1].id.as_str(), id) {
            return Some(&items[k - 1]);
        }
        k -= 1;
    }
    None
}

impl Package {
    /// The manifest item with id `id`.
    pub fn manifest_item(&self, id: &str) -> (r: Option<&ManifestItem>)
        ensures
            match r {
                Some(m) => manifest_index(self.manifest@, id@) >= 0 && *m == self.manifest@[manifest_index(self.manifest@, id@)],
                None => manifest_index(self.manifest@, id@) < 0,
            },
    {
        manifest_lookup(&self.manifest, id)
    }
}


// ---------------------------------------------------------------------------
// Views
// ---------------------------------------------------------------------------

pub open spec fn strs(v: Seq<String>) -> Seq<Seq<char>> {
    v.map_values(|s: String| s@)
}

/// Metadata, abstractly.
pub struct MetaView {
    pub title: Seq<char>,
    pub creators: Seq<Seq<char>>,
    pub language: Option<Seq<char>>,
    pub identifier: Option<Seq<char>>,
    pub description: Option<Seq<char>>,
    pub publisher: Option<Seq<char>>,
    pub date: Option<Seq<char>>,
    pub subjects: Seq<Seq<char>>,
    pub rights: Option<Seq<char>>,
    pub cover_id: Option<Seq<char>>,
}

pub open spec fn meta_view(m: Metadata) -> MetaView {
    MetaView {
        title: m.title@,
        creators: strs(m.creators@),
        language: opt_str(m.language),
        identifier: opt_str(m.identifier),
        description: opt_str(m.description),
        publisher: opt_str(m.publisher),
        date: opt_str(m.date),
        subjects: strs(m.subjects@),
        rights: opt_str(m.rights),
        cover_id: opt_str(m.cover_id),
    }
}

/// A manifest item, abstractly.
pub struct ItemView {
    pub id: Seq<char>,
    pub href: Seq<char>,
    pub media_type: Seq<char>,
    pub properties: Seq<Seq<char>>,
}

pub open spec fn item_view(m: ManifestItem) -> ItemView {
    ItemView { id: m.id@, href: m.href@, media_type: m.media_type@, properties: strs(m.properties@) }
}

/// A spine item, abstractly.
pub struct SpineView {
    pub id: Seq<char>,
    pub idref: Seq<char>,
    pub linear: bool,
    pub properties: Seq<Seq<char>>,
}

pub open spec fn spine_view(s: SpineItem) -> SpineView {
    SpineView { id: s.id@, idref: s.idref@, linear: s.linear, properties: strs(s.properties@) }
}

/// A package, abstractly.
pub struct PackageView {
    pub metadata: MetaView,
    pub manifest: Seq<ItemView>,
    pub spine: Seq<SpineView>,
    pub nav_path: Option<Seq<char>>,
    pub ncx_path: Option<Seq<char>>,
    pub page_progression_direction: Option<Seq<char>>,
}

pub open spec fn package_view(p: Package) -> PackageView {
    PackageView {
        metadata: meta_view(p.metadata),
        manifest: p.manifest@.map_values(|m: ManifestItem| item_view(m)),
        spine: p.spine@.map_values(|x: SpineItem| spine_view(x)),
        nav_path: opt_str(p.nav_path),
        ncx_path: opt_str(p.ncx_path),
        page_progression_direction: opt_str(p.page_progression_direction),
    }
}

// ---------------------------------------------------------------------------
// The package document's meaning
// ---------------------------------------------------------------------------

/// The whitespace-separated words of `s[i..]`, after the word `cur` being
/// built and the words `acc`.
pub open spec fn words_from(s: Seq<char>, i: int, cur: Seq<char>, acc: Seq<Seq<char>>) -> Seq<Seq<char>>
    decreases s.len() - i,
{
    if i < 0 || i >= s.len() {
        if cur.len() > 0 {
            acc.push(cur)
        } else {
            acc
        }
    } else if spec_is_whitespace(s[i]) {
        words_from(s, i + 1, Seq::empty(), if cur.len() > 0 {
            acc.push(cur)
        } else {
            acc
        })
    } else {
        words_from(s, i + 1, cur.push(s[i]), acc)
    }
}

/// `str::split_whitespace`, collected.
pub open spec fn words(s: Seq<char>) -> Seq<Seq<char>> {
    words_from(s, 0, Seq::empty(), Seq::empty())
}

/// A manifest item's fields after attribute `key` with raw value `v`.
pub open spec fn item_set(acc: ItemView, key: Seq<u8>, v: Seq<u8>) -> ItemView {
    if key == encode_utf8("id"@) {
        ItemView { id: lossy_utf8(v), ..acc }
    } else if key == encode_utf8("href"@) {
        ItemView { href: lossy_utf8(v), ..acc }
    } else if key == encode_utf8("media-type"@) {
        ItemView { media_type: lossy_utf8(v), ..acc }
    } else if key == encode_utf8("properties"@) {
        ItemView { properties: words(lossy_utf8(v)), ..acc }
    } else {
        acc
    }
}

/// The manifest item fields set by attributes `attrs[k..]` after `acc`,
/// or the first malformed attribute's error.
pub open spec fn item_fold(attrs: Seq<Result<(Seq<u8>, Seq<u8>), Seq<char>>>, k: int, acc: ItemView) -> Result<ItemView, Seq<char>>
    decreases attrs.len() - k,
{
    if k < 0 || k >= attrs.len() {
        Ok(acc)
    } else {
        match attrs[k] {
            Err(m) => Err(m),
            Ok((key, v)) => item_fold(attrs, k + 1, item_set(acc, key, v)),
        }
    }
}

pub open spec fn empty_item() -> ItemView {
    ItemView { id: Seq::empty(), href: Seq::empty(), media_type: Seq::empty(), properties: Seq::empty() }
}

/// The manifest item of an `<item>` tag.
pub open spec fn spec_manifest_item(attrs: Seq<Result<(Seq<u8>, Seq<u8>), Seq<char>>>) -> Result<ItemView, ErrView> {
    match item_fold(attrs, 0, empty_item()) {
        Err(m) => Err(ErrView::Xml(m)),
        Ok(it) => if it.id.len() == 0 {
            Err(ErrView::InvalidStructure("Manifest item missing id"@))
        } else {
            Ok(it)
        },
    }
}

/// A spine item's fields after attribute `key` with raw value `v`.
pub open spec fn spine_set(acc: SpineView, key: Seq<u8>, v: Seq<u8>) -> SpineView {
    if key == encode_utf8("idref"@) {
        SpineView { idref: lossy_utf8(v), ..acc }
    } else if key == encode_utf8("id"@) {
        SpineView { id: lossy_utf8(v), ..acc }
    } else if key == encode_utf8("linear"@) {
        SpineView { linear: v != encode_utf8("no"@), ..acc }
    } else if key == encode_utf8("properties"@) {
        SpineView { properties: words(lossy_utf8(v)), ..acc }
    } else {
        acc
    }
}

/// The spine item fields set by attributes `attrs[k..]` after `acc`, or
/// the first malformed attribute's error.
pub open spec fn spine_fold(attrs: Seq<Result<(Seq<u8>, Seq<u8>), Seq<char>>>, k: int, acc: SpineView) -> Result<SpineView, Seq<char>>
    decreases attrs.len() - k,
{
    if k < 0 || k >= attrs.len() {
        Ok(acc)
    } else {
        match attrs[k] {
            Err(m) => Err(m),
            Ok((key, v)) => spine_fold(attrs, k + 1, spine_set(acc, key, v)),
        }
    }
}

pub open spec fn empty_spine() -> SpineView {
    SpineView { id: Seq::empty(), idref: Seq::empty(), linear: true, properties: Seq::empty() }
}

/// The spine item of an `<itemref>` tag; a missing id becomes
/// `spine-<idref>`.
pub open spec fn spec_spine_item(attrs: Seq<Result<(Seq<u8>, Seq<u8>), Seq<char>>>) -> Result<SpineView, ErrView> {
    match spine_fold(attrs, 0, empty_spine()) {
        Err(m) => Err(ErrView::Xml(m)),
        Ok(it) => if it.idref.len() == 0 {
            Err(ErrView::InvalidStructure("Spine itemref missing idref"@))
        } else if it.id.len() == 0 {
            Ok(SpineView { id: "spine-"@ + it.idref, ..it })
        } else {
            Ok(it)
        },
    }
}

/// The package parser's state.
pub struct PkgState {
    pub metadata: MetaView,
    pub manifest: Seq<ItemView>,
    pub spine: Seq<SpineView>,
    pub nav_path: Option<Seq<char>>,
    pub ncx_path: Option<Seq<char>>,
    pub toc_id: Option<Seq<char>>,
    pub ppd: Option<Seq<char>>,
    pub in_metadata: bool,
    pub current: Option<Seq<char>>,
    pub text: Seq<char>,
}

pub open spec fn initial_pkg() -> PkgState {
    PkgState {
        metadata: MetaView {
            title: Seq::empty(),
            creators: Seq::empty(),
            language: None,
            identifier: None,
            description: None,
            publisher: None,
            date: None,
            subjects: Seq::empty(),
            rights: None,
            cover_id: None,
        },
        manifest: Seq::empty(),
        spine: Seq::empty(),
        nav_path: None,
        ncx_path: None,
        toc_id: None,
        ppd: None,
        in_metadata: false,
        current: None,
        text: Seq::empty(),
    }
}

/// Index of the manifest item with id `id`, or -1.
pub open spec fn item_index(items: Seq<ItemView>, id: Seq<char>) -> int
    decreases items.len(),
{
    if items.len() == 0 {
        -1
    } else if items.last().id == id {
        items.len() - 1
    } else {
        item_index(items.drop_last(), id)
    }
}

/// Add an item, replacing the one with the same id.
pub open spec fn insert_item(items: Seq<ItemView>, it: ItemView) -> Seq<ItemView> {
    let j = item_index(items, it.id);
    if j >= 0 {
        items.update(j, it)
    } else {
        items.push(it)
    }
}

/// `s` without leading and trailing whitespace.
pub open spec fn trim_ws(s: Seq<char>) -> Seq<char> {
    trim_end_ws(trim_start_ws(s))
}

/// Record the text of a finished metadata element `name`.
pub open spec fn set_meta(m: MetaView, name: Seq<char>, value: Seq<char>) -> MetaView {
    if name == "title"@ {
        MetaView { title: value, ..m }
    } else if name == "creator"@ {
        MetaView { creators: m.creators.push(value), ..m }
    } else if name == "language"@ {
        MetaView { language: Some(value), ..m }
    } else if name == "identifier"@ {
        if m.identifier is None {
            MetaView { identifier: Some(value), ..m }
        } else {
            m
        }
    } else if name == "description"@ {
        MetaView { description: Some(value), ..m }
    } else if name == "publisher"@ {
        MetaView { publisher: Some(value), ..m }
    } else if name == "date"@ {
        MetaView { date: Some(value), ..m }
    } else if name == "subject"@ {
        MetaView { subjects: m.subjects.push(value), ..m }
    } else if name == "rights"@ {
        MetaView { rights: Some(value), ..m }
    } else {
        m
    }
}

/// The effect of a start tag.
pub open spec fn pkg_start(st: PkgState, name: Seq<char>, attrs: Seq<Result<(Seq<u8>, Seq<u8>), Seq<char>>>) -> Result<PkgState, ErrView> {
    if name == "metadata"@ {
        Ok(PkgState { in_metadata: true, ..st })
    } else if name == "item"@ {
        match spec_manifest_item(attrs) {
            Err(e) => Err(e),
            Ok(it) => {
                let nav = if it.properties.contains("nav"@) {
                    Some(it.href)
                } else {
                    st.nav_path
                };
                let ncx = if it.media_type == "application/x-dtbncx+xml"@ && st.ncx_path is None {
                    Some(it.href)
                } else {
                    st.ncx_path
                };
                Ok(PkgState { nav_path: nav, ncx_path: ncx, manifest: insert_item(st.manifest, it), ..st })
            },
        }
    } else if name == "itemref"@ {
        match spec_spine_item(attrs) {
            Err(e) => Err(e),
            Ok(it) => Ok(PkgState { spine: st.spine.push(it), ..st }),
        }
    } else if name == "spine"@ {
        match (attr_lookup(attrs, "toc"@), attr_lookup(attrs, "page-progression-direction"@)) {
            (Err(m), _) => Err(ErrView::Xml(m)),
            (Ok(_), Err(m)) => Err(ErrView::Xml(m)),
            (Ok(toc), Ok(ppd)) => Ok(PkgState { toc_id: toc, ppd, ..st }),
        }
    } else if name == "meta"@ && st.in_metadata {
        match attr_lookup(attrs, "name"@) {
            Err(m) => Err(ErrView::Xml(m)),
            Ok(n) => if n == Some("cover"@) {
                match attr_lookup(attrs, "content"@) {
                    Err(m) => Err(ErrView::Xml(m)),
                    Ok(Some(c)) => Ok(PkgState { metadata: MetaView { cover_id: Some(c), ..st.metadata }, ..st }),
                    Ok(None) => Ok(st),
                }
            } else {
                Ok(st)
            },
        }
    } else if st.in_metadata {
        Ok(PkgState { current: Some(name), text: Seq::empty(), ..st })
    } else {
        Ok(st)
    }
}

/// The effect of an end tag.
pub open spec fn pkg_end(st: PkgState, name: Seq<char>) -> PkgState {
    if name == "metadata"@ {
        PkgState { in_metadata: false, ..st }
    } else if st.in_metadata && st.current == Some(name) {
        PkgState {
            metadata: set_meta(st.metadata, name, trim_ws(st.text)),
            current: None,
            text: Seq::empty(),
            ..st
        }
    } else {
        st
    }
}

/// The effect of one token (`Eof` is handled by the caller).
pub open spec fn pkg_step(st: PkgState, t: TokenView) -> Result<PkgState, ErrView> {
    match t {
        TokenView::Start { name, attrs, empty } => if empty {
            Ok(st)
        } else {
            pkg_start(st, local_name(name), attrs)
        },
        TokenView::End { name } => Ok(pkg_end(st, local_name(name))),
        TokenView::Text(t) => if st.in_metadata && st.current is Some {
            Ok(PkgState {
                text: st.text + match t {
                    Some(x) => x,
                    None => Seq::empty(),
                },
                ..st
            })
        } else {
            Ok(st)
        },
        TokenView::CData(b) => if st.in_metadata && st.current is Some {
            Ok(PkgState { text: st.text + lossy_utf8(b), ..st })
        } else {
            Ok(st)
        },
        TokenView::Error(m) => Err(ErrView::Xml(m)),
        _ => Ok(st),
    }
}

/// The state after tokens `ts[k..]`, up to the first `Eof`.
pub open spec fn pkg_run(ts: Seq<TokenView>, k: int, st: PkgState) -> Result<PkgState, ErrView>
    decreases ts.len() - k,
{
    if k < 0 || k >= ts.len() || ts[k] is Eof {
        Ok(st)
    } else {
        match pkg_step(st, ts[k]) {
            Err(e) => Err(e),
            Ok(st2) => pkg_run(ts, k + 1, st2),
        }
    }
}

/// Every `dc:creator` element inside `<metadata>` adds its trimmed text to
/// the creators, after those found before it, and changes nothing else of
/// the metadata: whatever creators came before, reading the element's
/// start tag, its text and its end tag appends exactly that one creator.
pub proof fn law_each_creator_is_kept(
    st: PkgState,
    name: Seq<u8>,
    attrs: Seq<Result<(Seq<u8>, Seq<u8>), Seq<char>>>,
    x: Seq<char>,
)
    requires
        st.in_metadata,
        local_name(name) == "creator"@,
    ensures
        ({
            let ts = seq![
                TokenView::Start { name, attrs, empty: false },
                TokenView::Text(Some(x)),
                TokenView::End { name },
            ];
            &&& pkg_run(ts, 0, st) matches Ok(st2)
            &&& st2.metadata.creators == st.metadata.creators.push(trim_ws(x))
            &&& st2.metadata.creators.len() == st.metadata.creators.len() + 1
            &&& st2.metadata.title == st.metadata.title
            &&& st2.metadata.subjects == st.metadata.subjects
            &&& st2.in_metadata
            &&& st2.current is None
            &&& st2.manifest == st.manifest
            &&& st2.spine == st.spine
        }),
{
    reveal_strlit("creator");
    reveal_strlit("metadata");
    reveal_strlit("item");
    reveal_strlit("itemref");
    reveal_strlit("spine");
    reveal_strlit("meta");
    reveal_strlit("title");
    let c = "creator"@;
    assert(c != "metadata"@ && c != "item"@ && c != "itemref"@ && c != "spine"@ && c != "meta"@ && c != "title"@) by {
        assert(c.len() == 7);
        assert("metadata"@.len() == 8 && "item"@.len() == 4 && "itemref"@.len() == 7 && "spine"@.len() == 5);
        assert("meta"@.len() == 4 && "title"@.len() == 5);
        assert(c[0] != "itemref"@[0]);
    }
    let ts = seq![
        TokenView::Start { name, attrs, empty: false },
        TokenView::Text(Some(x)),
        TokenView::End { name },
    ];
    let s1 = PkgState { current: Some(c), text: Seq::empty(), ..st };
    assert(pkg_step(st, ts[0]) == Ok::<PkgState, ErrView>(s1));
    let s2 = PkgState { text: Seq::<char>::empty() + x, ..s1 };
    assert(pkg_step(s1, ts[1]) == Ok::<PkgState, ErrView>(s2));
    assert(Seq::<char>::empty() + x =~= x);
    let s3 = pkg_end(s2, c);
    assert(pkg_step(s2, ts[2]) == Ok::<PkgState, ErrView>(s3));
    assert(pkg_run(ts, 3, s3) == Ok::<PkgState, ErrView>(s3));
    assert(pkg_run(ts, 2, s2) == Ok::<PkgState, ErrView>(s3));
    assert(pkg_run(ts, 1, s1) == Ok::<PkgState, ErrView>(s3));
}

/// Every `dc:subject` element inside `<metadata>` adds its trimmed text to
/// the subjects, after those found before it, and changes nothing else of
/// the metadata: whatever subjects came before, reading the element's
/// start tag, its text and its end tag appends exactly that one subject.
pub proof fn law_each_subject_is_kept(
    st: PkgState,
    name: Seq<u8>,
    attrs: Seq<Result<(Seq<u8>, Seq<u8>), Seq<char>>>,
    x: Seq<char>,
)
    requires
        st.in_metadata,
        local_name(name) == "subject"@,
    ensures
        ({
            let ts = seq![
                TokenView::Start { name, attrs, empty: false },
                TokenView::Text(Some(x)),
                TokenView::End { name },
            ];
            &&& pkg_run(ts, 0, st) matches Ok(st2)
            &&& st2.metadata.subjects == st.metadata.subjects.push(trim_ws(x))
            &&& st2.metadata.subjects.len() == st.metadata.subjects.len() + 1
            &&& st2.metadata.title == st.metadata.title
            &&& st2.metadata.creators == st.metadata.creators
            &&& st2.in_metadata
            &&& st2.current is None
            &&& st2.manifest == st.manifest
            &&& st2.spine == st.spine
        }),
{
    reveal_strlit("subject");
    reveal_strlit("creator");
    reveal_strlit("metadata");
    reveal_strlit("item");
    reveal_strlit("itemref");
    reveal_strlit("spine");
    reveal_strlit("meta");
    reveal_strlit("title");
    reveal_strlit("language");
    reveal_strlit("identifier");
    reveal_strlit("description");
    reveal_strlit("publisher");
    reveal_strlit("date");
    let c = "subject"@;
    assert(c != "language"@ && c != "identifier"@ && c != "description"@ && c != "publisher"@ && c != "date"@) by {
        assert("language"@.len() == 8 && "identifier"@.len() == 10 && "description"@.len() == 11);
        assert("publisher"@.len() == 9 && "date"@.len() == 4);
    }
    assert(c != "metadata"@ && c != "item"@ && c != "itemref"@ && c != "spine"@ && c != "meta"@ && c != "title"@
        && c != "creator"@) by {
        assert(c.len() == 7);
        assert(c[0] != "creator"@[0]);
        assert("metadata"@.len() == 8 && "item"@.len() == 4 && "itemref"@.len() == 7 && "spine"@.len() == 5);
        assert("meta"@.len() == 4 && "title"@.len() == 5);
        assert(c[0] != "itemref"@[0]);
    }
    let ts = seq![
        TokenView::Start { name, attrs, empty: false },
        TokenView::Text(Some(x)),
        TokenView::End { name },
    ];
    let s1 = PkgState { current: Some(c), text: Seq::empty(), ..st };
    assert(pkg_step(st, ts[0]) == Ok::<PkgState, ErrView>(s1));
    let s2 = PkgState { text: Seq::<char>::empty() + x, ..s1 };
    assert(pkg_step(s1, ts[1]) == Ok::<PkgState, ErrView>(s2));
    assert(Seq::<char>::empty() + x =~= x);
    let s3 = pkg_end(s2, c);
    assert(pkg_step(s2, ts[2]) == Ok::<PkgState, ErrView>(s3));
    assert(pkg_run(ts, 3, s3) == Ok::<PkgState, ErrView>(s3));
    assert(pkg_run(ts, 2, s2) == Ok::<PkgState, ErrView>(s3));
    assert(pkg_run(ts, 1, s1) == Ok::<PkgState, ErrView>(s3));
}

/// The package a token list describes. The spine's `toc` attribute, when
/// it names a manifest item, decides the NCX document.
pub open spec fn spec_package(ts: Seq<TokenView>) -> Result<PackageView, ErrView> {
    match pkg_run(ts, 0, initial_pkg()) {
        Err(e) => Err(e),
        Ok(st) => {
            Ok(finish_pkg(st))
        },
    }
}

pub open spec fn package_result_view(r: Result<Package, EpubError>) -> Result<PackageView, ErrView> {
    match r {
        Ok(p) => Ok(package_view(p)),
        Err(e) => Err(err_view(e)),
    }
}


// ---------------------------------------------------------------------------
// The parser
// ---------------------------------------------------------------------------

/// The words of `s`.
pub(crate) fn words_exec(s: &Vec<char>) -> (r: Vec<String>)
    ensures
        strs(r@) == words(s@),
{
    let mut out: Vec<String> = Vec::new();
    let mut cur: Vec<char> = Vec::new();
    let mut i: usize = 0;
    assert(strs(out@) =~= Seq::<Seq<char>>::empty());
    assert(cur@ =~= Seq::<char>::empty());
    while i < s.len()
        invariant
            i <= s@.len(),
            words(s@) == words_from(s@, i as int, cur@, strs(out@)),
        decreases s@.len() - i,
    {
        if is_whitespace(s[i]) {
            if cur.len() > 0 {
                let w = string_from_chars(cur.as_slice());
                let ghost before = out@;
                out.push(w);
                assert(strs(out@) =~= strs(before).push(cur@));
                cur = Vec::new();
            } else {
                cur = Vec::new();
                assert(cur@ =~= Seq::<char>::empty());
            }
        } else {
            cur.push(s[i]);
        }
        i += 1;
    }
    if cur.len() > 0 {
        let w = string_from_chars(cur.as_slice());
        let ghost before = out@;
        out.push(w);
        assert(strs(out@) =~= strs(before).push(cur@));
    }
    out
}

fn lossy_words(v: &Vec<u8>) -> (r: Vec<String>)
    ensures
        strs(r@) == words(lossy_utf8(v@)),
{
    let t = utf8_lossy(v.as_slice());
    let c = chars_of(t.as_str());
    words_exec(&c)
}

/// The manifest item of an `<item>` tag.
fn manifest_item_exec(attrs: &Vec<Result<(Vec<u8>, Vec<u8>), String>>) -> (r: Result<ManifestItem, EpubError>)
    ensures
        match (r, spec_manifest_item(attrs_view(attrs@))) {
            (Ok(m), Ok(v)) => item_view(m) == v,
            (Err(e), Err(v)) => err_view(e) == v,
            _ => false,
        },
{
    let ghost av = attrs_view(attrs@);
    let mut id = String::new();
    let mut href = String::new();
    let mut media_type = String::new();
    let mut properties: Vec<String> = Vec::new();
    let mut k: usize = 0;
    assert(strs(properties@) =~= Seq::<Seq<char>>::empty());
    assert(id@ =~= Seq::<char>::empty() && href@ =~= Seq::<char>::empty() && media_type@ =~= Seq::<char>::empty());
    while k < attrs.len()
        invariant
            k <= attrs@.len(),
            av == attrs_view(attrs@),
            item_fold(av, 0, empty_item()) == item_fold(av, k as int, ItemView { id: id@, href: href@, media_type: media_type@, properties: strs(properties@) }),
        decreases attrs@.len() - k,
    {
        assert(av[k as int] == attr_view(attrs@[k as int]));
        match &attrs[k] {
            Err(m) => return Err(EpubError::XmlError(m.clone())),
            Ok((key, v)) => {
                if crate::xml::bytes_eq(key.as_slice(), "id".as_bytes()) {
                    id = utf8_lossy(v.as_slice());
                } else if crate::xml::bytes_eq(key.as_slice(), "href".as_bytes()) {
                    href = utf8_lossy(v.as_slice());
                } else if crate::xml::bytes_eq(key.as_slice(), "media-type".as_bytes()) {
                    media_type = utf8_lossy(v.as_slice());
                } else if crate::xml::bytes_eq(key.as_slice(), "properties".as_bytes()) {
                    properties = lossy_words(v);
                }
            },
        }
        k += 1;
    }
    if id.as_str().is_empty() {
        return Err(EpubError::InvalidStructure("Manifest item missing id".to_owned()));
    }
    Ok(ManifestItem { id, href, media_type, properties })
}

/// The spine item of an `<itemref>` tag.
fn spine_item_exec(attrs: &Vec<Result<(Vec<u8>, Vec<u8>), String>>) -> (r: Result<SpineItem, EpubError>)
    ensures
        match (r, spec_spine_item(attrs_view(attrs@))) {
            (Ok(m), Ok(v)) => spine_view(m) == v,
            (Err(e), Err(v)) => err_view(e) == v,
            _ => false,
        },
{
    let ghost av = attrs_view(attrs@);
    let mut id = String::new();
    let mut idref = String::new();
    let mut linear = true;
    let mut properties: Vec<String> = Vec::new();
    let mut k: usize = 0;
    assert(strs(properties@) =~= Seq::<Seq<char>>::empty());
    assert(id@ =~= Seq::<char>::empty() && idref@ =~= Seq::<char>::empty());
    while k < attrs.len()
        invariant
            k <= attrs@.len(),
            av == attrs_view(attrs@),
            spine_fold(av, 0, empty_spine()) == spine_fold(av, k as int, SpineView { id: id@, idref: idref@, linear, properties: strs(properties@) }),
        decreases attrs@.len() - k,
    {
        assert(av[k as int] == attr_view(attrs@[k as int]));
        match &attrs[k] {
            Err(m) => return Err(EpubError::XmlError(m.clone())),
            Ok((key, v)) => {
                if crate::xml::bytes_eq(key.as_slice(), "idref".as_bytes()) {
                    idref = utf8_lossy(v.as_slice());
                } else if crate::xml::bytes_eq(key.as_slice(), "id".as_bytes()) {
                    id = utf8_lossy(v.as_slice());
                } else if crate::xml::bytes_eq(key.as_slice(), "linear".as_bytes()) {
                    linear = !crate::xml::bytes_eq(v.as_slice(), "no".as_bytes());
                } else if crate::xml::bytes_eq(key.as_slice(), "properties".as_bytes()) {
                    properties = lossy_words(v);
                }
            },
        }
        k += 1;
    }
    if idref.as_str().is_empty() {
        return Err(EpubError::InvalidStructure("Spine itemref missing idref".to_owned()));
    }
    if id.as_str().is_empty() {
        let mut c = chars_of("spine-");
        let r = chars_of(idref.as_str());
        crate::text::push_all(&mut c, &r);
        id = string_from_chars(c.as_slice());
    }
    Ok(SpineItem { id, idref, linear, properties })
}

/// The parser's state.
struct PkgExec {
    metadata: Metadata,
    manifest: Vec<ManifestItem>,
    spine: Vec<SpineItem>,
    nav_path: Option<String>,
    ncx_path: Option<String>,
    toc_id: Option<String>,
    ppd: Option<String>,
    in_metadata: bool,
    current: Option<String>,
    text: Vec<char>,
}

impl PkgExec {
    spec fn view(&self) -> PkgState {
        PkgState {
            metadata: meta_view(self.metadata),
            manifest: self.manifest@.map_values(|m: ManifestItem| item_view(m)),
            spine: self.spine@.map_values(|x: SpineItem| spine_view(x)),
            nav_path: opt_str(self.nav_path),
            ncx_path: opt_str(self.ncx_path),
            toc_id: opt_str(self.toc_id),
            ppd: opt_str(self.ppd),
            in_metadata: self.in_metadata,
            current: opt_str(self.current),
            text: self.text@,
        }
    }
}

fn clone_opt(o: &Option<String>) -> (r: Option<String>)
    ensures
        opt_str(r) == opt_str(*o),
{
    match o {
        Some(s) => Some(s.clone()),
        None => None,
    }
}

/// `item_index` on the manifest.
fn item_index_exec(items: &Vec<ManifestItem>, id: &str) -> (r: Option<usize>)
    ensures
        match r {
            Some(j) => item_index(items@.map_values(|m: ManifestItem| item_view(m)), id@) == j && j < items@.len(),
            None => item_index(items@.map_values(|m: ManifestItem| item_view(m)), id@) == -1,
        },
{
    let ghost v = items@.map_values(|m: ManifestItem| item_view(m));
    let mut k = items.len();
    assert(v.take(k as int) =~= v);
    while k > 0
        invariant
            k <= items@.len(),
            v == items@.map_values(|m: ManifestItem| item_view(m)),
            item_index(v, id@) == item_index(v.take(k as int), id@),
        decreases k,
    {
        assert(v.take(k as int).last() == item_view(items@[k - 1]));
        assert(v.take(k as int).drop_last() =~= v.take(k - 1));
        if str_eq(items[k - 1].id.as_str(), id) {
            return Some(k - 1);
        }
        k -= 1;
    }
    None
}

/// Record `value` for the finished metadata element `name`.
fn set_meta_exec(m: &mut Metadata, name: &str, value: String)
    ensures
        meta_view(*final(m)) == set_meta(meta_view(*old(m)), name@, value@),
{
    let ghost before = meta_view(*m);
    if str_eq(name, "title") {
        m.title = value;
    } else if str_eq(name, "creator") {
        m.creators.push(value);
        assert(strs(m.creators@) =~= before.creators.push(value@));
    } else if str_eq(name, "language") {
        m.language = Some(value);
    } else if str_eq(name, "identifier") {
        if m.identifier.is_none() {
            m.identifier = Some(value);
        }
    } else if str_eq(name, "description") {
        m.description = Some(value);
    } else if str_eq(name, "publisher") {
        m.publisher = Some(value);
    } else if str_eq(name, "date") {
        m.date = Some(value);
    } else if str_eq(name, "subject") {
        m.subjects.push(value);
        assert(strs(m.subjects@) =~= before.subjects.push(value@));
    } else if str_eq(name, "rights") {
        m.rights = Some(value);
    }
}

/// Whether `props` holds `nav`.
fn has_nav(props: &Vec<String>) -> (r: bool)
    ensures
        r == strs(props@).contains("nav"@),
{
    let mut k: usize = 0;
    while k < props.len()
        invariant
            k <= props@.len(),
            forall|m: int| 0 <= m < k ==> strs(props@)[m] != "nav"@,
        decreases props@.len() - k,
    {
        if str_eq(props[k].as_str(), "nav") {
            assert(strs(props@)[k as int] == "nav"@);
            return true;
        }
        k += 1;
    }
    false
}

impl PkgExec {
    fn start(&mut self, name: &str, attrs: &Vec<Result<(Vec<u8>, Vec<u8>), String>>) -> (r: Result<(), EpubError>)
        ensures
            match (r, pkg_start(old(self).view(), name@, attrs_view(attrs@))) {
                (Ok(()), Ok(v)) => final(self).view() == v,
                (Err(e), Err(v)) => err_view(e) == v,
                _ => false,
            },
    {
        let ghost st = self.view();
        if str_eq(name, "metadata") {
            self.in_metadata = true;
            return Ok(());
        }
        if str_eq(name, "item") {
            let item = match manifest_item_exec(attrs) {
                Ok(it) => it,
                Err(e) => return Err(e),
            };
            if has_nav(&item.properties) {
                self.nav_path = Some(item.href.clone());
            }
            if str_eq(item.media_type.as_str(), "application/x-dtbncx+xml") && self.ncx_path.is_none() {
                self.ncx_path = Some(item.href.clone());
            }
            let ghost iv = item_view(item);
            let ghost before = self.manifest@.map_values(|m: ManifestItem| item_view(m));
            match item_index_exec(&self.manifest, item.id.as_str()) {
                Some(j) => {
                    self.manifest.set(j, item);
                    assert(self.manifest@.map_values(|m: ManifestItem| item_view(m)) =~= before.update(j as int, iv));
                },
                None => {
                    self.manifest.push(item);
                    assert(self.manifest@.map_values(|m: ManifestItem| item_view(m)) =~= before.push(iv));
                },
            }
            return Ok(());
        }
        if str_eq(name, "itemref") {
            let it = match spine_item_exec(attrs) {
                Ok(it) => it,
                Err(e) => return Err(e),
            };
            let ghost before = self.spine@.map_values(|x: SpineItem| spine_view(x));
            let ghost sv = spine_view(it);
            self.spine.push(it);
            assert(self.spine@.map_values(|x: SpineItem| spine_view(x)) =~= before.push(sv));
            return Ok(());
        }
        if str_eq(name, "spine") {
            let toc = match attr_lookup_exec(attrs, "toc") {
                Ok(t) => t,
                Err(m) => return Err(EpubError::XmlError(m)),
            };
            let ppd = match attr_lookup_exec(attrs, "page-progression-direction") {
                Ok(t) => t,
                Err(m) => return Err(EpubError::XmlError(m)),
            };
            self.toc_id = toc;
            self.ppd = ppd;
            return Ok(());
        }
        if str_eq(name, "meta") && self.in_metadata {
            let n = match attr_lookup_exec(attrs, "name") {
                Ok(t) => t,
                Err(m) => return Err(EpubError::XmlError(m)),
            };
            let is_cover = match &n {
                Some(x) => str_eq(x.as_str(), "cover"),
                None => false,
            };
            if is_cover {
                let c = match attr_lookup_exec(attrs, "content") {
                    Ok(t) => t,
                    Err(m) => return Err(EpubError::XmlError(m)),
                };
                match c {
                    Some(c) => {
                        self.metadata.cover_id = Some(c);
                    },
                    None => {},
                }
            }
            return Ok(());
        }
        if self.in_metadata {
            self.current = Some(name.to_owned());
            self.text = Vec::new();
            assert(self.text@ =~= Seq::<char>::empty());
        }
        Ok(())
    }

    fn end(&mut self, name: &str)
        ensures
            final(self).view() == pkg_end(old(self).view(), name@),
    {
        if str_eq(name, "metadata") {
            self.in_metadata = false;
            return;
        }
        if self.in_metadata {
            let matches = match &self.current {
                Some(c) => str_eq(c.as_str(), name),
                None => false,
            };
            if matches {
                let t = crate::rewrite::trimmed(&self.text, 0, self.text.len());
                assert(self.text@.subrange(0, self.text@.len() as int) =~= self.text@);
                set_meta_exec(&mut self.metadata, name, string_from_chars(t.as_slice()));
                self.current = None;
                self.text = Vec::new();
                assert(self.text@ =~= Seq::<char>::empty());
            }
        }
    }

    fn step(&mut self, t: &XmlToken) -> (r: Result<(), EpubError>)
        requires
            !(t is Eof),
        ensures
            match (r, pkg_step(old(self).view(), token_view(*t))) {
                (Ok(()), Ok(v)) => final(self).view() == v,
                (Err(e), Err(v)) => err_view(e) == v,
                _ => false,
            },
    {
        match t {
            XmlToken::Start { name, attrs, empty } => {
                if *empty {
                    return Ok(());
                }
                let n = local_name_exec(name);
                self.start(n.as_str(), attrs)
            },
            XmlToken::End { name } => {
                let n = local_name_exec(name);
                self.end(n.as_str());
                Ok(())
            },
            XmlToken::Text(x) => {
                if self.in_metadata && self.current.is_some() {
                    match x {
                        Some(x) => {
                            let c = chars_of(x.as_str());
                            crate::text::push_all(&mut self.text, &c);
                        },
                        None => {
                            assert(self.text@ + Seq::<char>::empty() =~= self.text@);
                        },
                    }
                }
                Ok(())
            },
            XmlToken::CData(b) => {
                if self.in_metadata && self.current.is_some() {
                    let l = utf8_lossy(b.as_slice());
                    let c = chars_of(l.as_str());
                    crate::text::push_all(&mut self.text, &c);
                }
                Ok(())
            },
            XmlToken::Error(m) => Err(EpubError::XmlError(m.clone())),
            _ => Ok(()),
        }
    }
}

/// The package of the final parser state.
pub open spec fn finish_pkg(st: PkgState) -> PackageView {
    let ncx = match st.toc_id {
        Some(id) => if item_index(st.manifest, id) >= 0 {
            Some(st.manifest[item_index(st.manifest, id)].href)
        } else {
            st.ncx_path
        },
        None => st.ncx_path,
    };
    PackageView {
        metadata: st.metadata,
        manifest: st.manifest,
        spine: st.spine,
        nav_path: st.nav_path,
        ncx_path: ncx,
        page_progression_direction: st.ppd,
    }
}

impl PkgExec {
    fn finish(self) -> (p: Package)
        ensures
            package_view(p) == finish_pkg(self.view()),
    {
        let ghost v = self.view();
        let ncx = match &self.toc_id {
            Some(id) => match item_index_exec(&self.manifest, id.as_str()) {
                Some(j) => Some(self.manifest[j].href.clone()),
                None => clone_opt(&self.ncx_path),
            },
            None => clone_opt(&self.ncx_path),
        };
        let p = Package {
            metadata: self.metadata,
            manifest: self.manifest,
            spine: self.spine,
            nav_path: self.nav_path,
            ncx_path: ncx,
            page_progression_direction: self.ppd,
        };
        assert(package_view(p) =~~= finish_pkg(v));
        p
    }
}

/// The package a token list describes (see [`spec_package`]).
pub fn package_from_tokens(tokens: &Vec<XmlToken>) -> (r: Result<Package, EpubError>)
    ensures
        package_result_view(r) == spec_package(tokens_view(tokens@)),
{
    let ghost tv = tokens_view(tokens@);
    let st0 = PkgExec {
        metadata: Metadata::new(),
        manifest: Vec::new(),
        spine: Vec::new(),
        nav_path: None,
        ncx_path: None,
        toc_id: None,
        ppd: None,
        in_metadata: false,
        current: None,
        text: Vec::new(),
    };
    let mut st = st0;
    proof {
        assert(st.view().manifest =~= Seq::<ItemView>::empty());
        assert(st.view().spine =~= Seq::<SpineView>::empty());
        assert(st.view().metadata.creators =~= Seq::<Seq<char>>::empty());
        assert(st.view().metadata.subjects =~= Seq::<Seq<char>>::empty());
        assert(st.view().metadata.title =~= Seq::<char>::empty());
        assert(st.view().text =~= Seq::<char>::empty());
        assert(st.view() =~~= initial_pkg());
    }
    let mut k: usize = 0;
    while k < tokens.len()
        invariant
            k <= tokens@.len(),
            tv == tokens_view(tokens@),
            pkg_run(tv, 0, initial_pkg()) == pkg_run(tv, k as int, st.view()),
        decreases tokens@.len() - k,
    {
        assert(tv[k as int] == token_view(tokens@[k as int]));
        if let XmlToken::Eof = &tokens[k] {
            return Ok(st.finish());
        }
        match st.step(&tokens[k]) {
            Ok(()) => {},
            Err(e) => return Err(e),
        }
        k += 1;
    }
    Ok(st.finish())
}

impl Package {
    /// Parse an OPF file. The document is read with `quick_xml` (text
    /// trimmed, empty elements expanded); the result is what
    /// [`package_from_tokens`] makes of the tokens read.
    pub fn parse(xml: &str) -> (r: Result<Package, EpubError>)
        ensures
            package_result_view(r) == spec_package(spec_xml_tokens(xml@, true, true)),
    {
        let tokens = xml_tokens(xml, true, true);
        package_from_tokens(&tokens)
    }
}

} // verus!
