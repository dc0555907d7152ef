//! The book: package, reading order, table of contents and resources.

use vstd::prelude::*;
use vstd::utf8::*;

use crate::archive::{lookup, trim_slashes, Archive};
use crate::cfi::{decimal, push_decimal, Cfi};
use crate::container::{container_path, container_run, parse_container, spec_container_path};
use crate::error::{err_view, EpubError, ErrView};
use crate::navigation::{
    forest_view, nav_view, parse_nav, parse_ncx, preorder, resolve_hrefs, resolved_forest, spec_nav_from_dom,
    NavItem, NavView,
};
use crate::dom::html_dom;
use crate::xml::spec_xml_tokens;
use crate::package::{
    item_view, lemma_manifest_index, manifest_index, manifest_lookup, meta_view, spec_package, spine_view, strs,
    ItemView, ManifestItem, Metadata, Package, PackageView, SpineItem, SpineView,
};
use crate::path::{
    dir_of, fragment_part, is_external, mime_type_from_extension, normalize, path_part, percent_decode,
    resolve, spec_dir_of, spec_is_external, spec_mime_for, spec_normalize, spec_percent_decode,
    spec_resolve_path, split_fragment, extension_of,
};
use crate::search::{match_cfi_text, match_ok, matches_in_map, spec_find_matches, SearchMatch, SearchOptions};
use crate::section::{section_resolve, Section};
use crate::text::{byte_len, chars_of, lower_seq, push_all, str_eq, string_from_chars};
use crate::text_map::{scan_limit, spec_scan, TextMap};

verus! {

/// A section's identity, abstractly: everything but its loaded content.
pub struct SecView {
    pub id: Seq<char>,
    pub href: Seq<char>,
    pub media_type: Seq<char>,
    pub linear: bool,
    pub properties: Seq<Seq<char>>,
}

pub open spec fn sec_view(s: Section) -> SecView {
    SecView { id: s.id@, href: s.href@, media_type: s.media_type@, linear: s.linear, properties: strs(s.properties@) }
}

pub open spec fn sec_views(s: Seq<Section>) -> Seq<SecView> {
    Seq::new(s.len(), |i: int| sec_view(s[i]))
}

/// The sections a spine makes: its items whose `idref` names a manifest
/// item, in order, each at the archive path that the item's href resolves
/// to from the package directory `base`.
pub open spec fn spine_sections(spine: Seq<SpineItem>, manifest: Seq<ManifestItem>, base: Seq<char>) -> Seq<SecView>
    decreases spine.len(),
{
    if spine.len() == 0 {
        Seq::empty()
    } else {
        let prev = spine_sections(spine.drop_last(), manifest, base);
        let it = spine.last();
        let m = manifest_index(manifest, it.idref@);
        if 0 <= m < manifest.len() {
            prev.push(
                SecView {
                    id: it.idref@,
                    href: spec_resolve_path(base, manifest[m].href@),
                    media_type: manifest[m].media_type@,
                    linear: it.linear,
                    properties: strs(it.properties@),
                },
            )
        } else {
            prev
        }
    }
}

/// The text a file holds, when it is there and is UTF-8.
pub open spec fn file_text(files: Seq<(Seq<char>, Seq<u8>)>, path: Seq<char>) -> Option<Seq<char>> {
    match lookup(files, trim_slashes(path)) {
        Some(d) => if valid_utf8(d) {
            Some(decode_utf8(d))
        } else {
            None
        },
        None => None,
    }
}

/// The archive path an href names: as an archive path if that file exists,
/// else relative to the package directory if that one does.
pub open spec fn spec_resource_path(files: Seq<(Seq<char>, Seq<u8>)>, base: Seq<char>, href: Seq<char>) -> Option<Seq<char>> {
    let absolute = spec_resolve_path(Seq::empty(), href);
    let relative = spec_resolve_path(base, href);
    if lookup(files, trim_slashes(absolute)) is Some {
        Some(absolute)
    } else if lookup(files, trim_slashes(relative)) is Some {
        Some(relative)
    } else {
        None
    }
}

/// The index of the first section at archive path `p`, or `-1`.
pub open spec fn section_at(secs: Seq<Section>, p: Seq<char>, k: int) -> int
    decreases secs.len() - k,
{
    if k < 0 || k >= secs.len() {
        -1
    } else if secs[k].href@ == p {
        k
    } else {
        section_at(secs, p, k + 1)
    }
}

/// The part of a path after its last `/`.
pub open spec fn file_name(p: Seq<char>) -> Seq<char> {
    let i = crate::text::last_index_of(p, '/');
    if i < 0 {
        p
    } else {
        p.skip(i + 1)
    }
}

/// The number of sections among `secs[k..]` whose file name is `f`.
pub open spec fn count_named(secs: Seq<Section>, f: Seq<char>, k: int) -> nat
    decreases secs.len() - k,
{
    if k < 0 || k >= secs.len() {
        0
    } else {
        (if file_name(secs[k].href@) == f {
            1nat
        } else {
            0nat
        }) + count_named(secs, f, k + 1)
    }
}

/// The index of the first section among `secs[k..]` whose file name is `f`,
/// or `-1`.
pub open spec fn first_named(secs: Seq<Section>, f: Seq<char>, k: int) -> int
    decreases secs.len() - k,
{
    if k < 0 || k >= secs.len() {
        -1
    } else if file_name(secs[k].href@) == f {
        k
    } else {
        first_named(secs, f, k + 1)
    }
}

/// The section an href names: as an archive path, else relative to the
/// package directory, else (as a last resort) by a file name that exactly
/// one section has.
pub open spec fn spec_section_by_href(secs: Seq<Section>, base: Seq<char>, href: Seq<char>) -> Option<int> {
    let raw = path_part(href);
    let absolute = spec_resolve_path(Seq::empty(), raw);
    let relative = spec_resolve_path(base, raw);
    let a = section_at(secs, path_part(absolute), 0);
    let r = section_at(secs, path_part(relative), 0);
    let f = file_name(absolute);
    if a >= 0 {
        Some(a)
    } else if r >= 0 {
        Some(r)
    } else if f.len() == 0 || count_named(secs, f, 0) != 1 {
        None
    } else {
        Some(first_named(secs, f, 0))
    }
}

/// Every section a spine makes sits at a normalized archive path.
pub proof fn law_spine_section_paths_are_normalized(spine: Seq<SpineItem>, manifest: Seq<ManifestItem>, base: Seq<char>, i: int)
    requires
        0 <= i < spine_sections(spine, manifest, base).len(),
    ensures
        spec_normalize(spine_sections(spine, manifest, base)[i].href) == spine_sections(spine, manifest, base)[i].href,
    decreases spine.len(),
{
    let prev = spine_sections(spine.drop_last(), manifest, base);
    if i < prev.len() {
        assert(spine_sections(spine, manifest, base)[i] == prev[i]);
        law_spine_section_paths_are_normalized(spine.drop_last(), manifest, base, i);
    } else {
        let m = manifest_index(manifest, spine.last().idref@);
        crate::path::law_resolved_paths_are_normalized(base, manifest[m].href@);
    }
}

proof fn lemma_section_at_first(secs: Seq<Section>, p: Seq<char>, k: int, i: int)
    requires
        0 <= k <= i < secs.len(),
        secs[i].href@ == p,
    ensures
        k <= section_at(secs, p, k) <= i,
        secs[section_at(secs, p, k)].href@ == p,
    decreases i - k,
{
    if secs[k].href@ != p {
        lemma_section_at_first(secs, p, k + 1, i);
    }
}

/// A section's own archive path (when it holds no `%` or `#`, which
/// an href would read as an escape or a fragment) finds that section, or
/// an earlier one at the same path.
pub proof fn law_section_path_finds_section(secs: Seq<Section>, base: Seq<char>, i: int)
    requires
        0 <= i < secs.len(),
        spec_normalize(secs[i].href@) == secs[i].href@,
        forall|k: int| 0 <= k < secs[i].href@.len() ==> secs[i].href@[k] != '%' && secs[i].href@[k] != '#',
    ensures
        spec_section_by_href(secs, base, secs[i].href@) matches Some(j) && 0 <= j <= i && secs[j].href@ == secs[i].href@,
{
    let h = secs[i].href@;
    crate::text::lemma_index_of_absent(h, '#');
    assert(path_part(h) == h);
    crate::path::lemma_percent_decode_plain(h);
    if h.len() > 0 && h[0] != '/' {
        assert(Seq::<char>::empty() + h =~= h);
    }
    if h.len() == 0 {
        assert(spec_resolve_path(Seq::empty(), h) =~= h);
    }
    assert(spec_resolve_path(Seq::empty(), h) == h);
    lemma_section_at_first(secs, h, 0, i);
}

/// The first manifest item, from `k` on, whose href resolves to `p`, or -1.
pub open spec fn item_at_path(items: Seq<ManifestItem>, base: Seq<char>, p: Seq<char>, k: int) -> int
    decreases items.len() - k,
{
    if k < 0 || k >= items.len() {
        -1
    } else if spec_resolve_path(base, items[k].href@) == p {
        k
    } else {
        item_at_path(items, base, p, k + 1)
    }
}

/// The MIME type of an archive path: the declared media type of the
/// manifest item there when it has one, else a guess from the extension.
pub open spec fn spec_media_type(items: Seq<ManifestItem>, base: Seq<char>, p: Seq<char>) -> Seq<char> {
    let i = item_at_path(items, base, p, 0);
    if 0 <= i < items.len() && items[i].media_type@.len() > 0 {
        items[i].media_type@
    } else {
        spec_mime_for(lower_seq(extension_of(p)))
    }
}

/// What an href inside the section at archive path `sec_href` points to:
/// `None` for an external URL; else the archive path (the section itself for
/// a bare `#fragment`) and the fragment.
pub open spec fn spec_from_section(sec_href: Seq<char>, href: Seq<char>) -> Option<(Seq<char>, Option<Seq<char>>)> {
    if spec_is_external(href) {
        None
    } else {
        let r = section_resolve(sec_href, href);
        Some((if r.0.len() == 0 { sec_href } else { r.0 }, r.1))
    }
}

pub open spec fn opt_str(o: Option<String>) -> Option<Seq<char>> {
    match o {
        Some(s) => Some(s@),
        None => None,
    }
}

/// A parsed EPUB book.
pub struct Book {
    /// Book metadata
    pub metadata: Metadata,
    /// Spine items (reading order)
    pub spine: Vec<SpineItem>,
    /// Manifest items (all resources); no id occurs twice. Hrefs are as
    /// written in the OPF (relative to the OPF directory); use
    /// [`Book::manifest_path`] for archive paths.
    pub manifest: Vec<ManifestItem>,
    /// Table of contents. Hrefs are normalized archive paths (+ `#fragment`).
    pub toc: Vec<NavItem>,
    /// `page-progression-direction` from the spine (`ltr`, `rtl`), if declared
    pub page_progression_direction: Option<String>,
    /// Sections (loaded on demand)
    sections: Vec<Section>,
    /// The archive containing all files
    archive: Archive,
    /// Base path for resolving relative URLs (directory containing OPF, with trailing slash)
    base_path: String,
}

impl Book {
    /// The sections, in reading order.
    pub closed spec fn secs(&self) -> Seq<Section> {
        self.sections@
    }

    /// The archive's files.
    pub closed spec fn files(&self) -> Seq<(Seq<char>, Seq<u8>)> {
        self.archive.entries()
    }

    /// The package directory.
    pub closed spec fn base(&self) -> Seq<char> {
        self.base_path@
    }

    /// The manifest items.
    pub closed spec fn items(&self) -> Seq<ManifestItem> {
        self.manifest@
    }

    /// The table of contents.
    pub closed spec fn toc_items(&self) -> Seq<NavItem> {
        self.toc@
    }

    /// The metadata.
    pub closed spec fn meta(&self) -> Metadata {
        self.metadata
    }

    /// Each section knows its place, its cached map belongs to its content,
    /// and its content is small enough to index.
    pub open spec fn wf(&self) -> bool {
        forall|i: int| 0 <= i < self.secs().len() ==> {
            &&& #[trigger] self.secs()[i].wf()
            &&& self.secs()[i].index == i
            &&& (self.secs()[i].content_view() matches Some(c) ==> byte_len(c) < scan_limit())
        }
    }

    /// The manifest items.
    pub fn manifest_items(&self) -> (r: &Vec<ManifestItem>)
        ensures
            r@ == self.items(),
    {
        &self.manifest
    }

    /// Get the number of sections (spine items)
    pub fn section_count(&self) -> (n: usize)
        ensures
            n == self.secs().len(),
    {
        self.sections.len()
    }

    /// Get a section by index
    pub fn section(&self, index: usize) -> (r: Option<&Section>)
        ensures
            match r {
                Some(s) => index < self.secs().len() && *s == self.secs()[index as int],
                None => index >= self.secs().len(),
            },
    {
        if index < self.sections.len() {
            Some(&self.sections[index])
        } else {
            None
        }
    }

    /// The sections, in reading order.
    pub fn sections(&self) -> (r: &[Section])
        ensures
            r@ == self.secs(),
    {
        self.sections.as_slice()
    }

    /// The archive path of the OPF directory (with trailing slash, or empty)
    pub fn base_path(&self) -> (r: &str)
        ensures
            r@ == self.base(),
    {
        self.base_path.as_str()
    }

    /// All file paths in the archive
    pub fn archive_paths(&self) -> (r: Vec<&str>)
        ensures
            r@.len() == self.files().len(),
            forall|k: int| 0 <= k < r@.len() ==> #[trigger] r@[k]@ == self.files()[k].0,
    {
        self.archive.list_files()
    }

    /// Get the next section
    pub fn next_section(&self, current: usize) -> (r: Option<usize>)
        ensures
            match r {
                Some(n) => n == current + 1 && n < self.secs().len(),
                None => current + 1 >= self.secs().len(),
            },
    {
        if current < self.sections.len() && current + 1 < self.sections.len() {
            Some(current + 1)
        } else {
            None
        }
    }

    /// Get the previous section
    pub fn prev_section(&self, current: usize) -> (r: Option<usize>)
        ensures
            match r {
                Some(p) => current > 0 && p == current - 1,
                None => current == 0,
            },
    {
        if current > 0 {
            Some(current - 1)
        } else {
            None
        }
    }

    /// Resolve an href to an archive path. Tries it as archive-absolute first,
    /// then relative to the OPF directory. Percent-encoding and `../` are handled.
    fn resource_path(&self, href: &str) -> (r: Option<String>)
        ensures
            opt_str(r) == spec_resource_path(self.files(), self.base(), href@),
    {
        let (absolute, _) = resolve("", href);
        proof {
            reveal_strlit("");
            assert(""@ =~= Seq::<char>::empty());
        }
        if self.archive.has_file(absolute.as_str()) {
            return Some(absolute);
        }
        let (relative, _) = resolve(self.base_path.as_str(), href);
        if self.archive.has_file(relative.as_str()) {
            return Some(relative);
        }
        None
    }

    /// Get a resource by href (archive path, or relative to the OPF directory)
    pub fn get_resource(&self, href: &str) -> (r: Option<&[u8]>)
        ensures
            match spec_resource_path(self.files(), self.base(), href@) {
                Some(p) => r matches Some(b) && lookup(self.files(), trim_slashes(p)) == Some(b@),
                None => r is None,
            },
    {
        match self.resource_path(href) {
            Some(p) => self.archive.get_file(p.as_str()),
            None => None,
        }
    }

    /// Get a resource by manifest ID
    pub fn get_resource_by_id(&self, id: &str) -> (r: Option<&[u8]>)
        ensures
            ({
                let m = manifest_index(self.items(), id@);
                if m < 0 {
                    r is None
                } else {
                    match spec_resource_path(self.files(), self.base(), self.items()[m].href@) {
                        Some(p) => r matches Some(b) && lookup(self.files(), trim_slashes(p)) == Some(b@),
                        None => r is None,
                    }
                }
            }),
    {
        match manifest_lookup(&self.manifest, id) {
            Some(item) => self.get_resource(item.href.as_str()),
            None => None,
        }
    }

    /// Archive path of a manifest item
    pub fn manifest_path(&self, id: &str) -> (r: Option<String>)
        ensures
            ({
                let m = manifest_index(self.items(), id@);
                if m < 0 {
                    r is None
                } else {
                    r matches Some(p) && p@ == spec_resolve_path(self.base(), self.items()[m].href@)
                }
            }),
    {
        match manifest_lookup(&self.manifest, id) {
            Some(item) => Some(resolve(self.base_path.as_str(), item.href.as_str()).0),
            None => None,
        }
    }

    /// Manifest item for an archive path: the first whose href resolves there.
    pub fn manifest_item_for_path(&self, archive_path: &str) -> (r: Option<&ManifestItem>)
        ensures
            ({
                let i = item_at_path(self.items(), self.base(), archive_path@, 0);
                match r {
                    Some(m) => 0 <= i < self.items().len() && *m == self.items()[i],
                    None => i == -1,
                }
            }),
    {
        let mut k: usize = 0;
        while k < self.manifest.len()
            invariant
                k <= self.items().len(),
                item_at_path(self.items(), self.base(), archive_path@, 0)
                    == item_at_path(self.items(), self.base(), archive_path@, k as int),
            decreases self.items().len() - k,
        {
            let (p, _) = resolve(self.base_path.as_str(), self.manifest[k].href.as_str());
            if str_eq(p.as_str(), archive_path) {
                return Some(&self.manifest[k]);
            }
            k += 1;
        }
        None
    }

    /// MIME type for an archive path: from the manifest if declared there,
    /// otherwise guessed from the extension.
    pub fn media_type_for(&self, archive_path: &str) -> (r: String)
        ensures
            r@ == spec_media_type(self.items(), self.base(), archive_path@),
    {
        match self.manifest_item_for_path(archive_path) {
            Some(item) => {
                if !item.media_type.as_str().is_empty() {
                    return item.media_type.clone();
                }
            },
            None => {},
        }
        mime_type_from_extension(archive_path).to_owned()
    }

    /// Resolve an href that appears inside a section's content to
    /// `(archive_path, fragment)`; `None` if the href is external.
    pub fn resolve_from_section(&self, section_index: usize, href: &str) -> (r: Option<(String, Option<String>)>)
        ensures
            if section_index >= self.secs().len() {
                r is None
            } else {
                match spec_from_section(self.secs()[section_index as int].href@, href@) {
                    Some(x) => r matches Some(y) && y.0@ == x.0 && opt_str(y.1) == x.1,
                    None => r is None,
                }
            },
    {
        let section = match self.section(section_index) {
            Some(s) => s,
            None => return None,
        };
        if is_external(href) {
            return None;
        }
        let (p, frag) = section.resolve_href(href);
        let p = if p.as_str().is_empty() {
            section.href.clone()
        } else {
            p
        };
        Some((p, frag))
    }

    /// Resolve an href inside a section to the resource bytes it points to.
    pub fn resource_from_section(&self, section_index: usize, href: &str) -> (r: Option<(String, &[u8])>)
        ensures
            if section_index >= self.secs().len() {
                r is None
            } else {
                match spec_from_section(self.secs()[section_index as int].href@, href@) {
                    Some(x) => match lookup(self.files(), trim_slashes(x.0)) {
                        Some(d) => r matches Some(y) && y.0@ == x.0 && y.1@ == d,
                        None => r is None,
                    },
                    None => r is None,
                }
            },
    {
        let (p, _) = match self.resolve_from_section(section_index, href) {
            Some(x) => x,
            None => return None,
        };
        match self.archive.get_file(p.as_str()) {
            Some(data) => Some((p, data)),
            None => None,
        }
    }

    /// Section index for an archive path (exact match, fragment ignored)
    pub fn section_index_by_path(&self, archive_path: &str) -> (r: Option<usize>)
        ensures
            ({
                let i = section_at(self.secs(), path_part(archive_path@), 0);
                match r {
                    Some(k) => k == i,
                    None => i == -1,
                }
            }),
            r matches Some(k) ==> k < self.secs().len(),
    {
        let (p, _) = split_fragment(archive_path);
        let mut k: usize = 0;
        while k < self.sections.len()
            invariant
                k <= self.sections@.len(),
                p@ == path_part(archive_path@),
                section_at(self.secs(), p@, 0) == section_at(self.secs(), p@, k as int),
            decreases self.sections@.len() - k,
        {
            if str_eq(self.sections[k].href.as_str(), p) {
                return Some(k);
            }
            k += 1;
        }
        None
    }

    /// Resolve an href found inside `section_index` (a TOC entry, an `<a href>`)
    /// to `(section_index, fragment)`. Returns `None` for external links or
    /// targets that are not spine items.
    pub fn resolve_href(&self, section_index: usize, href: &str) -> (r: Option<(usize, Option<String>)>)
        ensures
            if section_index >= self.secs().len() {
                r is None
            } else {
                match spec_from_section(self.secs()[section_index as int].href@, href@) {
                    Some(x) => {
                        let i = section_at(self.secs(), path_part(x.0), 0);
                        if i < 0 {
                            r is None
                        } else {
                            r matches Some(y) && y.0 == i && opt_str(y.1) == x.1
                        }
                    },
                    None => r is None,
                }
            },
    {
        let (p, frag) = match self.resolve_from_section(section_index, href) {
            Some(x) => x,
            None => return None,
        };
        match self.section_index_by_path(p.as_str()) {
            Some(idx) => Some((idx, frag)),
            None => None,
        }
    }
}


/// The part of a path after its last `/`.
pub(crate) fn file_name_of(p: &str) -> (r: Vec<char>)
    ensures
        r@ == file_name(p@),
{
    let v = chars_of(p);
    let n = v.len();
    let start = match crate::text::rfind_char(&v, '/') {
        Some(i) => {
            proof {
                crate::text::lemma_last_index_of_found(p@, '/', i as int);
            }
            i + 1
        },
        None => {
            proof {
                crate::text::lemma_last_index_of_absent(p@, '/');
            }
            assert(p@.skip(0) =~= p@);
            0
        },
    };
    let r = crate::text::sub_vec(&v, start, v.len());
    assert(r@ =~= file_name(p@));
    r
}

impl Book {
    /// Section index for an href. Accepts an archive path, a path relative to
    /// the OPF directory, or (as a last resort) a bare filename that exactly
    /// one section has.
    pub fn section_index_by_href(&self, href: &str) -> (r: Option<usize>)
        requires
            self.wf(),
        ensures
            match spec_section_by_href(self.secs(), self.base(), href@) {
                Some(i) => r matches Some(j) && j as int == i,
                None => r is None,
            },
            r matches Some(i) ==> i < self.secs().len(),
    {
        let (raw, _) = split_fragment(href);
        let (absolute, _) = resolve("", raw);
        proof {
            reveal_strlit("");
            assert(""@ =~= Seq::<char>::empty());
        }
        match self.section_index_by_path(absolute.as_str()) {
            Some(i) => return Some(i),
            None => {},
        }
        let (relative, _) = resolve(self.base_path.as_str(), raw);
        match self.section_index_by_path(relative.as_str()) {
            Some(i) => return Some(i),
            None => {},
        }
        let f = file_name_of(absolute.as_str());
        if f.len() == 0 {
            return None;
        }
        let mut count: usize = 0;
        let mut first: usize = 0;
        let n = self.sections.len();
        let mut k: usize = n;
        while k > 0
            invariant
                n == self.sections@.len(),
                k <= n,
                count <= n - k,
                count == count_named(self.secs(), f@, k as int),
                count > 0 ==> first == first_named(self.secs(), f@, k as int) && first < self.sections@.len(),
                count == 0 ==> first_named(self.secs(), f@, k as int) == -1,
                self.wf(),
            decreases k,
        {
            k -= 1;
            let fk = file_name_of(self.sections[k].href.as_str());
            if crate::text::chars_eq(&fk, &f) {
                count += 1;
                first = k;
            }
        }
        if count == 1 {
            assert(self.secs()[first as int].wf());
            Some(self.sections[first].index)
        } else {
            None
        }
    }
}


/// An item the href `target` names: its path or its whole href is `target`.
pub open spec fn toc_hit(item: NavItem, target: Seq<char>) -> bool {
    path_part(item.href@) == target || item.href@ == target
}

/// The index of the first of `s[k..]` that `target` names, or `-1`.
pub open spec fn first_hit(s: Seq<NavItem>, target: Seq<char>, k: int) -> int
    decreases s.len() - k,
{
    if k < 0 || k >= s.len() {
        -1
    } else if toc_hit(s[k], target) {
        k
    } else {
        first_hit(s, target, k + 1)
    }
}

/// The archive path a TOC lookup for `href` compares with: the section's
/// path when `href` names a section, else `href` itself.
pub open spec fn toc_target(secs: Seq<Section>, base: Seq<char>, href: Seq<char>) -> Seq<char> {
    match spec_section_by_href(secs, base, href) {
        Some(i) => secs[i].href@,
        None => href,
    }
}

/// The item has the `cover-image` property.
pub open spec fn cover_marked(m: ManifestItem) -> bool {
    strs(m.properties@).contains("cover-image"@)
}

/// The item is an image whose id or href mentions `cover` (ASCII case
/// ignored).
pub open spec fn cover_named(m: ManifestItem) -> bool {
    &&& crate::text::has_prefix(m.media_type@, "image/"@)
    &&& (crate::text::contains_seq(lower_seq(m.id@), "cover"@) || crate::text::contains_seq(lower_seq(m.href@), "cover"@))
}

/// The index of the first of `items[k..]` marked as the cover, or `-1`.
pub open spec fn first_marked(items: Seq<ManifestItem>, k: int) -> int
    decreases items.len() - k,
{
    if k < 0 || k >= items.len() {
        -1
    } else if cover_marked(items[k]) {
        k
    } else {
        first_marked(items, k + 1)
    }
}

/// The index of the first of `items[k..]` named like a cover, or `-1`.
pub open spec fn first_cover_named(items: Seq<ManifestItem>, k: int) -> int
    decreases items.len() - k,
{
    if k < 0 || k >= items.len() {
        -1
    } else if cover_named(items[k]) {
        k
    } else {
        first_cover_named(items, k + 1)
    }
}

/// The cover that `<meta name="cover">` names: the manifest item of that
/// id, else the resource at that href.
pub open spec fn cover_via_meta(
    items: Seq<ManifestItem>,
    cover_id: Option<Seq<char>>,
    files: Seq<(Seq<char>, Seq<u8>)>,
    base: Seq<char>,
) -> Option<Seq<char>> {
    match cover_id {
        Some(cid) => {
            let m = manifest_index(items, cid);
            if 0 <= m < items.len() {
                Some(spec_resolve_path(base, items[m].href@))
            } else {
                spec_resource_path(files, base, cid)
            }
        },
        None => None,
    }
}

/// The archive path of the cover image: the first manifest item with the
/// `cover-image` property; else the item that `<meta name="cover">` names
/// (by id, or as an href); else the first image whose id or href mentions
/// `cover`.
pub open spec fn spec_cover_path(
    items: Seq<ManifestItem>,
    cover_id: Option<Seq<char>>,
    files: Seq<(Seq<char>, Seq<u8>)>,
    base: Seq<char>,
) -> Option<Seq<char>> {
    let a = first_marked(items, 0);
    let via_meta = cover_via_meta(items, cover_id, files, base);
    let g = first_cover_named(items, 0);
    if 0 <= a < items.len() {
        Some(spec_resolve_path(base, items[a].href@))
    } else if via_meta is Some {
        via_meta
    } else if 0 <= g < items.len() {
        Some(spec_resolve_path(base, items[g].href@))
    } else {
        None
    }
}

proof fn lemma_preorder_step(items: Seq<NavItem>, k: int)
    requires
        0 <= k < items.len(),
    ensures
        preorder(items.take(k + 1)) == preorder(items.take(k)) + seq![items[k]] + preorder(items[k].children@),
{
    let t = items.take(k + 1);
    assert(t.drop_last() =~= items.take(k));
    assert(t.last() == items[k]);
}

fn cover_marked_exec(m: &ManifestItem) -> (b: bool)
    ensures
        b == cover_marked(*m),
{
    let mut k: usize = 0;
    while k < m.properties.len()
        invariant
            k <= m.properties@.len(),
            forall|j: int| 0 <= j < k ==> strs(m.properties@)[j] != "cover-image"@,
        decreases m.properties@.len() - k,
    {
        if str_eq(m.properties[k].as_str(), "cover-image") {
            assert(strs(m.properties@)[k as int] == "cover-image"@);
            return true;
        }
        k += 1;
    }
    false
}

fn cover_named_exec(m: &ManifestItem) -> (b: bool)
    ensures
        b == cover_named(*m),
{
    let mt = chars_of(m.media_type.as_str());
    let img = chars_of("image/");
    let mut is_image = img.len() <= mt.len();
    if is_image {
        let head = crate::text::sub_vec(&mt, 0, img.len());
        is_image = crate::text::chars_eq(&head, &img);
        assert(head@ == mt@.take(img@.len() as int));
    }
    if !is_image {
        return false;
    }
    let cover = chars_of("cover");
    let idc = chars_of(m.id.as_str());
    let idl = crate::text::lower_from(&idc, 0);
    assert(idc@.skip(0) =~= idc@);
    let hc = chars_of(m.href.as_str());
    let hl = crate::text::lower_from(&hc, 0);
    assert(hc@.skip(0) =~= hc@);
    crate::text::contains_chars(&idl, &cover) || crate::text::contains_chars(&hl, &cover)
}

impl Book {
    /// Flatten the TOC into a list (pre-order)
    pub fn flat_toc(&self) -> (r: Vec<&NavItem>)
        ensures
            crate::navigation::derefs(r@) == preorder(self.toc_items()),
    {
        let mut out: Vec<&NavItem> = Vec::new();
        let mut k: usize = 0;
        assert(self.toc@.take(0) =~= Seq::<NavItem>::empty());
        assert(crate::navigation::derefs(out@) =~= Seq::<NavItem>::empty());
        while k < self.toc.len()
            invariant
                k <= self.toc@.len(),
                crate::navigation::derefs(out@) == preorder(self.toc@.take(k as int)),
            decreases self.toc@.len() - k,
        {
            let sub = self.toc[k].flatten();
            let ghost before = out@;
            let mut j: usize = 0;
            while j < sub.len()
                invariant
                    j <= sub@.len(),
                    crate::navigation::derefs(out@) == crate::navigation::derefs(before) + crate::navigation::derefs(sub@).take(j as int),
                decreases sub@.len() - j,
            {
                let ghost prev = out@;
                out.push(sub[j]);
                proof {
                    assert(crate::navigation::derefs(out@) =~= crate::navigation::derefs(prev).push(*sub@[j as int]));
                    assert(crate::navigation::derefs(sub@).take(j + 1) =~= crate::navigation::derefs(sub@).take(j as int).push(*sub@[j as int]));
                }
                j += 1;
            }
            proof {
                assert(crate::navigation::derefs(sub@).take(j as int) =~= crate::navigation::derefs(sub@));
                let x = self.toc@[k as int];
                assert(seq![x].drop_last() =~= Seq::<NavItem>::empty());
                assert(seq![x].last() == x);
                assert(preorder(Seq::<NavItem>::empty()) =~= Seq::<NavItem>::empty());
                assert(preorder(seq![x]) =~= seq![x] + preorder(x.children@));
                lemma_preorder_step(self.toc@, k as int);
                assert(crate::navigation::derefs(out@) =~= preorder(self.toc@.take(k + 1)));
            }
            k += 1;
        }
        assert(self.toc@.take(k as int) =~= self.toc@);
        out
    }

    /// Find a TOC item by href (fragment-insensitive): the first, in
    /// pre-order, whose path or href is the archive path of the section
    /// `href` names (or `href` itself when it names none).
    pub fn find_toc_item(&self, href: &str) -> (r: Option<&NavItem>)
        requires
            self.wf(),
        ensures
            ({
                let fl = preorder(self.toc_items());
                let i = first_hit(fl, toc_target(self.secs(), self.base(), href@), 0);
                match r {
                    Some(x) => 0 <= i < fl.len() && *x == fl[i],
                    None => i == -1,
                }
            }),
    {
        let target: String = match self.section_index_by_href(href) {
            Some(i) => self.sections[i].href.clone(),
            None => href.to_owned(),
        };
        let flat = self.flat_toc();
        let ghost fl = preorder(self.toc_items());
        assert(target@ == toc_target(self.secs(), self.base(), href@));
        let mut k: usize = 0;
        while k < flat.len()
            invariant
                k <= flat@.len(),
                fl == preorder(self.toc_items()),
                target@ == toc_target(self.secs(), self.base(), href@),
                crate::navigation::derefs(flat@) == fl,
                first_hit(fl, target@, 0) == first_hit(fl, target@, k as int),
            decreases flat@.len() - k,
        {
            let item = flat[k];
            assert(fl[k as int] == *item);
            let (p, _) = split_fragment(item.href.as_str());
            if str_eq(p, target.as_str()) || str_eq(item.href.as_str(), target.as_str()) {
                return Some(item);
            }
            k += 1;
        }
        None
    }

    /// Archive path of the cover image, if any (see [`spec_cover_path`]).
    pub fn cover_path(&self) -> (r: Option<String>)
        ensures
            opt_str(r) == spec_cover_path(self.items(), opt_str(self.meta().cover_id), self.files(), self.base()),
    {
        let mut k: usize = 0;
        while k < self.manifest.len()
            invariant
                k <= self.manifest@.len(),
                first_marked(self.manifest@, 0) == first_marked(self.manifest@, k as int),
            decreases self.manifest@.len() - k,
        {
            if cover_marked_exec(&self.manifest[k]) {
                let p = resolve(self.base_path.as_str(), self.manifest[k].href.as_str()).0;
                assert(first_marked(self.items(), 0) == k);
                assert(p@ == spec_resolve_path(self.base(), self.items()[k as int].href@));
                assert(spec_cover_path(self.items(), opt_str(self.meta().cover_id), self.files(), self.base()) == Some(p@));
                return Some(p);
            }
            k += 1;
        }
        match &self.metadata.cover_id {
            Some(cover_id) => {
                proof {
                    lemma_manifest_index(self.manifest@, cover_id@);
                }
                match self.manifest_path(cover_id.as_str()) {
                    Some(p) => return Some(p),
                    None => {},
                }
                match self.resource_path(cover_id.as_str()) {
                    Some(p) => return Some(p),
                    None => {},
                }
            },
            None => {},
        }
        let mut k: usize = 0;
        while k < self.manifest.len()
            invariant
                k <= self.manifest@.len(),
                first_marked(self.manifest@, 0) == -1,
                cover_via_meta(self.items(), opt_str(self.meta().cover_id), self.files(), self.base()) is None,
                first_cover_named(self.manifest@, 0) == first_cover_named(self.manifest@, k as int),
            decreases self.manifest@.len() - k,
        {
            if cover_named_exec(&self.manifest[k]) {
                return Some(resolve(self.base_path.as_str(), self.manifest[k].href.as_str()).0);
            }
            k += 1;
        }
        None
    }

    /// Get the cover image data if available
    pub fn cover_image(&self) -> (r: Option<&[u8]>)
        ensures
            match spec_cover_path(self.items(), opt_str(self.meta().cover_id), self.files(), self.base()) {
                Some(p) => match lookup(self.files(), trim_slashes(p)) {
                    Some(d) => r matches Some(b) && b@ == d,
                    None => r is None,
                },
                None => r is None,
            },
    {
        match self.cover_path() {
            Some(p) => self.archive.get_file(p.as_str()),
            None => None,
        }
    }
}


/// What loading a section's document gives: its text, or why it fails.
pub open spec fn load_result(files: Seq<(Seq<char>, Seq<u8>)>, href: Seq<char>) -> Result<Seq<char>, ErrView> {
    match lookup(files, trim_slashes(href)) {
        None => Err(ErrView::MissingFile(href)),
        Some(d) => if valid_utf8(d) {
            Ok(decode_utf8(d))
        } else {
            Err(ErrView::InvalidStructure("Invalid UTF-8 in "@ + href + ": "@ + crate::text::utf8_error_message(d)))
        },
    }
}

/// The content a section has once loaded: what it holds, else what loading
/// gives. A document too large for its text to be indexed (see
/// [`scan_limit`], a machine limit of the text map's counters) is refused.
pub open spec fn loaded_content(s: Section, files: Seq<(Seq<char>, Seq<u8>)>) -> Result<Seq<char>, ErrView> {
    match s.content_view() {
        Some(c) => Ok(c),
        None => match load_result(files, s.href@) {
            Ok(c) => if byte_len(c) < scan_limit() {
                Ok(c)
            } else {
                Err(ErrView::Io("Section too large to index: "@ + s.href@))
            },
            Err(v) => Err(v),
        },
    }
}

/// The error for a section index out of range.
pub open spec fn no_section(index: int) -> ErrView {
    ErrView::ContentNotFound("Section "@ + decimal(index as nat) + " not found"@)
}

impl Book {
    /// The book is unchanged but for the section at `index`, which keeps its
    /// identity and place.
    pub open spec fn same_but(&self, other: &Book, index: int) -> bool {
        &&& self.files() == other.files()
        &&& self.base() == other.base()
        &&& self.items() == other.items()
        &&& self.toc_items() == other.toc_items()
        &&& self.meta() == other.meta()
        &&& self.spine_items() == other.spine_items()
        &&& self.direction() == other.direction()
        &&& self.secs().len() == other.secs().len()
        &&& forall|i: int| 0 <= i < self.secs().len() && i != index ==> #[trigger] self.secs()[i] == other.secs()[i]
        &&& 0 <= index < self.secs().len() ==> {
            &&& sec_view(self.secs()[index]) == sec_view(other.secs()[index])
            &&& self.secs()[index].index == other.secs()[index].index
        }
    }

    /// The bytes of the archive file at `path` (leading slashes ignored).
    pub fn archive_file(&self, path: &str) -> (r: Option<&[u8]>)
        ensures
            match lookup(self.files(), trim_slashes(path@)) {
                Some(d) => r matches Some(b) && b@ == d,
                None => r is None,
            },
    {
        self.archive.get_file(path)
    }

    /// Get a mutable section by index
    pub fn section_mut(&mut self, index: usize) -> (r: Option<&mut Section>)
        ensures
            match r {
                Some(s) => {
                    &&& index < old(self).secs().len()
                    &&& *s == old(self).secs()[index as int]
                    &&& final(self).secs() == old(self).secs().update(index as int, *final(s))
                },
                None => index >= old(self).secs().len() && *final(self) == *old(self),
            },
            final(self).files() == old(self).files(),
            final(self).base() == old(self).base(),
            final(self).items() == old(self).items(),
            final(self).toc_items() == old(self).toc_items(),
            final(self).meta() == old(self).meta(),
    {
        if index < self.sections.len() {
            Some(&mut self.sections[index])
        } else {
            None
        }
    }

    /// Load content for a section (from the archive, unless it is loaded).
    pub fn load_section(&mut self, index: usize) -> (r: Result<&Section, EpubError>)
        requires
            old(self).wf(),
        ensures
            final(self).wf(),
            final(self).same_but(old(self), index as int),
            if index >= old(self).secs().len() {
                r matches Err(e) && err_view(e) == no_section(index as int)
            } else {
                match loaded_content(old(self).secs()[index as int], old(self).files()) {
                    Ok(c) => r matches Ok(s) && *s == final(self).secs()[index as int] && s.content_view() == Some(c),
                    Err(v) => r matches Err(e) && err_view(e) == v && final(self).secs()[index as int] == old(self).secs()[index as int],
                }
            },
    {
        if index >= self.sections.len() {
            let mut m = chars_of("Section ");
            push_decimal(&mut m, index);
            let t = chars_of(" not found");
            push_all(&mut m, &t);
            return Err(EpubError::ContentNotFound(string_from_chars(m.as_slice())));
        }
        proof {
            assert(self.secs()[index as int].wf());
        }
        if !self.sections[index].is_loaded() {
            let content = match self.archive.get_file_string(self.sections[index].href.as_str()) {
                Ok(c) => c,
                Err(e) => return Err(e),
            };
            if content.as_str().as_bytes().len() >= usize::MAX / 8 {
                let mut m = chars_of("Section too large to index: ");
                let h = chars_of(self.sections[index].href.as_str());
                push_all(&mut m, &h);
                return Err(EpubError::IoError(string_from_chars(m.as_slice())));
            }
            assert(byte_len(content@) < scan_limit());
            self.sections[index].set_content(content);
        }
        proof {
            assert forall|i: int| 0 <= i < self.secs().len() implies {
                &&& #[trigger] self.secs()[i].wf()
                &&& self.secs()[i].index == i
                &&& (self.secs()[i].content_view() matches Some(c) ==> byte_len(c) < scan_limit())
            } by {
                if i != index {
                    assert(self.secs()[i] == old(self).secs()[i]);
                    assert(old(self).secs()[i].wf());
                }
            }
        }
        Ok(&self.sections[index])
    }
}


impl Book {
    /// Get section content (loading if necessary)
    pub fn section_content(&mut self, index: usize) -> (r: Result<&str, EpubError>)
        requires
            old(self).wf(),
        ensures
            final(self).wf(),
            final(self).same_but(old(self), index as int),
            if index >= old(self).secs().len() {
                r matches Err(e) && err_view(e) == no_section(index as int)
            } else {
                match loaded_content(old(self).secs()[index as int], old(self).files()) {
                    Ok(c) => r matches Ok(t) && t@ == c && final(self).secs()[index as int].content_view() == Some(c),
                    Err(v) => r matches Err(e) && err_view(e) == v && final(self).secs()[index as int] == old(self).secs()[index as int],
                }
            },
    {
        match self.load_section(index) {
            Ok(_) => {},
            Err(e) => return Err(e),
        }
        match self.sections[index].content() {
            Some(c) => Ok(c),
            None => Err(EpubError::ContentNotFound("Section content not loaded".to_owned())),
        }
    }

    /// Get the plain text of a section, whitespace-collapsed (loading if necessary)
    pub fn section_text(&mut self, index: usize) -> (r: Result<&str, EpubError>)
        requires
            old(self).wf(),
        ensures
            final(self).wf(),
            final(self).same_but(old(self), index as int),
            if index >= old(self).secs().len() {
                r matches Err(e) && err_view(e) == no_section(index as int)
            } else {
                match loaded_content(old(self).secs()[index as int], old(self).files()) {
                    Ok(c) => r matches Ok(t) && t@ == spec_scan(c).text && final(self).secs()[index as int].content_view() == Some(c),
                    Err(v) => r matches Err(e) && err_view(e) == v && final(self).secs()[index as int] == old(self).secs()[index as int],
                }
            },
    {
        match self.load_section(index) {
            Ok(_) => {},
            Err(e) => return Err(e),
        }
        let ghost mid = *self;
        proof {
            assert(self.secs()[index as int].wf());
        }
        self.sections[index].map();
        proof {
            assert forall|i: int| 0 <= i < self.secs().len() implies {
                &&& #[trigger] self.secs()[i].wf()
                &&& self.secs()[i].index == i
                &&& (self.secs()[i].content_view() matches Some(c) ==> byte_len(c) < scan_limit())
            } by {
                if i != index {
                    assert(self.secs()[i] == mid.secs()[i]);
                    assert(mid.secs()[i].wf());
                }
            }
        }
        match self.sections[index].cached() {
            Some(m) => Ok(m.text()),
            None => Err(EpubError::ContentNotFound("Section content not loaded".to_owned())),
        }
    }

    /// Get the text/position map of a section (loading if necessary)
    pub fn section_map(&mut self, index: usize) -> (r: Result<&TextMap, EpubError>)
        requires
            old(self).wf(),
        ensures
            final(self).wf(),
            final(self).same_but(old(self), index as int),
            if index >= old(self).secs().len() {
                r matches Err(e) && err_view(e) == no_section(index as int)
            } else {
                match loaded_content(old(self).secs()[index as int], old(self).files()) {
                    Ok(c) => r matches Ok(m) && m.text_view() == spec_scan(c).text
                        && m.entries_view() == spec_scan(c).entries && m.paths_view() == spec_scan(c).chunk_paths
                        && final(self).secs()[index as int].content_view() == Some(c),
                    Err(v) => r matches Err(e) && err_view(e) == v && final(self).secs()[index as int] == old(self).secs()[index as int],
                }
            },
    {
        match self.load_section(index) {
            Ok(_) => {},
            Err(e) => return Err(e),
        }
        let ghost mid = *self;
        proof {
            assert(self.secs()[index as int].wf());
        }
        self.sections[index].map();
        proof {
            assert forall|i: int| 0 <= i < self.secs().len() implies {
                &&& #[trigger] self.secs()[i].wf()
                &&& self.secs()[i].index == i
                &&& (self.secs()[i].content_view() matches Some(c) ==> byte_len(c) < scan_limit())
            } by {
                if i != index {
                    assert(self.secs()[i] == mid.secs()[i]);
                    assert(mid.secs()[i].wf());
                }
            }
        }
        match self.sections[index].cached() {
            Some(m) => Ok(m),
            None => Err(EpubError::ContentNotFound("Section content not loaded".to_owned())),
        }
    }

    /// Navigate to a CFI: load the section it points into.
    pub fn go_to_cfi(&mut self, cfi: &Cfi) -> (r: Result<&Section, EpubError>)
        requires
            old(self).wf(),
        ensures
            final(self).wf(),
            final(self).same_but(old(self), cfi.spine_index as int),
            if cfi.spine_index >= old(self).secs().len() {
                r matches Err(e) && err_view(e) == no_section(cfi.spine_index as int)
            } else {
                match loaded_content(old(self).secs()[cfi.spine_index as int], old(self).files()) {
                    Ok(c) => r matches Ok(s) && *s == final(self).secs()[cfi.spine_index as int] && s.content_view() == Some(c),
                    Err(v) => r matches Err(e) && err_view(e) == v,
                }
            },
    {
        self.load_section(cfi.spine_index)
    }
}


/// The results that remain allowed after `found` results.
pub open spec fn remaining(max: Option<usize>, found: nat) -> Option<usize> {
    match max {
        Some(m) => Some(
            if found >= m {
                0usize
            } else {
                (m - found) as usize
            },
        ),
        None => None,
    }
}

/// A hit of a book search: the section index, the section's content, and
/// the character range matched in the section's text.
pub type Hit = (int, Seq<char>, (int, int));

/// The hits of a search from section `i` on, `found` results having been
/// made before: each section in order, while results remain allowed, whose
/// content can be loaded (the others are skipped), contributes the matches
/// in its text that remain allowed.
pub open spec fn book_hits(
    secs: Seq<Section>,
    files: Seq<(Seq<char>, Seq<u8>)>,
    q: Seq<char>,
    ci: bool,
    max: Option<usize>,
    i: int,
    found: nat,
) -> Seq<Hit>
    decreases secs.len() - i,
{
    if i < 0 || i >= secs.len() {
        Seq::empty()
    } else {
        let rem = remaining(max, found);
        if rem == Some(0usize) {
            Seq::empty()
        } else {
            match loaded_content(secs[i], files) {
                Err(_) => book_hits(secs, files, q, ci, max, i + 1, found),
                Ok(c) => {
                    let ms = spec_find_matches(spec_scan(c).text, q, ci, rem);
                    Seq::new(ms.len(), |j: int| (i, c, ms[j])) + book_hits(secs, files, q, ci, max, i + 1, found + ms.len())
                },
            }
        }
    }
}

/// The record a hit makes.
#[verifier::opaque]
pub open spec fn hit_ok(r: SearchMatch, h: Hit, ctx: int) -> bool {
    let t = spec_scan(h.1).text;
    let m = h.2;
    match_ok(
        r,
        t,
        m,
        match_cfi_text(
            t,
            spec_scan(h.1).entries,
            spec_scan(h.1).chunk_paths,
            h.0 as usize,
            byte_len(t.take(m.0)) as int,
            byte_len(t.take(m.1)) as int,
        ),
        h.0 as usize,
        ctx,
    )
}

/// A section after searching: it keeps its identity and place, and either
/// keeps its content or, having none, gets what loading it gives.
#[verifier::opaque]
pub open spec fn sec_loaded(now: Section, was: Section, files: Seq<(Seq<char>, Seq<u8>)>) -> bool {
    &&& sec_view(now) == sec_view(was)
    &&& now.index == was.index
    &&& (now.content_view() == was.content_view() || (was.content_view() is None && loaded_content(was, files)
        == Ok::<Seq<char>, ErrView>(now.content_view()->Some_0)))
}

/// The hits of one section when `rem` results remain allowed.
pub open spec fn section_hits(sec: Section, files: Seq<(Seq<char>, Seq<u8>)>, i: int, q: Seq<char>, ci: bool, rem: Option<usize>) -> Seq<Hit> {
    match loaded_content(sec, files) {
        Err(_) => Seq::empty(),
        Ok(c) => {
            let ms = spec_find_matches(spec_scan(c).text, q, ci, rem);
            Seq::new(ms.len(), |j: int| (i, c, ms[j]))
        },
    }
}

proof fn lemma_hits_step(
    secs: Seq<Section>,
    files: Seq<(Seq<char>, Seq<u8>)>,
    q: Seq<char>,
    ci: bool,
    max: Option<usize>,
    i: int,
    found: nat,
)
    requires
        0 <= i < secs.len(),
        remaining(max, found) != Some(0usize),
    ensures
        ({
            let mine = section_hits(secs[i], files, i, q, ci, remaining(max, found));
            book_hits(secs, files, q, ci, max, i, found) == mine + book_hits(secs, files, q, ci, max, i + 1, found + mine.len())
        }),
{
    let mine = section_hits(secs[i], files, i, q, ci, remaining(max, found));
    match loaded_content(secs[i], files) {
        Err(_) => {
            assert(mine + book_hits(secs, files, q, ci, max, i + 1, found + mine.len()) =~= book_hits(secs, files, q, ci, max, i + 1, found));
        },
        Ok(c) => {},
    }
}

proof fn lemma_split<T>(hits: Seq<T>, a: int, mine: Seq<T>, next: Seq<T>)
    requires
        0 <= a <= hits.len(),
        hits == hits.take(a) + (mine + next),
    ensures
        a + mine.len() <= hits.len(),
        hits == hits.take(a + mine.len()) + next,
        forall|j: int| 0 <= j < mine.len() ==> #[trigger] hits[a + j] == mine[j],
{
    assert(hits.take(a + mine.len()) =~= hits.take(a) + mine);
    assert(hits =~= hits.take(a + mine.len()) + next);
}

proof fn lemma_hits_ok(done: Seq<SearchMatch>, found: Seq<SearchMatch>, hits: Seq<Hit>, mine: Seq<Hit>, ctx: int)
    requires
        done.len() + mine.len() <= hits.len(),
        found.len() == mine.len(),
        forall|j: int| 0 <= j < done.len() ==> hit_ok(#[trigger] done[j], hits[j], ctx),
        forall|j: int| 0 <= j < found.len() ==> hit_ok(#[trigger] found[j], mine[j], ctx),
        forall|j: int| 0 <= j < mine.len() ==> #[trigger] hits[done.len() + j] == mine[j],
    ensures
        forall|j: int| 0 <= j < (done + found).len() ==> hit_ok(#[trigger] (done + found)[j], hits[j], ctx),
{
    assert forall|j: int| 0 <= j < (done + found).len() implies hit_ok(#[trigger] (done + found)[j], hits[j], ctx) by {
        if j >= done.len() {
            let jj = j - done.len();
            assert(hits[done.len() + jj] == mine[jj]);
            assert((done + found)[j] == found[jj]);
        } else {
            assert((done + found)[j] == done[j]);
        }
    }
}

proof fn lemma_take_all<T>(s: Seq<T>)
    ensures
        s.take(s.len() as int) == s,
{
    assert(s.take(s.len() as int) =~= s);
}

impl Book {
    /// Every section keeps its identity and place, and either keeps its
    /// content or, having none, gets what loading it gives.
    pub open spec fn loaded_from(&self, other: &Book) -> bool {
        &&& self.files() == other.files()
        &&& self.base() == other.base()
        &&& self.items() == other.items()
        &&& self.toc_items() == other.toc_items()
        &&& self.meta() == other.meta()
        &&& self.secs().len() == other.secs().len()
        &&& forall|i: int| 0 <= i < self.secs().len() ==> sec_loaded(#[trigger] self.secs()[i], other.secs()[i], other.files())
    }

    /// The matches in section `i`, `rem` results being allowed.
    fn search_section(&mut self, i: usize, query: &str, options: &SearchOptions, rem: Option<usize>) -> (r: Vec<SearchMatch>)
        requires
            old(self).wf(),
            i < old(self).secs().len(),
            (i + 1) * 2 <= usize::MAX,
        ensures
            final(self).wf(),
            final(self).same_but(old(self), i as int),
            sec_loaded(final(self).secs()[i as int], old(self).secs()[i as int], old(self).files()),
            ({
                let mine = section_hits(old(self).secs()[i as int], old(self).files(), i as int, query@, options.case_insensitive, rem);
                &&& r@.len() == mine.len()
                &&& forall|j: int| 0 <= j < r@.len() ==> hit_ok(#[trigger] r@[j], mine[j], options.context_chars as int)
            }),
    {
        proof {
            reveal(hit_ok);
            reveal(sec_loaded);
        }
        match self.section_map(i) {
            Ok(map) => {
                let section_opts = SearchOptions {
                    case_insensitive: options.case_insensitive,
                    max_results: rem,
                    context_chars: options.context_chars,
                };
                matches_in_map(map, query, i, &section_opts)
            },
            Err(_) => Vec::new(),
        }
    }

    /// Search the entire book (see [`book_hits`]); sections that cannot be
    /// loaded are skipped.
    pub fn search(&mut self, query: &str, options: &SearchOptions) -> (r: Result<Vec<SearchMatch>, EpubError>)
        requires
            old(self).wf(),
            old(self).secs().len() <= usize::MAX / 2,
        ensures
            final(self).wf(),
            final(self).loaded_from(old(self)),
            query@.len() == 0 ==> *final(self) == *old(self),
            r matches Ok(v) && {
                let hits = book_hits(old(self).secs(), old(self).files(), query@, options.case_insensitive, options.max_results, 0, 0);
                &&& v@.len() == hits.len()
                &&& forall|j: int| 0 <= j < v@.len() ==> hit_ok(#[trigger] v@[j], hits[j], options.context_chars as int)
            },
    {
        let mut all: Vec<SearchMatch> = Vec::new();
        let ghost hits = book_hits(self.secs(), self.files(), query@, options.case_insensitive, options.max_results, 0, 0);
        let ghost start = *self;
        proof {
            reveal(sec_loaded);
        }
        if query.is_empty() {
            proof {
                lemma_no_hits(self.secs(), self.files(), query@, options.case_insensitive, options.max_results, 0, 0);
            }
            return Ok(all);
        }
        proof {
            assert(hits.take(0) + hits =~= hits);
        }
        let n = self.sections.len();
        let mut i: usize = 0;
        while i < n
            invariant
                n == self.secs().len(),
                i <= n,
                n <= usize::MAX / 2,
                self.wf(),
                start == *old(self),
                query@.len() > 0,
                self.loaded_from(&start),
                start.secs().len() == n,
                forall|k: int| i <= k < n ==> #[trigger] self.secs()[k] == start.secs()[k],
                hits == book_hits(start.secs(), start.files(), query@, options.case_insensitive, options.max_results, 0, 0),
                all@.len() <= hits.len(),
                hits == hits.take(all@.len() as int) + book_hits(
                    start.secs(),
                    start.files(),
                    query@,
                    options.case_insensitive,
                    options.max_results,
                    i as int,
                    all@.len() as nat,
                ),
                forall|j: int| 0 <= j < all@.len() ==> hit_ok(#[trigger] all@[j], hits[j], options.context_chars as int),
            decreases n - i,
        {
            let rem: Option<usize> = match options.max_results {
                Some(m) => Some(m.saturating_sub(all.len())),
                None => None,
            };
            assert(rem == remaining(options.max_results, all@.len() as nat));
            if rem == Some(0usize) {
                proof {
                    lemma_take_all(hits);
                }
                return Ok(all);
            }
            proof {
                lemma_hits_step(start.secs(), start.files(), query@, options.case_insensitive, options.max_results, i as int, all@.len() as nat);
            }
            let ghost before = *self;
            let ghost old_all = all@;
            let ghost mine = section_hits(start.secs()[i as int], start.files(), i as int, query@, options.case_insensitive, rem);
            let mut found = self.search_section(i, query, options, rem);
            let ghost fv = found@;
            all.append(&mut found);
            proof {
                let next = book_hits(start.secs(), start.files(), query@, options.case_insensitive, options.max_results, i + 1, (old_all.len() + mine.len()) as nat);
                lemma_split(hits, old_all.len() as int, mine, next);
                lemma_hits_ok(old_all, fv, hits, mine, options.context_chars as int);
                assert(all@ == old_all + fv);
                assert forall|k: int| 0 <= k < n implies sec_loaded(#[trigger] self.secs()[k], start.secs()[k], start.files()) by {
                    if k != i {
                        assert(self.secs()[k] == before.secs()[k]);
                    }
                }
            }
            i += 1;
        }
        proof {
            lemma_take_all(hits);
        }
        Ok(all)
    }
}

proof fn lemma_hits_max(
    secs: Seq<Section>,
    files: Seq<(Seq<char>, Seq<u8>)>,
    q: Seq<char>,
    ci: bool,
    m: usize,
    i: int,
    found: nat,
)
    requires
        found <= m,
    ensures
        book_hits(secs, files, q, ci, Some(m), i, found).len() + found <= m,
    decreases secs.len() - i,
{
    if 0 <= i < secs.len() {
        let rem = remaining(Some(m), found);
        if rem != Some(0usize) {
            match loaded_content(secs[i], files) {
                Err(_) => {
                    lemma_hits_max(secs, files, q, ci, m, i + 1, found);
                },
                Ok(c) => {
                    let r = (m - found) as usize;
                    assert(rem == Some(r));
                    crate::search::law_matches_at_most_max(spec_scan(c).text, q, ci, r);
                    let ms = spec_find_matches(spec_scan(c).text, q, ci, rem);
                    lemma_hits_max(secs, files, q, ci, m, i + 1, found + ms.len());
                },
            }
        }
    }
}

/// A book search limited to `m` results finds at most `m`, across all the
/// sections together.
pub proof fn law_search_at_most_max(
    secs: Seq<Section>,
    files: Seq<(Seq<char>, Seq<u8>)>,
    q: Seq<char>,
    ci: bool,
    m: usize,
)
    ensures
        book_hits(secs, files, q, ci, Some(m), 0, 0).len() <= m,
{
    lemma_hits_max(secs, files, q, ci, m, 0, 0);
}

/// A book search limited to `m` results gives the first `m` hits of the
/// unlimited search: the hits of every section in order, cut to `m` (all of
/// them when there are fewer).
pub proof fn law_capped_book_search_is_prefix(
    secs: Seq<Section>,
    files: Seq<(Seq<char>, Seq<u8>)>,
    q: Seq<char>,
    ci: bool,
    m: usize,
)
    ensures
        ({
            let all = book_hits(secs, files, q, ci, None, 0, 0);
            book_hits(secs, files, q, ci, Some(m), 0, 0) == all.take(if all.len() <= m { all.len() as int } else { m as int })
        }),
{
    lemma_capped_hits(secs, files, q, ci, m, 0, 0);
}

proof fn lemma_capped_hits(
    secs: Seq<Section>,
    files: Seq<(Seq<char>, Seq<u8>)>,
    q: Seq<char>,
    ci: bool,
    m: usize,
    i: int,
    found: nat,
)
    requires
        found <= m,
    ensures
        ({
            let all = book_hits(secs, files, q, ci, None, i, found);
            let k = m - found;
            book_hits(secs, files, q, ci, Some(m), i, found) == all.take(if all.len() <= k { all.len() as int } else { k })
        }),
    decreases secs.len() - i,
{
    let all = book_hits(secs, files, q, ci, None, i, found);
    let k = m - found;
    if i < 0 || i >= secs.len() {
        assert(all.take(0) =~= all);
    } else if found == m {
        assert(remaining(Some(m), found) == Some(0usize));
        assert(all.take(0) =~= Seq::<Hit>::empty());
    } else {
        assert(remaining(Some(m), found) == Some((m - found) as usize));
        match loaded_content(secs[i], files) {
            Err(_) => {
                lemma_capped_hits(secs, files, q, ci, m, i + 1, found);
            },
            Ok(c) => {
                let t = spec_scan(c).text;
                let ms_all = spec_find_matches(t, q, ci, None);
                let ms = spec_find_matches(t, q, ci, Some((m - found) as usize));
                crate::search::law_capped_search_is_prefix(t, q, ci, (m - found) as usize);
                let hs_all = Seq::new(ms_all.len(), |j: int| (i, c, ms_all[j]));
                let hs = Seq::new(ms.len(), |j: int| (i, c, ms[j]));
                let rest_all = book_hits(secs, files, q, ci, None, i + 1, found + ms_all.len());
                assert(all == hs_all + rest_all);
                if ms_all.len() >= k {
                    assert(ms.len() == k);
                    let f2: nat = found + ms.len();
                    assert(f2 == m);
                    if i + 1 < secs.len() {
                        assert(remaining(Some(m), f2) == Some(0usize));
                    }
                    assert(book_hits(secs, files, q, ci, Some(m), i + 1, f2) =~= Seq::<Hit>::empty());
                    assert(hs =~= (hs_all + rest_all).take(k));
                } else {
                    assert(ms == ms_all);
                    let f2: nat = found + ms.len();
                    lemma_capped_hits(secs, files, q, ci, m, i + 1, f2);
                    let rest = book_hits(secs, files, q, ci, None, i + 1, f2);
                    assert(rest == rest_all);
                    let k2 = m - f2;
                    assert(hs == hs_all);
                    assert((hs_all + rest_all).take(if all.len() <= k { all.len() as int } else { k })
                        =~= hs_all + rest_all.take(if rest_all.len() <= k2 { rest_all.len() as int } else { k2 }));
                }
            },
        }
    }
}

/// An empty query finds nothing.
pub proof fn lemma_no_hits(
    secs: Seq<Section>,
    files: Seq<(Seq<char>, Seq<u8>)>,
    q: Seq<char>,
    ci: bool,
    max: Option<usize>,
    i: int,
    found: nat,
)
    requires
        q.len() == 0,
    ensures
        book_hits(secs, files, q, ci, max, i, found) == Seq::<Hit>::empty(),
    decreases secs.len() - i,
{
    if 0 <= i < secs.len() {
        lemma_no_hits(secs, files, q, ci, max, i + 1, found);
        let rem = remaining(max, found);
        match loaded_content(secs[i], files) {
            Ok(c) => {
                let ms = spec_find_matches(spec_scan(c).text, q, ci, rem);
                assert(ms.len() == 0);
                assert(Seq::new(ms.len(), |j: int| (i, c, ms[j])) =~= Seq::<Hit>::empty());
            },
            Err(_) => {},
        }
    }
}


/// The table of contents of the navigation document at `href` (relative to
/// the package directory `base`): its entries with hrefs resolved against
/// the document's directory, when the document is there, is UTF-8, parses,
/// and lists something.
pub open spec fn nav_toc(files: Seq<(Seq<char>, Seq<u8>)>, base: Seq<char>, href: Seq<char>) -> Option<Seq<NavView>> {
    let full = spec_resolve_path(base, href);
    match file_text(files, full) {
        Some(x) => match spec_nav_from_dom(html_dom(x)) {
            Ok(t) => if t.len() > 0 {
                Some(resolved_forest(t, spec_dir_of(full)))
            } else {
                None
            },
            Err(_) => None,
        },
        None => None,
    }
}

/// The table of contents the NCX document at `href` gives: none when the
/// document is missing or not UTF-8; else the entries read from it (with
/// hrefs resolved against its directory), or none when reading fails.
pub open spec fn ncx_toc_ok(files: Seq<(Seq<char>, Seq<u8>)>, base: Seq<char>, href: Seq<char>, toc: Seq<NavView>) -> bool {
    let full = spec_resolve_path(base, href);
    match file_text(files, full) {
        Some(x) => match crate::navigation::spec_ncx(spec_xml_tokens(x, true, true)) {
            Ok(t) => toc == resolved_forest(t, spec_dir_of(full)),
            Err(_) => toc.len() == 0,
        },
        None => toc.len() == 0,
    }
}

/// The table of contents a package gives: from its navigation document when
/// that yields entries, else from its NCX document, else none.
pub open spec fn toc_ok(
    files: Seq<(Seq<char>, Seq<u8>)>,
    base: Seq<char>,
    nav_path: Option<Seq<char>>,
    ncx_path: Option<Seq<char>>,
    toc: Seq<NavView>,
) -> bool {
    let from_nav = match nav_path {
        Some(p) => nav_toc(files, base, p),
        None => None,
    };
    match from_nav {
        Some(t) => toc == t,
        None => match ncx_path {
            Some(p) => ncx_toc_ok(files, base, p, toc),
            None => toc.len() == 0,
        },
    }
}

/// Every href of the table of contents a package gives is empty (a
/// heading), external, or a normalized archive path with an optional
/// `#fragment`: the hrefs a book hands out need no further path work.
pub proof fn law_toc_hrefs_are_archive_paths(
    files: Seq<(Seq<char>, Seq<u8>)>,
    base: Seq<char>,
    nav_path: Option<Seq<char>>,
    ncx_path: Option<Seq<char>>,
    toc: Seq<NavView>,
)
    requires
        toc_ok(files, base, nav_path, ncx_path, toc),
    ensures
        crate::navigation::archive_hrefs(toc),
{
    let from_nav = match nav_path {
        Some(p) => nav_toc(files, base, p),
        None => None,
    };
    match from_nav {
        Some(t) => {
            let p = nav_path->Some_0;
            let full = spec_resolve_path(base, p);
            let x = file_text(files, full)->Some_0;
            let parsed = spec_nav_from_dom(html_dom(x))->Ok_0;
            crate::navigation::lemma_resolved_forest_hrefs(parsed, spec_dir_of(full));
        },
        None => match ncx_path {
            Some(p) => {
                let full = spec_resolve_path(base, p);
                if file_text(files, full) is Some {
                    let ts = spec_xml_tokens(file_text(files, full)->Some_0, true, true);
                    match crate::navigation::spec_ncx(ts) {
                        Ok(t) => crate::navigation::lemma_resolved_forest_hrefs(t, spec_dir_of(full)),
                        Err(_) => {},
                    }
                }
            },
            None => {},
        },
    }
}

/// Read the navigation document at `href`: its entries, resolved, if it
/// lists any.
fn load_nav_toc(archive: &Archive, base_path: &str, href: &str) -> (r: Option<Vec<NavItem>>)
    ensures
        match nav_toc(archive.entries(), base_path@, href@) {
            Some(t) => r matches Some(v) && forest_view(v@) == t,
            None => r is None,
        },
{
    let (full, _) = resolve(base_path, href);
    let xml = match archive.get_file_string(full.as_str()) {
        Ok(x) => x,
        Err(_) => return None,
    };
    let mut items = match parse_nav(xml.as_str()) {
        Ok(v) => v,
        Err(_) => return None,
    };
    resolve_hrefs(&mut items, dir_of(full.as_str()));
    if items.len() == 0 {
        proof {
            crate::navigation::lemma_forest_view_len(items@);
        }
        return None;
    }
    proof {
        crate::navigation::lemma_forest_view_len(items@);
    }
    Some(items)
}

/// Read the NCX document at `href`, its entries resolved.
fn load_ncx_toc(archive: &Archive, base_path: &str, href: &str) -> (r: Vec<NavItem>)
    ensures
        ncx_toc_ok(archive.entries(), base_path@, href@, forest_view(r@)),
{
    let (full, _) = resolve(base_path, href);
    let xml = match archive.get_file_string(full.as_str()) {
        Ok(x) => x,
        Err(_) => return Vec::new(),
    };
    let mut items = match parse_ncx(xml.as_str()) {
        Ok(v) => v,
        Err(_) => return Vec::new(),
    };
    resolve_hrefs(&mut items, dir_of(full.as_str()));
    items
}

/// The table of contents of a package: the EPUB3 navigation document first,
/// falling back to the EPUB2 NCX (see [`toc_ok`]).
fn load_toc(archive: &Archive, base_path: &str, package: &Package) -> (r: Vec<NavItem>)
    ensures
        toc_ok(archive.entries(), base_path@, opt_str(package.nav_path), opt_str(package.ncx_path), forest_view(r@)),
{
    match &package.nav_path {
        Some(p) => match load_nav_toc(archive, base_path, p.as_str()) {
            Some(items) => return items,
            None => {},
        },
        None => {},
    }
    match &package.ncx_path {
        Some(p) => load_ncx_toc(archive, base_path, p.as_str()),
        None => Vec::new(),
    }
}

impl Book {
    /// The spine items.
    pub closed spec fn spine_items(&self) -> Seq<SpineItem> {
        self.spine@
    }

    /// The page progression direction.
    pub closed spec fn direction(&self) -> Option<String> {
        self.page_progression_direction
    }

    /// Build the book that `package`, read from `opf_path` in `archive`,
    /// describes: sections from the spine (see [`spine_sections`]), the table
    /// of contents (see [`toc_ok`]), resources relative to the package
    /// directory. A spine that names no manifest item is an error.
    pub fn from_package(archive: Archive, opf_path: &str, package: Package) -> (r: Result<Book, EpubError>)
        ensures
            ({
                let base = spec_dir_of(opf_path@);
                let secs = spine_sections(package.spine@, package.manifest@, base);
                if secs.len() == 0 {
                    r matches Err(e) && err_view(e) == ErrView::InvalidStructure("Spine references no manifest items"@)
                } else {
                    r matches Ok(b) && {
                        &&& b.wf()
                        &&& b.files() == archive.entries()
                        &&& b.base() == base
                        &&& b.items() == package.manifest@
                        &&& b.spine_items() == package.spine@
                        &&& b.meta() == package.metadata
                        &&& b.direction() == package.page_progression_direction
                        &&& sec_views(b.secs()) == secs
                        &&& forall|i: int| 0 <= i < b.secs().len() ==> (#[trigger] b.secs()[i]).content_view() is None
                        &&& toc_ok(archive.entries(), base, opt_str(package.nav_path), opt_str(package.ncx_path), forest_view(b.toc_items()))
                    }
                }
            }),
    {
        let base_path = dir_of(opf_path).to_owned();
        let toc = load_toc(&archive, base_path.as_str(), &package);
        let mut sections: Vec<Section> = Vec::new();
        let mut k: usize = 0;
        while k < package.spine.len()
            invariant
                k <= package.spine@.len(),
                base_path@ == spec_dir_of(opf_path@),
                sections@.len() <= k,
                sec_views(sections@) == spine_sections(package.spine@.take(k as int), package.manifest@, base_path@),
                forall|i: int| 0 <= i < sections@.len() ==> {
                    &&& (#[trigger] sections@[i]).wf()
                    &&& sections@[i].index == i
                    &&& sections@[i].content_view() is None
                },
            decreases package.spine@.len() - k,
        {
            let spine_item = &package.spine[k];
            let ghost prev = sections@;
            proof {
                let t = package.spine@.take(k + 1);
                assert(t.drop_last() =~= package.spine@.take(k as int));
                assert(t.last() == package.spine@[k as int]);
                lemma_manifest_index(package.manifest@, spine_item.idref@);
            }
            match manifest_lookup(&package.manifest, spine_item.idref.as_str()) {
                Some(item) => {
                    let (href, _) = resolve(base_path.as_str(), item.href.as_str());
                    let idx = sections.len();
                    let sec = Section::new(idx, spine_item, href, item.media_type.clone());
                    sections.push(sec);
                    proof {
                        assert(strs(sec.properties@) =~= strs(spine_item.properties@));
                        assert(sec_views(sections@) =~= sec_views(prev).push(sec_view(sec)));
                    }
                },
                None => {},
            }
            k += 1;
        }
        assert(package.spine@.take(k as int) =~= package.spine@);
        if sections.len() == 0 {
            return Err(EpubError::InvalidStructure("Spine references no manifest items".to_owned()));
        }
        let book = Book {
            metadata: package.metadata,
            spine: package.spine,
            manifest: package.manifest,
            toc,
            page_progression_direction: package.page_progression_direction,
            sections,
            archive,
            base_path,
        };
        proof {
            assert forall|i: int| 0 <= i < book.secs().len() implies {
                &&& #[trigger] book.secs()[i].wf()
                &&& book.secs()[i].index == i
                &&& (book.secs()[i].content_view() matches Some(c) ==> byte_len(c) < scan_limit())
            } by {
                assert(book.secs()[i] == book.sections@[i]);
            }
        }
        Ok(book)
    }
}


impl Book {
    /// What every book built from `files` is: well formed, over those files,
    /// with at least one section, the sections being what its spine and
    /// manifest make (see [`spine_sections`]), none of them loaded yet.
    pub open spec fn fresh_from(&self, files: Seq<(Seq<char>, Seq<u8>)>) -> bool {
        &&& self.wf()
        &&& self.files() == files
        &&& self.secs().len() > 0
        &&& sec_views(self.secs()) == spine_sections(self.spine_items(), self.items(), self.base())
        &&& forall|i: int| 0 <= i < self.secs().len() ==> (#[trigger] self.secs()[i]).content_view() is None
    }

    /// What a book opened from `files`, whose package document is at `opf`
    /// and reads as `pv`, is: fresh over those files, its base the package
    /// directory, its manifest, spine, metadata and direction those of the
    /// package, its table of contents what [`toc_ok`] says.
    pub open spec fn opened_as(&self, files: Seq<(Seq<char>, Seq<u8>)>, opf: Seq<char>, pv: PackageView) -> bool {
        &&& self.fresh_from(files)
        &&& self.base() == spec_dir_of(opf)
        &&& self.items().map_values(|m: ManifestItem| item_view(m)) == pv.manifest
        &&& self.spine_items().map_values(|x: SpineItem| spine_view(x)) == pv.spine
        &&& meta_view(self.meta()) == pv.metadata
        &&& opt_str(self.direction()) == pv.page_progression_direction
        &&& toc_ok(files, spec_dir_of(opf), pv.nav_path, pv.ncx_path, forest_view(self.toc_items()))
    }

    /// Open an EPUB from an archive: `META-INF/container.xml` names the
    /// package document (percent-decoded, normalized), whose directory is
    /// the base for its hrefs; the book is what [`Book::from_package`] makes
    /// of the parsed package (see [`open_result`]).
    pub fn from_archive(archive: Archive) -> (r: Result<Book, EpubError>)
        ensures
            open_result(archive.entries(), r),
    {
        let ghost files = archive.entries();
        let container_xml = match archive.get_file_string(container_path()) {
            Ok(x) => x,
            Err(e) => return Err(e),
        };
        let rootfile = match parse_container(container_xml.as_str()) {
            Ok(p) => p,
            Err(e) => return Err(e),
        };
        let opf_path = normalize(percent_decode(rootfile.as_str()).as_str());
        let opf_xml = match archive.get_file_string(opf_path.as_str()) {
            Ok(x) => x,
            Err(e) => return Err(e),
        };
        let package = match Package::parse(opf_xml.as_str()) {
            Ok(p) => p,
            Err(e) => return Err(e),
        };
        let ghost pv = crate::package::package_view(package);
        assert(spec_open_package(files) == Ok::<(Seq<char>, PackageView), ErrView>((opf_path@, pv)));
        proof {
            lemma_spine_sections_nonempty(package.spine@, package.manifest@, spec_dir_of(opf_path@));
        }
        let r = Book::from_package(archive, opf_path.as_str(), package);
        proof {
            match &r {
                Ok(b) => {
                    assert(b.items().map_values(|m: ManifestItem| item_view(m)) == pv.manifest);
                    assert(b.spine_items().map_values(|x: SpineItem| spine_view(x)) == pv.spine);
                },
                Err(_) => {},
            }
        }
        r
    }

    /// Open an EPUB from bytes (see [`Archive::from_bytes`] and
    /// [`Book::from_archive`]).
    pub fn from_bytes(bytes: Vec<u8>) -> (r: Result<Book, EpubError>)
        ensures
            match crate::archive::zip_files(bytes@) {
                Ok(files) => open_result(files, r),
                Err(crate::archive::ZipFault::Archive) => r matches Err(e) && e is ArchiveError,
                Err(crate::archive::ZipFault::Io) => r matches Err(e) && e is IoError,
            },
    {
        let archive = match Archive::from_bytes(bytes) {
            Ok(a) => a,
            Err(e) => return Err(e),
        };
        Book::from_archive(archive)
    }
}

/// The package path that `META-INF/container.xml` in `files` names,
/// percent-decoded and normalized; or why there is none.
pub open spec fn spec_opf_path(files: Seq<(Seq<char>, Seq<u8>)>) -> Result<Seq<char>, ErrView> {
    match load_result(files, spec_container_path()) {
        Err(v) => Err(v),
        Ok(x) => match container_run(spec_xml_tokens(x, true, false), 0) {
            Err(v) => Err(v),
            Ok(p) => Ok(spec_normalize(spec_percent_decode(p))),
        },
    }
}

/// The package document of `files`: its path and what it reads as; or why
/// there is none.
pub open spec fn spec_open_package(files: Seq<(Seq<char>, Seq<u8>)>) -> Result<(Seq<char>, PackageView), ErrView> {
    match spec_opf_path(files) {
        Err(v) => Err(v),
        Ok(opf) => match load_result(files, opf) {
            Err(v) => Err(v),
            Ok(x) => match spec_package(spec_xml_tokens(x, true, true)) {
                Err(v) => Err(v),
                Ok(pv) => Ok((opf, pv)),
            },
        },
    }
}

/// Whether some spine item names some manifest item.
pub open spec fn spine_refs_manifest(spine: Seq<SpineView>, manifest: Seq<ItemView>) -> bool {
    exists|i: int, k: int| 0 <= i < spine.len() && 0 <= k < manifest.len() && #[trigger] spine[i].idref == #[trigger] manifest[k].id
}

/// What opening the files of an EPUB gives: the error of the first step
/// that fails (reading the container, its package path, the package
/// document); an error when no spine item names a manifest item; else the
/// book of the package (see [`Book::opened_as`]).
pub open spec fn open_result(files: Seq<(Seq<char>, Seq<u8>)>, r: Result<Book, EpubError>) -> bool {
    match spec_open_package(files) {
        Err(v) => r matches Err(e) && err_view(e) == v,
        Ok((opf, pv)) => if spine_refs_manifest(pv.spine, pv.manifest) {
            r matches Ok(b) && b.opened_as(files, opf, pv)
        } else {
            r matches Err(e) && err_view(e) == ErrView::InvalidStructure("Spine references no manifest items"@)
        },
    }
}

/// A spine makes sections exactly when one of its items names a manifest
/// item.
proof fn lemma_spine_sections_nonempty(spine: Seq<SpineItem>, manifest: Seq<ManifestItem>, base: Seq<char>)
    ensures
        spine_sections(spine, manifest, base).len() > 0 <==> spine_refs_manifest(
            spine.map_values(|x: SpineItem| spine_view(x)),
            manifest.map_values(|m: ManifestItem| item_view(m)),
        ),
    decreases spine.len(),
{
    let sv = spine.map_values(|x: SpineItem| spine_view(x));
    let mv = manifest.map_values(|m: ManifestItem| item_view(m));
    if spine.len() > 0 {
        let prev = spine.drop_last();
        lemma_spine_sections_nonempty(prev, manifest, base);
        let pv = prev.map_values(|x: SpineItem| spine_view(x));
        assert(pv =~= sv.drop_last());
        let it = spine.last();
        lemma_manifest_index(manifest, it.idref@);
        let m = manifest_index(manifest, it.idref@);
        if spine_refs_manifest(sv, mv) {
            let (i, k) = choose|i: int, k: int|
                0 <= i < sv.len() && 0 <= k < mv.len() && #[trigger] sv[i].idref == #[trigger] mv[k].id;
            if i < spine.len() - 1 {
                assert(pv[i] == sv[i]);
            } else {
                assert(manifest[k].id@ == it.idref@);
            }
        }
        if 0 <= m < manifest.len() {
            assert(sv[spine.len() - 1].idref == mv[m].id);
        } else if spine_refs_manifest(pv, mv) {
            let (i, k) = choose|i: int, k: int|
                0 <= i < pv.len() && 0 <= k < mv.len() && #[trigger] pv[i].idref == #[trigger] mv[k].id;
            assert(sv[i] == pv[i]);
        }
    }
}

} // verus!
