//! Section (spine item) handling

use vstd::prelude::*;

use crate::package::SpineItem;
use crate::path::{dir_of, fragment_part, is_external, resolve, spec_dir_of, spec_is_external, spec_resolve_path};
use crate::search::extract_text;
use crate::text::byte_len;
use crate::text_map::{scan_limit, spec_scan, TextMap};

verus! {

/// A section of the book (corresponds to a spine item)
#[derive(Debug)]
pub struct Section {
    /// Spine index
    pub index: usize,
    /// ID from manifest
    pub id: String,
    /// Normalized archive path of the content document
    /// (e.g. `OEBPS/Text/chapter1.xhtml`)
    pub href: String,
    /// Media type
    pub media_type: String,
    /// Whether this is a linear section
    pub linear: bool,
    /// Spine properties
    pub properties: Vec<String>,
    /// The loaded content and its text map, read and set through the
    /// section's methods.
    pub data: SectionData,
}

/// What a section holds once loaded.
#[derive(Debug)]
pub struct SectionData {
    /// Raw content (loaded on demand; set it with `Section::set_content`)
    content: Option<String>,
    /// Text/position map computed from the content (on demand, by
    /// `Section::map`)
    map: Option<TextMap>,
}

/// The resolution of `href` against a section's directory: external URLs
/// unchanged with no fragment, else the normalized archive path and the
/// fragment.
pub open spec fn section_resolve(section_href: Seq<char>, href: Seq<char>) -> (Seq<char>, Option<Seq<char>>) {
    if spec_is_external(href) {
        (href, None)
    } else {
        (spec_resolve_path(spec_dir_of(section_href), href), fragment_part(href))
    }
}

impl Section {
    /// The loaded content, if any.
    pub closed spec fn content_view(&self) -> Option<Seq<char>> {
        match self.data.content {
            Some(c) => Some(c@),
            None => None,
        }
    }

    /// The cached map, if computed.
    pub closed spec fn cached_map(&self) -> Option<TextMap> {
        self.data.map
    }

    /// The cached map, if computed (see [`Section::map`]).
    pub(crate) fn cached(&self) -> (r: Option<&TextMap>)
        ensures
            match r {
                Some(m) => self.cached_map() == Some(*m),
                None => self.cached_map() is None,
            },
    {
        self.data.map.as_ref()
    }

    /// The cached map, if computed, belongs to the loaded content.
    pub closed spec fn wf(&self) -> bool {
        self.data.map matches Some(m) ==> {
            &&& self.data.content matches Some(c)
            &&& m.text_view() == spec_scan(c@).text
            &&& m.entries_view() == spec_scan(c@).entries
            &&& m.paths_view() == spec_scan(c@).chunk_paths
        }
    }

    /// Create a section from spine and manifest items
    pub fn new(index: usize, spine_item: &SpineItem, href: String, media_type: String) -> (s: Section)
        ensures
            s.wf(),
            s.index == index,
            s.id@ == spine_item.idref@,
            s.href@ == href@,
            s.media_type@ == media_type@,
            s.linear == spine_item.linear,
            s.properties@.len() == spine_item.properties@.len(),
            forall|k: int| 0 <= k < s.properties@.len() ==> #[trigger] s.properties@[k]@ == spine_item.properties@[k]@,
            s.content_view() is None,
    {
        let mut props: Vec<String> = Vec::new();
        let mut k: usize = 0;
        while k < spine_item.properties.len()
            invariant
                k <= spine_item.properties@.len(),
                props@.len() == k,
                forall|m: int| 0 <= m < k ==> #[trigger] props@[m]@ == spine_item.properties@[m]@,
            decreases spine_item.properties@.len() - k,
        {
            props.push(spine_item.properties[k].clone());
            k += 1;
        }
        Section {
            index,
            id: spine_item.idref.clone(),
            href,
            media_type,
            linear: spine_item.linear,
            properties: props,
            data: SectionData { content: None, map: None },
        }
    }

    /// Check if content is loaded
    pub fn is_loaded(&self) -> (b: bool)
        ensures
            b == self.content_view() is Some,
    {
        self.data.content.is_some()
    }

    /// Set the content
    pub fn set_content(&mut self, content: String)
        ensures
            final(self).wf(),
            final(self).content_view() == Some(content@),
            final(self).index == old(self).index,
            final(self).id == old(self).id,
            final(self).href == old(self).href,
            final(self).media_type == old(self).media_type,
            final(self).linear == old(self).linear,
            final(self).properties == old(self).properties,
    {
        self.data.content = Some(content);
        self.data.map = None;
    }

    /// Get the content if loaded
    pub fn content(&self) -> (r: Option<&str>)
        ensures
            match r {
                Some(c) => self.content_view() == Some(c@),
                None => self.content_view() is None,
            },
    {
        match &self.data.content {
            Some(c) => Some(c.as_str()),
            None => None,
        }
    }

    /// Take ownership of the content
    pub fn take_content(&mut self) -> (r: Option<String>)
        ensures
            final(self).wf(),
            final(self).content_view() is None,
            match r {
                Some(c) => old(self).content_view() == Some(c@),
                None => old(self).content_view() is None,
            },
            final(self).index == old(self).index,
            final(self).id == old(self).id,
            final(self).href == old(self).href,
            final(self).media_type == old(self).media_type,
            final(self).linear == old(self).linear,
            final(self).properties == old(self).properties,
            final(self).cached_map() is None,
    {
        self.data.map = None;
        self.data.content.take()
    }

    /// Directory containing this section, with trailing slash (`""` for root)
    pub fn base_path(&self) -> (r: &str)
        ensures
            r@ == spec_dir_of(self.href@),
    {
        dir_of(self.href.as_str())
    }

    /// Resolve an href relative to this section into `(archive_path, fragment)`.
    ///
    /// External URLs (`http://…`, `data:`, …) are returned unchanged with no fragment.
    pub fn resolve_href(&self, href: &str) -> (r: (String, Option<String>))
        ensures
            r.0@ == section_resolve(self.href@, href@).0,
            match r.1 {
                Some(f) => section_resolve(self.href@, href@).1 == Some(f@),
                None => section_resolve(self.href@, href@).1 is None,
            },
    {
        if is_external(href) {
            return (href.to_owned(), None);
        }
        resolve(self.base_path(), href)
    }

    /// Resolve a relative URL against this section's base path (path only).
    pub fn resolve_url(&self, relative: &str) -> (r: String)
        ensures
            r@ == section_resolve(self.href@, relative@).0,
    {
        self.resolve_href(relative).0
    }

    /// Text/position map of the section (normalized text plus offset↔CFI
    /// mappings). Cached after the first call. Returns `None` if content has
    /// not been loaded.
    pub fn map(&mut self) -> (r: Option<&TextMap>)
        requires
            old(self).wf(),
            old(self).content_view() matches Some(c) ==> byte_len(c) < scan_limit(),
        ensures
            final(self).wf(),
            final(self).content_view() == old(self).content_view(),
            final(self).index == old(self).index,
            final(self).id == old(self).id,
            final(self).href == old(self).href,
            final(self).media_type == old(self).media_type,
            final(self).linear == old(self).linear,
            final(self).properties == old(self).properties,
            r matches Some(m) ==> final(self).cached_map() == Some(*m),
            match r {
                Some(m) => old(self).content_view() matches Some(c) && m.text_view() == spec_scan(c).text
                    && m.entries_view() == spec_scan(c).entries && m.paths_view() == spec_scan(c).chunk_paths,
                None => old(self).content_view() is None,
            },
    {
        if self.data.map.is_none() {
            match &self.data.content {
                Some(c) => {
                    let m = TextMap::parse(c.as_str());
                    self.data.map = Some(m);
                },
                None => {
                    return None;
                },
            }
        }
        self.data.map.as_ref()
    }

    /// Plain text of the section, normalized. Cached after the first call.
    /// Returns `None` if content has not been loaded.
    pub fn text(&mut self) -> (r: Option<&str>)
        requires
            old(self).wf(),
            old(self).content_view() matches Some(c) ==> byte_len(c) < scan_limit(),
        ensures
            final(self).wf(),
            final(self).content_view() == old(self).content_view(),
            final(self).index == old(self).index,
            final(self).id == old(self).id,
            final(self).href == old(self).href,
            final(self).media_type == old(self).media_type,
            final(self).linear == old(self).linear,
            final(self).properties == old(self).properties,
            match r {
                Some(t) => old(self).content_view() matches Some(c) && t@ == spec_scan(c).text,
                None => old(self).content_view() is None,
            },
    {
        match self.map() {
            Some(m) => Some(m.text()),
            None => None,
        }
    }

    /// Extract plain text from the XHTML content (uncached).
    pub fn text_content(&self) -> (r: Option<String>)
        requires
            self.content_view() matches Some(c) ==> byte_len(c) < scan_limit(),
        ensures
            match r {
                Some(t) => self.content_view() matches Some(c) && t@ == spec_scan(c).text,
                None => self.content_view() is None,
            },
    {
        match &self.data.content {
            Some(c) => Some(extract_text(c.as_str())),
            None => None,
        }
    }
}

} // verus!
