//! What the reading server answers for a resource request.

use vstd::prelude::*;

use crate::archive::{lookup, trim_slashes};
use crate::book::{file_name, spec_resource_path, Book};
use crate::package::ManifestItem;

verus! {

/// The MIME type `mime_guess` gives for a path.
pub uninterp spec fn guessed_mime(path: Seq<char>) -> Seq<char>;

/// `mime_guess::from_path(path).first_or_octet_stream()`, as text: the
/// first MIME type registered for the path's extension, else
/// `application/octet-stream`. The contract claims only that the result
/// depends on the path alone.
#[verifier::external_body]
fn mime_of(path: &str) -> (r: String)
    ensures
        r@ == guessed_mime(path@),
{
    mime_guess::from_path(path).first_or_octet_stream().to_string()
}

/// Whether `s` ends with `suffix`.
pub open spec fn has_suffix(s: Seq<char>, suffix: Seq<char>) -> bool {
    suffix.len() <= s.len() && s.skip(s.len() - suffix.len()) == suffix
}

/// The first manifest item, from `k` on, that could be what a request for
/// `path` (file name `f`) means and whose resource exists: its href ends
/// with `f` or is `path`. `-1` when none.
pub open spec fn first_serving(
    items: Seq<ManifestItem>,
    files: Seq<(Seq<char>, Seq<u8>)>,
    base: Seq<char>,
    path: Seq<char>,
    f: Seq<char>,
    k: int,
) -> int
    decreases items.len() - k,
{
    if k < 0 || k >= items.len() {
        -1
    } else if (has_suffix(items[k].href@, f) || items[k].href@ == path) && spec_resource_path(
        files,
        base,
        items[k].href@,
    ) is Some {
        k
    } else {
        first_serving(items, files, base, path, f, k + 1)
    }
}

/// What a request for `path` is served: the resource it names, typed by
/// `path`; else the first manifest item whose href ends with the requested
/// file name (or is `path`), typed by that href. Each as (the path the type
/// is guessed from, the bytes).
pub open spec fn spec_served(
    items: Seq<ManifestItem>,
    files: Seq<(Seq<char>, Seq<u8>)>,
    base: Seq<char>,
    path: Seq<char>,
) -> Option<(Seq<char>, Seq<u8>)> {
    match spec_resource_path(files, base, path) {
        Some(p) => Some((path, lookup(files, trim_slashes(p))->Some_0)),
        None => {
            let i = first_serving(items, files, base, path, file_name(path), 0);
            if 0 <= i < items.len() {
                let p = spec_resource_path(files, base, items[i].href@)->Some_0;
                Some((items[i].href@, lookup(files, trim_slashes(p))->Some_0))
            } else {
                None
            }
        },
    }
}

fn ends_with(s: &str, suffix: &Vec<char>) -> (b: bool)
    ensures
        b == has_suffix(s@, suffix@),
{
    let v = crate::text::chars_of(s);
    if suffix.len() > v.len() {
        return false;
    }
    let tail = crate::text::sub_vec(&v, v.len() - suffix.len(), v.len());
    assert(tail@ =~= v@.skip(v@.len() - suffix@.len()));
    crate::text::chars_eq(&tail, suffix)
}

/// The resource a request for `path` is answered with (see
/// [`spec_served`]): its MIME type and its bytes.
pub fn served_resource<'a>(book: &'a Book, path: &str) -> (r: Option<(String, &'a [u8])>)
    ensures
        match spec_served(book.items(), book.files(), book.base(), path@) {
            Some((name, data)) => r matches Some(x) && x.0@ == guessed_mime(name) && x.1@ == data,
            None => r is None,
        },
{
    match book.get_resource(path) {
        Some(data) => return Some((mime_of(path), data)),
        None => {},
    }
    let f = crate::book::file_name_of(path);
    let items = book.manifest_items();
    let mut k: usize = 0;
    while k < items.len()
        invariant
            k <= book.items().len(),
            book.items() == items@,
            f@ == file_name(path@),
            spec_resource_path(book.files(), book.base(), path@) is None,
            first_serving(book.items(), book.files(), book.base(), path@, f@, 0) == first_serving(
                book.items(),
                book.files(),
                book.base(),
                path@,
                f@,
                k as int,
            ),
        decreases book.items().len() - k,
    {
        let item = &items[k];
        if ends_with(item.href.as_str(), &f) || crate::text::str_eq(item.href.as_str(), path) {
            match book.get_resource(item.href.as_str()) {
                Some(data) => return Some((mime_of(item.href.as_str()), data)),
                None => {},
            }
        }
        k += 1;
    }
    None
}

} // verus!
