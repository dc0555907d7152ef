//! XML tokens read with `quick_xml`, as plain values.
//!
//! The reader itself is an outside type; the events it yields for a document
//! are named ([`xml_events`]), and [`xml_tokens`] is exact over them. The
//! parsers of this crate take the token list as an argument and are verified
//! for every token list.

use vstd::prelude::*;
use vstd::utf8::*;
use quick_xml::events::Event;

verus! {

#[verifier::external_type_specification]
#[verifier::external_body]
#[verifier::reject_recursive_types(R)]
pub struct ExXmlReader<R>(quick_xml::Reader<R>);

#[verifier::external_type_specification]
#[verifier::external_body]
pub struct ExBytesStart<'a>(quick_xml::events::BytesStart<'a>);

#[verifier::external_type_specification]
#[verifier::external_body]
pub struct ExBytesEnd<'a>(quick_xml::events::BytesEnd<'a>);

#[verifier::external_type_specification]
#[verifier::external_body]
pub struct ExBytesText<'a>(quick_xml::events::BytesText<'a>);

#[verifier::external_type_specification]
#[verifier::external_body]
pub struct ExBytesCData<'a>(quick_xml::events::BytesCData<'a>);

#[verifier::external_type_specification]
#[verifier::external_body]
pub struct ExAttributes<'a>(quick_xml::events::attributes::Attributes<'a>);

#[verifier::external_type_specification]
#[verifier::external_body]
pub struct ExAttribute<'a>(quick_xml::events::attributes::Attribute<'a>);

#[verifier::external_type_specification]
#[verifier::external_body]
pub struct ExAttrError(quick_xml::events::attributes::AttrError);

#[verifier::external_type_specification]
#[verifier::external_body]
pub struct ExXmlError(quick_xml::Error);

/// One event of the reader, with the outside values it carries.
pub enum RawEvent<'a> {
    Start(quick_xml::events::BytesStart<'a>),
    End(quick_xml::events::BytesEnd<'a>),
    Empty(quick_xml::events::BytesStart<'a>),
    Text(quick_xml::events::BytesText<'a>),
    CData(quick_xml::events::BytesCData<'a>),
    Other,
    Eof,
    Error(quick_xml::Error),
}

/// One step of an attribute iteration.
pub enum RawAttr {
    Attr(Vec<u8>, Vec<u8>),
    Error(String),
    Done,
}

/// An attribute step, abstractly: key and raw value, or the error message;
/// `None` at the end.
pub open spec fn raw_attr_view(a: RawAttr) -> Option<Result<(Seq<u8>, Seq<u8>), Seq<char>>> {
    match a {
        RawAttr::Attr(k, v) => Some(Ok((k@, v@))),
        RawAttr::Error(m) => Some(Err(m@)),
        RawAttr::Done => None,
    }
}

/// The events a reader over `xml` yields, configured with `trim_text` and
/// `expand_empty_elements` as given, from the first up to and including the
/// first `Eof` or error, each as [`event_view`] describes it.
pub uninterp spec fn xml_events(xml: Seq<char>, trim: bool, expand: bool) -> Seq<TokenView>;

/// The events a reader still yields, from its next one up to and including
/// the next `Eof` or error, as [`xml_events`] describes them.
pub uninterp spec fn events_left(r: quick_xml::Reader<&[u8]>) -> Seq<TokenView>;

/// `BytesStart::name`, as bytes.
pub uninterp spec fn start_tag_name(e: quick_xml::events::BytesStart) -> Seq<u8>;

/// `BytesEnd::name`, as bytes.
pub uninterp spec fn end_tag_name(e: quick_xml::events::BytesEnd) -> Seq<u8>;

/// `BytesText::unescape`: the text with entities decoded, `None` when that
/// fails.
pub uninterp spec fn text_value(t: quick_xml::events::BytesText) -> Option<Seq<char>>;

/// The bytes of a CDATA section.
pub uninterp spec fn cdata_value(c: quick_xml::events::BytesCData) -> Seq<u8>;

/// The message of a reader error (its `Display`).
pub uninterp spec fn error_message(e: quick_xml::Error) -> Seq<char>;

/// An event as plain values: the name and every attribute of a start tag
/// (`empty` for `<tag/>`), the name of an end tag, the unescaped text, the
/// CDATA bytes, or the error's message.
pub open spec fn event_view(ev: RawEvent) -> TokenView {
    match ev {
        RawEvent::Start(e) => TokenView::Start { name: start_tag_name(e), attrs: tag_attrs(e), empty: false },
        RawEvent::Empty(e) => TokenView::Start { name: start_tag_name(e), attrs: tag_attrs(e), empty: true },
        RawEvent::End(e) => TokenView::End { name: end_tag_name(e) },
        RawEvent::Text(t) => TokenView::Text(text_value(t)),
        RawEvent::CData(c) => TokenView::CData(cdata_value(c)),
        RawEvent::Other => TokenView::Other,
        RawEvent::Eof => TokenView::Eof,
        RawEvent::Error(e) => TokenView::Error(error_message(e)),
    }
}

/// Whether a token ends the reading.
pub open spec fn is_terminal(t: TokenView) -> bool {
    t is Eof || t is Error
}

/// `Reader::from_str`, then `Config::trim_text` and
/// `Config::expand_empty_elements`: a reader at the start of `xml`, which
/// yields the events [`xml_events`] names.
#[verifier::external_body]
fn xml_reader(xml: &str, trim: bool, expand: bool) -> (r: quick_xml::Reader<&[u8]>)
    ensures
        events_left(r) == xml_events(xml@, trim, expand),
{
    let mut r = quick_xml::Reader::from_str(xml);
    r.config_mut().trim_text(trim);
    r.config_mut().expand_empty_elements = expand;
    r
}

/// `Reader::read_event`: the next event, sorted by kind. It is the first of
/// [`events_left`]; after any event but `Eof` or an error the reader holds
/// the rest. (What a reader yields after its `Eof` or an error is not
/// claimed.)
#[verifier::external_body]
fn read_event<'a>(r: &mut quick_xml::Reader<&'a [u8]>) -> (ev: RawEvent<'a>)
    ensures
        events_left(*old(r)).len() > 0,
        event_view(ev) == events_left(*old(r))[0],
        !is_terminal(event_view(ev)) ==> events_left(*final(r)) == events_left(*old(r)).drop_first(),
{
    match r.read_event() {
        Ok(Event::Start(e)) => RawEvent::Start(e),
        Ok(Event::End(e)) => RawEvent::End(e),
        Ok(Event::Empty(e)) => RawEvent::Empty(e),
        Ok(Event::Text(e)) => RawEvent::Text(e),
        Ok(Event::CData(e)) => RawEvent::CData(e),
        Ok(Event::Eof) => RawEvent::Eof,
        Ok(_) => RawEvent::Other,
        Err(e) => RawEvent::Error(e),
    }
}

/// `BytesStart::name`: the element's qualified name, as bytes.
#[verifier::external_body]
fn start_name(e: &quick_xml::events::BytesStart) -> (r: Vec<u8>)
    ensures
        r@ == start_tag_name(*e),
{
    e.name().as_ref().to_vec()
}

/// `BytesEnd::name`: the element's qualified name, as bytes.
#[verifier::external_body]
fn end_name(e: &quick_xml::events::BytesEnd) -> (r: Vec<u8>)
    ensures
        r@ == end_tag_name(*e),
{
    e.name().as_ref().to_vec()
}

/// What `BytesStart::attributes` yields for a start tag, in order: each
/// attribute as its key and raw value bytes, or a malformed attribute's
/// error message (its `Display`).
pub uninterp spec fn tag_attrs(e: quick_xml::events::BytesStart) -> Seq<Result<(Seq<u8>, Seq<u8>), Seq<char>>>;

/// What an attribute iterator still yields, as [`tag_attrs`] describes
/// each item, up to its end.
pub uninterp spec fn attrs_left(a: quick_xml::events::attributes::Attributes) -> Seq<Result<(Seq<u8>, Seq<u8>), Seq<char>>>;

/// `BytesStart::attributes`: an iterator over the element's attributes,
/// from the first.
#[verifier::external_body]
fn start_attributes<'a>(e: &'a quick_xml::events::BytesStart) -> (r: quick_xml::events::attributes::Attributes<'a>)
    ensures
        attrs_left(r) == tag_attrs(*e),
{
    e.attributes()
}

/// `Attributes::next`: the next attribute's key and raw value, or its
/// error's message; `Done` at the end, where the iterator stays (it is
/// fused).
#[verifier::external_body]
fn next_attribute(a: &mut quick_xml::events::attributes::Attributes) -> (r: RawAttr)
    ensures
        attrs_left(*old(a)).len() == 0 ==> r is Done && attrs_left(*final(a)) == attrs_left(*old(a)),
        attrs_left(*old(a)).len() > 0 ==> raw_attr_view(r) == Some(attrs_left(*old(a))[0]) && attrs_left(*final(a))
            == attrs_left(*old(a)).drop_first(),
{
    match a.next() {
        Some(Ok(attr)) => RawAttr::Attr(attr.key.as_ref().to_vec(), attr.value.to_vec()),
        Some(Err(e)) => RawAttr::Error(e.to_string()),
        None => RawAttr::Done,
    }
}

/// `BytesText::unescape`: the text with entities decoded, or `None` when
/// decoding fails.
#[verifier::external_body]
fn text_unescape(t: &quick_xml::events::BytesText) -> (r: Option<String>)
    ensures
        opt_str(r) == text_value(*t),
{
    match t.unescape() {
        Ok(s) => Some(s.into_owned()),
        Err(_) => None,
    }
}

/// The bytes of a CDATA section (`BytesCData` dereferences to them).
#[verifier::external_body]
fn cdata_bytes(c: &quick_xml::events::BytesCData) -> (r: Vec<u8>)
    ensures
        r@ == cdata_value(*c),
{
    c.to_vec()
}

/// The message of a reader error (its `Display`).
#[verifier::external_body]
fn xml_error_text(e: &quick_xml::Error) -> (r: String)
    ensures
        r@ == error_message(*e),
{
    e.to_string()
}

/// What `String::from_utf8_lossy` makes of `b`.
pub uninterp spec fn lossy_utf8(b: Seq<u8>) -> Seq<char>;

/// `String::from_utf8_lossy`: the text of `b`, with invalid sequences
/// replaced; valid UTF-8 decodes to exactly its characters.
#[verifier::external_body]
pub(crate) fn utf8_lossy(b: &[u8]) -> (r: String)
    ensures
        r@ == lossy_utf8(b@),
        valid_utf8(b@) ==> encode_utf8(r@) == b@,
{
    String::from_utf8_lossy(b).into_owned()
}

/// A reader event as plain values. `Start` carries every attribute in
/// order, each a key and raw value or a malformed attribute's error message;
/// `empty` marks `<tag/>`. `Text` is the unescaped text, `None` when
/// unescaping failed.
pub enum XmlToken {
    Start { name: Vec<u8>, attrs: Vec<Result<(Vec<u8>, Vec<u8>), String>>, empty: bool },
    End { name: Vec<u8> },
    Text(Option<String>),
    CData(Vec<u8>),
    Other,
    Eof,
    Error(String),
}

/// The attributes of a start tag, in order (at most `limit` of them).
fn collect_attrs(e: &quick_xml::events::BytesStart, limit: usize) -> (r: Vec<Result<(Vec<u8>, Vec<u8>), String>>)
    ensures
        attrs_view(r@) == tag_attrs(*e).take(
            if tag_attrs(*e).len() <= limit {
                tag_attrs(*e).len() as int
            } else {
                limit as int
            },
        ),
{
    let ghost all = tag_attrs(*e);
    let mut attrs: Vec<Result<(Vec<u8>, Vec<u8>), String>> = Vec::new();
    let mut it = start_attributes(e);
    let mut n: usize = 0;
    while n < limit
        invariant
            all == tag_attrs(*e),
            n <= limit,
            n <= all.len(),
            attrs_view(attrs@) == all.take(n as int),
            attrs_left(it) == all.skip(n as int),
        decreases limit - n,
    {
        let ghost before = attrs@;
        match next_attribute(&mut it) {
            RawAttr::Attr(k, v) => attrs.push(Ok((k, v))),
            RawAttr::Error(err) => attrs.push(Err(err)),
            RawAttr::Done => {
                assert(all.skip(n as int).len() == 0);
                assert(n == all.len());
                assert(all.take(n as int) =~= all.take(all.len() as int));
                return attrs;
            },
        }
        proof {
            assert(all.skip(n as int)[0] == all[n as int]);
            assert(attrs_view(attrs@) =~= attrs_view(before).push(all[n as int]));
            assert(all.take(n + 1) =~= all.take(n as int).push(all[n as int]));
            assert(all.skip(n as int).drop_first() =~= all.skip(n + 1));
        }
        n += 1;
    }
    attrs
}

/// A token with at most `limit` attributes kept.
pub open spec fn cap_token(t: TokenView, limit: int) -> TokenView {
    match t {
        TokenView::Start { name, attrs, empty } => TokenView::Start {
            name,
            attrs: attrs.take(if attrs.len() <= limit { attrs.len() as int } else { limit }),
            empty,
        },
        _ => t,
    }
}

/// The tokens read from the events `evs[k..]` when at most `limit` are
/// read in all: each event in turn, up to and including the first `Eof` or
/// error; an `Eof` where the limit is reached first.
pub open spec fn tokens_from(evs: Seq<TokenView>, k: int, limit: int) -> Seq<TokenView>
    decreases limit - k,
{
    if k < 0 || k >= limit || k >= evs.len() {
        seq![TokenView::Eof]
    } else if is_terminal(evs[k]) {
        seq![evs[k]]
    } else {
        seq![cap_token(evs[k], limit)] + tokens_from(evs, k + 1, limit)
    }
}

/// How many tokens a document of `len` bytes is read to at most.
pub open spec fn token_limit(len: int) -> int {
    if len < usize::MAX / 4 {
        2 * len + 2
    } else {
        (usize::MAX / 2) as int
    }
}

/// The tokens [`xml_tokens`] reads from `xml`.
pub open spec fn spec_xml_tokens(xml: Seq<char>, trim: bool, expand: bool) -> Seq<TokenView> {
    tokens_from(xml_events(xml, trim, expand), 0, token_limit(encode_utf8(xml).len() as int))
}

/// Read `xml` to the end (or its first error) as tokens; the last token is
/// `Eof` or `Error`. Every event but the synthesized end of an expanded
/// empty element consumes input, so a document of `n` bytes yields at most
/// `2n + 1` events; the reading stops there (see [`token_limit`]), and a
/// start tag keeps at most that many attributes.
pub fn xml_tokens(xml: &str, trim_text: bool, expand_empty: bool) -> (r: Vec<XmlToken>)
    ensures
        tokens_view(r@) == spec_xml_tokens(xml@, trim_text, expand_empty),
        r@.len() > 0,
        r@.last() is Eof || r@.last() is Error,
        forall|k: int| 0 <= k < r@.len() - 1 ==> !(#[trigger] r@[k] is Eof) && !(r@[k] is Error),
{
    let ghost evs = xml_events(xml@, trim_text, expand_empty);
    let mut reader = xml_reader(xml, trim_text, expand_empty);
    let len = xml.as_bytes().len();
    let limit: usize = if len < usize::MAX / 4 {
        2 * len + 2
    } else {
        usize::MAX / 2
    };
    let ghost whole = tokens_from(evs, 0, limit as int);
    assert(whole == spec_xml_tokens(xml@, trim_text, expand_empty));
    let mut out: Vec<XmlToken> = Vec::new();
    let mut n: usize = 0;
    assert(evs.skip(0) =~= evs);
    assert(tokens_view(out@) + tokens_from(evs, 0, limit as int) =~= whole);
    while n < limit
        invariant
            evs == xml_events(xml@, trim_text, expand_empty),
            whole == tokens_from(evs, 0, limit as int),
            whole == spec_xml_tokens(xml@, trim_text, expand_empty),
            n <= limit,
            n <= evs.len(),
            events_left(reader) == evs.skip(n as int),
            tokens_view(out@) + tokens_from(evs, n as int, limit as int) == whole,
            forall|k: int| 0 <= k < out@.len() ==> !(#[trigger] out@[k] is Eof) && !(out@[k] is Error),
        decreases limit - n,
    {
        let ghost before = out@;
        let ev = read_event(&mut reader);
        proof {
            assert(evs.skip(n as int)[0] == evs[n as int]);
        }
        let tok = match ev {
            RawEvent::Start(e) => {
                let attrs = collect_attrs(&e, limit);
                XmlToken::Start { name: start_name(&e), attrs, empty: false }
            },
            RawEvent::Empty(e) => {
                let attrs = collect_attrs(&e, limit);
                XmlToken::Start { name: start_name(&e), attrs, empty: true }
            },
            RawEvent::End(e) => XmlToken::End { name: end_name(&e) },
            RawEvent::Text(t) => XmlToken::Text(text_unescape(&t)),
            RawEvent::CData(c) => XmlToken::CData(cdata_bytes(&c)),
            RawEvent::Other => XmlToken::Other,
            RawEvent::Eof => {
                out.push(XmlToken::Eof);
                proof {
                    assert(tokens_view(out@) =~= tokens_view(before).push(TokenView::Eof));
                    assert(tokens_view(out@) =~= tokens_view(before) + tokens_from(evs, n as int, limit as int));
                }
                return out;
            },
            RawEvent::Error(e) => {
                let m = xml_error_text(&e);
                out.push(XmlToken::Error(m));
                proof {
                    assert(tokens_view(out@) =~= tokens_view(before).push(evs[n as int]));
                    assert(tokens_view(out@) =~= tokens_view(before) + tokens_from(evs, n as int, limit as int));
                }
                return out;
            },
        };
        proof {
            assert(token_view(tok) == cap_token(evs[n as int], limit as int));
            assert(evs.skip(n as int).drop_first() =~= evs.skip(n + 1));
        }
        out.push(tok);
        proof {
            assert(tokens_view(out@) =~= tokens_view(before).push(cap_token(evs[n as int], limit as int)));
            assert(tokens_view(out@) + tokens_from(evs, n + 1, limit as int)
                =~= tokens_view(before) + tokens_from(evs, n as int, limit as int));
        }
        n += 1;
    }
    let ghost before = out@;
    out.push(XmlToken::Eof);
    proof {
        assert(tokens_view(out@) =~= tokens_view(before).push(TokenView::Eof));
        assert(tokens_view(out@) =~= tokens_view(before) + tokens_from(evs, n as int, limit as int));
    }
    out
}

/// A token, abstractly.
pub enum TokenView {
    Start { name: Seq<u8>, attrs: Seq<Result<(Seq<u8>, Seq<u8>), Seq<char>>>, empty: bool },
    End { name: Seq<u8> },
    Text(Option<Seq<char>>),
    CData(Seq<u8>),
    Other,
    Eof,
    Error(Seq<char>),
}

/// An attribute, abstractly.
pub open spec fn attr_view(a: Result<(Vec<u8>, Vec<u8>), String>) -> Result<(Seq<u8>, Seq<u8>), Seq<char>> {
    match a {
        Ok(p) => Ok((p.0@, p.1@)),
        Err(m) => Err(m@),
    }
}

pub open spec fn attrs_view(a: Seq<Result<(Vec<u8>, Vec<u8>), String>>) -> Seq<Result<(Seq<u8>, Seq<u8>), Seq<char>>> {
    a.map_values(|p: Result<(Vec<u8>, Vec<u8>), String>| attr_view(p))
}

pub open spec fn opt_str(o: Option<String>) -> Option<Seq<char>> {
    match o {
        Some(s) => Some(s@),
        None => None,
    }
}

pub open spec fn token_view(t: XmlToken) -> TokenView {
    match t {
        XmlToken::Start { name, attrs, empty } => TokenView::Start { name: name@, attrs: attrs_view(attrs@), empty },
        XmlToken::End { name } => TokenView::End { name: name@ },
        XmlToken::Text(t) => TokenView::Text(opt_str(t)),
        XmlToken::CData(b) => TokenView::CData(b@),
        XmlToken::Other => TokenView::Other,
        XmlToken::Eof => TokenView::Eof,
        XmlToken::Error(m) => TokenView::Error(m@),
    }
}

pub open spec fn tokens_view(ts: Seq<XmlToken>) -> Seq<TokenView> {
    ts.map_values(|t: XmlToken| token_view(t))
}

/// Index of the last `:` in a name, or -1.
pub open spec fn last_colon(b: Seq<u8>) -> int
    decreases b.len(),
{
    if b.len() == 0 {
        -1
    } else if b.last() == 58u8 {
        b.len() - 1
    } else {
        last_colon(b.drop_last())
    }
}

/// The local (namespace-stripped) part of an element name, as text.
pub open spec fn local_name(name: Seq<u8>) -> Seq<char> {
    lossy_utf8(name.skip(last_colon(name) + 1))
}

proof fn lemma_last_colon(b: Seq<u8>)
    ensures
        -1 <= last_colon(b) < b.len(),
    decreases b.len(),
{
    if b.len() > 0 && b.last() != 58u8 {
        lemma_last_colon(b.drop_last());
    }
}

/// The local part of an element name (`local`).
pub fn local_name_exec(name: &Vec<u8>) -> (r: String)
    ensures
        r@ == local_name(name@),
{
    let mut k = name.len();
    assert(name@.take(k as int) =~= name@);
    while k > 0 && name[k - 1] != 58u8
        invariant
            k <= name@.len(),
            last_colon(name@) == last_colon(name@.take(k as int)),
        decreases k,
    {
        assert(name@.take(k as int).drop_last() =~= name@.take(k - 1));
        k -= 1;
    }
    if k > 0 {
        assert(name@.take(k as int).last() == name@[k - 1]);
    }
    let mut rest: Vec<u8> = Vec::new();
    let mut j = k;
    while j < name.len()
        invariant
            k <= j <= name@.len(),
            rest@ == name@.subrange(k as int, j as int),
        decreases name@.len() - j,
    {
        rest.push(name[j]);
        j += 1;
        assert(rest@ =~= name@.subrange(k as int, j as int));
    }
    assert(rest@ =~= name@.skip(last_colon(name@) + 1));
    utf8_lossy(rest.as_slice())
}

/// What iterating the attributes `attrs[k..]` for key `key` (as UTF-8)
/// finds: the value of the first attribute with that key, or the first
/// malformed attribute's error, whichever comes first; `None` at the end.
pub open spec fn find_attr(attrs: Seq<Result<(Seq<u8>, Seq<u8>), Seq<char>>>, key: Seq<u8>, k: int) -> Result<Option<Seq<u8>>, Seq<char>>
    decreases attrs.len() - k,
{
    if k < 0 || k >= attrs.len() {
        Ok(None)
    } else {
        match attrs[k] {
            Err(m) => Err(m),
            Ok((kk, v)) => if kk == key {
                Ok(Some(v))
            } else {
                find_attr(attrs, key, k + 1)
            },
        }
    }
}

/// The value of attribute `key` as text (`attr_string`).
pub open spec fn attr_lookup(attrs: Seq<Result<(Seq<u8>, Seq<u8>), Seq<char>>>, key: Seq<char>) -> Result<Option<Seq<char>>, Seq<char>> {
    match find_attr(attrs, encode_utf8(key), 0) {
        Ok(Some(v)) => Ok(Some(lossy_utf8(v))),
        Ok(None) => Ok(None),
        Err(m) => Err(m),
    }
}

/// A copy of a byte vector.
pub fn bytes_copy(v: &Vec<u8>) -> (r: Vec<u8>)
    ensures
        r@ == v@,
{
    let mut out: Vec<u8> = Vec::new();
    let mut j: usize = 0;
    while j < v.len()
        invariant
            j <= v@.len(),
            out@ == v@.take(j as int),
        decreases v@.len() - j,
    {
        out.push(v[j]);
        j += 1;
        assert(out@ =~= v@.take(j as int));
    }
    assert(v@.take(v@.len() as int) =~= v@);
    out
}

/// Whether two byte vectors are equal.
pub fn bytes_eq(a: &[u8], b: &[u8]) -> (r: bool)
    ensures
        r == (a@ == b@),
{
    if a.len() != b.len() {
        return false;
    }
    let mut k: usize = 0;
    while k < a.len()
        invariant
            a@.len() == b@.len(),
            k <= a@.len(),
            forall|m: int| 0 <= m < k ==> a@[m] == b@[m],
        decreases a@.len() - k,
    {
        if a[k] != b[k] {
            return false;
        }
        k += 1;
    }
    assert(a@ =~= b@);
    true
}

/// The raw value of attribute `key` (see [`find_attr`]).
pub fn find_attr_exec(attrs: &Vec<Result<(Vec<u8>, Vec<u8>), String>>, key: &str) -> (r: Result<Option<Vec<u8>>, String>)
    ensures
        match (r, find_attr(attrs_view(attrs@), encode_utf8(key@), 0)) {
            (Ok(Some(v)), Ok(Some(w))) => v@ == w,
            (Ok(None), Ok(None)) => true,
            (Err(m), Err(w)) => m@ == w,
            _ => false,
        },
{
    let kb = key.as_bytes();
    let ghost av = attrs_view(attrs@);
    let mut k: usize = 0;
    while k < attrs.len()
        invariant
            k <= attrs@.len(),
            av == attrs_view(attrs@),
            kb@ == encode_utf8(key@),
            find_attr(av, encode_utf8(key@), 0) == find_attr(av, encode_utf8(key@), k as int),
        decreases attrs@.len() - k,
    {
        assert(av[k as int] == attr_view(attrs@[k as int]));
        match &attrs[k] {
            Err(m) => return Err(m.clone()),
            Ok((kk, v)) => {
                if bytes_eq(kk.as_slice(), kb) {
                    let mut out: Vec<u8> = Vec::new();
                    let mut j: usize = 0;
                    while j < v.len()
                        invariant
                            j <= v@.len(),
                            out@ == v@.take(j as int),
                        decreases v@.len() - j,
                    {
                        out.push(v[j]);
                        j += 1;
                        assert(out@ =~= v@.take(j as int));
                    }
                    assert(v@.take(v@.len() as int) =~= v@);
                    return Ok(Some(out));
                }
            },
        }
        k += 1;
    }
    Ok(None)
}

/// The value of attribute `key` as text (see [`attr_lookup`]).
pub fn attr_lookup_exec(attrs: &Vec<Result<(Vec<u8>, Vec<u8>), String>>, key: &str) -> (r: Result<Option<String>, String>)
    ensures
        match (r, attr_lookup(attrs_view(attrs@), key@)) {
            (Ok(Some(v)), Ok(Some(w))) => v@ == w,
            (Ok(None), Ok(None)) => true,
            (Err(m), Err(w)) => m@ == w,
            _ => false,
        },
{
    match find_attr_exec(attrs, key) {
        Ok(Some(v)) => Ok(Some(utf8_lossy(v.as_slice()))),
        Ok(None) => Ok(None),
        Err(m) => Err(m),
    }
}

} // verus!
