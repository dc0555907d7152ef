//! Container XML (META-INF/container.xml): where the package document is.

use vstd::prelude::*;
use vstd::utf8::*;

use crate::error::{err_view, EpubError, ErrView};
use crate::text::{string_from_utf8, utf8_error_message, utf8_error_text};
use crate::xml::{find_attr, find_attr_exec, token_view, tokens_view, spec_xml_tokens, xml_tokens, TokenView, XmlToken};

verus! {

/// Path of the container document inside the archive.
pub open spec fn spec_container_path() -> Seq<char> {
    "META-INF/container.xml"@
}

/// Get the container.xml path constant
pub fn container_path() -> (r: &'static str)
    ensures
        r@ == spec_container_path(),
{
    "META-INF/container.xml"
}


/// The package path a container's tokens `ts[k..]` name: the `full-path`
/// of the first `rootfile` element that has one.
pub open spec fn container_run(ts: Seq<TokenView>, k: int) -> Result<Seq<char>, ErrView>
    decreases ts.len() - k,
{
    if k < 0 || k >= ts.len() {
        Err(ErrView::InvalidStructure("No rootfile found in container.xml"@))
    } else {
        match ts[k] {
            TokenView::Eof => Err(ErrView::InvalidStructure("No rootfile found in container.xml"@)),
            TokenView::Error(m) => Err(ErrView::Xml(m)),
            TokenView::Start { name, attrs, empty } => if name == encode_utf8("rootfile"@) {
                match find_attr(attrs, encode_utf8("full-path"@), 0) {
                    Err(m) => Err(ErrView::Xml(m)),
                    Ok(Some(v)) => if valid_utf8(v) {
                        Ok(decode_utf8(v))
                    } else {
                        Err(ErrView::InvalidStructure("Invalid UTF-8 in rootfile path: "@ + utf8_error_message(v)))
                    },
                    Ok(None) => container_run(ts, k + 1),
                }
            } else {
                container_run(ts, k + 1)
            },
            _ => container_run(ts, k + 1),
        }
    }
}

pub open spec fn string_result_view(r: Result<String, EpubError>) -> Result<Seq<char>, ErrView> {
    match r {
        Ok(s) => Ok(s@),
        Err(e) => Err(err_view(e)),
    }
}

/// The package path named by a container's tokens (see [`container_run`]).
pub fn container_from_tokens(tokens: &Vec<XmlToken>) -> (r: Result<String, EpubError>)
    ensures
        string_result_view(r) == container_run(tokens_view(tokens@), 0),
{
    let ghost tv = tokens_view(tokens@);
    let mut k: usize = 0;
    while k < tokens.len()
        invariant
            k <= tokens@.len(),
            tv == tokens_view(tokens@),
            container_run(tv, 0) == container_run(tv, k as int),
        decreases tokens@.len() - k,
    {
        assert(tv[k as int] == token_view(tokens@[k as int]));
        match &tokens[k] {
            XmlToken::Eof => {
                return Err(EpubError::InvalidStructure("No rootfile found in container.xml".to_owned()));
            },
            XmlToken::Error(m) => {
                return Err(EpubError::XmlError(m.clone()));
            },
            XmlToken::Start { name, attrs, empty: _ } => {
                if crate::xml::bytes_eq(name.as_slice(), "rootfile".as_bytes()) {
                    match find_attr_exec(attrs, "full-path") {
                        Err(m) => {
                            return Err(EpubError::XmlError(m));
                        },
                        Ok(Some(v)) => {
                            let copy = crate::xml::bytes_copy(&v);
                            match string_from_utf8(v) {
                                Some(s) => {
                                    proof {
                                        encode_utf8_decode_utf8(s@);
                                    }
                                    return Ok(s);
                                },
                                None => {
                                    let msg = utf8_error_text(copy);
                                    let mut c = crate::text::chars_of("Invalid UTF-8 in rootfile path: ");
                                    let mc = crate::text::chars_of(msg.as_str());
                                    crate::text::push_all(&mut c, &mc);
                                    return Err(EpubError::InvalidStructure(crate::text::string_from_chars(c.as_slice())));
                                },
                            }
                        },
                        Ok(None) => {},
                    }
                }
            },
            _ => {},
        }
        k += 1;
    }
    Err(EpubError::InvalidStructure("No rootfile found in container.xml".to_owned()))
}

/// Parse the container.xml file to find the rootfile path. The document is
/// read with `quick_xml` (text trimmed); the result is what
/// [`container_from_tokens`] makes of the tokens read.
pub fn parse_container(xml: &str) -> (r: Result<String, EpubError>)
    ensures
        string_result_view(r) == container_run(spec_xml_tokens(xml@, true, false), 0),
{
    let tokens = xml_tokens(xml, true, false);
    container_from_tokens(&tokens)
}

} // verus!
