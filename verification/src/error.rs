//! Error types for EPUB parsing

use vstd::prelude::*;

verus! {

/// Why reading or parsing a book failed. Each variant carries a message.
#[derive(Debug)]
pub enum EpubError {
    /// Failed to read EPUB archive
    ArchiveError(String),
    /// Failed to read file from archive
    IoError(String),
    /// Failed to parse XML
    XmlError(String),
    /// Missing required file
    MissingFile(String),
    /// Invalid EPUB structure
    InvalidStructure(String),
    /// Invalid CFI
    InvalidCfi(String),
    /// Content not found
    ContentNotFound(String),
}

/// The kinds of error, abstractly, with their messages.
pub enum ErrView {
    Archive(Seq<char>),
    Io(Seq<char>),
    Xml(Seq<char>),
    MissingFile(Seq<char>),
    InvalidStructure(Seq<char>),
    InvalidCfi(Seq<char>),
    ContentNotFound(Seq<char>),
}

pub open spec fn err_view(e: EpubError) -> ErrView {
    match e {
        EpubError::ArchiveError(m) => ErrView::Archive(m@),
        EpubError::IoError(m) => ErrView::Io(m@),
        EpubError::XmlError(m) => ErrView::Xml(m@),
        EpubError::MissingFile(m) => ErrView::MissingFile(m@),
        EpubError::InvalidStructure(m) => ErrView::InvalidStructure(m@),
        EpubError::InvalidCfi(m) => ErrView::InvalidCfi(m@),
        EpubError::ContentNotFound(m) => ErrView::ContentNotFound(m@),
    }
}

impl EpubError {
    /// The human-readable description: `<what failed>: <message>`.
    pub fn to_string(&self) -> (r: String)
        ensures
            r@ == error_text(err_view(*self)),
    {
        let (prefix, m) = match self {
            EpubError::ArchiveError(m) => ("Failed to read EPUB archive: ", m),
            EpubError::IoError(m) => ("Failed to read file from archive: ", m),
            EpubError::XmlError(m) => ("Failed to parse XML: ", m),
            EpubError::MissingFile(m) => ("Missing required file: ", m),
            EpubError::InvalidStructure(m) => ("Invalid EPUB structure: ", m),
            EpubError::InvalidCfi(m) => ("Invalid CFI: ", m),
            EpubError::ContentNotFound(m) => ("Content not found: ", m),
        };
        let mut out = crate::text::chars_of(prefix);
        let mc = crate::text::chars_of(m.as_str());
        crate::text::push_all(&mut out, &mc);
        crate::text::string_from_chars(out.as_slice())
    }
}

/// The description of an error.
pub open spec fn error_text(e: ErrView) -> Seq<char> {
    match e {
        ErrView::Archive(m) => "Failed to read EPUB archive: "@ + m,
        ErrView::Io(m) => "Failed to read file from archive: "@ + m,
        ErrView::Xml(m) => "Failed to parse XML: "@ + m,
        ErrView::MissingFile(m) => "Missing required file: "@ + m,
        ErrView::InvalidStructure(m) => "Invalid EPUB structure: "@ + m,
        ErrView::InvalidCfi(m) => "Invalid CFI: "@ + m,
        ErrView::ContentNotFound(m) => "Content not found: "@ + m,
    }
}

} // verus!
