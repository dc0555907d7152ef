//! Pure EPUB parsing: archive access, OPF package and navigation parsing,
//! path resolution, text extraction with CFI/source mapping, full-text
//! search and reference rewriting.

pub mod text;
pub mod path;
pub mod text_map;
pub mod cfi;
pub mod cfi_parse;
pub mod cfi_order;
pub mod cfi_laws;
pub mod search;
pub mod rewrite;
pub mod navigation;
pub mod package;
pub mod section;
pub mod container;
pub mod xml;
pub mod dom;
pub mod archive;
pub mod book;
pub mod error;
pub mod server;
pub mod layout;
pub mod highlight;
pub mod view;
pub mod render;
