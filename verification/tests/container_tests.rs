use epub_reader_core::container::{container_path, parse_container};
use epub_reader_core::error::EpubError;

#[test]
fn test_parse_container() {
    let xml = r#"<?xml version="1.0" encoding="UTF-8"?>
<container version="1.0" xmlns="urn:oasis:names:tc:opendocument:xmlns:container">
  <rootfiles>
    <rootfile full-path="OEBPS/content.opf" media-type="application/oebps-package+xml"/>
  </rootfiles>
</container>"#;

    let path = parse_container(xml).unwrap();
    assert_eq!(path, "OEBPS/content.opf");
}

#[test]
fn test_parse_container_alternate_path() {
    let xml = r#"<?xml version="1.0"?>
<container version="1.0" xmlns="urn:oasis:names:tc:opendocument:xmlns:container">
  <rootfiles>
    <rootfile full-path="package.opf" media-type="application/oebps-package+xml"/>
  </rootfiles>
</container>"#;

    let path = parse_container(xml).unwrap();
    assert_eq!(path, "package.opf");
}

#[test]
fn container_without_rootfile_is_invalid() {
    let r = parse_container("<container><rootfiles></rootfiles></container>");
    assert!(matches!(r, Err(EpubError::InvalidStructure(_))));
}

#[test]
fn container_location_is_fixed() {
    assert_eq!(container_path(), "META-INF/container.xml");
}

#[test]
fn malformed_container_is_an_xml_error() {
    let r = parse_container("<container><rootfiles></container>");
    assert!(matches!(r, Err(EpubError::XmlError(_))));
}
