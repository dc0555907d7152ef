use epub_reader_core::package::Package;

#[test]
fn test_parse_metadata() {
    let xml = r#"<?xml version="1.0" encoding="UTF-8"?>
<package xmlns="http://www.idpf.org/2007/opf" version="3.0">
  <metadata xmlns:dc="http://purl.org/dc/elements/1.1/">
    <dc:title>Test Book</dc:title>
    <dc:creator>Test Author</dc:creator>
    <dc:language>en</dc:language>
    <dc:identifier>urn:isbn:1234567890</dc:identifier>
  </metadata>
  <manifest>
    <item id="nav" href="nav.xhtml" media-type="application/xhtml+xml" properties="nav"/>
    <item id="chapter1" href="chapter1.xhtml" media-type="application/xhtml+xml"/>
  </manifest>
  <spine>
    <itemref idref="chapter1"/>
  </spine>
</package>"#;

    let package = Package::parse(xml).unwrap();
    assert_eq!(package.metadata.title, "Test Book");
    assert_eq!(package.metadata.creators, vec!["Test Author"]);
    assert_eq!(package.metadata.language, Some("en".to_string()));
    assert_eq!(package.manifest.len(), 2);
    assert_eq!(package.spine.len(), 1);
    assert_eq!(package.nav_path, Some("nav.xhtml".to_string()));
}

#[test]
fn parses_prefixed_elements_and_non_self_closing_items() {
    let xml = r#"<?xml version="1.0"?>
<opf:package xmlns:opf="http://www.idpf.org/2007/opf" xmlns:dc="http://purl.org/dc/elements/1.1/" version="2.0">
  <opf:metadata>
    <dc:title>Prefixed</dc:title>
    <opf:meta name="cover" content="cover-img"></opf:meta>
    <dc:identifier id="a">first</dc:identifier>
    <dc:identifier id="b">second</dc:identifier>
  </opf:metadata>
  <opf:manifest>
    <opf:item id="cover-img" href="cover.jpg" media-type="image/jpeg"></opf:item>
    <opf:item id="toc" href="toc.ncx" media-type="application/x-dtbncx+xml"></opf:item>
    <opf:item id="c1" href="c1.xhtml" media-type="application/xhtml+xml"></opf:item>
  </opf:manifest>
  <opf:spine toc="toc" page-progression-direction="rtl">
    <opf:itemref idref="c1"></opf:itemref>
  </opf:spine>
</opf:package>"#;

    let package = Package::parse(xml).unwrap();
    assert_eq!(package.metadata.title, "Prefixed");
    assert_eq!(package.metadata.cover_id, Some("cover-img".to_string()));
    assert_eq!(package.metadata.identifier, Some("first".to_string()));
    assert_eq!(package.manifest.len(), 3);
    assert_eq!(package.spine.len(), 1);
    assert_eq!(package.ncx_path, Some("toc.ncx".to_string()));
    assert_eq!(package.page_progression_direction, Some("rtl".to_string()));
}

#[test]
fn epub3_meta_elements_do_not_clobber_metadata() {
    let xml = r##"<package xmlns="http://www.idpf.org/2007/opf" version="3.0">
  <metadata xmlns:dc="http://purl.org/dc/elements/1.1/">
    <dc:title id="t">Real Title</dc:title>
    <meta refines="#t" property="title-type">main</meta>
    <meta property="dcterms:modified">2024-01-01T00:00:00Z</meta>
  </metadata>
  <manifest><item id="c1" href="c1.xhtml" media-type="application/xhtml+xml"/></manifest>
  <spine><itemref idref="c1"/></spine>
</package>"##;

    let package = Package::parse(xml).unwrap();
    assert_eq!(package.metadata.title, "Real Title");
    assert_eq!(package.metadata.cover_id, None);
}

#[test]
fn manifest_lookup_and_spine_attributes() {
    let xml = r#"<package version="3.0">
  <metadata><dc:title>T</dc:title><dc:subject>a</dc:subject><dc:subject>b</dc:subject></metadata>
  <manifest>
    <item id="c1" href="c1.xhtml" media-type="application/xhtml+xml" properties="svg scripted"/>
    <item id="c1" href="other.xhtml" media-type="application/xhtml+xml"/>
  </manifest>
  <spine><itemref idref="c1" linear="no" properties="page-spread-left"/></spine>
</package>"#;
    let package = Package::parse(xml).unwrap();
    assert_eq!(package.metadata.subjects, vec!["a", "b"]);
    assert_eq!(package.manifest.len(), 1);
    let item = package.manifest_item("c1").unwrap();
    assert_eq!(item.href, "other.xhtml");
    assert!(package.manifest_item("zz").is_none());
    assert!(!package.spine[0].linear);
    assert_eq!(package.spine[0].properties, vec!["page-spread-left"]);
}

#[test]
fn malformed_package_is_an_xml_error() {
    let r = Package::parse("<package><metadata></package>");
    assert!(r.is_err());
}
