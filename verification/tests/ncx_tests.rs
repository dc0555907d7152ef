use epub_reader_core::navigation::parse_ncx;

#[test]
fn test_parse_ncx() {
    let xml = r#"<?xml version="1.0" encoding="UTF-8"?>
<ncx xmlns="http://www.daisy.org/z3986/2005/ncx/" version="2005-1">
  <navMap>
    <navPoint id="ch1">
      <navLabel><text>Chapter 1</text></navLabel>
      <content src="chapter1.xhtml"/>
    </navPoint>
    <navPoint id="ch2">
      <navLabel><text>Chapter 2</text></navLabel>
      <content src="chapter2.xhtml"/>
      <navPoint id="ch2-1">
        <navLabel><text>Section 2.1</text></navLabel>
        <content src="chapter2.xhtml#section1"/>
      </navPoint>
    </navPoint>
  </navMap>
</ncx>"#;

    let items = parse_ncx(xml).unwrap();
    assert_eq!(items.len(), 2);
    assert_eq!(items[0].label, "Chapter 1");
    assert_eq!(items[0].href, "chapter1.xhtml");
    assert_eq!(items[1].label, "Chapter 2");
    assert_eq!(items[1].children.len(), 1);
    assert_eq!(items[1].children[0].label, "Section 2.1");
    assert_eq!(items[1].children[0].href, "chapter2.xhtml#section1");
}

#[test]
fn ncx_with_prefixed_elements_and_non_self_closing_content() {
    let xml = r#"<ncx:ncx xmlns:ncx="http://www.daisy.org/z3986/2005/ncx/">
  <ncx:navMap>
    <ncx:navPoint id="a">
      <ncx:navLabel><ncx:text>One</ncx:text></ncx:navLabel>
      <ncx:content src="one.xhtml"></ncx:content>
    </ncx:navPoint>
  </ncx:navMap>
</ncx:ncx>"#;

    let items = parse_ncx(xml).unwrap();
    assert_eq!(items.len(), 1);
    assert_eq!(items[0].label, "One");
    assert_eq!(items[0].href, "one.xhtml");
}

#[test]
fn ncx_keeps_point_ids_and_first_label() {
    let xml = r#"<ncx><navMap><navPoint id="p"><navLabel><text>  A </text></navLabel><navLabel><text>B</text></navLabel><content src="a.html"/></navPoint></navMap></ncx>"#;
    let items = parse_ncx(xml).unwrap();
    assert_eq!(items.len(), 1);
    assert_eq!(items[0].id, Some("p".to_string()));
    assert_eq!(items[0].label, "A");
}

#[test]
fn unclosed_points_are_dropped() {
    let xml = r#"<ncx><navMap><navPoint id="p"><navLabel><text>A</text></navLabel>"#;
    let items = parse_ncx(xml);
    match items {
        Ok(v) => assert!(v.is_empty()),
        Err(_) => {}
    }
}
