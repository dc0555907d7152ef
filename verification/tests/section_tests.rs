use epub_reader_core::package::SpineItem;
use epub_reader_core::section::Section;

fn section(href: &str) -> Section {
    let spine_item = SpineItem {
        id: "test".to_string(),
        idref: "chapter1".to_string(),
        linear: true,
        properties: vec![],
    };
    Section::new(0, &spine_item, href.to_string(), "application/xhtml+xml".to_string())
}

#[test]
fn test_base_path() {
    assert_eq!(section("OEBPS/Text/chapter1.xhtml").base_path(), "OEBPS/Text/");
    assert_eq!(section("chapter1.xhtml").base_path(), "");
}

#[test]
fn test_resolve_url() {
    let s = section("OEBPS/Text/chapter1.xhtml");
    assert_eq!(s.resolve_url("../Images/cover.jpg"), "OEBPS/Images/cover.jpg");
    assert_eq!(s.resolve_url("chapter2.xhtml"), "OEBPS/Text/chapter2.xhtml");
    assert_eq!(s.resolve_url("https://example.com/x"), "https://example.com/x");
    assert_eq!(
        s.resolve_href("chapter2.xhtml#sec"),
        ("OEBPS/Text/chapter2.xhtml".to_string(), Some("sec".to_string()))
    );
}

#[test]
fn text_is_cached_and_reset_on_new_content() {
    let mut s = section("a.xhtml");
    assert!(s.text().is_none());
    s.set_content("<html><body><p>Hello   \n world</p></body></html>".into());
    assert_eq!(s.text(), Some("Hello world"));
    s.set_content("<html><body><p>Other</p></body></html>".into());
    assert_eq!(s.text(), Some("Other"));
}

#[test]
fn content_can_be_taken_back() {
    let mut s = section("a.xhtml");
    assert!(!s.is_loaded());
    s.set_content("<p>x  y</p>".into());
    assert!(s.is_loaded());
    assert_eq!(s.content(), Some("<p>x  y</p>"));
    assert_eq!(s.text_content(), Some("x y".to_string()));
    assert_eq!(s.take_content(), Some("<p>x  y</p>".to_string()));
    assert!(s.content().is_none());
    assert!(s.map().is_none());
    assert_eq!(s.id, "chapter1");
}
