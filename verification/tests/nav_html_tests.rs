use epub_reader_core::dom::HtmlNode;
use epub_reader_core::error::EpubError;
use epub_reader_core::navigation::{nav_from_dom, parse_nav};

#[test]
fn test_parse_nav() {
    let html = r#"<!DOCTYPE html>
<html xmlns="http://www.w3.org/1999/xhtml" xmlns:epub="http://www.idpf.org/2007/ops">
<head><title>TOC</title></head>
<body>
<nav epub:type="toc">
  <ol>
    <li><a href="chapter1.xhtml">Chapter 1</a></li>
    <li><a href="chapter2.xhtml">Chapter 2</a>
      <ol>
        <li><a href="chapter2.xhtml#section1">Section 2.1</a></li>
      </ol>
    </li>
  </ol>
</nav>
</body>
</html>"#;

    let items = parse_nav(html).unwrap();
    assert_eq!(items.len(), 2);
    assert_eq!(items[0].label, "Chapter 1");
    assert_eq!(items[1].children.len(), 1);
    assert_eq!(items[1].children[0].label, "Section 2.1");
}

#[test]
fn nav_span_heading_with_nested_list() {
    let html = r#"<html><body>
<nav epub:type="toc"><ol>
  <li><span>Part One</span>
    <ol>
      <li><a href="c1.xhtml">Chapter 1</a></li>
      <li><a href="c2.xhtml">Chapter 2</a></li>
    </ol>
  </li>
  <li><a href="c3.xhtml">Chapter 3</a></li>
</ol></nav>
</body></html>"#;

    let items = parse_nav(html).unwrap();
    assert_eq!(items.len(), 2);
    assert_eq!(items[0].label, "Part One");
    assert_eq!(items[0].href, "");
    assert_eq!(items[0].children.len(), 2);
    assert_eq!(items[0].children[0].href, "c1.xhtml");
    assert_eq!(items[1].label, "Chapter 3");
}

#[test]
fn nav_picks_toc_over_landmarks() {
    let html = r#"<html><body>
<nav epub:type="landmarks"><ol><li><a href="cover.xhtml">Cover</a></li></ol></nav>
<nav epub:type="toc"><ol><li><a href="c1.xhtml">Chapter 1</a></li></ol></nav>
</body></html>"#;

    let items = parse_nav(html).unwrap();
    assert_eq!(items.len(), 1);
    assert_eq!(items[0].label, "Chapter 1");
}

#[test]
fn nav_falls_back_to_class_hint_then_any_list() {
    let hinted = r#"<html><body><nav><ol><li><a href="x.xhtml">X</a></li></ol></nav>
<nav class="my-toc"><ul><li><a href="y.xhtml">Y</a></li></ul></nav></body></html>"#;
    let items = parse_nav(hinted).unwrap();
    assert_eq!(items[0].label, "Y");

    let plain = r#"<html><body><nav><p>no list</p></nav><nav><div><ol><li><p><a href="z.xhtml" id="i">  Z
      z </a></p></li></ol></div></nav></body></html>"#;
    let items = parse_nav(plain).unwrap();
    assert_eq!(items.len(), 1);
    assert_eq!(items[0].label, "Z z");
    assert_eq!(items[0].href, "z.xhtml");
    assert_eq!(items[0].id, Some("i".to_string()));
}

#[test]
fn nav_without_toc_is_an_error() {
    let r = parse_nav("<html><body><p>nothing</p></body></html>");
    assert!(matches!(r, Err(EpubError::InvalidStructure(ref m)) if m == "No TOC nav element found"));
    let r = parse_nav("<html><body><nav epub:type=\"toc\"><p>x</p></nav></body></html>");
    assert!(matches!(r, Err(EpubError::InvalidStructure(ref m)) if m == "No list in TOC nav"));
}

#[test]
fn nav_from_a_tree_built_by_hand() {
    let a = HtmlNode::Element {
        name: "a".to_string(),
        attrs: vec![("href".to_string(), "h.xhtml".to_string())],
        children: vec![HtmlNode::Text(" Hi ".to_string()), HtmlNode::Other],
    };
    let li = HtmlNode::Element { name: "li".to_string(), attrs: vec![], children: vec![a] };
    let ol = HtmlNode::Element { name: "ol".to_string(), attrs: vec![], children: vec![li] };
    let nav = HtmlNode::Element {
        name: "nav".to_string(),
        attrs: vec![("epub:type".to_string(), "toc landmarks".to_string())],
        children: vec![ol],
    };
    let root = HtmlNode::Element { name: "html".to_string(), attrs: vec![], children: vec![nav] };
    let items = nav_from_dom(&root).unwrap();
    assert_eq!(items.len(), 1);
    assert_eq!(items[0].label, "Hi");
    assert_eq!(items[0].href, "h.xhtml");
}

#[test]
fn html_is_parsed_leniently_before_the_toc_is_read() {
    // Unclosed elements and a missing <html> wrapper are repaired by the
    // HTML parser, so the list is still found.
    let items = parse_nav("<nav epub:type=\"toc\"><ol><li><a href=\"a.xhtml\">A<li><a href=\"b.xhtml\">B</ol></nav>").unwrap();
    assert_eq!(items.len(), 2);
    assert_eq!(items[0].label, "A");
    assert_eq!(items[1].href, "b.xhtml");
}
