use epub_reader_core::navigation::{resolve_hrefs, NavItem};

#[test]
fn resolves_hrefs_against_base_dir() {
    let mut items = vec![NavItem {
        id: None,
        href: "../Text/My%20Ch.xhtml#s1".into(),
        label: "x".into(),
        children: vec![NavItem::new("ext", "https://example.com"), NavItem::new("heading", "")],
    }];
    resolve_hrefs(&mut items, "OEBPS/Nav/");
    assert_eq!(items[0].href, "OEBPS/Text/My Ch.xhtml#s1");
    assert_eq!(items[0].children[0].href, "https://example.com");
    assert_eq!(items[0].children[1].href, "");
}

#[test]
fn flatten_lists_items_before_their_children() {
    let mut root = NavItem::new("root", "r.xhtml");
    let mut a = NavItem::new("a", "a.xhtml");
    a.children.push(NavItem::new("a1", "a1.xhtml"));
    root.children.push(a);
    root.children.push(NavItem::new("b", "b.xhtml"));
    let labels: Vec<&str> = root.flatten().iter().map(|n| n.label.as_str()).collect();
    assert_eq!(labels, vec!["root", "a", "a1", "b"]);
}
