use epub_reader_core::rewrite::{inject_into_head, rewrite_css, rewrite_html, RefKind, Reference, Replacement};

fn upper(r: Reference<'_>) -> Option<Replacement> {
    Some(Replacement::Value(format!("BLOB:{}", r.value)))
}

#[test]
fn rewrites_common_attributes() {
    let html = r##"<html><head><link rel="stylesheet" href="../s.css"/></head>
<body><img src='a.png' alt="x"/><video poster="p.jpg"><source src="v.mp4"/></video>
<svg><image xlink:href="i.jpg"/><use href="#sym"/></svg><img src=bare.png></body></html>"##;

    let out = rewrite_html(html, true, upper);
    assert!(out.contains(r#"href="BLOB:../s.css""#));
    assert!(out.contains(r#"src="BLOB:a.png" alt="x""#));
    assert!(out.contains(r#"poster="BLOB:p.jpg""#));
    assert!(out.contains(r#"src="BLOB:v.mp4""#));
    assert!(out.contains(r#"xlink:href="BLOB:i.jpg""#));
    assert!(out.contains(r#"href="BLOB:#sym""#));
    assert!(out.contains(r#"src="BLOB:bare.png">"#));
}

#[test]
fn links_are_reported_separately_and_can_become_attr_sets() {
    let html = r#"<p><a href="ch2.xhtml#s" class="x">go</a> <a href="https://e.com">out</a></p>"#;
    let out = rewrite_html(html, true, |r| {
        assert_eq!(r.kind, RefKind::Link);
        assert_eq!(r.tag, "a");
        if r.value.starts_with("http") {
            None
        } else {
            Some(Replacement::Attrs(vec![
                ("href".into(), "#".into()),
                ("data-epub-href".into(), format!("X/{}", r.value)),
            ]))
        }
    });
    assert_eq!(
        out,
        r##"<p><a href="#" data-epub-href="X/ch2.xhtml#s" class="x">go</a> <a href="https://e.com">out</a></p>"##
    );
}

#[test]
fn untouched_documents_round_trip_exactly() {
    let html = r#"<?xml version="1.0"?><!DOCTYPE html><html><!-- <img src="c.png"> --><body><p a=b c='d' e>t</p><br/><![CDATA[<img src="x">]]></body></html>"#;
    let out = rewrite_html(html, false, |_| None);
    assert_eq!(out, html);
}

#[test]
fn comments_and_cdata_are_not_rewritten() {
    let html = r#"<body><!-- <img src="c.png"> --><![CDATA[<img src="d.png">]]><img src="e.png"/></body>"#;
    let out = rewrite_html(html, false, upper);
    assert!(out.contains(r#"<!-- <img src="c.png"> -->"#));
    assert!(out.contains(r#"<![CDATA[<img src="d.png">]]>"#));
    assert!(out.contains(r#"src="BLOB:e.png""#));
}

#[test]
fn scripts_are_stripped() {
    let html = r#"<body><script type="text/javascript">alert("<img src='x'>")</script><p>ok</p><script src="a.js"/></body>"#;
    let out = rewrite_html(html, true, upper);
    assert_eq!(out, "<body><p>ok</p></body>");

    let kept = rewrite_html(html, false, |_| None);
    assert_eq!(kept, html);
}

#[test]
fn css_urls_in_style_elements_and_attributes() {
    let html = r#"<head><style>
body { background: url("bg.png"); }
@font-face { src: url(f.woff2) format("woff2"), url( 'g.ttf' ); }
</style></head><body><p style="background:url(inline.png)">x</p></body>"#;
    let out = rewrite_html(html, true, |r| {
        assert_eq!(r.kind, RefKind::CssUrl);
        Some(Replacement::Value(format!("B:{}", r.value)))
    });
    assert!(out.contains(r#"url("B:bg.png")"#));
    assert!(out.contains(r#"url("B:f.woff2")"#));
    assert!(out.contains(r#"url( "B:g.ttf" )"#));
    assert!(out.contains(r#"style="background:url(&quot;B:inline.png&quot;)""#));
}

#[test]
fn amp_entities_are_decoded_for_callback_and_reencoded() {
    let html = r#"<a href="x.xhtml?a=1&amp;b=2">l</a>"#;
    let out = rewrite_html(html, true, |r| {
        assert_eq!(r.value, "x.xhtml?a=1&b=2");
        Some(Replacement::Value(r.value.to_string()))
    });
    assert_eq!(out, html);
}

#[test]
fn injects_styles_into_head() {
    assert_eq!(
        inject_into_head("<html><head><title>t</title></head><body/></html>", "<style>x</style>"),
        "<html><head><title>t</title><style>x</style></head><body/></html>"
    );
    assert_eq!(
        inject_into_head("<html><body>b</body></html>", "<style>x</style>"),
        "<html><head><style>x</style></head><body>b</body></html>"
    );
    assert_eq!(inject_into_head("<p>x</p>", "S"), "S<p>x</p>");
}

#[test]
fn rewrite_malformed_input_does_not_panic() {
    for s in ["<", "<img src=\"unterminated", "<a href=", "<<<>>>", "</", "<!--", "<style>body{", "url("] {
        let _ = rewrite_html(s, true, upper);
        let _ = rewrite_css(s, &mut |u| Some(u.to_string()));
    }
}

#[test]
fn css_rewrite_quotes_and_escapes_new_urls() {
    let mut seen: Vec<String> = Vec::new();
    let out = rewrite_css("a{b:url( x.png )} c{d:URL('y\"z')}", &mut |u| {
        seen.push(u.to_string());
        Some(format!("n\"{}", u))
    });
    assert_eq!(seen, vec!["x.png".to_string(), "y\"z".to_string()]);
    assert_eq!(out, "a{b:url( \"n%22x.png\")} c{d:URL(\"n%22y%22z\")}");
    assert_eq!(rewrite_css("url(a) url(b", &mut |_| None), "url(a) url(b");
    assert_eq!(inject_into_head("<p/>", ""), "<p/>");
}
