use std::io::{Cursor, Write};

use epub_reader_core::archive::Archive;
use epub_reader_core::book::Book;
use epub_reader_core::cfi::CfiRange;
use epub_reader_core::error::EpubError;
use epub_reader_core::search::SearchOptions;
use epub_reader_core::server::served_resource;
use epub_reader_core::highlight::HighlightRange;
use epub_reader_core::render::{link_rewrite, render_section, stylesheet_text, RenderOptions};
use epub_reader_core::rewrite::Replacement;
use zip::write::SimpleFileOptions;
use zip::{CompressionMethod, ZipWriter};

fn build_epub(files: &[(&str, &[u8])]) -> Vec<u8> {
    let mut zip = ZipWriter::new(Cursor::new(Vec::new()));
    let stored = SimpleFileOptions::default().compression_method(CompressionMethod::Stored);

    zip.start_file("mimetype", stored).unwrap();
    zip.write_all(b"application/epub+zip").unwrap();

    for (name, data) in files {
        zip.start_file(*name, stored).unwrap();
        zip.write_all(data).unwrap();
    }

    zip.finish().unwrap().into_inner()
}

const CONTAINER: &str = r#"<?xml version="1.0"?>
<container version="1.0" xmlns="urn:oasis:names:tc:opendocument:xmlns:container">
  <rootfiles><rootfile full-path="OEBPS/content.opf" media-type="application/oebps-package+xml"/></rootfiles>
</container>"#;

fn tricky_epub3() -> Vec<u8> {
    let opf = r#"<?xml version="1.0" encoding="UTF-8"?>
<opf:package xmlns:opf="http://www.idpf.org/2007/opf" xmlns:dc="http://purl.org/dc/elements/1.1/" version="3.0" unique-identifier="uid">
  <opf:metadata>
    <dc:identifier id="uid">urn:uuid:1234</dc:identifier>
    <dc:title>Tricky Book</dc:title>
    <dc:creator>Someone</dc:creator>
    <dc:language>en</dc:language>
    <opf:meta property="dcterms:modified">2024-01-01T00:00:00Z</opf:meta>
  </opf:metadata>
  <opf:manifest>
    <opf:item id="nav" href="Nav/nav.xhtml" media-type="application/xhtml+xml" properties="nav"></opf:item>
    <opf:item id="c1" href="Text/My%20Chapter.xhtml" media-type="application/xhtml+xml"></opf:item>
    <opf:item id="c2" href="Text/ch2.xhtml" media-type="application/xhtml+xml"/>
    <opf:item id="pic" href="Images/pic.png" media-type="image/png" properties="cover-image"/>
    <opf:item id="css" href="Styles/main.css" media-type="text/css"/>
  </opf:manifest>
  <opf:spine>
    <opf:itemref idref="c1"/>
    <opf:itemref idref="c2" linear="no"/>
    <opf:itemref idref="does-not-exist"/>
  </opf:spine>
</opf:package>"#;

    let nav = r#"<html xmlns="http://www.w3.org/1999/xhtml" xmlns:epub="http://www.idpf.org/2007/ops"><body>
<nav epub:type="landmarks"><ol><li><a href="../Text/ch2.xhtml">Start</a></li></ol></nav>
<nav epub:type="toc"><ol>
  <li><span>Part One</span>
    <ol>
      <li><a href="../Text/My%20Chapter.xhtml#top">Chapter 1</a></li>
      <li><a href="../Text/ch2.xhtml">Chapter 2</a></li>
    </ol>
  </li>
</ol></nav>
</body></html>"#;

    let ch1 = r#"<?xml version="1.0" encoding="utf-8"?>
<html xmlns="http://www.w3.org/1999/xhtml"><head><link rel="stylesheet" href="../Styles/main.css"/></head>
<body id="top">
<h1>Chapter 1</h1>
<p>Alice’s Adventures… the white rabbit was late.</p>
<img src="../Images/pic.png" alt="pic"/>
<p><a href="ch2.xhtml#sec">next</a> <a href="https://example.com">out</a></p>
</body></html>"#;

    let ch2 = r#"<html xmlns="http://www.w3.org/1999/xhtml"><body><h1 id="sec">Chapter 2</h1><p>The Rabbit again.</p></body></html>"#;

    build_epub(&[
        ("META-INF/container.xml", CONTAINER.as_bytes()),
        ("OEBPS/content.opf", opf.as_bytes()),
        ("OEBPS/Nav/nav.xhtml", nav.as_bytes()),
        ("OEBPS/Text/My Chapter.xhtml", ch1.as_bytes()),
        ("OEBPS/Text/ch2.xhtml", ch2.as_bytes()),
        ("OEBPS/Images/pic.png", b"\x89PNG\r\n\x1a\nfake"),
        ("OEBPS/Styles/main.css", b"body { color: red }"),
    ])
}

#[test]
fn tricky_epub3_parses_completely() {
    let book = Book::from_bytes(tricky_epub3()).unwrap();

    assert_eq!(book.metadata.title, "Tricky Book");
    assert_eq!(book.metadata.creators, vec!["Someone"]);
    assert_eq!(book.metadata.identifier.as_deref(), Some("urn:uuid:1234"));

    assert_eq!(book.section_count(), 2);
    let s0 = book.section(0).unwrap();
    assert_eq!(s0.href, "OEBPS/Text/My Chapter.xhtml");
    assert!(s0.linear);
    assert!(!book.section(1).unwrap().linear);

    assert_eq!(book.toc.len(), 1);
    assert_eq!(book.toc[0].label, "Part One");
    assert_eq!(book.toc[0].href, "");
    assert_eq!(book.toc[0].children.len(), 2);
    assert_eq!(book.toc[0].children[0].href, "OEBPS/Text/My Chapter.xhtml#top");
    assert_eq!(book.toc[0].children[1].href, "OEBPS/Text/ch2.xhtml");

    assert_eq!(book.cover_path().as_deref(), Some("OEBPS/Images/pic.png"));
    assert!(book.cover_image().unwrap().starts_with(b"\x89PNG"));
}

#[test]
fn hrefs_resolve_from_any_reasonable_form() {
    let book = Book::from_bytes(tricky_epub3()).unwrap();

    assert_eq!(book.section_index_by_href("OEBPS/Text/My Chapter.xhtml#top"), Some(0));
    assert_eq!(book.section_index_by_href("Text/My%20Chapter.xhtml"), Some(0));
    assert_eq!(book.section_index_by_href("ch2.xhtml"), Some(1));
    assert_eq!(book.section_index_by_href("nope.xhtml"), None);

    assert_eq!(book.resolve_href(0, "ch2.xhtml#sec"), Some((1, Some("sec".to_string()))));
    assert_eq!(book.resolve_href(0, "#top"), Some((0, Some("top".to_string()))));
    assert_eq!(book.resolve_href(0, "https://example.com"), None);
    assert_eq!(book.resolve_href(0, "../Images/pic.png"), None);

    let toc_item = book.find_toc_item("Text/ch2.xhtml").unwrap();
    assert_eq!(toc_item.label, "Chapter 2");
}

#[test]
fn resources_resolve_relative_to_section() {
    let book = Book::from_bytes(tricky_epub3()).unwrap();

    let (p, data) = book.resource_from_section(0, "../Images/pic.png").unwrap();
    assert_eq!(p, "OEBPS/Images/pic.png");
    assert!(data.starts_with(b"\x89PNG"));
    assert_eq!(book.media_type_for(&p), "image/png");

    let (p, data) = book.resource_from_section(0, "../Styles/main.css").unwrap();
    assert_eq!(p, "OEBPS/Styles/main.css");
    assert_eq!(data, b"body { color: red }");

    assert!(book.get_resource("Images/pic.png").is_some());
    assert!(book.get_resource("OEBPS/Images/pic.png").is_some());
    assert!(book.get_resource("/OEBPS/Images/pic.png").is_some());
    assert!(book.get_resource("Text/My%20Chapter.xhtml").is_some());
    assert!(book.get_resource("missing.png").is_none());

    assert_eq!(book.media_type_for("x/y.zzz"), "application/octet-stream");
}

#[test]
fn search_across_sections_with_unicode_text() {
    let mut book = Book::from_bytes(tricky_epub3()).unwrap();

    let matches = book.search("rabbit", &SearchOptions::new()).unwrap();
    assert_eq!(matches.len(), 2);
    assert_eq!(matches[0].section_index, 0);
    assert_eq!(matches[0].matched_text, "rabbit");
    assert!(matches[0].excerpt.contains("Alice’s"));
    assert_eq!(matches[1].section_index, 1);
    assert_eq!(matches[1].matched_text, "Rabbit");

    for m in &matches {
        let range = CfiRange::parse(&m.cfi).unwrap();
        assert_eq!(range.start.spine_index, m.section_index);
        assert!(range.start.character_offset.is_some());
        assert_eq!(range.to_string(), m.cfi);
    }
    assert!(matches[0].cfi.starts_with("epubcfi(/6/2!"));

    let limited = book
        .search(
            "rabbit",
            &SearchOptions {
                max_results: Some(1),
                ..Default::default()
            },
        )
        .unwrap();
    assert_eq!(limited.len(), 1);

    assert_eq!(book.section_text(1).unwrap(), "Chapter 2 The Rabbit again.");
}

#[test]
fn empty_query_searches_nothing() {
    let mut book = Book::from_bytes(tricky_epub3()).unwrap();
    assert!(book.search("", &SearchOptions::new()).unwrap().is_empty());
    assert!(!book.section(0).unwrap().is_loaded());
}

fn epub2_ncx_only(nav_href: Option<&str>) -> Vec<u8> {
    let nav_item = nav_href
        .map(|h| format!(r#"<item id="nav" href="{}" media-type="application/xhtml+xml" properties="nav"/>"#, h))
        .unwrap_or_default();

    let opf = format!(
        r#"<?xml version="1.0"?>
<package xmlns="http://www.idpf.org/2007/opf" version="2.0">
  <metadata xmlns:dc="http://purl.org/dc/elements/1.1/">
    <dc:title>Old Book</dc:title>
    <meta name="cover" content="cov"/>
  </metadata>
  <manifest>
    {nav_item}
    <item id="ncx" href="toc.ncx" media-type="application/x-dtbncx+xml"/>
    <item id="cov" href="cover.jpg" media-type="image/jpeg"/>
    <item id="a" href="a.html" media-type="application/xhtml+xml"/>
    <item id="b" href="b.html" media-type="application/xhtml+xml"/>
  </manifest>
  <spine toc="ncx">
    <itemref idref="a"/>
    <itemref idref="b"/>
  </spine>
</package>"#
    );

    let ncx = r#"<?xml version="1.0"?>
<ncx xmlns="http://www.daisy.org/z3986/2005/ncx/"><navMap>
  <navPoint id="n1"><navLabel><text>A</text></navLabel><content src="a.html"/>
    <navPoint id="n2"><navLabel><text>B</text></navLabel><content src="b.html#x"/></navPoint>
  </navPoint>
</navMap></ncx>"#;

    build_epub(&[
        ("META-INF/container.xml", CONTAINER.as_bytes()),
        ("OEBPS/content.opf", opf.as_bytes()),
        ("OEBPS/toc.ncx", ncx.as_bytes()),
        ("OEBPS/cover.jpg", b"\xff\xd8jpeg"),
        ("OEBPS/a.html", b"<html><body><p>A</p></body></html>"),
        ("OEBPS/b.html", b"<html><body><p id=\"x\">B</p></body></html>"),
    ])
}

#[test]
fn epub2_uses_ncx_and_meta_cover() {
    let book = Book::from_bytes(epub2_ncx_only(None)).unwrap();

    assert_eq!(book.metadata.title, "Old Book");
    assert_eq!(book.section_count(), 2);
    assert_eq!(book.toc.len(), 1);
    assert_eq!(book.toc[0].label, "A");
    assert_eq!(book.toc[0].href, "OEBPS/a.html");
    assert_eq!(book.toc[0].children[0].label, "B");
    assert_eq!(book.toc[0].children[0].href, "OEBPS/b.html#x");
    assert_eq!(book.cover_path().as_deref(), Some("OEBPS/cover.jpg"));
}

#[test]
fn missing_nav_document_falls_back_to_ncx() {
    let book = Book::from_bytes(epub2_ncx_only(Some("missing-nav.xhtml"))).unwrap();
    assert_eq!(book.toc.len(), 1);
    assert_eq!(book.toc[0].label, "A");
}

#[test]
fn garbage_input_is_an_error_not_a_panic() {
    assert!(Book::from_bytes(b"not a zip".to_vec()).is_err());
    assert!(Book::from_bytes(Vec::new()).is_err());

    let no_container = build_epub(&[("OEBPS/content.opf", b"<package/>")]);
    assert!(Book::from_bytes(no_container).is_err());

    let empty_spine = build_epub(&[
        ("META-INF/container.xml", CONTAINER.as_bytes()),
        (
            "OEBPS/content.opf",
            br#"<package xmlns="http://www.idpf.org/2007/opf"><metadata/><manifest/><spine/></package>"#,
        ),
    ]);
    assert!(Book::from_bytes(empty_spine).is_err());
}

#[test]
fn missing_container_names_the_file() {
    let no_container = build_epub(&[("OEBPS/content.opf", b"<package/>")]);
    match Book::from_bytes(no_container) {
        Err(EpubError::MissingFile(p)) => assert_eq!(p, "META-INF/container.xml"),
        _ => panic!("expected a missing file"),
    }
}

#[test]
fn sections_load_on_demand_and_navigate() {
    let mut book = Book::from_bytes(tricky_epub3()).unwrap();
    assert!(!book.section(0).unwrap().is_loaded());
    let content = book.section_content(0).unwrap().to_string();
    assert!(content.contains("Alice’s"));
    assert!(book.section(0).unwrap().is_loaded());
    assert!(matches!(book.load_section(7), Err(EpubError::ContentNotFound(ref m)) if m == "Section 7 not found"));
    assert_eq!(book.next_section(0), Some(1));
    assert_eq!(book.next_section(1), None);
    assert_eq!(book.prev_section(1), Some(0));
    assert_eq!(book.prev_section(0), None);
    assert_eq!(book.base_path(), "OEBPS/");
    assert_eq!(book.flat_toc().len(), 3);
    assert_eq!(book.manifest_path("c2").as_deref(), Some("OEBPS/Text/ch2.xhtml"));
    assert!(book.manifest_path("zz").is_none());
    assert_eq!(book.manifest_item_for_path("OEBPS/Styles/main.css").unwrap().id, "css");
    assert!(book.get_resource_by_id("css").is_some());
    assert_eq!(book.archive_paths().len(), 8);
    let map = book.section_map(1).unwrap();
    assert_eq!(map.text(), "Chapter 2 The Rabbit again.");
}

#[test]
fn test_normalize_path() {
    let mut archive = Archive::new();
    archive.insert("OEBPS/content.opf".to_string(), b"test".to_vec());

    assert!(archive.has_file("OEBPS/content.opf"));
    assert!(archive.has_file("/OEBPS/content.opf"));
}

#[test]
fn archive_files_by_name() {
    let mut archive = Archive::new();
    archive.insert("a.txt".to_string(), b"one".to_vec());
    archive.insert("b.bin".to_string(), vec![0xff, 0xfe]);
    archive.insert("a.txt".to_string(), b"two".to_vec());
    assert_eq!(archive.list_files(), vec!["a.txt", "b.bin"]);
    assert_eq!(archive.get_file("//a.txt"), Some(&b"two"[..]));
    assert_eq!(archive.get_file_string("a.txt").unwrap(), "two");
    assert!(matches!(archive.get_file_string("c"), Err(EpubError::MissingFile(ref p)) if p == "c"));
    assert!(matches!(archive.get_file_string("b.bin"), Err(EpubError::InvalidStructure(ref m)) if m.starts_with("Invalid UTF-8 in b.bin: ")));
    assert_eq!(archive.files_matching(|n| n.ends_with(".bin")), vec!["b.bin"]);
}

#[test]
fn resources_are_served_by_path_or_by_file_name() {
    let book = Book::from_bytes(tricky_epub3()).unwrap();

    let (mime, data) = served_resource(&book, "OEBPS/Images/pic.png").unwrap();
    assert_eq!(mime, "image/png");
    assert!(data.starts_with(b"\x89PNG"));

    // A request under another directory is answered by the manifest item
    // whose href ends with the same file name.
    let (mime, data) = served_resource(&book, "somewhere/else/main.css").unwrap();
    assert_eq!(mime, "text/css");
    assert_eq!(data, b"body { color: red }");

    assert!(served_resource(&book, "missing.gif").is_none());
}

#[test]
fn rendered_sections_point_links_and_assets_at_the_book() {
    let mut book = Book::from_bytes(tricky_epub3()).unwrap();
    let urls = vec![
        ("OEBPS/Styles/main.css".to_string(), "blob:css".to_string()),
        ("OEBPS/Images/pic.png".to_string(), "blob:pic".to_string()),
    ];
    let html = render_section(&mut book, 0, &RenderOptions::default(), &urls).unwrap();

    assert!(html.contains("href=\"blob:css\""));
    assert!(html.contains("src=\"blob:pic\""));
    assert!(html.contains(
        "href=\"#\" data-epub-href=\"OEBPS/Text/ch2.xhtml#sec\" data-epub-section=\"1\" data-epub-fragment=\"sec\""
    ));
    assert!(html.contains("href=\"https://example.com\" target=\"_blank\" rel=\"noopener\""));
    assert!(html.contains(
        "<style>img, svg, video { max-width: 100%; height: auto; }</style></head>"
    ));

    // Without URLs assets stay as written; without link resolution links too.
    let opts = RenderOptions {
        styles: Some("p { color: blue }".to_string()),
        base_styles: false,
        strip_scripts: true,
        resolve_links: false,
        highlights: Vec::new(),
    };
    let html = render_section(&mut book, 0, &opts, &[]).unwrap();
    assert!(html.contains("href=\"../Styles/main.css\""));
    assert!(html.contains("src=\"../Images/pic.png\""));
    assert!(html.contains("<a href=\"ch2.xhtml#sec\">"));
    assert!(html.contains("<style>p { color: blue }</style></head>"));
    assert!(!html.contains("max-width"));

    assert!(render_section(&mut book, 9, &opts, &[]).is_err());
}

#[test]
fn rendered_sections_mark_highlights() {
    let mut book = Book::from_bytes(tricky_epub3()).unwrap();
    let text = book.section_text(1).unwrap().to_string();
    let start = text.find("Rabbit").unwrap();
    let opts = RenderOptions {
        styles: None,
        base_styles: false,
        strip_scripts: true,
        resolve_links: true,
        highlights: vec![HighlightRange { start, end: start + "Rabbit".len() }],
    };
    let html = render_section(&mut book, 1, &opts, &[]).unwrap();
    assert!(html.contains(&format!(
        "The <mark class=\"epub-highlight\" data-epub-offset=\"{}\">Rabbit</mark> again.",
        start
    )));
    assert!(html.contains("mark.epub-highlight { background: #ffe08a; color: inherit; }"));
}

#[test]
fn links_are_rewritten_by_target() {
    let book = Book::from_bytes(tricky_epub3()).unwrap();
    match link_rewrite(&book, 0, "ch2.xhtml").unwrap() {
        Replacement::Attrs(a) => assert_eq!(
            a,
            vec![
                ("href".to_string(), "#".to_string()),
                ("data-epub-href".to_string(), "OEBPS/Text/ch2.xhtml".to_string()),
                ("data-epub-section".to_string(), "1".to_string()),
                ("data-epub-fragment".to_string(), "".to_string()),
            ]
        ),
        Replacement::Value(_) => panic!("expected attributes"),
    }
    assert!(link_rewrite(&book, 0, "../Images/pic.png").is_none());
    assert!(link_rewrite(&book, 0, "").is_none());
}

#[test]
fn every_section_is_found_by_its_own_path_and_toc_hrefs() {
    let book = Book::from_bytes(tricky_epub3()).unwrap();
    for i in 0..book.section_count() {
        let href = book.section(i).unwrap().href.clone();
        assert_eq!(book.section_index_by_href(&href), Some(i));
    }
    for item in book.flat_toc() {
        if !item.href.is_empty() {
            assert!(book.section_index_by_href(&item.href).is_some());
        }
    }
}

#[test]
fn cfis_and_mutable_sections_reach_the_right_section() {
    let mut book = Book::from_bytes(tricky_epub3()).unwrap();
    let s = book.go_to_cfi(&epub_reader_core::cfi::Cfi::from_spine_index(1)).unwrap();
    assert_eq!(s.href, "OEBPS/Text/ch2.xhtml");
    assert!(s.content().unwrap().contains("The Rabbit again."));
    assert!(book.go_to_cfi(&epub_reader_core::cfi::Cfi::from_spine_index(5)).is_err());

    let s = book.section_mut(0).unwrap();
    s.linear = false;
    assert!(!book.section(0).unwrap().linear);
    assert!(book.section_mut(2).is_none());
}

#[test]
fn stylesheet_urls_point_at_the_book() {
    let css = b"@font-face { src: url( '../Fonts/a.ttf' ) }\nbody { background: url(../Images/pic.png) }\n.x { background: URL(\"#frag\") }\n.y { background: url(https://example.com/b.png) }\n.z { background: url(missing.png) }";
    let container = CONTAINER.as_bytes();
    let opf = br#"<?xml version="1.0"?>
<package xmlns="http://www.idpf.org/2007/opf" version="3.0">
  <metadata><dc:title xmlns:dc="http://purl.org/dc/elements/1.1/">Styled</dc:title></metadata>
  <manifest>
    <item id="c1" href="Text/c1.xhtml" media-type="application/xhtml+xml"/>
    <item id="css" href="Styles/main.css" media-type="text/css"/>
    <item id="pic" href="Images/pic.png" media-type="image/png"/>
    <item id="font" href="Fonts/a.ttf" media-type="font/ttf"/>
  </manifest>
  <spine><itemref idref="c1"/></spine>
</package>"#;
    let bytes = build_epub(&[
        ("META-INF/container.xml", container),
        ("OEBPS/content.opf", opf),
        ("OEBPS/Text/c1.xhtml", b"<html><body><p>x</p></body></html>"),
        ("OEBPS/Styles/main.css", css),
        ("OEBPS/Images/pic.png", b"png"),
        ("OEBPS/Fonts/a.ttf", b"ttf"),
    ]);
    let book = Book::from_bytes(bytes).unwrap();
    let urls = vec![
        ("OEBPS/Images/pic.png".to_string(), "blob:pic".to_string()),
        ("OEBPS/Fonts/a.ttf".to_string(), "blob:\"font".to_string()),
    ];
    let out = stylesheet_text(&book, "OEBPS/Styles/main.css", &urls).unwrap();
    assert_eq!(
        out,
        "@font-face { src: url( \"blob:%22font\" ) }\nbody { background: url(\"blob:pic\") }\n.x { background: URL(\"#frag\") }\n.y { background: url(https://example.com/b.png) }\n.z { background: url(missing.png) }"
    );
    // A leading slash names the same file; a missing file gives nothing.
    assert_eq!(stylesheet_text(&book, "/OEBPS/Styles/main.css", &urls).unwrap(), out);
    assert!(stylesheet_text(&book, "OEBPS/Styles/none.css", &urls).is_none());
    // Without URLs for the assets, every url() stays as written.
    assert_eq!(stylesheet_text(&book, "OEBPS/Styles/main.css", &[]).unwrap(), std::str::from_utf8(css).unwrap());
}

#[test]
fn capped_book_search_keeps_the_first_hits() {
    let mut book = Book::from_bytes(tricky_epub3()).unwrap();
    let all = book.search("e", &SearchOptions::new()).unwrap();
    assert!(all.len() > 3);
    for m in 0..all.len() + 2 {
        let opts = SearchOptions { max_results: Some(m), ..SearchOptions::new() };
        let capped = book.search("e", &opts).unwrap();
        assert_eq!(capped.len(), m.min(all.len()));
        for (a, b) in capped.iter().zip(all.iter()) {
            assert_eq!((a.section_index, a.offset, &a.cfi), (b.section_index, b.offset, &b.cfi));
        }
    }
}

#[test]
fn open_errors_come_from_the_first_failing_step() {
    // No spine item names a manifest item.
    let opf = br#"<?xml version="1.0"?>
<package xmlns="http://www.idpf.org/2007/opf" version="3.0">
  <metadata/>
  <manifest><item id="c1" href="c1.xhtml" media-type="application/xhtml+xml"/></manifest>
  <spine><itemref idref="nope"/></spine>
</package>"#;
    let bytes = build_epub(&[("META-INF/container.xml", CONTAINER.as_bytes()), ("OEBPS/content.opf", opf)]);
    match Book::from_bytes(bytes) {
        Err(EpubError::InvalidStructure(m)) => assert_eq!(m, "Spine references no manifest items"),
        _ => panic!("expected an invalid structure"),
    }
    // The package document named by the container is missing.
    let bytes = build_epub(&[("META-INF/container.xml", CONTAINER.as_bytes())]);
    assert!(matches!(Book::from_bytes(bytes), Err(EpubError::MissingFile(_))));
    // Not an archive at all.
    assert!(matches!(Book::from_bytes(b"not a zip".to_vec()), Err(EpubError::ArchiveError(_))));
}

#[test]
fn highlights_at_search_offsets_mark_multibyte_text() {
    let mut book = Book::from_bytes(tricky_epub3()).unwrap();
    let text = book.section_text(0).unwrap().to_string();
    // Every character boundary of the text, in pairs, is a valid highlight.
    let bounds: Vec<usize> = (0..=text.len()).filter(|p| text.is_char_boundary(*p)).collect();
    let start = text.find("Alice’s").unwrap();
    let end = text.find("the white").unwrap();
    assert!(bounds.contains(&start) && bounds.contains(&end));
    let opts = RenderOptions {
        styles: None,
        base_styles: false,
        strip_scripts: true,
        resolve_links: true,
        highlights: vec![HighlightRange { start, end }, HighlightRange { start: end + 4, end: text.len() + 10 }],
    };
    let html = render_section(&mut book, 0, &opts, &[]).unwrap();
    assert!(html.contains(&format!(
        "<mark class=\"epub-highlight\" data-epub-offset=\"{}\">Alice’s Adventures… </mark>",
        start
    )));
    assert!(book.section(0).unwrap().is_loaded());
}
