use epub_reader_core::cfi::CfiRange;
use epub_reader_core::text_map::TextMap;

const DOC: &str = "<html><head><title>t</title></head><body><p>Hello <b>world</b> again</p><p>x</p></body></html>";

fn range_str(html: &str, needle: &str, spine: usize) -> String {
    let map = TextMap::parse(html);
    let start = map.text().find(needle).unwrap();
    map.cfi_range(spine, start, start + needle.len()).unwrap().to_string()
}

#[test]
fn normalized_text_uses_block_boundaries() {
    let map = TextMap::parse(DOC);
    assert_eq!(map.text(), "Hello world again x");

    // Inline tags do NOT introduce spaces
    let map = TextMap::parse("<p>He<b>ll</b>o</p>");
    assert_eq!(map.text(), "Hello");

    // Blocks do
    let map = TextMap::parse("<div>one</div><div>two</div>");
    assert_eq!(map.text(), "one two");

    // Head/script/style content excluded, whitespace collapsed
    let map = TextMap::parse(
        "<html><head><style>p{}</style></head><body><p>a\n\n   b</p><script>var x=1</script></body></html>",
    );
    assert_eq!(map.text(), "a b");
}

#[test]
fn entities_decode_with_source_spans() {
    let map = TextMap::parse("<p>A &amp; B &#65; &#x42; &unknown; C</p>");
    assert_eq!(map.text(), "A & B A B &unknown; C");
}

#[test]
fn cfi_numbering_matches_hand_computed_vectors() {
    assert_eq!(range_str(DOC, "world", 1), "epubcfi(/6/4!/4/2/2,/1:0,/1:5)");
    assert_eq!(range_str(DOC, "again", 1), "epubcfi(/6/4!/4/2,/3:1,/3:6)");
    assert_eq!(range_str(DOC, "x", 0), "epubcfi(/6/2!/4/4,/1:0,/1:1)");
}

#[test]
fn entity_and_uncollapsed_offsets_count_chunk_chars() {
    let s = range_str("<html><body><p>A &amp; B</p></body></html>", "B", 0);
    assert_eq!(s, "epubcfi(/6/2!/2/2,/1:4,/1:5)");

    let s = range_str("<p>foo   bar</p>", "bar", 0);
    assert_eq!(s, "epubcfi(/6/2!,/1:6,/1:9)");
}

#[test]
fn offsets_count_code_points_not_utf16_units() {
    let s = range_str("<p>\u{1d11e}x</p>", "x", 0);
    assert_eq!(s, "epubcfi(/6/2!,/1:1,/1:2)");
}

#[test]
fn range_spanning_elements_gets_split_parent() {
    let map = TextMap::parse(DOC);
    let start = map.text().find("Hello").unwrap();
    let end = map.text().find("world").unwrap() + "world".len();
    let r = map.cfi_range(1, start, end).unwrap();
    assert_eq!(r.to_string(), "epubcfi(/6/4!/4/2,/1:0,/2/1:5)");

    let parsed = CfiRange::parse(&r.to_string()).unwrap();
    assert_eq!(parsed, r);
}

#[test]
fn source_segments_split_at_markup() {
    let map = TextMap::parse(DOC);
    let start = map.text().find("Hello").unwrap();
    let end = map.text().find("world").unwrap() + "world".len();

    let segs = map.source_segments(start, end);
    assert_eq!(segs.len(), 2);
    assert_eq!(&DOC[segs[0].0..segs[0].1], "Hello ");
    assert_eq!(&DOC[segs[1].0..segs[1].1], "world");

    let s = map.text().find("again").unwrap();
    let segs = map.source_segments(s, s + 5);
    assert_eq!(segs.len(), 1);
    assert_eq!(&DOC[segs[0].0..segs[0].1], "again");
}

#[test]
fn source_range_never_splits_an_entity() {
    let html = "<p>A &amp; B</p>";
    let map = TextMap::parse(html);
    let start = map.text().find('&').unwrap();
    let (s, e) = map.source_range(start, map.text().len()).unwrap();
    assert_eq!(&html[s..e], "&amp; B");
}

#[test]
fn comments_and_pis_do_not_split_chunks() {
    let s = range_str("<p>fo<!-- c -->o</p>", "foo", 0);
    assert_eq!(s, "epubcfi(/6/2!,/1:0,/1:3)");
}

#[test]
fn source_segments_never_contain_markup() {
    for html in [
        "<p>a <b>b</b></p>",
        "<p>a</b> <b>b</p>",
        DOC,
        "<div>one</div> <div>two</div>",
    ] {
        let map = TextMap::parse(html);
        let segs = map.source_segments(0, map.text().len());
        for (s, e) in segs {
            assert!(
                !html[s..e].contains('<') && !html[s..e].contains('>'),
                "segment {:?} of {:?} contains markup",
                &html[s..e],
                html
            );
        }
    }
}

#[test]
fn text_map_malformed_input_does_not_panic() {
    for s in [
        "",
        "<",
        "<p",
        "<p>unclosed",
        "</b>text",
        "&amp",
        "<![CDATA[x",
        "<p>a<b>b</p>",
        "&#xZZ; ok",
    ] {
        let _ = TextMap::parse(s);
    }
    assert_eq!(TextMap::parse("plain text, no markup").text(), "plain text, no markup");
}

#[test]
fn normalized_text_has_no_leading_trailing_or_double_spaces() {
    let map = TextMap::parse("  <p>  a  </p>\n\n<div> b&#32;&#32;c </div>  ");
    assert_eq!(map.text(), "a b c");
}

#[test]
fn cdata_counts_as_text_and_unclosed_end_tag_is_tolerated() {
    assert_eq!(TextMap::parse("<p>a<![CDATA[<b>]]>c</p>").text(), "a<b>c");
    assert_eq!(TextMap::parse("<p>x</p").text(), "x");
    assert_eq!(TextMap::parse("a < b").text(), "a < b");
}

#[test]
fn cfi_point_of_a_word() {
    let map = TextMap::parse(DOC);
    let start = map.text().find("world").unwrap();
    let c = map.cfi_point(1, start).unwrap();
    assert_eq!(c.to_string(), "epubcfi(/6/4!/4/2/2/1:0)");
    assert!(map.cfi_point(1, map.text().len()).is_none());
    assert!(map.cfi_range(1, 3, 3).is_none());
}

#[test]
fn source_range_of_empty_range_is_none() {
    let map = TextMap::parse(DOC);
    assert!(map.source_range(4, 4).is_none());
    assert!(map.source_segments(5, 2).is_empty());
}

#[test]
fn source_segments_are_ordered_and_apart() {
    let doc = "<p>one <b>two</b> &amp; <i>three</i></p><p>four  five</p>";
    let map = TextMap::parse(doc);
    let n = map.text().len();
    for start in 0..n {
        for end in start + 1..=n {
            let segs = map.source_segments(start, end);
            for s in &segs {
                assert!(s.0 < s.1 && s.1 <= doc.len());
            }
            for w in segs.windows(2) {
                assert!(w[0].1 < w[1].0);
            }
        }
    }
    assert!(map.source_segments(3, 3).is_empty());
}
