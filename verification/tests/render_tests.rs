use epub_reader_core::highlight::{inject_marks, merge_ranges, HighlightRange};
use epub_reader_core::layout::{Layout, LayoutOptions, Spread};
use epub_reader_core::text_map::TextMap;
use epub_reader_core::view::extract_body;

const DOC: &str = "<html><head><title>t</title></head><body><p>Hello <b>world</b> again</p><p>x</p></body></html>";

#[test]
fn default_layout_options() {
    let o = LayoutOptions::new();
    assert_eq!(o.width, None);
    assert_eq!(o.height, None);
    assert_eq!(o.spread, Spread::Single);
    assert_eq!(o.min_spread_width, 800);
    assert_eq!(o.gap, 20);
    assert_eq!(o.padding, 20);

    let l = Layout::default();
    assert_eq!(l.column_width(), 600);
    assert_eq!(l.viewport_width(), 800);
    assert_eq!(l.viewport_height(), 600);
    assert!(!l.is_spread());
}

#[test]
fn single_column_takes_the_width_inside_the_padding() {
    let l = Layout::from_options(LayoutOptions::new());
    assert_eq!(l.viewport_width(), 800);
    assert_eq!(l.viewport_height(), 600);
    assert_eq!(l.column_width(), 760);
    assert_eq!(l.column_gap(), 20);
    assert_eq!(l.padding(), 20);
    assert!(!l.is_spread());
}

#[test]
fn spreads_split_the_width_in_two_columns() {
    let mut o = LayoutOptions::new();
    o.width = Some(1000);
    o.height = Some(700);
    o.spread = Spread::Always;
    let l = Layout::from_options(o);
    assert!(l.is_spread());
    // (1000 - 40 - 20) / 2
    assert_eq!(l.column_width(), 470);
    assert_eq!(l.viewport_height(), 700);

    let mut o = LayoutOptions::new();
    o.width = Some(700);
    o.spread = Spread::Auto;
    let l = Layout::from_options(o);
    assert!(!l.is_spread());
    assert_eq!(l.column_width(), 660);

    let mut o = LayoutOptions::new();
    o.width = Some(800);
    o.spread = Spread::Auto;
    let l = Layout::from_options(o);
    assert!(l.is_spread());
    assert_eq!(l.column_width(), 370);
}

#[test]
fn body_content_is_extracted() {
    assert_eq!(extract_body(DOC), "<p>Hello <b>world</b> again</p><p>x</p>");
    assert_eq!(extract_body("<body class=\"c\">x</body>"), "x");
    // No body: the document itself
    assert_eq!(extract_body("<p>x</p>"), "<p>x</p>");
    // Unclosed body: the document itself
    assert_eq!(extract_body("<body>x"), "<body>x");
}

#[test]
fn overlapping_and_touching_ranges_merge() {
    let rs = [
        HighlightRange { start: 10, end: 12 },
        HighlightRange { start: 0, end: 3 },
        HighlightRange { start: 3, end: 5 },
        HighlightRange { start: 2, end: 4 },
        HighlightRange { start: 7, end: 7 },
        HighlightRange { start: 9, end: 8 },
        HighlightRange { start: 11, end: 15 },
    ];
    assert_eq!(merge_ranges(&rs), vec![(0, 5), (10, 15)]);
    assert_eq!(merge_ranges(&[]), Vec::<(usize, usize)>::new());
    assert_eq!(
        merge_ranges(&[HighlightRange { start: 6, end: 8 }, HighlightRange { start: 1, end: 2 }]),
        vec![(1, 2), (6, 8)]
    );
}

#[test]
fn marks_wrap_each_source_segment() {
    let map = TextMap::parse(DOC);
    let start = map.text().find("Hello").unwrap();
    let end = map.text().find("world").unwrap() + "world".len();
    let out = inject_marks(DOC, &map, &[HighlightRange { start, end }]);
    assert_eq!(
        out,
        "<html><head><title>t</title></head><body><p>\
         <mark class=\"epub-highlight\" data-epub-offset=\"0\">Hello </mark>\
         <b><mark class=\"epub-highlight\">world</mark></b> again</p><p>x</p></body></html>"
    );
}

#[test]
fn marks_of_adjacent_segments_close_before_they_open() {
    let html = "<p>ab</p>";
    let map = TextMap::parse(html);
    assert_eq!(map.text(), "ab");
    // Touching ranges merge into one.
    let out = inject_marks(
        html,
        &map,
        &[HighlightRange { start: 0, end: 1 }, HighlightRange { start: 1, end: 2 }],
    );
    assert_eq!(out, "<p><mark class=\"epub-highlight\" data-epub-offset=\"0\">ab</mark></p>");

    // No ranges: the document unchanged
    assert_eq!(inject_marks(html, &map, &[]), html);
}
