use epub_reader_core::search::{extract_text, find_matches, search_content, search_text, SearchOptions};

#[test]
fn test_search_simple() {
    let content = r#"<html><body><p>Hello world, this is a test.</p></body></html>"#;
    let options = SearchOptions::new();

    let matches = search_content(content, "world", 0, &options);
    assert_eq!(matches.len(), 1);
    assert_eq!(matches[0].matched_text, "world");
    assert_eq!(matches[0].offset, 6);
    assert_eq!(matches[0].cfi, "epubcfi(/6/2!/2/2,/1:6,/1:11)");
}

#[test]
fn test_search_case_insensitive() {
    let content = r#"<html><body><p>Hello World, this is a test.</p></body></html>"#;
    let options = SearchOptions { case_insensitive: true, ..Default::default() };

    let matches = search_content(content, "world", 0, &options);
    assert_eq!(matches.len(), 1);
    assert_eq!(matches[0].matched_text, "World");
}

#[test]
fn test_search_case_sensitive() {
    let content = r#"<html><body><p>Hello World, world.</p></body></html>"#;
    let options = SearchOptions { case_insensitive: false, ..Default::default() };

    let matches = search_content(content, "world", 0, &options);
    assert_eq!(matches.len(), 1);
    assert_eq!(matches[0].matched_text, "world");
}

#[test]
fn test_search_multiple_matches() {
    let content = r#"<html><body><p>Test one. Test two. Test three.</p></body></html>"#;
    let options = SearchOptions::new();

    let matches = search_content(content, "test", 0, &options);
    assert_eq!(matches.len(), 3);
}

#[test]
fn test_search_max_results() {
    let content = r#"<html><body><p>Test one. Test two. Test three.</p></body></html>"#;
    let options = SearchOptions { case_insensitive: true, max_results: Some(2), ..Default::default() };

    let matches = search_content(content, "test", 0, &options);
    assert_eq!(matches.len(), 2);
}

#[test]
fn matches_across_inline_elements_are_found() {
    let content = "<p>He<b>ll</b>o world</p>";
    let matches = search_content(content, "hello", 0, &SearchOptions::new());
    assert_eq!(matches.len(), 1);
    assert_eq!(matches[0].matched_text, "Hello");
    assert!(matches[0].cfi.contains(','));
}

#[test]
fn default_options_match_new() {
    let d = SearchOptions::default();
    assert!(d.case_insensitive);
    assert_eq!(d.context_chars, 50);
    assert_eq!(d.max_results, None);
}

#[test]
fn empty_query_returns_nothing() {
    assert!(search_text("some text", "", 0, &SearchOptions::new()).is_empty());
}

#[test]
fn multibyte_in_context_window_does_not_panic() {
    let text = "Alice’s Adventures… were many and the rabbit was late again and again";
    let matches = search_text(text, "rabbit", 0, &SearchOptions::new());
    assert_eq!(matches.len(), 1);
    assert_eq!(matches[0].matched_text, "rabbit");
    assert!(matches[0].excerpt.contains("Alice’s"));
    assert!(matches[0].excerpt.contains("rabbit"));
}

#[test]
fn small_context_lands_inside_multibyte_char() {
    let text = "a’rabbit’b";
    let opts = SearchOptions { context_chars: 1, ..Default::default() };
    let matches = search_text(text, "rabbit", 0, &opts);
    assert_eq!(matches.len(), 1);
    assert_eq!(matches[0].excerpt, "...’rabbit’...");
}

#[test]
fn match_starting_with_multibyte_char() {
    let text = "é and é and é";
    let matches = search_text(text, "é", 0, &SearchOptions::new());
    assert_eq!(matches.len(), 3);
    assert_eq!(matches[0].offset, 0);
    assert_eq!(matches[1].offset, "é and ".len());
}

#[test]
fn lowercasing_that_changes_byte_length() {
    let text = "Visit İstanbul today";
    let matches = search_text(text, "istanbul", 0, &SearchOptions::new());
    assert_eq!(matches.len(), 0, "i̇ (dotted) != i; no match expected");

    let matches = search_text(text, "i̇stanbul", 0, &SearchOptions::new());
    assert_eq!(matches.len(), 1);
    assert_eq!(matches[0].matched_text, "İstanbul");
    assert_eq!(matches[0].offset, "Visit ".len());
    assert_eq!(matches[0].excerpt, "Visit İstanbul today");
}

#[test]
fn overlapping_matches_are_found() {
    let matches = search_text("aaa", "aa", 0, &SearchOptions::new());
    assert_eq!(matches.len(), 2);
}

#[test]
fn whitespace_is_collapsed_in_extracted_text() {
    let html = "<html><body><p>one\n\n   two</p>\n<p>three</p></body></html>";
    assert_eq!(extract_text(html), "one two three");
}

#[test]
fn find_matches_reports_byte_offsets_and_lengths() {
    let opts = SearchOptions::new();
    assert_eq!(find_matches("Ab ab AB", "ab", &opts), vec![(0, 2), (3, 2), (6, 2)]);
    let cs = SearchOptions { case_insensitive: false, ..Default::default() };
    assert_eq!(find_matches("Ab ab AB", "ab", &cs), vec![(3, 2)]);
    assert_eq!(find_matches("ÉCOLE école", "école", &opts), vec![(0, 6), (7, 6)]);
    let none = SearchOptions { max_results: Some(0), ..Default::default() };
    assert!(find_matches("xx", "x", &none).is_empty());
    let one = SearchOptions { max_results: Some(1), ..Default::default() };
    assert_eq!(find_matches("xx", "x", &one), vec![(0, 1)]);
    assert!(find_matches("", "x", &opts).is_empty());
}

#[test]
fn plain_text_matches_carry_spine_point_cfis() {
    let m = search_text("one two", "two", 3, &SearchOptions::new());
    assert_eq!(m[0].cfi, "epubcfi(/6/8)");
    assert_eq!(m[0].section_index, 3);
    assert_eq!(m[0].excerpt, "one two");
}

#[test]
fn capped_search_keeps_the_first_matches() {
    let text = "ab ab ab ab";
    let all = find_matches(text, "ab", &SearchOptions::new());
    assert_eq!(all, vec![(0, 2), (3, 2), (6, 2), (9, 2)]);
    for m in 0..6usize {
        let opts = SearchOptions { max_results: Some(m), ..SearchOptions::new() };
        let capped = find_matches(text, "ab", &opts);
        assert_eq!(capped, all[..m.min(all.len())].to_vec());
    }
}

#[test]
fn byte_ranges_are_ascending_char_boundaries() {
    let text = "héllo wörld, HÉLLO again héllo";
    let opts = SearchOptions { case_insensitive: true, ..SearchOptions::new() };
    let ms = find_matches(text, "héllo", &opts);
    assert_eq!(ms.len(), 3);
    let mut last = 0;
    for (o, l) in &ms {
        assert!(*l > 0 && o + l <= text.len());
        assert!(text.is_char_boundary(*o) && text.is_char_boundary(o + l));
        assert!(*o >= last);
        last = *o;
    }
    // Case-sensitive: exactly the byte positions where the query occurs.
    let exact = find_matches(text, "héllo", &SearchOptions { case_insensitive: false, ..SearchOptions::new() });
    let expected: Vec<(usize, usize)> = text.match_indices("héllo").map(|(p, s)| (p, s.len())).collect();
    assert_eq!(exact, expected);
}

#[test]
fn excerpts_contain_their_match() {
    let text = "The quick brown fox jumps over the lazy dog; the end.";
    for ctx in [0usize, 1, 5, 40] {
        let opts = SearchOptions { context_chars: ctx, case_insensitive: true, ..SearchOptions::new() };
        let ms = search_text(text, "the", 2, &opts);
        assert_eq!(ms.len(), 3);
        for m in &ms {
            assert!(m.excerpt.contains(&m.matched_text));
            assert_eq!(m.cfi, "epubcfi(/6/6)");
        }
    }
}

#[test]
fn plain_text_is_extracted_unchanged() {
    let t = "plain text, no markup; ünïcödé too";
    assert_eq!(extract_text(t), t);
}
