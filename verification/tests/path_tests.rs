use epub_reader_core::path::{
    dir_of, is_external, mime_type_from_extension, normalize, percent_decode, resolve,
    split_fragment,
};

#[test]
fn decodes_percent_escapes() {
    assert_eq!(percent_decode("My%20Chapter.xhtml"), "My Chapter.xhtml");
    assert_eq!(percent_decode("caf%C3%A9.xhtml"), "café.xhtml");
    assert_eq!(percent_decode("100%"), "100%");
    assert_eq!(percent_decode("a%zzb"), "a%zzb");
    assert_eq!(percent_decode("plain"), "plain");
}

#[test]
fn normalizes_paths() {
    assert_eq!(normalize("a/b/c"), "a/b/c");
    assert_eq!(normalize("a/b/../c"), "a/c");
    assert_eq!(normalize("a/./b/c"), "a/b/c");
    assert_eq!(normalize("a/b/c/../../d"), "a/d");
    assert_eq!(normalize("/OEBPS//x.xhtml"), "OEBPS/x.xhtml");
    assert_eq!(normalize("../x"), "x");
}

#[test]
fn resolves_relative_hrefs() {
    assert_eq!(
        resolve("OEBPS/Text/", "../Images/cover.jpg"),
        ("OEBPS/Images/cover.jpg".to_string(), None)
    );
    assert_eq!(
        resolve("OEBPS/Text/", "ch2.xhtml#sec1"),
        ("OEBPS/Text/ch2.xhtml".to_string(), Some("sec1".to_string()))
    );
    assert_eq!(
        resolve("OEBPS/", "Text/My%20Chapter.xhtml"),
        ("OEBPS/Text/My Chapter.xhtml".to_string(), None)
    );
    assert_eq!(
        resolve("OEBPS/", "/META-INF/x.xml"),
        ("META-INF/x.xml".to_string(), None)
    );
    assert_eq!(resolve("OEBPS/", "#top"), (String::new(), Some("top".to_string())));
}

#[test]
fn detects_external() {
    assert!(is_external("https://example.com/x"));
    assert!(is_external("mailto:a@b.c"));
    assert!(is_external("data:image/png;base64,xx"));
    assert!(!is_external("Text/ch1.xhtml"));
    assert!(!is_external("#frag"));
}

#[test]
fn dir_of_paths() {
    assert_eq!(dir_of("OEBPS/Text/ch1.xhtml"), "OEBPS/Text/");
    assert_eq!(dir_of("ch1.xhtml"), "");
}

#[test]
fn external_detection_trims_unicode_whitespace_and_ignores_case() {
    assert!(is_external("\u{3000} HTTPS://x"));
    assert!(is_external("  JavaScript:void(0)"));
    assert!(is_external("TEL:123"));
    assert!(is_external("blob:abc"));
    assert!(!is_external("x mailto:"));
}

#[test]
fn split_fragment_cases() {
    assert_eq!(split_fragment("a.xhtml#b#c"), ("a.xhtml", Some("b#c")));
    assert_eq!(split_fragment("a.xhtml"), ("a.xhtml", None));
    assert_eq!(split_fragment("#"), ("", Some("")));
    assert_eq!(split_fragment("é#ü"), ("é", Some("ü")));
}

#[test]
fn percent_decode_invalid_utf8_keeps_input() {
    assert_eq!(percent_decode("%FF%FE"), "%FF%FE");
    assert_eq!(percent_decode("%41%42"), "AB");
    // The escape must be followed by two hex digits and at least a third byte index.
    assert_eq!(percent_decode("x%4"), "x%4");
}

#[test]
fn normalize_edge_cases() {
    assert_eq!(normalize(""), "");
    assert_eq!(normalize("/"), "");
    assert_eq!(normalize("a/.."), "");
    assert_eq!(normalize("../../a/./b/"), "a/b");
}

#[test]
fn mime_types() {
    assert_eq!(mime_type_from_extension("OEBPS/Images/pic.PNG"), "image/png");
    assert_eq!(mime_type_from_extension("a.jpeg"), "image/jpeg");
    assert_eq!(mime_type_from_extension("x/y.zzz"), "application/octet-stream");
    assert_eq!(mime_type_from_extension("css"), "text/css");
    assert_eq!(mime_type_from_extension("a.b.XHTML"), "application/xhtml+xml");
}

#[test]
fn resolved_paths_are_already_normalized() {
    for (base, href) in [
        ("OEBPS/Text/", "../Images/a%20b.png#top"),
        ("OEBPS/", "./x/../y/./z.xhtml"),
        ("", "/abs//path/"),
        ("a/b/", ""),
        ("OEBPS/Text", "x.xhtml"),
    ] {
        let (p, _) = resolve(base, href);
        assert_eq!(normalize(&p), p);
    }
    assert_eq!(resolve("OEBPS/Text/", "../Images/a%20b.png#top").0, "OEBPS/Images/a b.png");
}

#[test]
fn normalizing_twice_is_normalizing_once() {
    for p in ["a/./b/../c//d/", "../x/y", "/", "", "a/b/c/../../..", "./."] {
        let once = normalize(p);
        assert_eq!(normalize(&once), once);
    }
}

#[test]
fn malformed_escapes_are_copied() {
    assert_eq!(percent_decode("a%4"), "a%4");
    assert_eq!(percent_decode("100%"), "100%");
    assert_eq!(percent_decode("%zz%20x"), "%zz x");
    assert_eq!(percent_decode("%FF"), "%FF");
}

#[test]
fn normalized_pieces_are_clean() {
    for p in ["a//b/./c/../", "/./x/", "../..//a/b/c/..", "", "./", "a/b"] {
        let n = normalize(p);
        if !n.is_empty() {
            assert!(n.split('/').all(|s| !s.is_empty() && s != "." && s != ".."), "{}", n);
        }
    }
    assert_eq!(normalize("a//b/./c/../"), "a/b");
}

#[test]
fn malformed_escape_amid_valid_ones_is_copied() {
    assert_eq!(percent_decode("%41%4%42"), "A%4B");
    assert_eq!(percent_decode("a%20b%zzc%2"), "a b%zzc%2");
}
