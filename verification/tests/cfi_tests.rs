use epub_reader_core::cfi::{Cfi, CfiRange, CfiStep};
use std::cmp::Ordering;

#[test]
fn test_cfi_display() {
    let cfi = Cfi {
        spine_index: 1,
        path: vec![CfiStep { index: 4, id: None }, CfiStep { index: 2, id: None }],
        character_offset: Some(10),
        temporal_offset: None,
        spatial_offset: None,
    };
    assert_eq!(cfi.to_string(), "epubcfi(/6/4!/4/2:10)");
}

#[test]
fn test_from_spine_index() {
    let cfi = Cfi::from_spine_index(5);
    assert_eq!(cfi.to_string(), "epubcfi(/6/12)");
}

#[test]
fn display_with_ids_and_range_split() {
    let cfi = Cfi {
        spine_index: 0,
        path: vec![
            CfiStep { index: 4, id: Some("body".to_string()) },
            CfiStep { index: 2, id: Some("chapter1".to_string()) },
        ],
        character_offset: None,
        temporal_offset: None,
        spatial_offset: None,
    };
    assert_eq!(cfi.to_string(), "epubcfi(/6/2!/4[body]/2[chapter1])");

    let mk = |steps: &[usize], off: usize| Cfi {
        spine_index: 1,
        path: steps.iter().map(|&i| CfiStep::new(i)).collect(),
        character_offset: Some(off),
        temporal_offset: None,
        spatial_offset: None,
    };
    let r = CfiRange { start: mk(&[4, 2, 1], 5), end: mk(&[4, 2, 2, 1], 3) };
    assert_eq!(r.to_string(), "epubcfi(/6/4!/4/2,/1:5,/2/1:3)");
    let same = CfiRange { start: mk(&[4, 2, 1], 6), end: mk(&[4, 2, 1], 11) };
    assert_eq!(same.to_string(), "epubcfi(/6/4!/4/2,/1:6,/1:11)");
}

#[test]
fn ordering_by_spine_path_and_offset() {
    let mk = |spine: usize, steps: &[usize], off: Option<usize>| Cfi {
        spine_index: spine,
        path: steps.iter().map(|&i| CfiStep::new(i)).collect(),
        character_offset: off,
        temporal_offset: None,
        spatial_offset: None,
    };
    assert_eq!(mk(0, &[4, 2], Some(0)).compare(&mk(0, &[4, 2], Some(10))), Ordering::Less);
    assert_eq!(mk(0, &[4, 2], Some(10)).compare(&mk(1, &[4, 2], Some(0))), Ordering::Less);
    assert_eq!(mk(0, &[4], None).compare(&mk(0, &[4, 2], None)), Ordering::Less);
    assert_eq!(mk(0, &[6], None).compare(&mk(0, &[4, 2], None)), Ordering::Greater);
    assert_eq!(mk(0, &[4], Some(1)).compare(&mk(0, &[4], Some(1))), Ordering::Equal);
    assert_eq!(mk(0, &[4], None).compare(&mk(0, &[4], Some(0))), Ordering::Less);
    let a = CfiRange { start: mk(0, &[4, 2, 1], Some(0)), end: mk(0, &[4, 2, 1], Some(5)) };
    let b = CfiRange { start: mk(0, &[4, 2, 1], Some(3)), end: mk(0, &[4, 2, 1], Some(8)) };
    assert_eq!(a.compare(&b), Ordering::Less);
}

#[test]
fn test_parse_simple_cfi() {
    let cfi = Cfi::parse("epubcfi(/6/4!/4/2:10)").unwrap();
    assert_eq!(cfi.spine_index, 1);
    assert_eq!(cfi.path.len(), 2);
    assert_eq!(cfi.path[0].index, 4);
    assert_eq!(cfi.path[1].index, 2);
    assert_eq!(cfi.character_offset, Some(10));
}

#[test]
fn test_parse_cfi_with_id() {
    let cfi = Cfi::parse("epubcfi(/6/2!/4[body]/2[chapter1])").unwrap();
    assert_eq!(cfi.spine_index, 0);
    assert_eq!(cfi.path[0].id, Some("body".to_string()));
    assert_eq!(cfi.path[1].id, Some("chapter1".to_string()));
}

#[test]
fn test_cfi_ordering() {
    let cfi1 = Cfi::parse("epubcfi(/6/2!/4/2:0)").unwrap();
    let cfi2 = Cfi::parse("epubcfi(/6/2!/4/2:10)").unwrap();
    let cfi3 = Cfi::parse("epubcfi(/6/4!/4/2:0)").unwrap();

    assert!(cfi1 < cfi2);
    assert!(cfi2 < cfi3);
}

#[test]
fn range_parse_and_display_round_trip() {
    let s = "epubcfi(/6/4!/4/2,/1:5,/2/1:3)";
    let r = CfiRange::parse(s).unwrap();
    assert_eq!(r.start.spine_index, 1);
    assert_eq!(r.start.path.iter().map(|p| p.index).collect::<Vec<_>>(), vec![4, 2, 1]);
    assert_eq!(r.start.character_offset, Some(5));
    assert_eq!(r.end.path.iter().map(|p| p.index).collect::<Vec<_>>(), vec![4, 2, 2, 1]);
    assert_eq!(r.end.character_offset, Some(3));
    assert_eq!(r.to_string(), s);
}

#[test]
fn range_within_one_chunk() {
    let s = "epubcfi(/6/2!/4/2,/1:6,/1:11)";
    let r = CfiRange::parse(s).unwrap();
    assert_eq!(r.start.character_offset, Some(6));
    assert_eq!(r.end.character_offset, Some(11));
    assert_eq!(r.start.path.iter().map(|p| p.index).collect::<Vec<_>>(), vec![4, 2, 1]);
    assert_eq!(r.to_string(), s);
}

#[test]
fn range_ordering_and_errors() {
    let a = CfiRange::parse("epubcfi(/6/2!/4/2/1,:0,:5)").unwrap();
    let b = CfiRange::parse("epubcfi(/6/2!/4/2/1,:3,:8)").unwrap();
    assert_eq!(a.compare(&b), std::cmp::Ordering::Less);

    assert!(CfiRange::parse("epubcfi(/6/2!/4/2/1:3)").is_err());
    assert!(Cfi::parse("epubcfi(/6/4!/4/2,/1:5,/2/1:3)").is_err());
}

#[test]
fn parse_errors_name_what_is_wrong() {
    let msg = |s: &str| match Cfi::parse(s) {
        Err(epub_reader_core::error::EpubError::InvalidCfi(m)) => m,
        other => panic!("expected an invalid CFI, got {:?}", other.map(|c| c.to_string())),
    };
    assert_eq!(msg("epubcfi(/6/2!/4!/2)"), "Multiple ! separators in CFI");
    assert_eq!(msg("epubcfi(/6)"), "Invalid spine path: /6");
    assert_eq!(msg("epubcfi(/6/3)"), "Invalid spine index: 3");
    assert_eq!(msg("epubcfi(/6/x)"), "Invalid step index: x");
    assert_eq!(msg("epubcfi(/6/2!/4/a)"), "Invalid step index: a");
    assert_eq!(msg("epubcfi(/6/2!/4:x)"), "Invalid offset: x");
    assert_eq!(msg("epubcfi(/6/2!/4:1~.)"), "Invalid float: .");
    assert_eq!(msg("epubcfi(/6/2!/4@1)"), "Invalid spatial offset: 1");
    assert_eq!(msg("epubcfi(/6/2!/4@q:1)"), "Invalid step index: 4@q");
    assert_eq!(msg("epubcfi(/6/2!/4:0@q:1)"), "Invalid x coordinate: q");
    assert_eq!(msg("epubcfi(/6/2!/4:0@1:1e)"), "Invalid y coordinate: 1e");
}

#[test]
fn parse_keeps_temporal_and_spatial_offsets() {
    let c = Cfi::parse("/6/+4!/4[x]/2:3~1.5@10:2E3").unwrap();
    assert_eq!(c.spine_index, 1);
    assert_eq!(c.character_offset, Some(3));
    assert_eq!(c.temporal_offset.as_deref(), Some("1.5"));
    assert_eq!(c.spatial_offset, Some(("10".to_string(), "2E3".to_string())));
    assert_eq!(c.to_string(), "epubcfi(/6/4!/4[x]/2:3~1.5@10:2E3)");
    let s = Cfi::parse("epubcfi(/6/2!/4:0@-inf:+0.5)").unwrap();
    assert_eq!(s.spatial_offset, Some(("-inf".to_string(), "+0.5".to_string())));
    assert_eq!(s.path.len(), 1);
}

#[test]
fn written_cfis_read_back_as_themselves() {
    for text in [
        "epubcfi(/6/2)",
        "epubcfi(/6/4!/4[x]/2:3~1.5@10:2E3)",
        "epubcfi(/6/8!:12)",
        "epubcfi(/6/10!/2~0.25)",
        "epubcfi(/6/4!/4[chap-1]/2/1:0)",
    ] {
        let c = Cfi::parse(text).unwrap();
        let again = Cfi::parse(&c.to_string()).unwrap();
        assert_eq!(again, c);
        assert_eq!(again.to_string(), text);
    }
    let r = CfiRange::parse("epubcfi(/6/4!/4/2,/1:0,/2/1:5)").unwrap();
    let again = CfiRange::parse(&r.to_string()).unwrap();
    assert_eq!(again, r);
}

#[test]
fn cfi_order_is_reflexive_antisymmetric_and_transitive() {
    let a = Cfi::parse("epubcfi(/6/4!/4/2:3)").unwrap();
    let b = Cfi::parse("epubcfi(/6/4!/4/2:7)").unwrap();
    let c = Cfi::parse("epubcfi(/6/4!/6)").unwrap();
    assert_eq!(a.compare(&a), Ordering::Equal);
    assert_eq!(a.compare(&b), Ordering::Less);
    assert_eq!(b.compare(&a), Ordering::Greater);
    assert_eq!(b.compare(&c), Ordering::Less);
    assert_eq!(a.compare(&c), Ordering::Less);
}
