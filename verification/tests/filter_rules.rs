use harvest::filter::{parse_date, parse_size, FilterError};
use harvest::{normalize_ext, FilePath, Filter, SourceFile};

fn file(name: &str, size: u64, mtime_ns: i128) -> SourceFile {
    SourceFile {
        abs: FilePath::new(name),
        rel: FilePath::new(name),
        size,
        mtime_ns,
        dest_rel: None,
    }
}

#[test]
fn empty_filter_accepts_everything() {
    let f = Filter::default();
    assert!(f.is_empty());
    assert!(f.accepts(&file("a.mov", 100, 0)));
    assert!(f.accepts(&file("noext", 0, 0)));
}

#[test]
fn include_ext_is_case_insensitive_and_excludes_others() {
    let f = Filter {
        include_ext: Some(["mov", "mxf"].iter().map(|s| s.to_string()).collect()),
        ..Default::default()
    };
    assert!(f.accepts(&file("clip.MOV", 1, 0)));
    assert!(!f.accepts(&file("clip.jpg", 1, 0)));
    assert!(!f.accepts(&file("README", 1, 0))); // no extension
}

#[test]
fn listed_extensions_are_case_insensitive() {
    let f = Filter { include_ext: Some(vec!["MOV".into()]), ..Default::default() };
    assert!(f.accepts(&file("clip.mov", 1, 0)));
    assert!(f.accepts(&file("clip.Mov", 1, 0)));
    assert!(!f.accepts(&file("clip.mo", 1, 0)));
    let f = Filter { exclude_ext: vec!["jpg".into(), "TMP".into()], ..Default::default() };
    assert!(!f.accepts(&file("a.tmp", 1, 0)));
    assert!(!f.accepts(&file("a.JPG", 1, 0)));
    assert!(f.accepts(&file("a.mov", 1, 0)));
}

#[test]
fn a_stricter_filter_keeps_less() {
    let loose = Filter {
        include_ext: Some(vec!["mov".into(), "mxf".into()]),
        exclude_ext: vec!["tmp".into()],
        min_size: Some(5),
        newer_than_ns: Some(100),
        ..Default::default()
    };
    let strict = Filter {
        include_ext: Some(vec!["MXF".into()]),
        exclude_ext: vec!["jpg".into(), "TMP".into()],
        min_size: Some(6),
        max_size: Some(50),
        newer_than_ns: Some(200),
        older_than_ns: Some(900),
        exclude_paths: vec![FilePath::new("/card/old")],
        ..Default::default()
    };
    let mut kept = 0;
    for name in ["a.mov", "a.mxf", "a.tmp", "a.jpg", "README"] {
        for size in [1, 5, 6, 50, 51] {
            for mtime in [0, 100, 200, 899, 900] {
                let f = file(name, size, mtime);
                if strict.accepts(&f) {
                    assert!(loose.accepts(&f), "{name} {size} {mtime}");
                    kept += 1;
                }
            }
        }
    }
    assert_eq!(kept, 4);
}

#[test]
fn exclude_beats_include() {
    let f = Filter {
        include_ext: Some(["mov", "tmp"].iter().map(|s| s.to_string()).collect()),
        exclude_ext: ["tmp"].iter().map(|s| s.to_string()).collect(),
        ..Default::default()
    };
    assert!(f.accepts(&file("a.mov", 1, 0)));
    assert!(!f.accepts(&file("a.tmp", 1, 0)));
}

#[test]
fn size_and_date_bounds() {
    let f = Filter {
        min_size: Some(10),
        max_size: Some(100),
        newer_than_ns: Some(1000),
        older_than_ns: Some(2000),
        ..Default::default()
    };
    assert!(f.accepts(&file("ok", 50, 1500)));
    assert!(!f.accepts(&file("too_small", 5, 1500)));
    assert!(!f.accepts(&file("too_big", 200, 1500)));
    assert!(!f.accepts(&file("too_old", 50, 500)));
    assert!(!f.accepts(&file("too_new", 50, 2000))); // older_than is exclusive
}

#[test]
fn bounds_are_inclusive_but_for_older_than() {
    let f = Filter {
        min_size: Some(10),
        max_size: Some(100),
        newer_than_ns: Some(1000),
        older_than_ns: Some(2000),
        ..Default::default()
    };
    assert!(f.accepts(&file("least", 10, 1000)));
    assert!(f.accepts(&file("most", 100, 1999)));
    assert!(!f.accepts(&file("over", 101, 1999)));
    assert!(!f.accepts(&file("under", 9, 1999)));
    assert!(!f.accepts(&file("early", 10, 999)));
}

#[test]
fn excluded_paths_drop_what_is_below_them() {
    let f = Filter {
        exclude_paths: vec![FilePath::new("/card/PRIVATE"), FilePath::new("/card/notes.txt")],
        ..Default::default()
    };
    assert!(!f.is_empty());
    assert!(!f.accepts(&file("/card/PRIVATE/a.mov", 1, 0)));
    assert!(!f.accepts(&file("/card/PRIVATE", 1, 0)));
    assert!(!f.accepts(&file("/card/notes.txt", 1, 0)));
    assert!(f.accepts(&file("/card/PRIVATE2/a.mov", 1, 0)));
    assert!(f.accepts(&file("/card/DCIM/PRIVATE/a.mov", 1, 0)));
}

#[test]
fn owner_must_be_known_and_equal() {
    let f = Filter { owner: Some("ada".to_string()), ..Default::default() };
    assert!(!f.is_empty());
    assert!(f.accepts_owner(&Some("ada".to_string())));
    assert!(!f.accepts_owner(&Some("bob".to_string())));
    assert!(!f.accepts_owner(&None));
    assert!(Filter::default().accepts_owner(&None));
}

#[test]
fn sizes_are_in_powers_of_1024() {
    assert_eq!(parse_size("10MB"), Some(10 * 1024 * 1024));
    assert_eq!(parse_size("500K"), Some(500 * 1024));
    assert_eq!(parse_size("4GB"), Some(4 * 1024 * 1024 * 1024));
    assert_eq!(parse_size(" 2 tb "), Some(2 * 1024 * 1024 * 1024 * 1024));
    assert_eq!(parse_size("7"), Some(7));
    assert_eq!(parse_size("7b"), Some(7));
    assert_eq!(parse_size("18446744073709551615"), Some(u64::MAX));
    assert_eq!(parse_size("18446744073709551616"), None);
    assert_eq!(parse_size("99999999999999999999999999"), None);
    assert_eq!(parse_size("16777216TB"), None);
    assert_eq!(parse_size("0000000000000000000000000012"), Some(12));
    assert_eq!(parse_size("MB"), None);
    assert_eq!(parse_size("-3"), None);
    assert_eq!(parse_size("3 parsecs"), None);
}

#[test]
fn dates_stand_for_midnight_utc() {
    assert_eq!(parse_date("1970-01-01"), Some(0));
    assert_eq!(parse_date("1970-01-02"), Some(86_400_000_000_000));
    assert_eq!(parse_date("2019-01-01"), Some(1_546_300_800_000_000_000));
    assert_eq!(parse_date(" 2000-02-29 "), Some(951_782_400_000_000_000));
    assert_eq!(parse_date("1969-12-31"), Some(-86_400_000_000_000));
    assert_eq!(parse_date("0000-01-01"), Some(-62_167_219_200_000_000_000));
    assert_eq!(parse_date("1900-02-29"), None);
    assert_eq!(parse_date("2026-13-01"), None);
    assert_eq!(parse_date("2026-00-01"), None);
    assert_eq!(parse_date("2026-06-31"), None);
    assert_eq!(parse_date("2026-06-00"), None);
    assert_eq!(parse_date("2026/06/03"), None);
    assert_eq!(parse_date("26-06-03"), None);
    assert_eq!(parse_date("2026-6-3"), None);
}

#[test]
fn a_filter_is_built_from_what_was_typed() {
    let f = Filter::build(
        Some("mov, .MXF ,,wav"),
        Some("tmp"),
        Some("10K"),
        Some("4GB"),
        Some("2026-01-01"),
        Some("2027-01-01"),
    )
    .unwrap();
    assert_eq!(
        f.include_ext,
        Some(vec!["mov".to_string(), "mxf".to_string(), "wav".to_string()])
    );
    assert_eq!(f.exclude_ext, vec!["tmp".to_string()]);
    assert_eq!(f.min_size, Some(10240));
    assert_eq!(f.max_size, Some(4 * 1024 * 1024 * 1024));
    assert_eq!(f.newer_than_ns, Some(1_767_225_600_000_000_000));
    assert_eq!(f.older_than_ns, Some(1_798_761_600_000_000_000));
    assert!(f.exclude_paths.is_empty());
    assert_eq!(f.owner, None);
}

#[test]
fn blank_fields_set_no_rule() {
    let f = Filter::build(Some("  "), Some(" , ."), Some(""), Some(" "), Some("\t"), None).unwrap();
    assert!(f.is_empty());
    assert!(Filter::build(None, None, None, None, None, None).unwrap().is_empty());
}

#[test]
fn bad_fields_are_named() {
    let e = Filter::build(None, None, Some("big"), None, Some("soon"), None).unwrap_err();
    assert!(matches!(e, FilterError::Size(_)));
    assert_eq!(e.message(), "invalid size 'big' (expected e.g. 10MB, 500K)");
    let e = Filter::build(None, None, None, None, None, Some("soon")).unwrap_err();
    assert!(matches!(e, FilterError::Date(_)));
    assert_eq!(e.message(), "invalid date 'soon' (expected YYYY-MM-DD)");
}

#[test]
fn extensions_have_a_normal_form() {
    assert_eq!(normalize_ext(" ..MoV "), "mov");
    assert_eq!(normalize_ext("jpg"), "jpg");
    assert_eq!(normalize_ext("..."), "");
    assert_eq!(normalize_ext("ÄÖ"), "äö");
}
