use harvest::journal::{find_done, frame, line_bytes, load, record_of, same_set, NEWLINE};
use harvest::{
    FilePath, FileReport, JournalHeader, JournalRecord, SourceFile, JOURNAL_VERSION,
};

fn header() -> JournalHeader {
    JournalHeader {
        v: JOURNAL_VERSION,
        algo: "xxh64".into(),
        verify: true,
        dests: vec!["A".into(), "B".into()],
    }
}

fn record(rel: &str, size: u64, mtime_ns: i128, hash: &str) -> JournalRecord {
    JournalRecord { rel: rel.into(), size, mtime_ns, hash: hash.into(), dest: String::new() }
}

fn file(rel: &str, size: u64, mtime_ns: i128) -> SourceFile {
    SourceFile {
        abs: FilePath::new(rel),
        rel: FilePath::new(rel),
        size,
        mtime_ns,
        dest_rel: None,
    }
}

#[test]
fn write_then_load_roundtrips() {
    let lines = vec![
        Some(record("a/b.mov", 10, 123, "ff")),
        Some(record("c.txt", 3, 456, "ee")),
    ];
    let loaded = load(Some(header()), lines).expect("should load");
    assert_eq!(loaded.done.len(), 2);
    assert_eq!(loaded.done.get("a/b.mov").unwrap().hash, "ff");
    assert!(loaded.header.compatible_with("xxh64", true, &vec!["B".into(), "A".into()]));
}

#[test]
fn incompatible_settings_are_rejected() {
    let h = header();
    assert!(!h.compatible_with("md5", true, &vec!["A".into(), "B".into()]), "different algo");
    assert!(!h.compatible_with("xxh64", false, &vec!["A".into(), "B".into()]), "different verify");
    assert!(!h.compatible_with("xxh64", true, &vec!["A".into()]), "different dest set");
}

#[test]
fn missing_journal_loads_as_none() {
    assert!(load(None, Vec::new()).is_none());
    assert!(load(None, vec![Some(record("a", 1, 2, "h"))]).is_none());
}

#[test]
fn another_version_is_rejected() {
    let mut h = header();
    h.v = JOURNAL_VERSION + 1;
    assert!(!h.compatible_with("xxh64", true, &vec!["A".into(), "B".into()]));
}

#[test]
fn destinations_are_compared_with_repetitions() {
    let list = |s: &[&str]| -> Vec<String> { s.iter().map(|x| x.to_string()).collect() };
    assert!(same_set(&list(&[]), &list(&[])));
    assert!(same_set(&list(&["A", "B", "A"]), &list(&["A", "A", "B"])));
    assert!(!same_set(&list(&["A", "B", "B"]), &list(&["A", "A", "B"])));
    assert!(!same_set(&list(&["A"]), &list(&["A", "A"])));
}

#[test]
fn malformed_lines_are_skipped_and_the_last_record_wins() {
    let lines = vec![
        Some(record("a", 1, 1, "old")),
        None,
        Some(record("b", 2, 2, "bb")),
        Some(record("a", 5, 6, "new")),
        None,
    ];
    let loaded = load(Some(header()), lines).unwrap();
    assert_eq!(loaded.done.len(), 2);
    assert_eq!(loaded.done.get("a").unwrap().hash, "new");
    assert!(loaded.done.get("c").is_none());
}

#[test]
fn only_an_unchanged_file_is_done() {
    let loaded = load(Some(header()), vec![Some(record("d/a.mov", 10, 77, "ff"))]).unwrap();
    assert_eq!(find_done(&loaded.done, &file("d//a.mov", 10, 77)).unwrap().hash, "ff");
    assert!(find_done(&loaded.done, &file("d/a.mov", 11, 77)).is_none());
    assert!(find_done(&loaded.done, &file("d/a.mov", 10, 78)).is_none());
    assert!(find_done(&loaded.done, &file("d/b.mov", 10, 77)).is_none());
}

#[test]
fn a_report_becomes_a_record() {
    let report = FileReport {
        source: FilePath::new("/card/d/a.mov"),
        rel: FilePath::new("d/./a.mov"),
        mtime_ns: -5,
        dest_rel: FilePath::new("2026//a.mov"),
        bytes: 12,
        source_hash: "cafe".to_string(),
        dests: Vec::new(),
    };
    let rec = record_of(&report);
    assert_eq!(rec.rel, "d/a.mov");
    assert_eq!(rec.dest, "2026/a.mov");
    assert_eq!(rec.size, 12);
    assert_eq!(rec.mtime_ns, -5);
    assert_eq!(rec.hash, "cafe");
    let loaded = load(Some(header()), vec![Some(rec)]).unwrap();
    assert!(find_done(&loaded.done, &file("d/a.mov", 12, -5)).is_some());
}

#[test]
fn lines_are_framed() {
    let list = |s: &[&str]| -> Vec<Vec<u8>> { s.iter().map(|x| x.as_bytes().to_vec()).collect() };
    assert!(frame(&Vec::new()).is_none());
    let (header, records) = frame(&b"h\n\na\n \t \nb \n".to_vec()).unwrap();
    assert_eq!(header, b"h");
    assert_eq!(records, list(&["a", "b "]));
    let (header, records) = frame(&b"\n".to_vec()).unwrap();
    assert_eq!(header, b"");
    assert!(records.is_empty());
    let (header, records) = frame(&b"h\r\na".to_vec()).unwrap();
    assert_eq!(header, b"h\r");
    assert_eq!(records, list(&["a"]));
}

#[test]
fn a_damaged_line_leaves_the_others_alone() {
    let (_, records) = frame(&b"h\na\n\xff\xfe\nb\n".to_vec()).unwrap();
    assert_eq!(records, vec![b"a".to_vec(), b"\xff\xfe".to_vec(), b"b".to_vec()]);
}

#[test]
fn a_cut_off_line_is_ended_before_the_next() {
    assert_eq!(line_bytes(None, &b"h".to_vec()), b"h\n");
    assert_eq!(line_bytes(Some(NEWLINE), &b"a".to_vec()), b"a\n");
    assert_eq!(line_bytes(Some(b'}'), &b"a".to_vec()), b"\na\n");
    let mut bytes = b"h\na\n{tor".to_vec();
    for line in [b"b".to_vec(), b"c".to_vec()] {
        let more = line_bytes(bytes.last().copied(), &line);
        bytes.extend(more);
    }
    assert_eq!(bytes, b"h\na\n{tor\nb\nc\n");
    let (_, records) = frame(&bytes).unwrap();
    assert_eq!(
        records,
        vec![b"a".to_vec(), b"{tor".to_vec(), b"b".to_vec(), b"c".to_vec()]
    );
}
