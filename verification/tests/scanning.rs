use std::path::Path;

use harvest::scan::{ScanError, Scanner};
use harvest::{mtime_ns, scan, scan_with, FileMeta, FilePath, FileTime, Found, WalkEntry};

fn meta(size: u64) -> FileMeta {
    FileMeta { size, modified: FileTime::After { secs: 1, nanos: 5 } }
}

fn entry(path: &str, size: u64) -> WalkEntry {
    WalkEntry::File { abs: FilePath::new(path), meta: Some(meta(size)) }
}

#[test]
fn times_are_signed_nanoseconds() {
    assert_eq!(mtime_ns(FileTime::After { secs: 2, nanos: 3 }), 2_000_000_003);
    assert_eq!(mtime_ns(FileTime::Before { secs: 2, nanos: 3 }), -2_000_000_003);
    assert_eq!(mtime_ns(FileTime::Unknown), 0);
}

#[test]
fn a_single_file_is_its_own_tree() {
    let (files, skipped, reports) =
        scan_with(&FilePath::new("/card/a.mov"), Found::Single(meta(9))).unwrap();
    assert_eq!(files.len(), 1);
    assert_eq!(files[0].abs.text, "/card/a.mov");
    assert_eq!(files[0].rel.text, "a.mov");
    assert_eq!(files[0].size, 9);
    assert_eq!(files[0].mtime_ns, 1_000_000_005);
    assert!(files[0].dest_rel.is_none());
    assert_eq!(skipped, 0);
    assert_eq!(reports, vec![(1, 9)]);
    let e = scan(&FilePath::new("/"), Found::Single(meta(9))).unwrap_err();
    assert!(matches!(e, ScanError::NoFileName { .. }));
    assert_eq!(e.message(), "source / has no file name");
}

#[test]
fn a_tree_is_relative_to_its_root() {
    let found = Found::Tree(vec![
        WalkEntry::Other,
        entry("/card/b.mov", 2),
        WalkEntry::Other,
        entry("/card/DCIM/a.mov", 3),
    ]);
    let (files, skipped, reports) = scan_with(&FilePath::new("/card/"), found).unwrap();
    let rels: Vec<&str> = files.iter().map(|f| f.rel.text.as_str()).collect();
    assert_eq!(rels, vec!["b.mov", "DCIM/a.mov"]);
    assert_eq!(skipped, 0);
    assert_eq!(reports, vec![(2, 5)]);
}

#[test]
fn one_bad_entry_cannot_fail_the_scan() {
    let found = Found::Tree(vec![
        WalkEntry::Unreadable { depth: 2, why: "permission denied".into() },
        entry("c/a", 1),
        WalkEntry::File { abs: FilePath::new("c/b"), meta: None },
        entry("c/d", 1),
    ]);
    let (files, skipped, _) = scan_with(&FilePath::new("c"), found).unwrap();
    assert_eq!(files.len(), 2);
    assert_eq!(skipped, 2);
}

#[test]
fn an_unreadable_source_fails() {
    let found = Found::Tree(vec![WalkEntry::Unreadable { depth: 0, why: "no media".into() }]);
    let e = scan(&FilePath::new("A:"), found).unwrap_err();
    assert!(matches!(e, ScanError::Unreadable { .. }));
    assert_eq!(e.message(), "cannot read A:: no media");
}

#[test]
fn a_cancelled_walk_fails() {
    let found = Found::Tree(vec![entry("c/a", 1), WalkEntry::Cancelled, entry("c/b", 1)]);
    let e = scan(&FilePath::new("c"), found).unwrap_err();
    assert!(matches!(e, ScanError::Cancelled));
    assert_eq!(e.message(), "scan cancelled");
}

#[test]
fn a_file_outside_the_source_fails() {
    let e = scan(&FilePath::new("card"), Found::Tree(vec![entry("cards/a", 1)])).unwrap_err();
    assert!(matches!(e, ScanError::Outside { .. }));
    assert_eq!(e.message(), "relativizing cards/a");
}

#[test]
fn progress_comes_every_512_files_and_at_the_end() {
    let entries: Vec<WalkEntry> = (0..1100).map(|i| entry(&format!("c/{i}"), 2)).collect();
    let (files, _, reports) = scan_with(&FilePath::new("c"), Found::Tree(entries)).unwrap();
    assert_eq!(files.len(), 1100);
    assert_eq!(reports, vec![(512, 1024), (1024, 2048), (1100, 2200)]);

    let mut s = Scanner::new(&FilePath::new("c"));
    for i in 0..511 {
        assert_eq!(s.visit(entry(&format!("c/{i}"), 1)).unwrap(), None);
    }
    assert_eq!(s.visit(entry("c/x", 1)).unwrap(), Some((512, 512)));
    assert_eq!(s.last_report(), (512, 512));
}

#[test]
fn paths_are_read_by_components() {
    let p = FilePath::new("/a//b/./c.tar.gz");
    assert_eq!(p.components(), vec!["/", "a", "b", "c.tar.gz"]);
    assert_eq!(p.file_name().as_deref(), Some("c.tar.gz"));
    assert_eq!(p.file_stem().as_deref(), Some("c.tar"));
    assert_eq!(p.extension().as_deref(), Some("gz"));
    assert_eq!(FilePath::new("./a").components(), vec![".", "a"]);
    assert_eq!(FilePath::new("").components(), Vec::<String>::new());
    assert_eq!(FilePath::new("a/..").file_name(), None);
    assert_eq!(FilePath::new(".bashrc").extension(), None);
    assert_eq!(FilePath::new("a.").extension().as_deref(), Some(""));
    assert_eq!(FilePath::new("/a/b").parent().unwrap().text, "/a");
    assert_eq!(FilePath::new("/a").parent().unwrap().text, "/");
    assert_eq!(FilePath::new("a").parent().unwrap().text, "");
    assert_eq!(FilePath::new("a//b/").parent().unwrap().text, "a");
    assert!(FilePath::new("/").parent().is_none());
    assert!(FilePath::new("").parent().is_none());
    assert_eq!(FilePath::new("a").join(&FilePath::new("/b")).text, "/b");
    assert_eq!(FilePath::new("").join(&FilePath::new("b")).text, "b");
    assert_eq!(harvest::forward_slash(&FilePath::new("a//b/./c")), "a/b/c");
    assert_eq!(
        FilePath::new("/a/b/c").strip_prefix(&FilePath::new("/a/")).unwrap(),
        vec!["b", "c"]
    );
    assert!(FilePath::new("/ab").strip_prefix(&FilePath::new("/a")).is_none());
}

#[test]
fn windows_paths_are_slashed() {
    assert_eq!(harvest::forward_slash(&FilePath::from_windows("a\\b")), "a/b");
    assert_eq!(FilePath::from_windows("C:\\clips/a.mov").text, "C:/clips/a.mov");
    assert_eq!(harvest::forward_slash(&FilePath::new("a\\b")), "a\\b");
}

#[test]
fn paths_agree_with_the_standard_library() {
    let samples = [
        "", "/", "a", "a/", "/a", "//a", "a//b", "a/./b", "./a", "./", ".", "..", "a/..", "../a",
        "/..", "/./a", "a/.", "a.b", ".a", "a.", "..a", "a..b", ".a.b", "a/b.c/d", "a b/ c ",
    ];
    for s in samples {
        let mine = FilePath::new(s);
        let std = Path::new(s);
        let comps: Vec<String> =
            std.components().map(|c| c.as_os_str().to_string_lossy().to_string()).collect();
        assert_eq!(mine.components(), comps, "components of {s:?}");
        let name = std.file_name().map(|x| x.to_string_lossy().to_string());
        let stem = std.file_stem().map(|x| x.to_string_lossy().to_string());
        let ext = std.extension().map(|x| x.to_string_lossy().to_string());
        assert_eq!(mine.file_name(), name, "file name of {s:?}");
        assert_eq!(mine.file_stem(), stem, "stem of {s:?}");
        assert_eq!(mine.extension(), ext, "extension of {s:?}");
        let parent = std.parent().map(|p| p.to_string_lossy().to_string());
        assert_eq!(mine.parent().map(|p| p.text), parent, "parent of {s:?}");
        for t in samples {
            let other = FilePath::new(t);
            let joined = std.join(t).to_string_lossy().to_string();
            assert_eq!(mine.join(&other).text, joined, "{s:?} join {t:?}");
            assert_eq!(mine.starts_with(&other), std.starts_with(t), "{s:?} starts with {t:?}");
        }
    }
}
