use harvest::survey::{category, scan_dir, scan_flat, transfer_size};
use harvest::{FilePath, Filter, SourceFile};

fn file(abs: &str, size: u64) -> SourceFile {
    SourceFile {
        abs: FilePath::new(abs),
        rel: FilePath::new(abs),
        size,
        mtime_ns: 5_999_999,
        dest_rel: None,
    }
}

fn card() -> Vec<SourceFile> {
    vec![
        file("/card/note.TXT", 5),
        file("/card/DCIM/100/a.MOV", 100),
        file("/card/DCIM/100/b.jpg", 30),
        file("/card/DCIM/c.wav", 20),
        file("/card/DCIM/101/d.jpg", 40),
        file("/card/DCIM/101/e.mov", 40),
        file("/elsewhere/f.mov", 1000),
        file("/card/big.mov", 400),
    ]
}

#[test]
fn a_folder_lists_its_children() {
    let l = scan_dir(&card(), &FilePath::new("/card"));
    assert_eq!(l.path, "/card");
    assert_eq!(l.total, 635);
    let names: Vec<(&str, u64, bool)> =
        l.entries.iter().map(|e| (e.name.as_str(), e.size, e.is_dir)).collect();
    assert_eq!(names, vec![("big.mov", 400, false), ("DCIM", 230, true), ("note.TXT", 5, false)]);
    assert_eq!(l.entries[0].path, "/card/big.mov");
    assert_eq!(l.entries[0].ext, "mov");
    assert_eq!(l.entries[0].mtime_ms, 5);
    assert_eq!(l.entries[1].ext, "");
    assert_eq!(l.entries[1].mtime_ms, 0);
    let inner: Vec<(&str, u64, u8)> =
        l.entries[1].children.iter().map(|c| (c.name.as_str(), c.size, c.cat)).collect();
    // 101 holds as much video as images: the later category counts.
    assert_eq!(inner, vec![("100", 130, 0), ("101", 80, 2), ("c.wav", 20, 1)]);
    let exts: Vec<(&str, u64, u64)> =
        l.exts.iter().map(|e| (e.ext.as_str(), e.bytes, e.files)).collect();
    assert_eq!(exts, vec![("mov", 540, 3), ("jpg", 70, 2), ("wav", 20, 1), ("txt", 5, 1)]);
    let sum: u64 = l.entries.iter().map(|e| e.size).sum();
    assert_eq!(sum, l.total);
}

#[test]
fn drilling_down_uses_the_same_list() {
    let l = scan_dir(&card(), &FilePath::new("/card/DCIM/100"));
    assert_eq!(l.total, 130);
    assert_eq!(l.entries.len(), 2);
    assert_eq!(l.entries[0].name, "a.MOV");
    assert!(l.entries[0].children.is_empty());
    assert_eq!(scan_dir(&card(), &FilePath::new("/nowhere")).total, 0);
    // A folder that is itself a file has no children, only an extension row.
    let l = scan_dir(&card(), &FilePath::new("/card/big.mov"));
    assert_eq!(l.total, 400);
    assert!(l.entries.is_empty());
    assert_eq!(l.exts.len(), 1);
    assert_eq!(l.exts[0].ext, "");
}

#[test]
fn a_flat_view_lists_every_file() {
    let l = scan_flat(&card(), &FilePath::new("/card/DCIM"));
    assert_eq!(l.total, 230);
    let names: Vec<&str> = l.entries.iter().map(|e| e.name.as_str()).collect();
    assert_eq!(names, vec!["100/a.MOV", "101/d.jpg", "101/e.mov", "100/b.jpg", "c.wav"]);
    assert_eq!(l.entries[0].path, "/card/DCIM/100/a.MOV");
    assert!(!l.entries[0].is_dir);
    assert_eq!(l.exts[0].ext, "mov");
}

#[test]
fn lists_are_capped() {
    let many: Vec<SourceFile> =
        (0..2100u64).map(|i| file(&format!("/c/d/{i}.x{}", i % 30), i)).collect();
    let l = scan_flat(&many, &FilePath::new("/c"));
    assert_eq!(l.entries.len(), 2000);
    assert_eq!(l.entries[0].size, 2099);
    assert_eq!(l.entries[1999].size, 100);
    assert_eq!(l.exts.len(), 14);
    let l = scan_dir(&many, &FilePath::new("/c"));
    assert_eq!(l.entries.len(), 1);
    assert_eq!(l.entries[0].children.len(), 24);
    assert_eq!(l.entries[0].children[0].name, "2099.x29");
}

#[test]
fn equal_sizes_keep_their_order() {
    let files = vec![file("/c/b", 1), file("/c/a", 1), file("/c/c", 2)];
    let l = scan_dir(&files, &FilePath::new("/c"));
    let names: Vec<&str> = l.entries.iter().map(|e| e.name.as_str()).collect();
    assert_eq!(names, vec!["c", "b", "a"]);
}

#[test]
fn extensions_have_categories() {
    for e in ["mov", "mp4", "mxf", "avi", "mts", "m4v", "braw", "r3d", "mkv", "wmv"] {
        assert_eq!(category(e), 0, "{e}");
    }
    for e in ["wav", "aif", "aiff", "mp3", "flac", "m4a", "aac"] {
        assert_eq!(category(e), 1, "{e}");
    }
    for e in [
        "jpg", "jpeg", "png", "cr3", "cr2", "arw", "dng", "nef", "tif", "tiff", "heic", "raf", "gpr",
        "gif",
    ] {
        assert_eq!(category(e), 2, "{e}");
    }
    for e in ["", "txt", "MOV"] {
        assert_eq!(category(e), 3, "{e}");
    }
}

#[test]
fn times_before_the_epoch_round_towards_zero() {
    let mut f = file("/c/a", 1);
    f.mtime_ns = -1_999_999;
    assert_eq!(scan_flat(&vec![f.clone()], &FilePath::new("/c")).entries[0].mtime_ms, -1);
    f.mtime_ns = i128::MIN;
    let wrapped = (i128::MIN / 1_000_000) as i64;
    assert_eq!(scan_flat(&vec![f], &FilePath::new("/c")).entries[0].mtime_ms, wrapped);
}

#[test]
fn a_transfer_counts_what_passes_the_filter() {
    let wanted = Filter { include_ext: Some(vec!["mov".to_string()]), ..Default::default() };
    let files = card();
    let owners = vec![None; files.len()];
    let info = transfer_size(&wanted, &files, &owners);
    assert_eq!((info.files, info.bytes), (4, 1540));
    let mine = Filter { owner: Some("ada".to_string()), ..Default::default() };
    let info = transfer_size(&mine, &files, &owners);
    assert_eq!((info.files, info.bytes), (0, 0));
}
