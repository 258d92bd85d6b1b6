use std::collections::HashMap;

use harvest::{
    copy_file_verified, dest_paths, hash_file, identify, CopyAction, FilePath, FileReport,
    HashAlgo, SourceFile,
};

/// An in-memory disk, and what is done to it between the last write and the
/// first read-back.
struct Disk {
    files: HashMap<String, Vec<u8>>,
    synced: Vec<String>,
    spoil: Option<(String, Vec<u8>)>,
    fail_at: Option<&'static str>,
    made_dirs: Vec<String>,
}

impl Disk {
    fn new() -> Disk {
        Disk {
            files: HashMap::new(),
            synced: Vec::new(),
            spoil: None,
            fail_at: None,
            made_dirs: Vec::new(),
        }
    }

    fn trip(&self, what: &'static str) -> Result<(), String> {
        if self.fail_at == Some(what) {
            Err("disk on fire".to_string())
        } else {
            Ok(())
        }
    }

    /// Runs a copy from start to end in chunks of `buf_size`.
    fn copy(
        &mut self,
        source: &str,
        dests: &[&str],
        algo: HashAlgo,
        verify: bool,
        buf_size: usize,
    ) -> Result<FileReport, String> {
        let paths: Vec<FilePath> = dests.iter().map(|d| FilePath::new(d)).collect();
        let mut s = copy_file_verified(FilePath::new(source), paths, algo, verify);
        let data = self.files.get(source).cloned().unwrap_or_default();
        let mut at = 0usize;
        let mut back_at = 0usize;
        loop {
            let done = match s.action {
                CopyAction::Open => self.trip("open"),
                CopyAction::MakeDir(i) => {
                    self.made_dirs.push(s.dests[i].parent().unwrap().text);
                    self.trip("mkdir")
                }
                CopyAction::Create(i) => {
                    self.files.insert(dests[i].to_string(), Vec::new());
                    self.trip("create")
                }
                CopyAction::Write(i) => {
                    let chunk = s.chunk.clone();
                    self.files.get_mut(dests[i]).unwrap().extend_from_slice(&chunk);
                    self.trip("write")
                }
                CopyAction::Flush(_) => self.trip("flush"),
                CopyAction::Sync(i) => {
                    self.synced.push(dests[i].to_string());
                    self.trip("sync")
                }
                CopyAction::Stamp(_) => Ok(()),
                CopyAction::OpenBack(i) => {
                    assert_eq!(self.synced.len(), dests.len(), "read back before sync of {i}");
                    if let Some((path, bytes)) = self.spoil.take() {
                        self.files.insert(path, bytes);
                    }
                    back_at = 0;
                    self.trip("open back")
                }
                CopyAction::Read => {
                    let end = (at + buf_size).min(data.len());
                    if let Err(why) = self.trip("read") {
                        return Err(s.failure(&why));
                    }
                    s.read(data[at..end].to_vec());
                    at = end;
                    continue;
                }
                CopyAction::ReadBack(i) => {
                    let held = self.files[dests[i]].clone();
                    let end = (back_at + buf_size).min(held.len());
                    if let Err(why) = self.trip("read back") {
                        return Err(s.failure(&why));
                    }
                    s.read(held[back_at..end].to_vec());
                    back_at = end;
                    continue;
                }
                CopyAction::Done => return Ok(s.finish()),
            };
            match done {
                Ok(()) => s.done(),
                Err(why) => return Err(s.failure(&why)),
            }
        }
    }

    fn hash(&self, path: &str, algo: HashAlgo) -> String {
        hash_file(&vec![self.files[path].clone()], algo)
    }
}

#[test]
fn roundtrip_to_two_dests_verifies_ok() {
    let mut disk = Disk::new();
    let data: Vec<u8> = (0..200_000u32).map(|i| (i % 256) as u8).collect();
    disk.files.insert("dir/src.bin".to_string(), data.clone());

    let dests = ["dir/a/out.bin", "dir/b/out.bin"];
    let report = disk.copy("dir/src.bin", &dests, HashAlgo::Xxh3, true, 4096).unwrap();

    assert!(report.all_ok(), "verification should pass for a clean copy");
    assert_eq!(report.bytes, data.len() as u64);
    // Source hash must equal an independent hash of each destination on disk.
    for d in &dests {
        assert_eq!(report.source_hash, disk.hash(d, HashAlgo::Xxh3));
        assert_eq!(disk.files[*d], data);
    }
    assert_eq!(disk.made_dirs, vec!["dir/a".to_string(), "dir/b".to_string()]);
}

#[test]
fn verification_comparison_is_real() {
    // Prove the verify logic would CATCH a bad copy: after a clean copy,
    // corrupt the destination and confirm its hash no longer matches.
    let mut disk = Disk::new();
    disk.files.insert("src.bin".to_string(), b"the quick brown fox".to_vec());

    let report = disk.copy("src.bin", &["dest.bin"], HashAlgo::Md5, true, 4096).unwrap();
    assert!(report.all_ok());

    // Flip the destination's contents.
    disk.files.insert("dest.bin".to_string(), b"the quick brown FOX!".to_vec());
    let corrupted = disk.hash("dest.bin", HashAlgo::Md5);
    assert_ne!(
        report.source_hash, corrupted,
        "a corrupted destination must hash differently — otherwise verify is meaningless"
    );
}

#[test]
fn skipping_verify_reports_no_hash() {
    let mut disk = Disk::new();
    disk.files.insert("src.bin".to_string(), b"data".to_vec());
    let report = disk.copy("src.bin", &["dest.bin"], HashAlgo::Xxh3, false, 4096).unwrap();
    assert!(report.all_ok());
    assert!(report.dests[0].verified_hash.is_none());
}

#[test]
fn corruption_before_read_back_is_caught() {
    for algo in [HashAlgo::Xxh64, HashAlgo::Xxh3, HashAlgo::Md5] {
        let mut disk = Disk::new();
        disk.files.insert("src.bin".to_string(), vec![7u8; 1000]);
        let mut bad = vec![7u8; 1000];
        bad[999] = 8;
        disk.spoil = Some(("b/out".to_string(), bad.clone()));
        let report = disk.copy("src.bin", &["a/out", "b/out"], algo, true, 64).unwrap();
        assert!(!report.all_ok());
        assert!(report.dests[0].ok);
        assert!(!report.dests[1].ok);
        assert_eq!(report.dests[0].verified_hash, Some(report.source_hash.clone()));
        assert_eq!(report.dests[1].verified_hash, Some(hash_file(&vec![bad], algo)));
    }
}

#[test]
fn report_defaults_to_file_names() {
    let mut disk = Disk::new();
    disk.files.insert("card/a.mov".to_string(), vec![1, 2, 3]);
    let report = disk.copy("card/a.mov", &["x/y.mov"], HashAlgo::Md5, true, 2).unwrap();
    assert_eq!(report.source.text, "card/a.mov");
    assert_eq!(report.rel.text, "a.mov");
    assert_eq!(report.dest_rel.text, "y.mov");
    assert_eq!(report.mtime_ns, 0);
    assert_eq!(report.bytes, 3);
    assert_eq!(report.source_hash, "5289df737df57326fcdd22597afb1fac");
    let none = disk.copy("card/a.mov", &[], HashAlgo::Md5, true, 2).unwrap();
    assert_eq!(none.dest_rel.text, "");
    assert!(none.all_ok());
}

#[test]
fn empty_file_copies() {
    let mut disk = Disk::new();
    disk.files.insert("src".to_string(), Vec::new());
    let report = disk.copy("src", &["out"], HashAlgo::Md5, true, 16).unwrap();
    assert!(report.all_ok());
    assert_eq!(report.bytes, 0);
    assert_eq!(report.source_hash, "d41d8cd98f00b204e9800998ecf8427e");
    assert_eq!(disk.files["out"], Vec::<u8>::new());
}

#[test]
fn each_failure_says_what_failed() {
    let cases = [
        ("open", "opening source s/in: disk on fire"),
        ("mkdir", "creating destination dir d/e: disk on fire"),
        ("create", "creating d/e/out: disk on fire"),
        ("read", "reading s/in: disk on fire"),
        ("write", "writing d/e/out: disk on fire"),
        ("flush", "flushing d/e/out: disk on fire"),
        ("sync", "syncing d/e/out to disk: disk on fire"),
        ("open back", "opening d/e/out to hash: disk on fire"),
        ("read back", "disk on fire"),
    ];
    for (what, message) in cases {
        let mut disk = Disk::new();
        disk.files.insert("s/in".to_string(), vec![9; 10]);
        disk.fail_at = Some(what);
        let err = disk.copy("s/in", &["d/e/out"], HashAlgo::Xxh64, true, 4).unwrap_err();
        assert_eq!(err, message);
    }
}

#[test]
fn a_file_goes_below_each_root() {
    let mut f = SourceFile {
        abs: FilePath::new("/card/DCIM/a.mov"),
        rel: FilePath::new("DCIM/a.mov"),
        size: 3,
        mtime_ns: 42,
        dest_rel: None,
    };
    let roots = vec![FilePath::new("/one"), FilePath::new("two/")];
    let texts: Vec<String> = dest_paths(&f, &roots).into_iter().map(|p| p.text).collect();
    assert_eq!(texts, vec!["/one/DCIM/a.mov".to_string(), "two/DCIM/a.mov".to_string()]);

    f.dest_rel = Some(FilePath::new("2026/a.mov"));
    let texts: Vec<String> = dest_paths(&f, &roots).into_iter().map(|p| p.text).collect();
    assert_eq!(texts, vec!["/one/2026/a.mov".to_string(), "two/2026/a.mov".to_string()]);

    let mut disk = Disk::new();
    disk.files.insert("/card/DCIM/a.mov".to_string(), vec![1, 2, 3]);
    let report = disk.copy("/card/DCIM/a.mov", &["/one/2026/a.mov"], HashAlgo::Md5, true, 9).unwrap();
    let report = identify(report, &f);
    assert_eq!(report.rel.text, "DCIM/a.mov");
    assert_eq!(report.dest_rel.text, "2026/a.mov");
    assert_eq!(report.mtime_ns, 42);
    assert_eq!(report.bytes, 3);
}
