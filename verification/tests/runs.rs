use std::collections::HashMap;

use harvest::dates::{date_parts, iso_time};
use harvest::journal::load;
use harvest::transfer::{
    default_journal_path, default_manifest_path, journal_header, HarvestRun,
};
use harvest::{
    copy_file_verified, dest_paths, filter_and_template, hash_file, identify, plan, run_harvest,
    run_verify, scan, total_size, CopyAction, FileMeta, FilePath, FileReport, FileTime, Filter,
    Found, HarvestConfig, HarvestEvent, HarvestOutcome, HarvestPlan, HashAlgo, JournalRecord,
    LoadedJournal, SetupError, SourceFile, WalkEntry,
};

/// Path to contents and modification time (seconds).
type Disk = HashMap<String, (Vec<u8>, u64)>;

fn cfg(source: &str, dest: &str) -> HarvestConfig {
    HarvestConfig {
        source: FilePath::new(source),
        dests: vec![FilePath::new(dest)],
        algo: HashAlgo::Xxh64,
        verify: true,
        resume: false,
        skip_existing: true,
        filter: Filter::default(),
        dest_template: None,
        project: String::new(),
        write_manifest: false,
        journal_path: None,
        manifest_path: None,
    }
}

fn meta(disk: &Disk, path: &str) -> Option<FileMeta> {
    disk.get(path).map(|(bytes, secs)| FileMeta {
        size: bytes.len() as u64,
        modified: FileTime::After { secs: *secs, nanos: 0 },
    })
}

fn scanned(c: &HarvestConfig, disk: &Disk) -> Vec<SourceFile> {
    let mut paths: Vec<&String> = disk.keys().filter(|p| p.starts_with("src/")).collect();
    paths.sort();
    let entries: Vec<WalkEntry> = paths
        .iter()
        .map(|p| WalkEntry::File { abs: FilePath::new(p), meta: meta(disk, p) })
        .collect();
    let files = scan(&c.source, Found::Tree(entries)).unwrap();
    let owners = vec![None; files.len()];
    filter_and_template(c, files, &owners, 0)
}

fn stats(c: &HarvestConfig, disk: &Disk, files: &[SourceFile]) -> Vec<Vec<Option<FileMeta>>> {
    files
        .iter()
        .map(|f| dest_paths(f, &c.dests).iter().map(|p| meta(disk, &p.text)).collect())
        .collect()
}

fn copy(c: &HarvestConfig, disk: &mut Disk, f: &SourceFile) -> FileReport {
    let dests = dest_paths(f, &c.dests);
    let targets: Vec<String> = dests.iter().map(|d| d.text.clone()).collect();
    let (data, secs) = disk[&f.abs.text].clone();
    let mut s = copy_file_verified(f.abs.clone(), dests, c.algo, c.verify);
    let mut read = false;
    let mut back = false;
    loop {
        match s.action {
            CopyAction::Create(i) => {
                disk.insert(targets[i].clone(), (Vec::new(), 0));
                s.done();
            }
            CopyAction::Write(i) => {
                let chunk = s.chunk.clone();
                disk.get_mut(&targets[i]).unwrap().0.extend_from_slice(&chunk);
                s.done();
            }
            CopyAction::Stamp(i) => {
                disk.get_mut(&targets[i]).unwrap().1 = secs;
                s.done();
            }
            CopyAction::Read => {
                s.read(if read { Vec::new() } else { data.clone() });
                read = true;
            }
            CopyAction::ReadBack(i) => {
                s.read(if back { Vec::new() } else { disk[&targets[i]].0.clone() });
                back = !back;
            }
            CopyAction::Done => return identify(s.finish(), f),
            _ => s.done(),
        }
    }
}

struct Ran {
    outcome: HarvestOutcome,
    records: Vec<JournalRecord>,
    manifest: Option<(FilePath, String)>,
    planned: HarvestEvent,
}

fn harvest(c: &HarvestConfig, disk: &mut Disk, loaded: Option<LoadedJournal>) -> Ran {
    c.check_setup(true).unwrap();
    let files = scanned(c, disk);
    assert!(total_size(&files).is_some());
    let there = stats(c, disk, &files);
    let mut run: HarvestRun = run_harvest(c, files, 0, loaded, &there);
    let planned = run.planned();
    let mut results = Vec::new();
    let mut records = Vec::new();
    let work: Vec<SourceFile> = run.to_copy.iter().cloned().collect();
    for f in &work {
        let report = copy(c, disk, f);
        let done = run.on_done(&report);
        if let Some(rec) = done.record {
            records.push(rec);
        }
        results.push(Ok(report));
    }
    let outcome = run.finish(&results, false);
    let manifest = run.manifest(c, &results, &outcome, "Harvest", "S", "F");
    Ran { outcome, records, manifest, planned }
}

fn planned_of(c: &HarvestConfig, disk: &Disk) -> HarvestPlan {
    c.check_source(true).unwrap();
    let files = scanned(c, disk);
    let there = stats(c, disk, &files);
    plan(c, &files, &there)
}

fn verify(c: &HarvestConfig, disk: &Disk) -> HarvestOutcome {
    let files = scanned(c, disk);
    let mut run = run_verify(&files, 0);
    for f in &files {
        let dests = dest_paths(f, &c.dests);
        let sum = |p: &str| disk.get(p).map(|(b, _)| hash_file(&vec![b.clone()], c.algo));
        let sums: Vec<Option<String>> = dests.iter().map(|d| sum(&d.text)).collect();
        run.on_file(f, &dests, &sum(&f.abs.text), &sums);
    }
    run.finish(false)
}

#[test]
fn rerun_skips_files_already_present() {
    let mut disk = Disk::new();
    disk.insert("src/clips/a.bin".into(), (vec![1u8; 5000], 100));
    disk.insert("src/b.txt".into(), (b"hello".to_vec(), 200));

    let c = cfg("src", "dest");
    let first = harvest(&c, &mut disk, None).outcome;
    assert_eq!(first.copied, 2, "first run copies both files");
    assert_eq!(first.skipped, 0);
    assert!(first.success());

    // A plan now sees both as present.
    let pl = planned_of(&c, &disk);
    assert_eq!(pl.present, 2);
    assert_eq!(pl.new, 0);
    assert_eq!(pl.copy_bytes, 0);

    // Second run: mtime was preserved, so both files are recognized.
    let second = harvest(&c, &mut disk, None).outcome;
    assert_eq!(second.copied, 0, "nothing should be re-copied");
    assert_eq!(second.skipped, 2, "both files recognized as already present");
    assert_eq!(second.copied_bytes, 0);
    assert!(second.success());
}

#[test]
fn skip_existing_off_recopies() {
    let mut disk = Disk::new();
    disk.insert("src/a.bin".into(), (vec![7u8; 1234], 100));
    let mut c = cfg("src", "dest");
    harvest(&c, &mut disk, None);
    c.skip_existing = false;
    let again = harvest(&c, &mut disk, None).outcome;
    assert_eq!(again.copied, 1, "with skip_existing off, the file is copied again");
    assert_eq!(again.skipped, 0);
}

#[test]
fn verify_detects_match_and_corruption() {
    let mut disk = Disk::new();
    disk.insert("src/a.bin".into(), (vec![3u8; 400], 100));
    disk.insert("src/b.bin".into(), (vec![4u8; 400], 100));
    let c = cfg("src", "dest");
    harvest(&c, &mut disk, None);

    // Clean copy verifies OK.
    let v1 = verify(&c, &disk);
    assert_eq!(v1.copied, 2);
    assert!(v1.verify_failures.is_empty());

    // Corrupt one destination file → caught.
    disk.insert("dest/b.bin".into(), (vec![9u8; 400], 100));
    let v2 = verify(&c, &disk);
    assert_eq!(v2.copied, 1);
    assert_eq!(v2.verify_failures.len(), 1);
    assert!(v2.verify_failures[0].contains("mismatch"));
    assert_eq!(v2.verify_failures[0], "mismatch: dest/b.bin");
    assert_eq!(v2.copied_bytes, 800);

    // A missing copy is told apart.
    disk.remove("dest/a.bin");
    let v3 = verify(&c, &disk);
    assert_eq!(v3.copied, 0);
    assert_eq!(
        v3.verify_failures,
        vec!["missing: dest/a.bin".to_string(), "mismatch: dest/b.bin".to_string()]
    );
    assert!(!v3.success());
    assert_eq!(v3.journal_path.text, "");
}

#[test]
fn plan_classifies_new_present_conflict() {
    let mut disk = Disk::new();
    disk.insert("src/a.bin".into(), (vec![1u8; 100], 100));
    disk.insert("src/b.bin".into(), (vec![2u8; 200], 100));
    let c = cfg("src", "dest");

    // Nothing copied yet → all new.
    let p0 = planned_of(&c, &disk);
    assert_eq!(p0.new, 2);
    assert_eq!(p0.present, 0);

    harvest(&c, &mut disk, None);
    // Now make b differ at the destination → conflict; a stays present.
    disk.insert("dest/b.bin".into(), (vec![9u8; 999], 100));
    let p1 = planned_of(&c, &disk);
    assert_eq!(p1.present, 1);
    assert_eq!(p1.conflict, 1);
    assert_eq!(p1.new, 0);
    assert_eq!(p1.total, 2);
    assert_eq!(p1.copy_bytes, 200);
}

#[test]
fn modification_times_match_within_two_seconds() {
    let mut disk = Disk::new();
    disk.insert("src/a".into(), (vec![1], 1000));
    let c = cfg("src", "dest");
    for (secs, same) in [(998, true), (1002, true), (997, false), (1003, false)] {
        disk.insert("dest/a".into(), (vec![1], secs));
        assert_eq!(planned_of(&c, &disk).present == 1, same, "{secs}");
        assert_eq!(planned_of(&c, &disk).conflict == 1, !same, "{secs}");
    }
}

#[test]
fn a_file_missing_at_one_of_two_destinations_is_copied() {
    let mut disk = Disk::new();
    disk.insert("src/a".into(), (vec![1], 1000));
    let mut c = cfg("src", "one");
    c.dests.push(FilePath::new("two"));
    assert_eq!(planned_of(&c, &disk).new, 1);
    disk.insert("one/a".into(), (vec![1], 1000));
    let half = planned_of(&c, &disk);
    assert_eq!((half.total, half.new, half.present, half.conflict), (1, 0, 0, 0));
    assert_eq!(half.copy_bytes, 1);
    disk.insert("two/a".into(), (vec![1, 2], 1000));
    assert_eq!(planned_of(&c, &disk).conflict, 1);
    let ran = harvest(&c, &mut disk, None);
    assert_eq!(ran.outcome.copied, 1);
    assert_eq!(disk["two/a"].0, vec![1]);
    assert_eq!(planned_of(&c, &disk).present, 1);
}

#[test]
fn an_interrupted_run_is_resumed() {
    let mut disk = Disk::new();
    disk.insert("src/a".into(), (vec![1; 10], 100));
    disk.insert("src/b".into(), (vec![2; 20], 100));
    let mut c = cfg("src", "dest");
    c.skip_existing = false;
    c.write_manifest = true;
    let first = harvest(&c, &mut disk, None);
    assert_eq!(first.records.len(), 2);
    assert!(matches!(
        first.planned,
        HarvestEvent::Planned { total_scanned: 2, kept: 2, to_copy: 2, skipped: 0, copy_bytes: 30 }
    ));

    // Only the first record reached the disk; the line after it was cut off.
    let journal = |n: usize| {
        let mut lines: Vec<Option<JournalRecord>> =
            first.records.iter().take(n).cloned().map(Some).collect();
        lines.push(None);
        load(Some(journal_header(&c)), lines)
    };
    let mut r = cfg("src", "dest");
    r.skip_existing = false;
    r.write_manifest = true;
    r.resume = true;
    let second = harvest(&r, &mut disk, journal(1));
    assert_eq!(second.outcome.copied, 1);
    assert_eq!(second.outcome.skipped, 1);
    // The manifest lists what the journal had and what was copied.
    let (path, text) = second.manifest.unwrap();
    assert_eq!(path.text, "dest/harvest-manifest.mhl");
    assert!(text.contains("<file>a</file>"));
    assert!(text.contains("<file>b</file>"));

    // A changed source is copied again.
    disk.insert("src/a".into(), (vec![1; 11], 100));
    let third = harvest(&r, &mut disk, journal(2));
    assert_eq!(third.outcome.copied, 1);
    assert_eq!(third.outcome.skipped, 1);

    // Other settings do not resume, and neither does a run that was not asked.
    r.algo = HashAlgo::Md5;
    assert_eq!(harvest(&r, &mut disk, journal(2)).outcome.skipped, 0);
    assert_eq!(harvest(&c, &mut disk, journal(2)).outcome.skipped, 0);
}

#[test]
fn a_failed_copy_gets_no_record_and_no_manifest() {
    let mut disk = Disk::new();
    disk.insert("src/a".into(), (vec![1; 10], 100));
    let mut c = cfg("src", "dest");
    c.write_manifest = true;
    let files = scanned(&c, &disk);
    let there = stats(&c, &disk, &files);
    let mut run = run_harvest(&c, files, 3, None, &there);
    assert!(!run.appending);
    let f = run.to_copy[0].clone();
    let mut report = copy(&c, &mut disk, &f);
    report.dests[0].ok = false;
    let done = run.on_done(&report);
    assert!(done.record.is_none());
    match done.event {
        HarvestEvent::FileDone { rel, dest, bytes, done_files, done_bytes, ok } => {
            assert_eq!((rel.as_str(), dest.as_str()), ("a", "a"));
            assert_eq!((bytes, done_files, done_bytes, ok), (10, 1, 10, false));
        }
        HarvestEvent::Planned { .. } => panic!("not a file event"),
    }
    let results = vec![Ok(report), Err("reading src/b: gone".to_string())];
    let outcome = run.finish(&results, false);
    assert_eq!(outcome.copied, 1);
    assert_eq!(outcome.unreadable, 3);
    assert_eq!(outcome.copied_bytes, 10);
    assert_eq!(outcome.verify_failures, vec!["dest/a".to_string()]);
    assert_eq!(outcome.errors, vec!["reading src/b: gone".to_string()]);
    assert_eq!(outcome.journal_path.text, "dest/.harvest-journal.jsonl");
    assert!(!outcome.success());
    assert!(run.manifest(&c, &results, &outcome, "t", "s", "f").is_none());
}

#[test]
fn a_cancelled_run_is_no_success() {
    let mut disk = Disk::new();
    disk.insert("src/a".into(), (vec![1; 10], 100));
    let mut c = cfg("src", "dest");
    c.write_manifest = true;
    let files = scanned(&c, &disk);
    let there = stats(&c, &disk, &files);
    let run = run_harvest(&c, files, 0, None, &there);
    let outcome = run.finish(&Vec::new(), true);
    assert!(outcome.cancelled);
    assert!(!outcome.success());
    assert!(run.manifest(&c, &Vec::new(), &outcome, "t", "s", "f").is_none());
}

#[test]
fn manifests_and_journals_have_their_places() {
    let none: Vec<FilePath> = Vec::new();
    assert_eq!(default_journal_path(&none).text, "./.harvest-journal.jsonl");
    assert_eq!(default_manifest_path(&none, "mhl").text, "./harvest-manifest.mhl");
    let mut disk = Disk::new();
    disk.insert("src/a".into(), (vec![1; 10], 100));
    let mut c = cfg("src", "/d");
    c.write_manifest = true;
    c.algo = HashAlgo::Xxh3;
    let (path, text) = harvest(&c, &mut disk, None).manifest.unwrap();
    assert_eq!(path.text, "/d/harvest-manifest.txt");
    assert!(text.starts_with("; harvest manifest (xxh3)\n"));
    disk.remove("/d/a");
    c.manifest_path = Some(FilePath::new("elsewhere/m"));
    c.journal_path = Some(FilePath::new("elsewhere/j"));
    let ran = harvest(&c, &mut disk, None);
    assert_eq!(ran.manifest.unwrap().0.text, "elsewhere/m");
    assert_eq!(ran.outcome.journal_path.text, "elsewhere/j");
}

#[test]
fn a_run_needs_a_source_and_a_destination() {
    let mut c = cfg("src", "dest");
    assert!(c.check_setup(true).is_ok());
    let e = c.check_setup(false).unwrap_err();
    assert_eq!(e.message(), "source does not exist: src");
    c.dests.clear();
    let e = c.check_setup(true).unwrap_err();
    assert!(matches!(e, SetupError::NoDestination));
    assert_eq!(e.message(), "at least one destination is required");
    assert!(matches!(c.check_setup(false).unwrap_err(), SetupError::NoSource(_)));
    assert!(c.check_source(true).is_ok());
    let e = SetupError::Scan(harvest::scan::ScanError::Cancelled);
    assert_eq!(e.message(), "scanning source: scan cancelled");
}

#[test]
fn templates_place_files_by_date() {
    let mut disk = Disk::new();
    // 2019-01-01, and a day later.
    disk.insert("src/a.mov".into(), (vec![1], 1_546_300_800));
    disk.insert("src/x/b.mov".into(), (vec![2], 1_546_387_200));
    let mut c = cfg("src", "dest");
    c.dest_template = Some("{project}/{fYYYY}-{fMM}-{fDD}/{YYYY}/{filename}".into());
    c.project = "Shoot".into();
    let ran = harvest(&c, &mut disk, None);
    assert_eq!(ran.outcome.copied, 2);
    assert_eq!(disk["dest/Shoot/2019-01-01/1970/a.mov"].0, vec![1]);
    assert_eq!(disk["dest/Shoot/2019-01-02/1970/b.mov"].0, vec![2]);
    assert_eq!(ran.records[1].rel, "x/b.mov");
    assert_eq!(ran.records[1].dest, "Shoot/2019-01-02/1970/b.mov");
}

#[test]
fn filters_and_owners_select() {
    let c = HarvestConfig {
        filter: Filter {
            include_ext: Some(vec!["mov".to_string()]),
            owner: Some("ada".to_string()),
            ..Default::default()
        },
        ..cfg("src", "dest")
    };
    let file = |name: &str| SourceFile {
        abs: FilePath::new(name),
        rel: FilePath::new(name),
        size: 1,
        mtime_ns: 0,
        dest_rel: None,
    };
    let files = vec![file("a.mov"), file("b.mov"), file("c.txt"), file("d.mov")];
    let owners = vec![Some("ada".to_string()), None, Some("ada".to_string()), Some("ada".into())];
    let kept = filter_and_template(&c, files, &owners, 0);
    let names: Vec<&str> = kept.iter().map(|f| f.rel.text.as_str()).collect();
    assert_eq!(names, vec!["a.mov", "d.mov"]);
    assert!(kept[0].dest_rel.is_none());
}

#[test]
fn reverification_counts_the_bad_copies() {
    let mut disk = Disk::new();
    for (i, name) in ["a", "b", "c", "d", "e"].iter().enumerate() {
        disk.insert(format!("src/{name}"), (vec![i as u8; 10], 100));
    }
    let c = cfg("src", "dest");
    harvest(&c, &mut disk, None);
    assert_eq!(verify(&c, &disk).copied, 5);
    for name in ["b", "d"] {
        disk.get_mut(&format!("dest/{name}")).unwrap().0[0] = 99;
    }
    let o = verify(&c, &disk);
    assert_eq!(o.copied, 3);
    assert_eq!(o.copied_bytes, 50);
    assert_eq!(o.verify_failures.len(), 2);
    assert!(o.verify_failures.iter().all(|f| f.starts_with("mismatch: ")));
    assert!(!o.success());
}

#[test]
fn instants_are_written_in_utc() {
    assert_eq!(iso_time(0), "1970-01-01T00:00:00Z");
    assert_eq!(iso_time(1_500_000_000), "1970-01-01T00:00:01.5Z");
    assert_eq!(iso_time(-1), "1969-12-31T23:59:59.999999999Z");
    assert_eq!(iso_time(1_000_000_000 * 951_827_696 + 20), "2000-02-29T12:34:56.00000002Z");
    assert_eq!(iso_time(1_000_000_000 * 253_402_300_799), "9999-12-31T23:59:59Z");
    assert_eq!(iso_time(1_000_000_000 * 253_402_300_800), "unknown");
    assert_eq!(iso_time(1_000_000_000 * -62_167_219_200), "0000-01-01T00:00:00Z");
    assert_eq!(iso_time(1_000_000_000 * -62_167_219_200 - 1), "unknown");
    assert_eq!(iso_time(i128::MAX), "unknown");
}

#[test]
fn instants_fall_on_dates() {
    assert_eq!(date_parts(0), (1970, 1, 1));
    assert_eq!(date_parts(-1), (1969, 12, 31));
    assert_eq!(date_parts(1_546_300_800_000_000_000), (2019, 1, 1));
    assert_eq!(date_parts(951_782_400_000_000_000), (2000, 2, 29));
    assert_eq!(date_parts(253_402_300_799_999_999_999), (9999, 12, 31));
    assert_eq!(date_parts(253_402_300_800_000_000_000), (1970, 1, 1));
    assert_eq!(date_parts(-377_705_116_800_000_000_000), (-9999, 1, 1));
    assert_eq!(date_parts(-377_705_116_800_000_000_001), (1970, 1, 1));
    assert_eq!(date_parts(i128::MAX), (1970, 1, 1));
    assert_eq!(date_parts(i128::MIN), (1970, 1, 1));
}

#[test]
fn sizes_add_up_unless_they_overflow() {
    let file = |size: u64| SourceFile {
        abs: FilePath::new("a"),
        rel: FilePath::new("a"),
        size,
        mtime_ns: 0,
        dest_rel: None,
    };
    assert_eq!(total_size(&vec![]), Some(0));
    assert_eq!(total_size(&vec![file(u64::MAX - 1), file(1)]), Some(u64::MAX));
    assert_eq!(total_size(&vec![file(u64::MAX), file(1)]), None);
}
