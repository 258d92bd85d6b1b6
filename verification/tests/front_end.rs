use harvest::console::{
    banner, failure_lines, failure_summary, filter_line, manifest_line, planned_line,
    progress_text, success_line,
};
use harvest::drive::{
    drive_space, eject_failure, eject_script, fits, inspect_path, mount_for, Mount,
};
use harvest::history::{
    append_history, history_entry, notification_body, progress_due, wants_eject, HistoryEntry,
};
use harvest::presets::{delete_preset, save_preset};
use harvest::request::{account_name, bare_account};
use harvest::settings::{default_hash, default_true};
use harvest::{
    build_config, ConfigError, CopyRequest, FilePath, HarvestOptions, HarvestOutcome, HashAlgo,
    Preset, Settings, DEFAULT_BUF_SIZE,
};

fn request() -> CopyRequest {
    CopyRequest {
        source: "/card".into(),
        dests: vec!["/a".into(), "/b".into()],
        hash: "MD5".into(),
        verify: true,
        resume: true,
        skip_existing: false,
        include_ext: Some("mov".into()),
        exclude_ext: None,
        min_size: Some("1K".into()),
        max_size: None,
        newer_than: None,
        older_than: None,
        exclude_paths: vec!["/card/skip".into()],
        owner_only: true,
        dest_template: Some("{filename}".into()),
        project: Some("P".into()),
        write_manifest: true,
    }
}

fn outcome() -> HarvestOutcome {
    HarvestOutcome {
        copied: 3,
        skipped: 2,
        unreadable: 0,
        copied_bytes: 77,
        verify_failures: Vec::new(),
        errors: Vec::new(),
        manifest_path: None,
        journal_path: FilePath::new("d/j"),
        cancelled: false,
    }
}

fn mounts() -> Vec<Mount> {
    let m = |point: &str, free: u64, removable: bool| Mount {
        point: point.into(),
        free,
        total: free * 2,
        removable,
    };
    vec![m("/", 10, false), m("/Volumes/Card", 20, true), m("/Volumes", 30, false)]
}

fn preset(name: &str, hash: &str) -> Preset {
    Preset {
        name: name.into(),
        sources: Vec::new(),
        dests: Vec::new(),
        hash: hash.into(),
        verify: true,
        skip_existing: true,
        include_ext: None,
        exclude_ext: None,
        min_size: None,
        max_size: None,
        newer_than: None,
        older_than: None,
        exclude_paths: Vec::new(),
        owner_only: false,
        dest_template: None,
        project: None,
        write_manifest: true,
    }
}

#[test]
fn a_request_makes_a_configuration() {
    let c = build_config(request(), Some("ada".into())).unwrap();
    assert_eq!(c.source.text, "/card");
    assert_eq!(c.dests.len(), 2);
    assert_eq!(c.dests[1].text, "/b");
    assert_eq!(c.algo, HashAlgo::Md5);
    assert!(c.verify && c.resume && !c.skip_existing && c.write_manifest);
    assert_eq!(c.filter.include_ext, Some(vec!["mov".to_string()]));
    assert_eq!(c.filter.min_size, Some(1024));
    assert_eq!(c.filter.exclude_paths[0].text, "/card/skip");
    assert_eq!(c.filter.owner.as_deref(), Some("ada"));
    assert_eq!(c.dest_template.as_deref(), Some("{filename}"));
    assert_eq!(c.project, "P");
    assert!(c.journal_path.is_none() && c.manifest_path.is_none());
}

#[test]
fn blank_templates_and_missing_projects() {
    let mut r = request();
    r.dest_template = Some("  ".into());
    r.project = None;
    r.owner_only = false;
    let c = build_config(r, Some("ada".into())).unwrap();
    assert_eq!(c.dest_template, None);
    assert_eq!(c.project, "");
    assert_eq!(c.filter.owner, None);
}

#[test]
fn bad_requests_are_refused() {
    let mut r = request();
    r.hash = "crc".into();
    let e = build_config(r, None).unwrap_err();
    assert!(matches!(e, ConfigError::UnknownHash(_)));
    assert_eq!(e.message(), "unknown hash algorithm 'crc'");
    let mut r = request();
    r.newer_than = Some("yesterday".into());
    let e = build_config(r, None).unwrap_err();
    assert!(matches!(e, ConfigError::Filter(_)));
    assert_eq!(e.message(), "invalid date 'yesterday' (expected YYYY-MM-DD)");
}

#[test]
fn the_account_comes_from_the_first_variable_that_is_set() {
    assert_eq!(account_name(Some("a".into()), Some("b".into())).as_deref(), Some("a"));
    assert_eq!(account_name(None, Some("b".into())).as_deref(), Some("b"));
    assert_eq!(account_name(Some("".into()), Some("b".into())), None);
    assert_eq!(account_name(None, None), None);
}

#[test]
fn domains_are_no_part_of_an_account() {
    assert_eq!(bare_account("STUDIO\\ana"), "ana");
    assert_eq!(bare_account("ana"), "ana");
    assert_eq!(bare_account("a\\b\\c"), "c");
    assert_eq!(bare_account("a\\"), "");
    assert_eq!(bare_account(""), "");
}

#[test]
fn the_longest_mount_point_wins() {
    let m = mounts();
    assert_eq!(drive_space(&m, "/volumes/CARD/DCIM"), (20, 40, true));
    assert_eq!(drive_space(&m, "/Volumes/Other"), (30, 60, false));
    assert_eq!(drive_space(&m, "/home"), (10, 20, false));
    assert_eq!(drive_space(&m, "E:\\"), (0, 0, false));
    assert_eq!(mount_for(&m, "/volumes/card/x"), "/Volumes/Card");
    assert_eq!(mount_for(&m, "E:\\"), "E:\\");
    let info = inspect_path(&m, "/Volumes/Card");
    assert_eq!((info.files, info.bytes, info.free_space, info.drive_total), (0, 0, 20, 40));
    assert!(info.removable);
    let twice = vec![
        Mount { point: "/x".into(), free: 1, total: 1, removable: false },
        Mount { point: "/X".into(), free: 2, total: 2, removable: true },
    ];
    assert_eq!(drive_space(&twice, "/x/y"), (1, 1, false));
}

#[test]
fn unknown_room_counts_as_enough() {
    assert!(fits(0, 100));
    assert!(fits(100, 100));
    assert!(!fits(99, 100));
}

#[test]
fn drives_are_ejected_by_script() {
    assert_eq!(
        eject_script("E:'\\"),
        "(New-Object -ComObject Shell.Application).Namespace(17).ParseName('E:\\').InvokeVerb('Eject')"
    );
    assert_eq!(eject_failure("/Volumes/Card"), "could not eject /Volumes/Card");
}

#[test]
fn presets_replace_and_sort() {
    let list = save_preset(Vec::new(), preset("beta", "md5"));
    let list = save_preset(list, preset("Alpha", "md5"));
    let list = save_preset(list, preset("gamma", "md5"));
    let list = save_preset(list, preset("beta", "xxh3"));
    let names: Vec<&str> = list.iter().map(|p| p.name.as_str()).collect();
    assert_eq!(names, vec!["Alpha", "beta", "gamma"]);
    assert_eq!(list[1].hash, "xxh3");
    let list = delete_preset(list, "Alpha");
    let list = delete_preset(list, "nobody");
    let names: Vec<&str> = list.iter().map(|p| p.name.as_str()).collect();
    assert_eq!(names, vec!["beta", "gamma"]);
}

#[test]
fn names_that_differ_in_case_keep_their_order() {
    let list = save_preset(Vec::new(), preset("B", "1"));
    let list = save_preset(list, preset("b", "2"));
    let list = save_preset(list, preset("a", "3"));
    let names: Vec<&str> = list.iter().map(|p| p.name.as_str()).collect();
    assert_eq!(names, vec!["a", "B", "b"]);
}

#[test]
fn saving_again_changes_nothing() {
    let mut list = Vec::new();
    for name in ["d", "B", "c", "b", "A"] {
        list = save_preset(list, preset(name, "md5"));
    }
    let names = |l: &Vec<Preset>| -> Vec<String> { l.iter().map(|p| p.name.clone()).collect() };
    let before = names(&list);
    assert_eq!(before, vec!["A", "B", "b", "c", "d"]);
    for name in ["c", "b", "d"] {
        list = save_preset(list, preset(name, "md5"));
        assert_eq!(names(&list), before);
    }
    let list = delete_preset(list, "b");
    assert_eq!(names(&list), vec!["A", "B", "c", "d"]);
}

#[test]
fn history_keeps_the_newest() {
    let mut list: Vec<HistoryEntry> = Vec::new();
    for i in 0..150u64 {
        let e = history_entry(i, "/card", &vec!["/a".to_string()], &outcome());
        list = append_history(list, e);
        assert_eq!(list[0].when, i);
        assert_eq!(list.len() as u64, (i + 1).min(100));
    }
    assert_eq!(list[99].when, 50);
    assert_eq!(list[0].source, "/card");
    assert_eq!(list[0].dests, vec!["/a".to_string()]);
    assert_eq!((list[0].copied, list[0].skipped, list[0].bytes), (3, 2, 77));
    assert!(list[0].success && !list[0].cancelled);
}

#[test]
fn notices_say_how_it_went() {
    let mut o = outcome();
    assert_eq!(notification_body(&o, false), "3 copied, 2 already present");
    assert_eq!(notification_body(&o, true), "3 copied, 2 already present · source ejected");
    o.errors.push("e".into());
    o.verify_failures.push("f".into());
    assert_eq!(notification_body(&o, false), "Finished with 2 problem(s)");
    o.cancelled = true;
    assert_eq!(notification_body(&o, false), "Cancelled — 3 files copied");
}

#[test]
fn only_a_good_run_ejects() {
    let mut s = Settings::default();
    let mut o = outcome();
    assert!(!wants_eject(&o, &s, true, true));
    s.auto_eject = true;
    assert!(wants_eject(&o, &s, true, true));
    assert!(!wants_eject(&o, &s, true, false), "the copies were not verified");
    assert!(!wants_eject(&o, &s, false, true));
    o.cancelled = true;
    assert!(!wants_eject(&o, &s, true, true));
    assert!(progress_due(80));
    assert!(!progress_due(79));
}

#[test]
fn settings_have_defaults() {
    let s = Settings::default();
    assert_eq!(s.default_hash, "xxh64");
    assert_eq!(default_hash(), "xxh64");
    assert!(default_true());
    assert!(s.default_verify && s.default_skip_existing && s.default_write_manifest);
    assert_eq!(s.default_exclude_ext, "");
    assert!(s.confirm_before_harvest && s.notify && !s.auto_eject && s.keep_awake);
    let o = HarvestOptions::default();
    assert_eq!(o.algo, HashAlgo::Xxh64);
    assert!(o.verify);
    assert_eq!(o.buf_size, 8 * 1024 * 1024);
    assert_eq!(DEFAULT_BUF_SIZE, 8388608);
}

#[test]
fn console_lines() {
    let mut r = request();
    r.owner_only = false;
    let mut c = build_config(r, None).unwrap();
    assert_eq!(banner(&c), "Harvesting /card -> 2 destination(s). Hash: md5. Verify: read-back.");
    c.verify = false;
    assert_eq!(banner(&c), "Harvesting /card -> 2 destination(s). Hash: md5. Verify: off.");
    assert_eq!(filter_line(4, 4), None);
    assert_eq!(filter_line(3, 10).as_deref(), Some("Filter kept 3 of 10 scanned files."));
    assert_eq!(
        planned_line(7, "1.50 MB", 2),
        "7 file(s) to copy (1.50 MB), 2 already verified."
    );
    assert_eq!(progress_text(3, 10), "3/10");
    let mut o = outcome();
    assert_eq!(success_line(&o, true), "All 5 file(s) verified OK (3 copied, 2 already done).");
    assert_eq!(
        success_line(&o, false),
        "All 5 file(s) written (not verified) OK (3 copied, 2 already done)."
    );
    assert_eq!(manifest_line(&o), None);
    o.manifest_path = Some(FilePath::new("d/m.mhl"));
    assert_eq!(manifest_line(&o).as_deref(), Some("Manifest: d/m.mhl"));
    o.errors.push("reading x: gone".into());
    o.verify_failures.push("d/y".into());
    assert_eq!(
        failure_lines(&o),
        vec![
            "ERROR: reading x: gone".to_string(),
            "VERIFY FAILED: d/y".to_string(),
            "\nProgress saved to d/j — re-run with --resume to continue.".to_string(),
        ]
    );
    assert_eq!(
        failure_summary(&o),
        "1 error(s), 1 verification failure(s) — manifest not written"
    );
}
