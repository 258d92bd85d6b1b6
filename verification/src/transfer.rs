//! End-to-end harvest orchestration shared by every front end: what is copied
//! and what is skipped, what is reported of each file, and how a run ends.
//!
//! [`run_harvest`] takes what a scan found and splits it into work and what is
//! already there. The [`HarvestRun`] it returns is told of every finished copy,
//! and closes with a [`HarvestOutcome`] and the manifest.

use crate::copy;
use crate::copy::FileReport;
use crate::hash;
use crate::hash::HashAlgo;
use crate::journal;
use crate::journal::{
    find_done, record_of, JournalHeader, JournalRecord, LoadedJournal, JOURNAL_VERSION,
};
use crate::manifest;
use crate::manifest::{to_mhl, to_sidecar, ManifestEntry};
use crate::path;
use crate::path::{forward_slash, FilePath};
use crate::run;
use crate::run::{present_at_all, HarvestConfig, JOURNAL_NAME};
use crate::scan;
use crate::scan::{FileMeta, SourceFile};
use crate::text;
use crate::text::copy_texts;
use vstd::hash_map::StringHashMap;
use vstd::prelude::*;
use vstd::string::*;

verus! {

/// Progress notifications emitted during a run.
#[derive(Debug, Clone)]
pub enum HarvestEvent {
    /// Emitted once after scanning/filtering/partitioning, before copying.
    Planned {
        /// As `kept`: what the filter drops is not counted.
        total_scanned: usize,
        /// The files that passed the filter.
        kept: usize,
        to_copy: usize,
        skipped: usize,
        copy_bytes: u64,
    },
    /// A file finished copying (and verifying, if enabled).
    FileDone {
        rel: String,
        dest: String,
        bytes: u64,
        done_files: usize,
        done_bytes: u64,
        ok: bool,
    },
}

/// What a [`HarvestEvent`] stands for.
pub enum EventModel {
    Planned { total_scanned: nat, kept: nat, to_copy: nat, skipped: nat, copy_bytes: nat },
    FileDone {
        rel: Seq<char>,
        dest: Seq<char>,
        bytes: u64,
        done_files: nat,
        done_bytes: nat,
        ok: bool,
    },
}

impl View for HarvestEvent {
    type V = EventModel;

    open spec fn view(&self) -> EventModel {
        match *self {
            HarvestEvent::Planned { total_scanned, kept, to_copy, skipped, copy_bytes } => {
                EventModel::Planned {
                    total_scanned: total_scanned as nat,
                    kept: kept as nat,
                    to_copy: to_copy as nat,
                    skipped: skipped as nat,
                    copy_bytes: copy_bytes as nat,
                }
            },
            HarvestEvent::FileDone { rel, dest, bytes, done_files, done_bytes, ok } => {
                EventModel::FileDone {
                    rel: rel@,
                    dest: dest@,
                    bytes,
                    done_files: done_files as nat,
                    done_bytes: done_bytes as nat,
                    ok,
                }
            },
        }
    }
}

/// Summary returned when a run finishes.
#[derive(Debug, Clone)]
pub struct HarvestOutcome {
    pub copied: usize,
    pub skipped: usize,
    /// Files that couldn't be read during the source scan (permission denied,
    /// locked, unreadable media) and were left out of the transfer.
    pub unreadable: usize,
    pub copied_bytes: u64,
    pub verify_failures: Vec<String>,
    pub errors: Vec<String>,
    pub manifest_path: Option<FilePath>,
    pub journal_path: FilePath,
    /// True if the run was cancelled before all files were processed.
    pub cancelled: bool,
}

/// What a [`HarvestOutcome`] stands for.
pub struct OutcomeModel {
    pub copied: nat,
    pub skipped: nat,
    pub unreadable: usize,
    pub copied_bytes: nat,
    pub verify_failures: Seq<Seq<char>>,
    pub errors: Seq<Seq<char>>,
    pub manifest_path: Option<Seq<char>>,
    pub journal_path: Seq<char>,
    pub cancelled: bool,
}

impl View for HarvestOutcome {
    type V = OutcomeModel;

    open spec fn view(&self) -> OutcomeModel {
        OutcomeModel {
            copied: self.copied as nat,
            skipped: self.skipped as nat,
            unreadable: self.unreadable,
            copied_bytes: self.copied_bytes as nat,
            verify_failures: text::texts(self.verify_failures@),
            errors: text::texts(self.errors@),
            manifest_path: path::path_text(self.manifest_path),
            journal_path: self.journal_path@,
            cancelled: self.cancelled,
        }
    }
}

impl OutcomeModel {
    /// Whether nothing went wrong.
    pub open spec fn success(self) -> bool {
        self.errors.len() == 0 && self.verify_failures.len() == 0 && !self.cancelled
    }
}

impl Default for HarvestOutcome {
    fn default() -> (r: Self)
        ensures
            r@ == (OutcomeModel {
                copied: 0,
                skipped: 0,
                unreadable: 0,
                copied_bytes: 0,
                verify_failures: Seq::empty(),
                errors: Seq::empty(),
                manifest_path: None,
                journal_path: Seq::empty(),
                cancelled: false,
            }),
    {
        let r = HarvestOutcome {
            copied: 0,
            skipped: 0,
            unreadable: 0,
            copied_bytes: 0,
            verify_failures: Vec::new(),
            errors: Vec::new(),
            manifest_path: None,
            journal_path: FilePath { text: String::new() },
            cancelled: false,
        };
        assert(r@.verify_failures == Seq::<Seq<char>>::empty());
        assert(r@.errors == Seq::<Seq<char>>::empty());
        assert(r@.journal_path == Seq::<char>::empty());
        r
    }
}

impl HarvestOutcome {
    /// Whether nothing went wrong: no error, no failed verification, and the
    /// run was not cancelled.
    pub fn success(&self) -> (r: bool)
        ensures
            r == self@.success(),
    {
        self.errors.len() == 0 && self.verify_failures.len() == 0 && !self.cancelled
    }
}

// ---------------------------------------------------------------------------
// Where the journal and the manifest stand
// ---------------------------------------------------------------------------

/// The first destination, or the current directory.
pub open spec fn first_dest(dests: Seq<Seq<char>>) -> Seq<char> {
    if dests.len() == 0 {
        "."@
    } else {
        dests[0]
    }
}

/// Where the journal of a run stands.
pub open spec fn journal_location(cfg: HarvestConfig) -> Seq<char> {
    match cfg.journal_path {
        Some(p) => p@,
        None => path::path_join(first_dest(path::path_texts(cfg.dests@)), JOURNAL_NAME@),
    }
}

/// The extension of the manifest: `mhl` for the algorithms that a Media Hash
/// List knows, else `txt`.
pub open spec fn manifest_ext(algo: HashAlgo) -> Seq<char> {
    if hash::mhl_element_of(algo) is Some {
        "mhl"@
    } else {
        "txt"@
    }
}

/// Where the manifest of a run stands.
pub open spec fn manifest_location(cfg: HarvestConfig) -> Seq<char> {
    match cfg.manifest_path {
        Some(p) => p@,
        None => path::path_join(
            first_dest(path::path_texts(cfg.dests@)),
            "harvest-manifest."@ + manifest_ext(cfg.algo),
        ),
    }
}

/// The first destination, or the current directory.
fn first_root(dests: &Vec<FilePath>) -> (r: FilePath)
    ensures
        r@ == first_dest(path::path_texts(dests@)),
{
    if dests.len() == 0 {
        FilePath::new(".")
    } else {
        assert(path::path_texts(dests@)[0] == dests@[0]@);
        dests[0].clone()
    }
}

/// Where the journal stands unless the user says otherwise.
pub fn default_journal_path(dests: &Vec<FilePath>) -> (r: FilePath)
    ensures
        r@ == path::path_join(first_dest(path::path_texts(dests@)), JOURNAL_NAME@),
{
    first_root(dests).join(&FilePath::new(JOURNAL_NAME))
}

/// Where the manifest stands unless the user says otherwise.
pub fn default_manifest_path(dests: &Vec<FilePath>, ext: &str) -> (r: FilePath)
    ensures
        r@ == path::path_join(
            first_dest(path::path_texts(dests@)),
            "harvest-manifest."@ + ext@,
        ),
{
    let mut name = "harvest-manifest.".to_owned();
    name.append(ext);
    first_root(dests).join(&FilePath { text: name })
}

/// Where the journal of a run stands.
pub fn journal_file(cfg: &HarvestConfig) -> (r: FilePath)
    ensures
        r@ == journal_location(*cfg),
{
    match &cfg.journal_path {
        Some(p) => p.clone(),
        None => default_journal_path(&cfg.dests),
    }
}

/// The texts of the destinations.
fn dest_strings(dests: &Vec<FilePath>) -> (r: Vec<String>)
    ensures
        text::texts(r@) == path::path_texts(dests@),
{
    let ghost all = path::path_texts(dests@);
    let mut r: Vec<String> = Vec::new();
    let mut i: usize = 0;
    assert(text::texts(r@) == all.take(0));
    while i < dests.len()
        invariant
            all == path::path_texts(dests@),
            i <= dests@.len(),
            text::texts(r@) == all.take(i as int),
        decreases dests@.len() - i,
    {
        let ghost before = text::texts(r@);
        r.push(dests[i].text.clone());
        assert(text::texts(r@) == before.push(dests@[i as int]@));
        assert(all.take(i + 1) == before.push(dests@[i as int]@));
        i += 1;
    }
    assert(all.take(all.len() as int) == all);
    r
}

// ---------------------------------------------------------------------------
// What is copied and what is skipped
// ---------------------------------------------------------------------------

/// Whether a run goes on from a prior journal: it was asked to, there is one,
/// and it matches these settings.
pub open spec fn resumes(cfg: HarvestConfig, loaded: Option<LoadedJournal>) -> bool {
    cfg.resume && (loaded matches Some(j) && j.header@.compatible(
        hash::algo_name(cfg.algo),
        cfg.verify,
        path::path_texts(cfg.dests@),
    ))
}

/// What a run takes over from a prior journal.
pub open spec fn taken_over(cfg: HarvestConfig, loaded: Option<LoadedJournal>) -> Map<
    Seq<char>,
    JournalRecord,
> {
    if resumes(cfg, loaded) {
        loaded->0.done@
    } else {
        Map::empty()
    }
}

/// What a run takes over from a prior journal, and whether it goes on from it.
pub fn resume_point(cfg: &HarvestConfig, loaded: Option<LoadedJournal>) -> (r: (
    StringHashMap<JournalRecord>,
    bool,
))
    ensures
        r.0@ == taken_over(*cfg, loaded),
        r.1 == resumes(*cfg, loaded),
{
    if cfg.resume {
        if let Some(j) = loaded {
            if j.header.compatible_with(cfg.algo.name(), cfg.verify, &dest_strings(&cfg.dests)) {
                return (j.done, true);
            }
        }
    }
    (StringHashMap::new(), false)
}

/// The header of the journal of a run.
pub open spec fn header_of(cfg: HarvestConfig) -> journal::HeaderModel {
    journal::HeaderModel {
        v: JOURNAL_VERSION,
        algo: hash::algo_name(cfg.algo),
        verify: cfg.verify,
        dests: path::path_texts(cfg.dests@),
    }
}

/// The header of the journal of a run.
pub fn journal_header(cfg: &HarvestConfig) -> (r: JournalHeader)
    ensures
        r@ == header_of(*cfg),
{
    JournalHeader {
        v: JOURNAL_VERSION,
        algo: cfg.algo.name().to_owned(),
        verify: cfg.verify,
        dests: dest_strings(&cfg.dests),
    }
}

/// The files of a run, split up: those to copy, the manifest entries of those
/// that the journal already has, and the number of those that are already at
/// every destination.
pub struct Parts {
    pub to_copy: Seq<scan::SourceModel>,
    pub skipped: Seq<manifest::EntryModel>,
    pub existing: nat,
}

/// The manifest entry of a file that the journal already has.
pub open spec fn journaled_entry(rec: journal::RecordModel) -> manifest::EntryModel {
    manifest::EntryModel { rel: rec.written_to(), size: rec.size, hash: rec.hash }
}

/// The files of a run, split up. A file is skipped if either the journal
/// already has it, or it is already at every destination and such files are
/// to be skipped.
pub open spec fn parts_of(
    files: Seq<scan::SourceModel>,
    done: Map<Seq<char>, JournalRecord>,
    skip_existing: bool,
    stats: Seq<Seq<Option<FileMeta>>>,
) -> Parts
    decreases files.len(),
{
    if files.len() == 0 {
        Parts { to_copy: Seq::empty(), skipped: Seq::empty(), existing: 0 }
    } else {
        let p = parts_of(files.drop_last(), done, skip_existing, stats);
        let f = files.last();
        if journal::already_done(done, f) {
            Parts {
                skipped: p.skipped.push(journaled_entry(done[path::slashed(f.rel)]@)),
                ..p
            }
        } else if skip_existing && run::present_everywhere(stats[files.len() - 1], f) {
            Parts { existing: p.existing + 1, ..p }
        } else {
            Parts { to_copy: p.to_copy.push(f), ..p }
        }
    }
}

/// The paths of the destinations that failed, report after report.
pub open spec fn failed_paths(reports: Seq<copy::ReportModel>) -> Seq<Seq<char>>
    decreases reports.len(),
{
    if reports.len() == 0 {
        Seq::<Seq<char>>::empty()
    } else {
        failed_paths(reports.drop_last()) + failed_dests(reports.last().dests)
    }
}

/// The paths of the destinations that failed.
pub open spec fn failed_dests(dests: Seq<copy::DestModel>) -> Seq<Seq<char>>
    decreases dests.len(),
{
    if dests.len() == 0 {
        Seq::<Seq<char>>::empty()
    } else if dests.last().ok {
        failed_dests(dests.drop_last())
    } else {
        failed_dests(dests.drop_last()).push(dests.last().path)
    }
}

/// The bytes of the copies, added up.
pub open spec fn bytes_sum(reports: Seq<copy::ReportModel>) -> nat
    decreases reports.len(),
{
    if reports.len() == 0 {
        0
    } else {
        bytes_sum(reports.drop_last()) + reports.last().bytes as nat
    }
}

/// A harvest between its scan and its end.
pub struct HarvestRun {
    /// The files to copy.
    pub to_copy: Vec<SourceFile>,
    /// The manifest entries of the files that the journal already has.
    pub skipped: Vec<ManifestEntry>,
    /// The number of files that are already at every destination.
    pub existing_skipped: usize,
    /// The number of files that could not be read during the scan.
    pub unreadable: usize,
    /// The number of files that passed the filter.
    pub kept: usize,
    /// The bytes to copy.
    pub copy_bytes: u64,
    /// Whether the journal is gone on with rather than begun.
    pub appending: bool,
    /// Where the journal stands.
    pub journal_path: FilePath,
    /// The number of files that finished.
    pub done_files: usize,
    /// The bytes of the files that finished.
    pub done_bytes: u64,
    /// The paths of the destinations that failed.
    pub failures: Vec<String>,
    /// The reports of the files that finished.
    pub reports: Ghost<Seq<copy::ReportModel>>,
}

/// What is to be done when a file has finished: tell the user, and, if every
/// destination is in order, write a record to the journal.
pub struct Completion {
    pub event: HarvestEvent,
    pub record: Option<JournalRecord>,
}

impl HarvestRun {
    /// What holds throughout a run.
    pub open spec fn wf(self) -> bool {
        &&& self.kept == self.to_copy@.len() + self.skipped@.len() + self.existing_skipped
        &&& self.copy_bytes == run::size_sum(scan::models(self.to_copy@))
        &&& self.done_files == self.reports@.len()
        &&& self.done_bytes == bytes_sum(self.reports@)
        &&& text::texts(self.failures@) == failed_paths(self.reports@)
    }

    /// Whether two states belong to the same run.
    pub open spec fn same_run(self, other: HarvestRun) -> bool {
        &&& self.to_copy == other.to_copy
        &&& self.skipped == other.skipped
        &&& self.existing_skipped == other.existing_skipped
        &&& self.unreadable == other.unreadable
        &&& self.kept == other.kept
        &&& self.copy_bytes == other.copy_bytes
        &&& self.appending == other.appending
        &&& self.journal_path == other.journal_path
    }

    /// Whether the run is the one that the settings, the files, the prior
    /// journal and what is at the destinations give rise to.
    pub open spec fn stems_from(
        self,
        cfg: HarvestConfig,
        files: Seq<scan::SourceModel>,
        loaded: Option<LoadedJournal>,
        stats: Seq<Seq<Option<FileMeta>>>,
    ) -> bool {
        let parts = parts_of(files, taken_over(cfg, loaded), cfg.skip_existing, stats);
        &&& scan::models(self.to_copy@) == parts.to_copy
        &&& manifest::entry_models(self.skipped@) == parts.skipped
        &&& self.existing_skipped == parts.existing
        &&& self.kept == files.len()
        &&& self.appending == resumes(cfg, loaded)
        &&& self.journal_path@ == journal_location(cfg)
    }

    /// How the run ends, given what became of each file that was tried.
    pub open spec fn outcome(
        self,
        results: Seq<Result<FileReport, String>>,
        cancelled: bool,
    ) -> OutcomeModel {
        OutcomeModel {
            copied: ok_reports(results).len(),
            skipped: self.skipped@.len() + self.existing_skipped as nat,
            unreadable: self.unreadable,
            copied_bytes: bytes_sum(self.reports@),
            verify_failures: failed_paths(self.reports@),
            errors: error_texts(results),
            manifest_path: None,
            journal_path: self.journal_path@,
            cancelled,
        }
    }

    /// The event that tells what the run is going to do.
    pub fn planned(&self) -> (r: HarvestEvent)
        requires
            self.wf(),
        ensures
            r@ == (EventModel::Planned {
                total_scanned: self.kept as nat,
                kept: self.kept as nat,
                to_copy: self.to_copy@.len(),
                skipped: self.skipped@.len() + self.existing_skipped as nat,
                copy_bytes: run::size_sum(scan::models(self.to_copy@)),
            }),
    {
        HarvestEvent::Planned {
            total_scanned: self.kept,
            kept: self.kept,
            to_copy: self.to_copy.len(),
            skipped: self.skipped.len() + self.existing_skipped,
            copy_bytes: self.copy_bytes,
        }
    }

    /// A file has finished copying. Only a file that is in order at every
    /// destination gets a journal record; of any other, the destinations that
    /// failed are noted.
    pub fn on_done(&mut self, report: &FileReport) -> (r: Completion)
        requires
            old(self).wf(),
            old(self).done_files < usize::MAX,
            old(self).done_bytes + report.bytes <= u64::MAX,
        ensures
            final(self).wf(),
            final(self).same_run(*old(self)),
            final(self).reports@ == old(self).reports@.push(report@),
            r.event@ == (EventModel::FileDone {
                rel: path::slashed(report@.rel),
                dest: path::slashed(report@.dest_rel),
                bytes: report@.bytes,
                done_files: old(self).reports@.len() + 1,
                done_bytes: bytes_sum(old(self).reports@) + report@.bytes as nat,
                ok: report@.all_ok(),
            }),
            r.record is Some <==> report@.all_ok(),
            r.record matches Some(rec) ==> rec@ == journal::record_model(report@),
    {
        let ghost before = self.reports@;
        self.done_bytes = self.done_bytes + report.bytes;
        self.done_files = self.done_files + 1;
        let ok = report.all_ok();
        let record = if ok {
            Some(record_of(report))
        } else {
            None
        };
        note_failures(&mut self.failures, report);
        proof {
            self.reports@ = before.push(report@);
            assert(self.reports@.drop_last() == before);
        }
        Completion {
            event: HarvestEvent::FileDone {
                rel: forward_slash(&report.rel),
                dest: forward_slash(&report.dest_rel),
                bytes: report.bytes,
                done_files: self.done_files,
                done_bytes: self.done_bytes,
                ok,
            },
            record,
        }
    }

    /// How the run ended. `results` holds what became of each file that was
    /// tried: its report, or why it could not be copied.
    pub fn finish(&self, results: &Vec<Result<FileReport, String>>, cancelled: bool) -> (r:
        HarvestOutcome)
        requires
            self.wf(),
        ensures
            r@ == self.outcome(results@, cancelled),
    {
        let mut copied: usize = 0;
        let mut errors: Vec<String> = Vec::new();
        let mut i: usize = 0;
        assert(results@.take(0) == Seq::<Result<FileReport, String>>::empty());
        assert(text::texts(errors@) == error_texts(results@.take(0)));
        while i < results.len()
            invariant
                i <= results@.len(),
                copied <= i,
                copied == ok_reports(results@.take(i as int)).len(),
                text::texts(errors@) == error_texts(results@.take(i as int)),
            decreases results@.len() - i,
        {
            assert(results@.take(i + 1).drop_last() == results@.take(i as int));
            assert(results@.take(i + 1).last() == results@[i as int]);
            let ghost before = text::texts(errors@);
            match &results[i] {
                Ok(_) => {
                    copied += 1;
                },
                Err(e) => {
                    errors.push(e.clone());
                    assert(text::texts(errors@) == before.push(e@));
                },
            }
            i += 1;
        }
        assert(results@.take(results@.len() as int) == results@);
        HarvestOutcome {
            copied,
            skipped: self.skipped.len() + self.existing_skipped,
            unreadable: self.unreadable,
            copied_bytes: self.done_bytes,
            verify_failures: copy_texts(&self.failures),
            errors,
            manifest_path: None,
            journal_path: self.journal_path.clone(),
            cancelled,
        }
    }

    /// The manifest and where to write it. There is one only if it is wanted
    /// and everything succeeded. It lists the files that the journal already
    /// had and those that were copied.
    pub fn manifest(
        &self,
        cfg: &HarvestConfig,
        results: &Vec<Result<FileReport, String>>,
        outcome: &HarvestOutcome,
        tool: &str,
        start: &str,
        finish: &str,
    ) -> (r: Option<(FilePath, String)>)
        ensures
            r is Some <==> cfg.write_manifest && outcome@.success(),
            r matches Some(m) ==> m.0@ == manifest_location(*cfg) && m.1@ == manifest_text(
                manifest::entry_models(self.skipped@) + report_entries(ok_reports(results@)),
                cfg.algo,
                tool@,
                start@,
                finish@,
            ),
    {
        if !cfg.write_manifest || !outcome.success() {
            return None;
        }
        let entries = self.entries(results);
        let (ext, contents) = match to_mhl(&entries, cfg.algo, tool, start, finish) {
            Some(mhl) => ("mhl", mhl),
            None => ("txt", to_sidecar(&entries, cfg.algo)),
        };
        let at = match &cfg.manifest_path {
            Some(p) => p.clone(),
            None => default_manifest_path(&cfg.dests, ext),
        };
        Some((at, contents))
    }

    /// The manifest entries of a run: those of the files that the journal
    /// already had, then those of the files that were copied.
    fn entries(&self, results: &Vec<Result<FileReport, String>>) -> (r: Vec<ManifestEntry>)
        ensures
            manifest::entry_models(r@) == manifest::entry_models(self.skipped@) + report_entries(
                ok_reports(results@),
            ),
    {
        let ghost first = manifest::entry_models(self.skipped@);
        let mut entries: Vec<ManifestEntry> = Vec::new();
        let mut i: usize = 0;
        assert(manifest::entry_models(entries@) == first.take(0));
        while i < self.skipped.len()
            invariant
                first == manifest::entry_models(self.skipped@),
                i <= self.skipped@.len(),
                manifest::entry_models(entries@) == first.take(i as int),
            decreases self.skipped@.len() - i,
        {
            let ghost before = manifest::entry_models(entries@);
            entries.push(self.skipped[i].clone());
            assert(manifest::entry_models(entries@) == before.push(self.skipped@[i as int]@));
            assert(first.take(i + 1) == before.push(self.skipped@[i as int]@));
            i += 1;
        }
        assert(first.take(first.len() as int) == first);
        let mut k: usize = 0;
        assert(results@.take(0) == Seq::<Result<FileReport, String>>::empty());
        assert(manifest::entry_models(entries@) == first + report_entries(
            ok_reports(results@.take(0)),
        ));
        while k < results.len()
            invariant
                k <= results@.len(),
                manifest::entry_models(entries@) == first + report_entries(
                    ok_reports(results@.take(k as int)),
                ),
            decreases results@.len() - k,
        {
            assert(results@.take(k + 1).drop_last() == results@.take(k as int));
            assert(results@.take(k + 1).last() == results@[k as int]);
            let ghost before = manifest::entry_models(entries@);
            let ghost so_far = ok_reports(results@.take(k as int));
            match &results[k] {
                Ok(report) => {
                    let entry = ManifestEntry {
                        rel: report.dest_rel.clone(),
                        size: report.bytes,
                        hash: report.source_hash.clone(),
                    };
                    let ghost model = entry@;
                    entries.push(entry);
                    assert(manifest::entry_models(entries@) == before.push(model));
                    assert(report_entries(so_far.push(report@)) == report_entries(so_far).push(
                        model,
                    ));
                    assert(before.push(model) == first + report_entries(so_far).push(model));
                },
                Err(_) => {},
            }
            k += 1;
        }
        assert(results@.take(results@.len() as int) == results@);
        entries
    }
}

/// The reports among the results.
pub open spec fn ok_reports(results: Seq<Result<FileReport, String>>) -> Seq<copy::ReportModel>
    decreases results.len(),
{
    if results.len() == 0 {
        Seq::<copy::ReportModel>::empty()
    } else {
        match results.last() {
            Ok(r) => ok_reports(results.drop_last()).push(r@),
            Err(e) => ok_reports(results.drop_last()),
        }
    }
}

/// The errors among the results.
pub open spec fn error_texts(results: Seq<Result<FileReport, String>>) -> Seq<Seq<char>>
    decreases results.len(),
{
    if results.len() == 0 {
        Seq::<Seq<char>>::empty()
    } else {
        match results.last() {
            Ok(r) => error_texts(results.drop_last()),
            Err(e) => error_texts(results.drop_last()).push(e@),
        }
    }
}

/// The manifest entries of the files that were copied.
pub open spec fn report_entries(reports: Seq<copy::ReportModel>) -> Seq<manifest::EntryModel> {
    Seq::new(
        reports.len(),
        |i: int|
            manifest::EntryModel {
                rel: reports[i].dest_rel,
                size: reports[i].bytes,
                hash: reports[i].source_hash,
            },
    )
}

/// The text of a manifest: a Media Hash List if it knows the algorithm, else a
/// sidecar.
pub open spec fn manifest_text(
    entries: Seq<manifest::EntryModel>,
    algo: HashAlgo,
    tool: Seq<char>,
    start: Seq<char>,
    finish: Seq<char>,
) -> Seq<char> {
    match manifest::mhl_document(entries, algo, tool, start, finish) {
        Some(s) => s,
        None => manifest::sidecar_document(entries, algo),
    }
}

/// Notes the destinations of a report that failed.
fn note_failures(failures: &mut Vec<String>, report: &FileReport)
    ensures
        text::texts(final(failures)@) == text::texts(old(failures)@) + failed_dests(report@.dests),
{
    let ghost noted = text::texts(failures@);
    let ghost all = report@.dests;
    let mut i: usize = 0;
    assert(all.take(0) == Seq::<copy::DestModel>::empty());
    assert(noted + failed_dests(all.take(0)) == noted);
    while i < report.dests.len()
        invariant
            all == copy::dest_models(report.dests@),
            i <= report.dests@.len(),
            text::texts(failures@) == noted + failed_dests(all.take(i as int)),
        decreases report.dests@.len() - i,
    {
        assert(all.take(i + 1).drop_last() == all.take(i as int));
        assert(all.take(i + 1).last() == report.dests@[i as int]@);
        let ghost before = text::texts(failures@);
        if !report.dests[i].ok {
            failures.push(report.dests[i].path.text.clone());
            assert(text::texts(failures@) == before.push(report.dests@[i as int].path@));
            assert(before.push(report.dests@[i as int].path@) == noted + failed_dests(
                all.take(i as int),
            ).push(report.dests@[i as int].path@));
        }
        i += 1;
    }
    assert(all.take(all.len() as int) == all);
}

/// Starts a harvest of the files that a scan found, filtered and templated:
/// decides what to copy and what is already there. `unreadable` counts what
/// the scan could not read, `loaded` is the prior journal if there is one, and
/// `stats` holds, for each file, what is known of the regular file at each
/// destination; the lists may be empty where what is there is not skipped.
pub fn run_harvest(
    cfg: &HarvestConfig,
    files: Vec<SourceFile>,
    unreadable: u64,
    loaded: Option<LoadedJournal>,
    stats: &Vec<Vec<Option<FileMeta>>>,
) -> (r: HarvestRun)
    requires
        stats@.len() == files@.len(),
        cfg.skip_existing ==> run::covers(run::stat_lists(stats@), cfg.dests@.len()),
        run::size_sum(scan::models(files@)) <= u64::MAX,
    ensures
        r.wf(),
        r.stems_from(*cfg, scan::models(files@), loaded, run::stat_lists(stats@)),
        r.unreadable == unreadable as usize,
        r.reports@ == Seq::<copy::ReportModel>::empty(),
{
    let ghost all = scan::models(files@);
    let ghost there = run::stat_lists(stats@);
    let kept = files.len();
    let (done, appending) = resume_point(cfg, loaded);
    let mut to_copy: Vec<SourceFile> = Vec::new();
    let mut skipped: Vec<ManifestEntry> = Vec::new();
    let mut existing: usize = 0;
    let mut copy_bytes: u64 = 0;
    let ghost given = files@;
    let mut i: usize = 0;
    proof {
        assert(all.take(0) == Seq::<scan::SourceModel>::empty());
        assert(scan::models(to_copy@) == Seq::<scan::SourceModel>::empty());
        assert(manifest::entry_models(skipped@) == Seq::<manifest::EntryModel>::empty());
    }
    for f in it: files
        invariant
            it.seq() == given,
            all == scan::models(given),
            there == run::stat_lists(stats@),
            stats@.len() == given.len(),
            kept == given.len(),
            run::size_sum(all) <= u64::MAX,
            i == it.index(),
            scan::models(to_copy@) == parts_of(
                all.take(i as int),
                done@,
                cfg.skip_existing,
                there,
            ).to_copy,
            manifest::entry_models(skipped@) == parts_of(
                all.take(i as int),
                done@,
                cfg.skip_existing,
                there,
            ).skipped,
            existing == parts_of(all.take(i as int), done@, cfg.skip_existing, there).existing,
            i == to_copy@.len() + skipped@.len() + existing,
            copy_bytes == run::size_sum(scan::models(to_copy@)),
            copy_bytes <= run::size_sum(all.take(i as int)),
    {
        proof {
            assert(all.take(i + 1).drop_last() == all.take(i as int));
            assert(all.take(i + 1).last() == f@);
            assert(there[i as int] == stats@[i as int]@);
            run::part_is_no_larger(all, i + 1);
        }
        match find_done(&done, &f) {
            Some(rec) => {
                let ghost before = manifest::entry_models(skipped@);
                let entry = ManifestEntry {
                    rel: if rec.dest.as_str().is_empty() {
                        FilePath { text: rec.rel.clone() }
                    } else {
                        FilePath { text: rec.dest.clone() }
                    },
                    size: rec.size,
                    hash: rec.hash.clone(),
                };
                let ghost model = entry@;
                skipped.push(entry);
                assert(manifest::entry_models(skipped@) == before.push(model));
            },
            None => {
                if cfg.skip_existing && present_at_all(&stats[i], &f) {
                    existing += 1;
                } else {
                    let ghost before = scan::models(to_copy@);
                    copy_bytes = copy_bytes + f.size;
                    let ghost model = f@;
                    to_copy.push(f);
                    assert(scan::models(to_copy@) == before.push(model));
                    assert(before.push(model).drop_last() == before);
                }
            },
        }
        i += 1;
    }
    assert(all.take(all.len() as int) == all);
    let failures: Vec<String> = Vec::new();
    assert(text::texts(failures@) == Seq::<Seq<char>>::empty());
    HarvestRun {
        to_copy,
        skipped,
        existing_skipped: existing,
        unreadable: unreadable as usize,
        kept,
        copy_bytes,
        appending,
        journal_path: journal_file(cfg),
        done_files: 0,
        done_bytes: 0,
        failures,
        reports: Ghost(Seq::empty()),
    }
}

// ---------------------------------------------------------------------------
// Laws
// ---------------------------------------------------------------------------

/// Every file is either copied, or skipped because of the journal, or skipped
/// because it is already there: none is lost and none is counted twice.
pub proof fn every_file_is_accounted_for(
    files: Seq<scan::SourceModel>,
    done: Map<Seq<char>, JournalRecord>,
    skip_existing: bool,
    stats: Seq<Seq<Option<FileMeta>>>,
)
    ensures
        ({
            let p = parts_of(files, done, skip_existing, stats);
            p.to_copy.len() + p.skipped.len() + p.existing == files.len()
        }),
    decreases files.len(),
{
    if files.len() > 0 {
        every_file_is_accounted_for(files.drop_last(), done, skip_existing, stats);
    }
}

/// A re-run copies nothing: where each file is in the journal or, if such
/// files are skipped, already at every destination, nothing is left to copy.
pub proof fn rerun_copies_nothing(
    files: Seq<scan::SourceModel>,
    done: Map<Seq<char>, JournalRecord>,
    skip_existing: bool,
    stats: Seq<Seq<Option<FileMeta>>>,
)
    requires
        forall|i: int|
            0 <= i < files.len() ==> journal::already_done(done, #[trigger] files[i])
                || skip_existing && run::present_everywhere(stats[i], files[i]),
    ensures
        ({
            let p = parts_of(files, done, skip_existing, stats);
            &&& p.to_copy.len() == 0
            &&& p.skipped.len() + p.existing == files.len()
        }),
    decreases files.len(),
{
    every_file_is_accounted_for(files, done, skip_existing, stats);
    if files.len() > 0 {
        let front = files.drop_last();
        assert forall|i: int| 0 <= i < front.len() implies journal::already_done(
            done,
            #[trigger] front[i],
        ) || skip_existing && run::present_everywhere(stats[i], front[i]) by {
            assert(files[i] == front[i]);
        }
        rerun_copies_nothing(front, done, skip_existing, stats);
        assert(files[files.len() - 1] == files.last());
    }
}

/// What a finished copy leaves behind is recognised: where each destination
/// still holds as many bytes as the copy handed it, and bears the modification
/// time of the source, the file counts as present everywhere.
pub proof fn finished_copy_is_recognised(
    s: copy::CopySession,
    f: scan::SourceModel,
    stats: Seq<Option<FileMeta>>,
)
    requires
        s.wf(),
        s.action is Done,
        s.data().len() == f.size,
        stats.len() == s.dests@.len(),
        forall|i: int|
            0 <= i < stats.len() ==> (#[trigger] stats[i] matches Some(m) && m.size
                == s.written@[i].len() && scan::nanos_of(m.modified) == f.mtime_ns),
    ensures
        run::stamped(stats, f),
        run::present_everywhere(stats, f),
{
    assert forall|i: int| 0 <= i < stats.len() implies (#[trigger] stats[i] matches Some(m)
        && m.size == f.size && scan::nanos_of(m.modified) == f.mtime_ns) by {
        assert(s.written@[i] == s.data());
    }
    run::stamped_copies_are_recognised(stats, f);
}

/// Running twice copies nothing the second time. The first run has tried all
/// its files and succeeded. Of each file either the journal that the second
/// run resumes has a record, or what is there is skipped and the file is still
/// present everywhere, or it was copied and bears the size and the
/// modification time of its source. The second run then has nothing to copy,
/// skips exactly what the first copied or skipped, and succeeds.
pub proof fn second_run_copies_nothing(
    cfg: HarvestConfig,
    files: Seq<scan::SourceModel>,
    loaded: Option<LoadedJournal>,
    before: Seq<Seq<Option<FileMeta>>>,
    first: HarvestRun,
    results: Seq<Result<FileReport, String>>,
    reloaded: Option<LoadedJournal>,
    after: Seq<Seq<Option<FileMeta>>>,
    second: HarvestRun,
)
    requires
        first.wf(),
        first.stems_from(cfg, files, loaded, before),
        results.len() == first.to_copy@.len(),
        first.outcome(results, false).success(),
        forall|i: int|
            0 <= i < files.len() ==> {
                ||| journal::already_done(taken_over(cfg, reloaded), #[trigger] files[i])
                ||| cfg.skip_existing && (run::present_everywhere(after[i], files[i])
                    || run::stamped(after[i], files[i]))
            },
        second.wf(),
        second.stems_from(cfg, files, reloaded, after),
        second.reports@ == Seq::<copy::ReportModel>::empty(),
    ensures
        second.to_copy@.len() == 0,
        ({
            let one = first.outcome(results, false);
            let two = second.outcome(Seq::empty(), false);
            &&& two.copied == 0
            &&& two.copied_bytes == 0
            &&& two.skipped == one.copied + one.skipped
            &&& two.success()
        }),
{
    let done = taken_over(cfg, reloaded);
    assert forall|i: int| 0 <= i < files.len() implies journal::already_done(
        done,
        #[trigger] files[i],
    ) || cfg.skip_existing && run::present_everywhere(after[i], files[i]) by {
        if run::stamped(after[i], files[i]) {
            run::stamped_copies_are_recognised(after[i], files[i]);
        }
    }
    rerun_copies_nothing(files, done, cfg.skip_existing, after);
    lemma_results_add_up(results);
    assert(scan::models(second.to_copy@).len() == second.to_copy@.len());
}

/// Every result is either a report or an error.
proof fn lemma_results_add_up(results: Seq<Result<FileReport, String>>)
    ensures
        ok_reports(results).len() + error_texts(results).len() == results.len(),
    decreases results.len(),
{
    if results.len() > 0 {
        lemma_results_add_up(results.drop_last());
    }
}

/// Without a journal to resume and without skipping what is there, every file
/// is copied, in the order of the scan.
pub proof fn fresh_run_copies_everything(
    files: Seq<scan::SourceModel>,
    stats: Seq<Seq<Option<FileMeta>>>,
)
    ensures
        parts_of(files, Map::empty(), false, stats) == (Parts {
            to_copy: files,
            skipped: Seq::empty(),
            existing: 0,
        }),
    decreases files.len(),
{
    if files.len() > 0 {
        fresh_run_copies_everything(files.drop_last(), stats);
        assert(files.drop_last().push(files.last()) == files);
    } else {
        assert(files == Seq::<scan::SourceModel>::empty());
    }
}

/// A resumed run copies just the rest: every file that the journal does not
/// have, and nothing else.
pub proof fn resumed_run_copies_the_rest(
    files: Seq<scan::SourceModel>,
    done: Map<Seq<char>, JournalRecord>,
    stats: Seq<Seq<Option<FileMeta>>>,
)
    ensures
        ({
            let to_copy = parts_of(files, done, false, stats).to_copy;
            &&& forall|i: int|
                0 <= i < files.len() && !journal::already_done(done, #[trigger] files[i])
                    ==> to_copy.contains(files[i])
            &&& forall|k: int|
                0 <= k < to_copy.len() ==> !journal::already_done(done, #[trigger] to_copy[k])
                    && files.contains(to_copy[k])
        }),
    decreases files.len(),
{
    if files.len() > 0 {
        let front = files.drop_last();
        resumed_run_copies_the_rest(front, done, stats);
        let some = parts_of(front, done, false, stats).to_copy;
        let all = parts_of(files, done, false, stats).to_copy;
        assert forall|i: int|
            0 <= i < files.len() && !journal::already_done(done, #[trigger] files[i]) implies all.contains(
            files[i],
        ) by {
            if i < front.len() {
                assert(front[i] == files[i]);
                let k = choose|k: int| 0 <= k < some.len() && some[k] == front[i];
                assert(all[k] == files[i]);
            } else {
                assert(all[some.len() as int] == files[i]);
            }
        }
        assert forall|k: int| 0 <= k < all.len() implies !journal::already_done(
            done,
            #[trigger] all[k],
        ) && files.contains(all[k]) by {
            if k < some.len() {
                assert(all[k] == some[k]);
                let i = choose|i: int| 0 <= i < front.len() && front[i] == some[k];
                assert(files[i] == all[k]);
            } else {
                assert(files[files.len() - 1] == all[k]);
            }
        }
    }
}

/// A run that does not resume takes nothing over from a journal, whatever it
/// holds, and neither does one with other settings.
pub proof fn foreign_journal_is_ignored(cfg: HarvestConfig, loaded: Option<LoadedJournal>)
    requires
        !resumes(cfg, loaded),
    ensures
        forall|f: scan::SourceModel| !journal::already_done(taken_over(cfg, loaded), f),
{
}

/// The journal that a run writes can be resumed by a run with the same
/// settings.
pub proof fn own_journal_is_resumed(cfg: HarvestConfig, loaded: LoadedJournal)
    requires
        cfg.resume,
        loaded.header@ == header_of(cfg),
    ensures
        resumes(cfg, Some(loaded)),
        taken_over(cfg, Some(loaded)) == loaded.done@,
{
}

/// The pre-flight plan and the run agree: without a journal, what the plan
/// calls present is what a run skips, and the bytes the plan would copy are
/// those of the files that the run copies. What is new or a conflict is copied,
/// and with one destination nothing else is.
pub proof fn plan_agrees_with_run(
    files: Seq<scan::SourceModel>,
    stats: Seq<Seq<Option<FileMeta>>>,
)
    ensures
        ({
            let plan = run::plan_of(files, stats);
            let parts = parts_of(files, Map::empty(), true, stats);
            &&& plan.total == files.len()
            &&& plan.present == parts.existing
            &&& plan.present + parts.to_copy.len() == plan.total
            &&& plan.new + plan.conflict <= parts.to_copy.len()
            &&& (forall|i: int| 0 <= i < files.len() ==> (#[trigger] stats[i]).len() == 1)
                ==> plan.new + plan.conflict == parts.to_copy.len()
            &&& plan.copy_bytes == run::size_sum(parts.to_copy)
        }),
    decreases files.len(),
{
    if files.len() > 0 {
        let front = files.drop_last();
        plan_agrees_with_run(front, stats);
        let before = parts_of(front, Map::empty(), true, stats).to_copy;
        assert(before.push(files.last()).drop_last() == before);
        let there = stats[front.len() as int];
        let f = files.last();
        if there.len() == 1 && !run::present_everywhere(there, f) && run::found_somewhere(there) {
            assert(there[0] is Some && !run::same_file(there[0]->0, f));
            assert(run::differs_somewhere(there, f));
        }
    }
}

/// No failed path comes out of reports that are all in order, and the other
/// way round.
pub proof fn failures_mean_a_bad_copy(reports: Seq<copy::ReportModel>)
    ensures
        failed_paths(reports).len() == 0 <==> forall|i: int|
            0 <= i < reports.len() ==> (#[trigger] reports[i]).all_ok(),
    decreases reports.len(),
{
    if reports.len() > 0 {
        let front = reports.drop_last();
        failures_mean_a_bad_copy(front);
        lemma_failed_dests(reports.last().dests);
        assert(reports.last() == reports[reports.len() - 1]);
        if forall|i: int| 0 <= i < reports.len() ==> (#[trigger] reports[i]).all_ok() {
            assert forall|i: int| 0 <= i < front.len() implies (#[trigger] front[i]).all_ok() by {
                assert(front[i] == reports[i]);
            }
        } else if forall|i: int| 0 <= i < front.len() ==> (#[trigger] front[i]).all_ok() {
            let i = choose|i: int| 0 <= i < reports.len() && !(#[trigger] reports[i]).all_ok();
            if i < front.len() {
                assert(front[i] == reports[i]);
            }
        }
    }
}

proof fn lemma_failed_dests(dests: Seq<copy::DestModel>)
    ensures
        failed_dests(dests).len() == 0 <==> forall|i: int|
            0 <= i < dests.len() ==> (#[trigger] dests[i]).ok,
    decreases dests.len(),
{
    if dests.len() > 0 {
        let front = dests.drop_last();
        lemma_failed_dests(front);
        assert(dests.last() == dests[dests.len() - 1]);
        if forall|i: int| 0 <= i < dests.len() ==> (#[trigger] dests[i]).ok {
            assert forall|i: int| 0 <= i < front.len() implies (#[trigger] front[i]).ok by {
                assert(front[i] == dests[i]);
            }
        } else if forall|i: int| 0 <= i < front.len() ==> (#[trigger] front[i]).ok {
            let i = choose|i: int| 0 <= i < dests.len() && !(#[trigger] dests[i]).ok;
            if i < front.len() {
                assert(front[i] == dests[i]);
            }
        }
    }
}

/// If a run succeeded, every destination of every file it finished is in
/// order: with verification, what is on disk there has the checksum of the
/// source.
pub proof fn success_means_every_copy_is_in_order(run: HarvestRun, outcome: OutcomeModel, i: int)
    requires
        run.wf(),
        outcome.verify_failures == failed_paths(run.reports@),
        outcome.success(),
        0 <= i < run.reports@.len(),
    ensures
        run.reports@[i].all_ok(),
{
    failures_mean_a_bad_copy(run.reports@);
}

/// A record in the journal of a verified run stands for a verified file: the
/// report that gave rise to it is in order only if each destination has the
/// checksum of the source on disk.
pub proof fn recorded_files_are_verified(
    f: scan::SourceModel,
    source: Seq<char>,
    dests: Seq<Seq<char>>,
    algo: HashAlgo,
    data: Seq<u8>,
    on_disk: Seq<Seq<u8>>,
)
    requires
        on_disk.len() == dests.len(),
        copy::identified(
            copy::copy_report(source, dests, algo, data, Some(copy::checksums(algo, on_disk))),
            f,
        ).all_ok(),
    ensures
        forall|i: int|
            0 <= i < on_disk.len() ==> hash::checksum(algo, #[trigger] on_disk[i])
                == hash::checksum(algo, data),
{
    let r = copy::copy_report(source, dests, algo, data, Some(copy::checksums(algo, on_disk)));
    let whole = copy::identified(r, f);
    assert forall|i: int| 0 <= i < on_disk.len() implies hash::checksum(algo, #[trigger] on_disk[i])
        == hash::checksum(algo, data) by {
        assert(whole.dests[i].ok);
    }
}

/// What becomes of one file. A file of which the journal has a record under its
/// path with its present size and modification time is listed from the record
/// and not copied. Of any other file, one that every destination has with its
/// size and, within two seconds, its time is passed over where such files are
/// skipped. Every other file is copied; so a file that was changed since it was
/// recorded is copied again unless it is already there.
pub proof fn one_file_is_copied_or_skipped(
    f: scan::SourceModel,
    done: Map<Seq<char>, JournalRecord>,
    skip_existing: bool,
    there: Seq<Option<FileMeta>>,
)
    ensures
        ({
            let p = parts_of(seq![f], done, skip_existing, seq![there]);
            let key = path::slashed(f.rel);
            let rec = done[key];
            let recorded = done.contains_key(key) && rec.size == f.size && rec.mtime_ns
                == f.mtime_ns;
            let present = forall|i: int|
                0 <= i < there.len() ==> #[trigger] there[i] is Some && there[i]->0.size == f.size
                    && -2_000_000_000 <= scan::nanos_of(there[i]->0.modified) - f.mtime_ns
                    <= 2_000_000_000;
            &&& recorded ==> {
                &&& p.to_copy.len() == 0
                &&& p.existing == 0
                &&& p.skipped.len() == 1
                &&& p.skipped[0].size == f.size
                &&& p.skipped[0].hash == rec.hash@
                &&& rec.dest@.len() > 0 ==> p.skipped[0].rel == rec.dest@
                &&& rec.dest@.len() == 0 ==> p.skipped[0].rel == rec.rel@
            }
            &&& !recorded && skip_existing && present ==> p.to_copy.len() == 0 && p.skipped.len()
                == 0 && p.existing == 1
            &&& !recorded && !(skip_existing && present) ==> p.to_copy == seq![f] && p.skipped.len()
                == 0 && p.existing == 0
        }),
{
    run::present_means_same_size_and_time(there, f);
    reveal_with_fuel(parts_of, 2);
    assert(seq![f].drop_last() == Seq::<scan::SourceModel>::empty());
    assert(seq![f].last() == f);
    assert(seq![there][0] == there);
    assert(Seq::<scan::SourceModel>::empty().push(f) == seq![f]);
}

proof fn lemma_parts_of_first(
    files: Seq<scan::SourceModel>,
    done: Map<Seq<char>, JournalRecord>,
    skip_existing: bool,
    a: Seq<Seq<Option<FileMeta>>>,
    b: Seq<Seq<Option<FileMeta>>>,
)
    requires
        forall|i: int| 0 <= i < files.len() ==> #[trigger] a[i] == b[i],
    ensures
        parts_of(files, done, skip_existing, a) == parts_of(files, done, skip_existing, b),
    decreases files.len(),
{
    if files.len() > 0 {
        lemma_parts_of_first(files.drop_last(), done, skip_existing, a, b);
        assert(a[files.len() - 1] == b[files.len() - 1]);
    }
}

/// A run decides file by file: what becomes of two lists is what becomes of the
/// one and then of the other.
pub proof fn runs_decide_file_by_file(
    a: Seq<scan::SourceModel>,
    b: Seq<scan::SourceModel>,
    done: Map<Seq<char>, JournalRecord>,
    skip_existing: bool,
    there_a: Seq<Seq<Option<FileMeta>>>,
    there_b: Seq<Seq<Option<FileMeta>>>,
)
    requires
        there_a.len() == a.len(),
        there_b.len() == b.len(),
    ensures
        ({
            let p = parts_of(a, done, skip_existing, there_a);
            let q = parts_of(b, done, skip_existing, there_b);
            let r = parts_of(a + b, done, skip_existing, there_a + there_b);
            &&& r.to_copy == p.to_copy + q.to_copy
            &&& r.skipped == p.skipped + q.skipped
            &&& r.existing == p.existing + q.existing
        }),
    decreases b.len(),
{
    if b.len() == 0 {
        assert(a + b == a);
        assert(there_a + there_b == there_a);
        let p = parts_of(a, done, skip_existing, there_a);
        assert(p.to_copy + Seq::<scan::SourceModel>::empty() == p.to_copy);
        assert(p.skipped + Seq::<manifest::EntryModel>::empty() == p.skipped);
    } else {
        let fb = b.drop_last();
        let ft = there_b.drop_last();
        runs_decide_file_by_file(a, fb, done, skip_existing, there_a, ft);
        assert((a + b).drop_last() == a + fb);
        assert((a + b).last() == b.last());
        lemma_parts_of_first(a + fb, done, skip_existing, there_a + there_b, there_a + ft);
        lemma_parts_of_first(fb, done, skip_existing, there_b, ft);
        assert((there_a + there_b)[(a + b).len() - 1] == there_b[b.len() - 1]);
    }
}

/// Exactly these files are copied, whatever the journal holds and whether or
/// not what is there is skipped: those of which the journal has no record with
/// their present size and time, and that are not both to be skipped when there
/// and there, alike, at every destination.
pub proof fn exactly_these_files_are_copied(
    files: Seq<scan::SourceModel>,
    done: Map<Seq<char>, JournalRecord>,
    skip_existing: bool,
    stats: Seq<Seq<Option<FileMeta>>>,
    g: scan::SourceModel,
)
    requires
        stats.len() == files.len(),
    ensures
        parts_of(files, done, skip_existing, stats).to_copy.contains(g) <==> exists|i: int|
            0 <= i < files.len() && #[trigger] files[i] == g && !(done.contains_key(
                path::slashed(g.rel),
            ) && done[path::slashed(g.rel)].size == g.size && done[path::slashed(g.rel)].mtime_ns
                == g.mtime_ns) && !(skip_existing && (forall|k: int|
                0 <= k < stats[i].len() ==> #[trigger] stats[i][k] is Some && stats[i][k]->0.size
                    == g.size && -2_000_000_000 <= scan::nanos_of(stats[i][k]->0.modified)
                    - g.mtime_ns <= 2_000_000_000)),
    decreases files.len(),
{
    let to_copy = parts_of(files, done, skip_existing, stats).to_copy;
    assert forall|i: int| 0 <= i < files.len() implies run::present_everywhere(
        #[trigger] stats[i],
        g,
    ) == (forall|k: int|
        0 <= k < stats[i].len() ==> #[trigger] stats[i][k] is Some && stats[i][k]->0.size == g.size
            && -2_000_000_000 <= scan::nanos_of(stats[i][k]->0.modified) - g.mtime_ns
            <= 2_000_000_000) by {
        run::present_means_same_size_and_time(stats[i], g);
    }
    lemma_copied_at(files, done, skip_existing, stats, g);
    if to_copy.contains(g) {
        let i = choose|i: int| #[trigger] wanted_at(files, done, skip_existing, stats, g, i);
        assert(files[i] == g);
        assert(stats[i] == stats[i]);
    }
    if exists|i: int|
        0 <= i < files.len() && #[trigger] files[i] == g && !(done.contains_key(path::slashed(g.rel))
            && done[path::slashed(g.rel)].size == g.size && done[path::slashed(g.rel)].mtime_ns
            == g.mtime_ns) && !(skip_existing && (forall|k: int|
            0 <= k < stats[i].len() ==> #[trigger] stats[i][k] is Some && stats[i][k]->0.size
                == g.size && -2_000_000_000 <= scan::nanos_of(stats[i][k]->0.modified) - g.mtime_ns
                <= 2_000_000_000)) {
        let i = choose|i: int|
            0 <= i < files.len() && #[trigger] files[i] == g && !(done.contains_key(
                path::slashed(g.rel),
            ) && done[path::slashed(g.rel)].size == g.size && done[path::slashed(g.rel)].mtime_ns
                == g.mtime_ns) && !(skip_existing && (forall|k: int|
                0 <= k < stats[i].len() ==> #[trigger] stats[i][k] is Some && stats[i][k]->0.size
                    == g.size && -2_000_000_000 <= scan::nanos_of(stats[i][k]->0.modified)
                    - g.mtime_ns <= 2_000_000_000));
        assert(run::present_everywhere(stats[i], g) == (forall|k: int|
            0 <= k < stats[i].len() ==> #[trigger] stats[i][k] is Some && stats[i][k]->0.size
                == g.size && -2_000_000_000 <= scan::nanos_of(stats[i][k]->0.modified) - g.mtime_ns
                <= 2_000_000_000));
        assert(wanted_at(files, done, skip_existing, stats, g, i));
    }
}

spec fn wanted_at(
    files: Seq<scan::SourceModel>,
    done: Map<Seq<char>, JournalRecord>,
    skip_existing: bool,
    stats: Seq<Seq<Option<FileMeta>>>,
    g: scan::SourceModel,
    i: int,
) -> bool {
    0 <= i < files.len() && files[i] == g && !journal::already_done(done, g) && !(skip_existing
        && run::present_everywhere(stats[i], g))
}

proof fn lemma_copied_at(
    files: Seq<scan::SourceModel>,
    done: Map<Seq<char>, JournalRecord>,
    skip_existing: bool,
    stats: Seq<Seq<Option<FileMeta>>>,
    g: scan::SourceModel,
)
    ensures
        parts_of(files, done, skip_existing, stats).to_copy.contains(g) <==> exists|i: int|
            #[trigger] wanted_at(files, done, skip_existing, stats, g, i),
    decreases files.len(),
{
    if files.len() > 0 {
        let front = files.drop_last();
        let f = files.last();
        let last = files.len() - 1;
        lemma_copied_at(front, done, skip_existing, stats, g);
        let some = parts_of(front, done, skip_existing, stats).to_copy;
        let all = parts_of(files, done, skip_existing, stats).to_copy;
        if all.contains(g) {
            let k = choose|k: int| 0 <= k < all.len() && all[k] == g;
            if k < some.len() {
                assert(some[k] == g);
                let i = choose|i: int| #[trigger]
                    wanted_at(front, done, skip_existing, stats, g, i);
                assert(files[i] == front[i]);
                assert(wanted_at(files, done, skip_existing, stats, g, i));
            } else {
                assert(f == g);
                assert(wanted_at(files, done, skip_existing, stats, g, last));
            }
        }
        if exists|i: int| #[trigger] wanted_at(files, done, skip_existing, stats, g, i) {
            let i = choose|i: int| #[trigger] wanted_at(files, done, skip_existing, stats, g, i);
            if i < last {
                assert(front[i] == files[i]);
                assert(wanted_at(front, done, skip_existing, stats, g, i));
                let k = choose|k: int| 0 <= k < some.len() && some[k] == g;
                assert(all[k] == g);
            } else {
                assert(all.last() == g);
                assert(all[all.len() - 1] == g);
            }
        }
    }
}

/// A journal is resumed exactly if the run is to resume, there is a journal of
/// the present layout, and it was written with the same algorithm, the same
/// verify mode and the same destinations in whatever order. Its records are
/// then taken over as they are, and otherwise none is.
pub proof fn only_a_matching_journal_is_resumed(cfg: HarvestConfig, loaded: Option<LoadedJournal>)
    ensures
        resumes(cfg, loaded) <==> cfg.resume && loaded is Some && loaded->0.header.v == 1
            && loaded->0.header.algo@ == hash::algo_name(cfg.algo) && loaded->0.header.verify
            == cfg.verify && text::texts(loaded->0.header.dests@).to_multiset() == path::path_texts(
            cfg.dests@,
        ).to_multiset(),
        resumes(cfg, loaded) ==> taken_over(cfg, loaded) == loaded->0.done@,
        !resumes(cfg, loaded) ==> forall|k: Seq<char>|
            !(#[trigger] taken_over(cfg, loaded).contains_key(k)),
        header_of(cfg).v == 1,
        header_of(cfg).algo == hash::algo_name(cfg.algo),
        header_of(cfg).verify == cfg.verify,
        header_of(cfg).dests == path::path_texts(cfg.dests@),
{
}

/// The outcome counts result by result: every report is one file copied, every
/// error is told in order, and nothing else is.
pub proof fn outcomes_count_result_by_result(
    run: HarvestRun,
    results: Seq<Result<FileReport, String>>,
    report: FileReport,
    why: String,
    cancelled: bool,
)
    ensures
        ({
            let o = run.outcome(results, cancelled);
            let more = run.outcome(results.push(Ok(report)), cancelled);
            let worse = run.outcome(results.push(Err(why)), cancelled);
            let none = run.outcome(Seq::empty(), cancelled);
            &&& none.copied == 0 && none.errors.len() == 0
            &&& more.copied == o.copied + 1 && more.errors == o.errors
            &&& worse.copied == o.copied && worse.errors == o.errors.push(why@)
            &&& o.copied + o.errors.len() == results.len()
            &&& o.skipped == run.skipped@.len() + run.existing_skipped
            &&& o.unreadable == run.unreadable
            &&& o.journal_path == run.journal_path@
            &&& o.cancelled == cancelled
            &&& o.manifest_path is None
        }),
{
    lemma_results_add_up(results);
    assert(results.push(Ok(report)).drop_last() == results);
    assert(results.push(Err(why)).drop_last() == results);
}

/// What went wrong with the copies is told report by report and destination by
/// destination: the path of each destination that is not in order, and of no
/// other. The bytes of the reports are added up.
pub proof fn reports_are_counted_one_by_one(
    reports: Seq<copy::ReportModel>,
    report: copy::ReportModel,
    dests: Seq<copy::DestModel>,
    dest: copy::DestModel,
)
    ensures
        failed_paths(Seq::empty()).len() == 0,
        failed_paths(reports.push(report)) == failed_paths(reports) + failed_dests(report.dests),
        failed_dests(Seq::empty()).len() == 0,
        dest.ok ==> failed_dests(dests.push(dest)) == failed_dests(dests),
        !dest.ok ==> failed_dests(dests.push(dest)) == failed_dests(dests).push(dest.path),
        bytes_sum(Seq::empty()) == 0,
        bytes_sum(reports.push(report)) == bytes_sum(reports) + report.bytes,
{
    assert(reports.push(report).drop_last() == reports);
    assert(dests.push(dest).drop_last() == dests);
}

/// A run succeeds exactly if no file failed, every destination of every report
/// is in order, and it was not cancelled.
pub proof fn success_means_nothing_failed(
    run: HarvestRun,
    results: Seq<Result<FileReport, String>>,
    cancelled: bool,
)
    ensures
        run.outcome(results, cancelled).success() <==> !cancelled && (forall|i: int|
            0 <= i < results.len() ==> #[trigger] results[i] is Ok) && (forall|i: int, k: int|
            0 <= i < run.reports@.len() && 0 <= k < run.reports@[i].dests.len() ==> (
            #[trigger] run.reports@[i].dests[k]).ok),
{
    let reports = run.reports@;
    failures_mean_a_bad_copy(reports);
    lemma_no_errors(results);
    if forall|i: int| 0 <= i < reports.len() ==> (#[trigger] reports[i]).all_ok() {
        assert forall|i: int, k: int| 0 <= i < reports.len() && 0 <= k
            < reports[i].dests.len() implies (#[trigger] reports[i].dests[k]).ok by {
            assert(reports[i].all_ok());
        }
    }
    if forall|i: int, k: int|
        0 <= i < reports.len() && 0 <= k < reports[i].dests.len() ==> (
        #[trigger] reports[i].dests[k]).ok {
        assert forall|i: int| 0 <= i < reports.len() implies (#[trigger] reports[i]).all_ok() by {
            assert forall|k: int| 0 <= k < reports[i].dests.len() implies (
            #[trigger] reports[i].dests[k]).ok by {}
        }
    }
}

proof fn lemma_no_errors(results: Seq<Result<FileReport, String>>)
    ensures
        error_texts(results).len() == 0 <==> forall|i: int|
            0 <= i < results.len() ==> #[trigger] results[i] is Ok,
    decreases results.len(),
{
    if results.len() > 0 {
        let front = results.drop_last();
        lemma_no_errors(front);
        assert(results.last() == results[results.len() - 1]);
        if error_texts(front).len() == 0 && results.last() is Ok {
            assert forall|i: int| 0 <= i < results.len() implies #[trigger] results[i] is Ok by {
                if i < front.len() {
                    assert(front[i] is Ok);
                }
            }
        }
        if forall|i: int| 0 <= i < results.len() ==> #[trigger] results[i] is Ok {
            assert forall|i: int| 0 <= i < front.len() implies #[trigger] front[i] is Ok by {
                assert(results[i] is Ok);
            }
        }
    }
}

/// A manifest lists every file that was copied, where it was written, with its
/// bytes and the checksum of its source, in order, and no other.
pub proof fn copied_files_are_listed_one_by_one(
    results: Seq<Result<FileReport, String>>,
    report: FileReport,
    why: String,
)
    ensures
        ({
            let listed = |r: Seq<Result<FileReport, String>>| report_entries(ok_reports(r));
            &&& listed(Seq::empty()).len() == 0
            &&& listed(results.push(Err(why))) == listed(results)
            &&& listed(results.push(Ok(report))) == listed(results).push(
                manifest::EntryModel {
                    rel: report.dest_rel@,
                    size: report.bytes,
                    hash: report.source_hash@,
                },
            )
        }),
{
    assert(results.push(Ok(report)).drop_last() == results);
    assert(results.push(Err(why)).drop_last() == results);
    let so_far = ok_reports(results);
    assert(report_entries(so_far.push(report@)) == report_entries(so_far).push(
        manifest::EntryModel {
            rel: report.dest_rel@,
            size: report.bytes,
            hash: report.source_hash@,
        },
    ));
}

/// A file that is taken over from the journal is listed as it was when it was
/// copied: where it was written, with its bytes and its checksum.
pub proof fn recorded_files_are_listed_as_when_copied(report: copy::ReportModel)
    requires
        path::slashed(report.dest_rel).len() > 0,
    ensures
        journaled_entry(journal::record_model(report)) == (manifest::EntryModel {
            rel: path::slashed(report.dest_rel),
            size: report.bytes,
            hash: report.source_hash,
        }),
{
}

/// Unless the user says otherwise, the journal and the manifest stand in the
/// first destination, the manifest with an ending that tells its layout.
pub proof fn journal_and_manifest_stand_at_the_first_destination(cfg: HarvestConfig)
    ensures
        cfg.journal_path matches Some(p) ==> journal_location(cfg) == p@,
        cfg.manifest_path matches Some(p) ==> manifest_location(cfg) == p@,
        cfg.journal_path is None && cfg.dests@.len() > 0 ==> path::components(
            journal_location(cfg),
        ) == path::components(cfg.dests@[0]@).push(".harvest-journal.jsonl"@),
        cfg.manifest_path is None && cfg.dests@.len() > 0 && cfg.algo != HashAlgo::Xxh3
            ==> path::components(manifest_location(cfg)) == path::components(
            cfg.dests@[0]@,
        ).push("harvest-manifest.mhl"@),
        cfg.manifest_path is None && cfg.dests@.len() > 0 && cfg.algo == HashAlgo::Xxh3
            ==> path::components(manifest_location(cfg)) == path::components(
            cfg.dests@[0]@,
        ).push("harvest-manifest.txt"@),
{
    reveal_strlit(".harvest-journal.jsonl");
    reveal_strlit("harvest-manifest.");
    reveal_strlit("harvest-manifest.mhl");
    reveal_strlit("harvest-manifest.txt");
    reveal_strlit("mhl");
    reveal_strlit("txt");
    assert("harvest-manifest."@ + "mhl"@ == "harvest-manifest.mhl"@);
    assert("harvest-manifest."@ + "txt"@ == "harvest-manifest.txt"@);
    if cfg.dests@.len() > 0 {
        let root = cfg.dests@[0]@;
        lemma_name_at(root, ".harvest-journal.jsonl"@);
        lemma_name_at(root, "harvest-manifest.mhl"@);
        lemma_name_at(root, "harvest-manifest.txt"@);
    }
}

proof fn lemma_name_at(root: Seq<char>, name: Seq<char>)
    requires
        name.len() > 1,
        !name.contains('/'),
    ensures
        path::components(path::path_join(root, name)) == path::components(root).push(name),
{
    let parts = seq![name];
    assert(text::join(parts, path::slash()) == name);
    assert(parts[0] != path::dot()) by {
        assert(path::dot().len() == 1);
    }
    path::join_adds_components(root, parts);
    assert(path::components(root) + parts == path::components(root).push(name));
}

/// What holds of every run that is started: it copies exactly the files that
/// neither the journal it resumes has with their present size and time nor,
/// where such files are skipped, every destination has alike; all its files
/// are accounted for; and it goes on with the journal exactly if it resumes
/// it.
pub proof fn a_run_copies_exactly_these(
    run: HarvestRun,
    cfg: HarvestConfig,
    files: Seq<scan::SourceModel>,
    loaded: Option<LoadedJournal>,
    stats: Seq<Seq<Option<FileMeta>>>,
    g: scan::SourceModel,
)
    requires
        run.stems_from(cfg, files, loaded, stats),
        stats.len() == files.len(),
    ensures
        scan::models(run.to_copy@).contains(g) <==> exists|i: int|
            0 <= i < files.len() && #[trigger] files[i] == g && !(resumes(cfg, loaded)
                && loaded->0.done@.contains_key(path::slashed(g.rel)) && loaded->0.done@[path::slashed(
                g.rel,
            )].size == g.size && loaded->0.done@[path::slashed(g.rel)].mtime_ns == g.mtime_ns)
                && !(cfg.skip_existing && (forall|k: int|
                0 <= k < stats[i].len() ==> #[trigger] stats[i][k] is Some && stats[i][k]->0.size
                    == g.size && -2_000_000_000 <= scan::nanos_of(stats[i][k]->0.modified)
                    - g.mtime_ns <= 2_000_000_000)),
        run.to_copy@.len() + run.skipped@.len() + run.existing_skipped == files.len(),
        run.kept == files.len(),
        run.appending == resumes(cfg, loaded),
        run.journal_path@ == journal_location(cfg),
{
    let done = taken_over(cfg, loaded);
    exactly_these_files_are_copied(files, done, cfg.skip_existing, stats, g);
    every_file_is_accounted_for(files, done, cfg.skip_existing, stats);
    only_a_matching_journal_is_resumed(cfg, loaded);
    assert(scan::models(run.to_copy@).len() == run.to_copy@.len());
    assert(manifest::entry_models(run.skipped@).len() == run.skipped@.len());
    let key = path::slashed(g.rel);
    if resumes(cfg, loaded) {
        assert(done == loaded->0.done@);
    } else {
        assert(!done.contains_key(key));
    }
}

/// An outcome stands for its fields.
pub proof fn outcomes_stand_for_their_fields(o: HarvestOutcome, i: int)
    ensures
        o@.copied == o.copied,
        o@.skipped == o.skipped,
        o@.unreadable == o.unreadable,
        o@.copied_bytes == o.copied_bytes,
        o@.verify_failures.len() == o.verify_failures@.len(),
        0 <= i < o.verify_failures@.len() ==> o@.verify_failures[i] == o.verify_failures@[i]@,
        o@.errors.len() == o.errors@.len(),
        0 <= i < o.errors@.len() ==> o@.errors[i] == o.errors@[i]@,
        o@.manifest_path is Some <==> o.manifest_path is Some,
        o.manifest_path matches Some(p) ==> o@.manifest_path == Some(p.text@),
        o@.journal_path == o.journal_path.text@,
        o@.cancelled == o.cancelled,
{
}

/// A manifest is a Media Hash List for every algorithm that one can hold, and
/// a sidecar for xxHash3.
pub proof fn manifests_are_hash_lists_or_sidecars(
    entries: Seq<manifest::EntryModel>,
    algo: HashAlgo,
    tool: Seq<char>,
    start: Seq<char>,
    finish: Seq<char>,
)
    ensures
        algo == HashAlgo::Xxh3 ==> manifest_text(entries, algo, tool, start, finish)
            == manifest::sidecar_document(entries, algo),
        algo != HashAlgo::Xxh3 ==> Some(manifest_text(entries, algo, tool, start, finish))
            == manifest::mhl_document(entries, algo, tool, start, finish),
{
}

/// Two states belong to the same run exactly if what was decided at the start
/// is the same in both.
pub proof fn states_of_one_run_agree(a: HarvestRun, b: HarvestRun)
    ensures
        a.same_run(b) <==> a.to_copy == b.to_copy && a.skipped == b.skipped && a.existing_skipped
            == b.existing_skipped && a.unreadable == b.unreadable && a.kept == b.kept
            && a.copy_bytes == b.copy_bytes && a.appending == b.appending && a.journal_path
            == b.journal_path,
{
}

} // verus!
