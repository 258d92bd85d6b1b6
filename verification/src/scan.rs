//! Turn a walk of a source (file or directory) into a flat list of files, each
//! tagged with its path relative to the source root so the tree can be
//! mirrored. The walk itself happens outside: what it meets arrives as a list
//! of [`WalkEntry`] values.

use crate::path;
use crate::path::FilePath;
use crate::text;
use crate::text::join_text;
use vstd::prelude::*;
use vstd::string::*;

verus! {

/// How many files pass between two progress reports.
pub const REPORT_EVERY: u64 = 512;

/// A file discovered under the source root.
#[derive(Debug)]
pub struct SourceFile {
    /// Absolute path on disk.
    pub abs: FilePath,
    /// Path relative to the source root (what gets mirrored into destinations).
    pub rel: FilePath,
    pub size: u64,
    /// Modification time as nanoseconds relative to the Unix epoch (signed, so
    /// earlier timestamps round-trip). 0 if unavailable.
    pub mtime_ns: i128,
    /// Where to write this file relative to each destination root. `None`
    /// mirrors the source tree (`rel`); `Some` is set by template rendering.
    pub dest_rel: Option<FilePath>,
}

/// What a [`SourceFile`] stands for.
pub struct SourceModel {
    pub abs: Seq<char>,
    pub rel: Seq<char>,
    pub size: u64,
    pub mtime_ns: i128,
    pub dest_rel: Option<Seq<char>>,
}

impl View for SourceFile {
    type V = SourceModel;

    open spec fn view(&self) -> SourceModel {
        SourceModel {
            abs: self.abs@,
            rel: self.rel@,
            size: self.size,
            mtime_ns: self.mtime_ns,
            dest_rel: path::path_text(self.dest_rel),
        }
    }
}

impl SourceModel {
    /// The path the file is written to below each destination root.
    pub open spec fn target(self) -> Seq<char> {
        match self.dest_rel {
            Some(d) => d,
            None => self.rel,
        }
    }
}

/// What each file of a list stands for.
pub open spec fn models(files: Seq<SourceFile>) -> Seq<SourceModel> {
    Seq::new(files.len(), |i: int| files[i]@)
}

impl Clone for SourceFile {
    fn clone(&self) -> (r: Self)
        ensures
            r == *self,
    {
        SourceFile {
            abs: self.abs.clone(),
            rel: self.rel.clone(),
            size: self.size,
            mtime_ns: self.mtime_ns,
            dest_rel: match &self.dest_rel {
                Some(d) => Some(d.clone()),
                None => None,
            },
        }
    }
}

impl SourceFile {
    /// The path the file is written to below each destination root.
    pub fn target(&self) -> (r: &FilePath)
        ensures
            r@ == self@.target(),
    {
        match &self.dest_rel {
            Some(d) => d,
            None => &self.rel,
        }
    }
}

/// When a file was last modified, as the file system told.
#[derive(Debug, Clone, Copy)]
pub enum FileTime {
    /// This long after the Unix epoch.
    After { secs: u64, nanos: u32 },
    /// This long before the Unix epoch.
    Before { secs: u64, nanos: u32 },
    /// The file system does not say.
    Unknown,
}

/// The nanoseconds from the Unix epoch to a file time; 0 if unknown.
pub open spec fn nanos_of(t: FileTime) -> int {
    match t {
        FileTime::After { secs, nanos } => secs * 1_000_000_000 + nanos,
        FileTime::Before { secs, nanos } => -(secs * 1_000_000_000 + nanos),
        FileTime::Unknown => 0,
    }
}

/// Modification time as nanoseconds since the Unix epoch.
pub fn mtime_ns(t: FileTime) -> (r: i128)
    ensures
        r == nanos_of(t),
{
    match t {
        FileTime::After { secs, nanos } => (secs as i128) * 1_000_000_000 + nanos as i128,
        FileTime::Before { secs, nanos } => -((secs as i128) * 1_000_000_000 + nanos as i128),
        FileTime::Unknown => 0,
    }
}

/// What is known of one regular file.
#[derive(Debug, Clone, Copy)]
pub struct FileMeta {
    pub size: u64,
    pub modified: FileTime,
}

/// One thing that a walk of a directory meets.
#[derive(Debug)]
pub enum WalkEntry {
    /// The user asked to stop before this point.
    Cancelled,
    /// An entry that could not be read, at this depth below the source.
    Unreadable { depth: usize, why: String },
    /// A directory, a link or a special file.
    Other,
    /// A regular file, with what is known of it if that could be read.
    File { abs: FilePath, meta: Option<FileMeta> },
}

/// What a source turned out to be.
#[derive(Debug)]
pub enum Found {
    /// A single regular file.
    Single(FileMeta),
    /// A directory, with what the walk met, in order.
    Tree(Vec<WalkEntry>),
}

/// Why a scan stopped.
#[derive(Debug)]
pub enum ScanError {
    /// The user asked to stop.
    Cancelled,
    /// The source itself cannot be read.
    Unreadable { source: FilePath, why: String },
    /// The source is a file whose path has no file name.
    NoFileName { source: FilePath },
    /// A file was met that is not below the source.
    Outside { path: FilePath },
}

/// What a [`ScanError`] stands for.
pub enum ScanFailure {
    Cancelled,
    Unreadable { source: Seq<char>, why: Seq<char> },
    NoFileName { source: Seq<char> },
    Outside { path: Seq<char> },
}

impl View for ScanError {
    type V = ScanFailure;

    open spec fn view(&self) -> ScanFailure {
        match *self {
            ScanError::Cancelled => ScanFailure::Cancelled,
            ScanError::Unreadable { source, why } => ScanFailure::Unreadable {
                source: source@,
                why: why@,
            },
            ScanError::NoFileName { source } => ScanFailure::NoFileName { source: source@ },
            ScanError::Outside { path } => ScanFailure::Outside { path: path@ },
        }
    }
}

/// The message for a failed scan.
pub open spec fn scan_message(f: ScanFailure) -> Seq<char> {
    match f {
        ScanFailure::Cancelled => "scan cancelled"@,
        ScanFailure::Unreadable { source, why } => "cannot read "@ + source + ": "@ + why,
        ScanFailure::NoFileName { source } => "source "@ + source + " has no file name"@,
        ScanFailure::Outside { path } => "relativizing "@ + path,
    }
}

impl ScanError {
    /// The message for the user.
    pub fn message(&self) -> (r: String)
        ensures
            r@ == scan_message(self@),
    {
        match self {
            ScanError::Cancelled => "scan cancelled".to_owned(),
            ScanError::Unreadable { source, why } => {
                let mut r = "cannot read ".to_owned();
                r.append(source.text.as_str());
                r.append(": ");
                r.append(why.as_str());
                r
            },
            ScanError::NoFileName { source } => {
                let mut r = "source ".to_owned();
                r.append(source.text.as_str());
                r.append(" has no file name");
                r
            },
            ScanError::Outside { path } => {
                let mut r = "relativizing ".to_owned();
                r.append(path.text.as_str());
                r
            },
        }
    }
}

/// A scan in progress: the files so far, the entries that were skipped because
/// they could not be read, the bytes of the files, and the progress reports
/// (files, bytes) that are due.
pub struct ScanModel {
    pub files: Seq<SourceModel>,
    pub skipped: nat,
    pub bytes: nat,
    pub reports: Seq<(int, int)>,
}

/// A scan that has met nothing yet.
pub open spec fn scan_start() -> ScanModel {
    ScanModel { files: Seq::empty(), skipped: 0, bytes: 0, reports: Seq::empty() }
}

/// The file that `abs` is below `source`.
pub open spec fn found_file(source: Seq<char>, abs: Seq<char>, meta: FileMeta) -> SourceModel {
    SourceModel {
        abs,
        rel: text::join(
            path::components(abs).skip(path::components(source).len() as int),
            path::slash(),
        ),
        size: meta.size,
        mtime_ns: nanos_of(meta.modified) as i128,
        dest_rel: None,
    }
}

/// What one walk entry does to a scan. A failure at depth 0 is the source
/// itself and ends the scan; a deeper one is counted and passed over.
pub open spec fn scan_step(source: Seq<char>, s: ScanModel, e: WalkEntry) -> Result<
    ScanModel,
    ScanFailure,
> {
    match e {
        WalkEntry::Cancelled => Err(ScanFailure::Cancelled),
        WalkEntry::Unreadable { depth, why } => if depth == 0 {
            Err(ScanFailure::Unreadable { source, why: why@ })
        } else {
            Ok(ScanModel { skipped: s.skipped + 1, ..s })
        },
        WalkEntry::Other => Ok(s),
        WalkEntry::File { abs, meta } => if !path::path_starts_with(abs@, source) {
            Err(ScanFailure::Outside { path: abs@ })
        } else {
            match meta {
                None => Ok(ScanModel { skipped: s.skipped + 1, ..s }),
                Some(m) => {
                    let files = s.files.push(found_file(source, abs@, m));
                    let bytes = s.bytes + m.size as nat;
                    let reports = if files.len() % REPORT_EVERY as nat == 0 {
                        s.reports.push((files.len() as int, bytes as int))
                    } else {
                        s.reports
                    };
                    Ok(ScanModel { files, skipped: s.skipped, bytes, reports })
                },
            }
        },
    }
}

/// What a list of walk entries does, one after the other, up to the first
/// failure.
pub open spec fn scan_walk(source: Seq<char>, entries: Seq<WalkEntry>) -> Result<
    ScanModel,
    ScanFailure,
>
    decreases entries.len(),
{
    if entries.len() == 0 {
        Ok(scan_start())
    } else {
        match scan_walk(source, entries.drop_last()) {
            Err(f) => Err(f),
            Ok(s) => scan_step(source, s, entries.last()),
        }
    }
}

/// The outcome of a scan: the files, the number of skipped entries, and every
/// progress report, the last of which comes at the end.
pub open spec fn scan_outcome(source: Seq<char>, found: Found) -> Result<
    (Seq<SourceModel>, nat, Seq<(int, int)>),
    ScanFailure,
> {
    match found {
        Found::Single(m) => match path::file_name(source) {
            None => Err(ScanFailure::NoFileName { source }),
            Some(name) => Ok(
                (
                    seq![
                        SourceModel {
                            abs: source,
                            rel: name,
                            size: m.size,
                            mtime_ns: nanos_of(m.modified) as i128,
                            dest_rel: None,
                        },
                    ],
                    0,
                    seq![(1int, m.size as int)],
                ),
            ),
        },
        Found::Tree(entries) => match scan_walk(source, entries@) {
            Err(f) => Err(f),
            Ok(s) => Ok((s.files, s.skipped, s.reports.push((s.files.len() as int, s.bytes as int)))),
        },
    }
}

/// The sizes of the regular files in a walk, added up.
pub open spec fn walk_bytes(entries: Seq<WalkEntry>) -> nat
    decreases entries.len(),
{
    if entries.len() == 0 {
        0
    } else {
        walk_bytes(entries.drop_last()) + match entries.last() {
            WalkEntry::File { abs, meta: Some(m) } => m.size as nat,
            _ => 0,
        }
    }
}

/// Whether the reports hold the numbers of `expected`.
pub open spec fn reports_are(reports: Seq<(u64, u64)>, expected: Seq<(int, int)>) -> bool {
    &&& reports.len() == expected.len()
    &&& forall|i: int|
        0 <= i < expected.len() ==> (#[trigger] reports[i]).0 == expected[i].0 && reports[i].1
            == expected[i].1
}

proof fn lemma_walk_bytes_take(entries: Seq<WalkEntry>, k: int)
    requires
        0 <= k <= entries.len(),
    ensures
        walk_bytes(entries.take(k)) <= walk_bytes(entries),
    decreases entries.len(),
{
    if k == entries.len() {
        assert(entries.take(k) == entries);
    } else {
        lemma_walk_bytes_take(entries.drop_last(), k);
        assert(entries.drop_last().take(k) == entries.take(k));
    }
}

proof fn lemma_failed_prefix(source: Seq<char>, entries: Seq<WalkEntry>, k: int)
    requires
        0 <= k <= entries.len(),
    ensures
        scan_walk(source, entries.take(k)) matches Err(f) ==> scan_walk(source, entries) == Err::<
            ScanModel,
            ScanFailure,
        >(f),
    decreases entries.len(),
{
    if k == entries.len() {
        assert(entries.take(k) == entries);
    } else {
        lemma_failed_prefix(source, entries.drop_last(), k);
        assert(entries.drop_last().take(k) == entries.take(k));
    }
}

/// The reports already handed out play no part in a step.
proof fn lemma_step_reports(source: Seq<char>, m: ScanModel, e: WalkEntry)
    ensures
        match scan_step(source, ScanModel { reports: Seq::empty(), ..m }, e) {
            Err(f) => scan_step(source, m, e) == Err::<ScanModel, ScanFailure>(f),
            Ok(n) => scan_step(source, m, e) == Ok::<ScanModel, ScanFailure>(
                ScanModel { reports: m.reports + n.reports, ..n },
            ),
        },
{
    let none = Seq::<(int, int)>::empty();
    assert(m.reports + none == m.reports);
    assert forall|p: (int, int)| #[trigger] (m.reports + none.push(p)) == m.reports.push(p) by {
    }
}

/// A scan of a directory in progress.
#[derive(Debug)]
pub struct Scanner {
    pub source: FilePath,
    pub files: Vec<SourceFile>,
    pub skipped: u64,
    pub bytes: u64,
}

impl Scanner {
    /// What the scanner stands for, apart from the reports already handed out.
    pub open spec fn state(self) -> ScanModel {
        ScanModel {
            files: models(self.files@),
            skipped: self.skipped as nat,
            bytes: self.bytes as nat,
            reports: Seq::empty(),
        }
    }

    /// A scanner that has met nothing yet.
    pub fn new(source: &FilePath) -> (r: Scanner)
        ensures
            r.source@ == source@,
            r.state() == scan_start(),
    {
        let r = Scanner { source: source.clone(), files: Vec::new(), skipped: 0, bytes: 0 };
        assert(models(r.files@) == Seq::<SourceModel>::empty());
        r
    }

    /// Takes one walk entry. The result is the progress report that has come
    /// due, if any, or the reason to stop.
    pub fn visit(&mut self, entry: WalkEntry) -> (r: Result<Option<(u64, u64)>, ScanError>)
        requires
            old(self).skipped < u64::MAX,
            entry matches WalkEntry::File { abs, meta: Some(m) } ==> old(self).bytes + m.size
                <= u64::MAX,
        ensures
            final(self).source@ == old(self).source@,
            match scan_step(old(self).source@, old(self).state(), entry) {
                Err(f) => r matches Err(e) && e@ == f && final(self).state() == old(self).state(),
                Ok(m) => {
                    &&& r is Ok
                    &&& final(self).state() == (ScanModel { reports: Seq::empty(), ..m })
                    &&& r->Ok_0 is None ==> m.reports == Seq::<(int, int)>::empty()
                    &&& r->Ok_0 matches Some(p) ==> m.reports == seq![(p.0 as int, p.1 as int)]
                },
            },
    {
        match entry {
            WalkEntry::Cancelled => Err(ScanError::Cancelled),
            WalkEntry::Unreadable { depth, why } => {
                if depth == 0 {
                    Err(ScanError::Unreadable { source: self.source.clone(), why })
                } else {
                    self.skipped = self.skipped + 1;
                    Ok(None)
                }
            },
            WalkEntry::Other => Ok(None),
            WalkEntry::File { abs, meta } => {
                let rest = match abs.strip_prefix(&self.source) {
                    None => {
                        return Err(ScanError::Outside { path: abs });
                    },
                    Some(rest) => rest,
                };
                let meta = match meta {
                    None => {
                        self.skipped = self.skipped + 1;
                        return Ok(None);
                    },
                    Some(m) => m,
                };
                proof {
                    reveal_strlit("/");
                    assert("/"@ == path::slash());
                }
                let ghost before = models(self.files@);
                let file = SourceFile {
                    abs,
                    rel: FilePath { text: join_text(&rest, "/") },
                    size: meta.size,
                    mtime_ns: mtime_ns(meta.modified),
                    dest_rel: None,
                };
                let ghost model = file@;
                self.bytes = self.bytes + meta.size;
                self.files.push(file);
                assert(models(self.files@) == before.push(model));
                let count: u64 = self.files.len() as u64;
                if count % REPORT_EVERY == 0 {
                    assert(Seq::<(int, int)>::empty().push((count as int, self.bytes as int))
                        == seq![(count as int, self.bytes as int)]);
                    Ok(Some((count, self.bytes)))
                } else {
                    Ok(None)
                }
            },
        }
    }

    /// The final progress report.
    pub fn last_report(&self) -> (r: (u64, u64))
        ensures
            r.0 == self.state().files.len(),
            r.1 == self.state().bytes,
    {
        (self.files.len() as u64, self.bytes)
    }
}

/// Enumerates the regular files of a source, with the number of entries that
/// were skipped because they could not be read and the progress reports (files
/// found, bytes so far): one every [`REPORT_EVERY`] files and one at the end. A
/// single file gives that one file, its relative path being its file name.
pub fn scan_with(source: &FilePath, found: Found) -> (r: Result<
    (Vec<SourceFile>, u64, Vec<(u64, u64)>),
    ScanError,
>)
    requires
        found matches Found::Tree(entries) ==> walk_bytes(entries@) <= u64::MAX,
    ensures
        match scan_outcome(source@, found) {
            Err(f) => r matches Err(e) && e@ == f,
            Ok((files, skipped, reports)) => {
                &&& r is Ok
                &&& models(r->Ok_0.0@) == files
                &&& r->Ok_0.1 == skipped
                &&& reports_are(r->Ok_0.2@, reports)
            },
        },
{
    match found {
        Found::Single(meta) => {
            match source.file_name() {
                None => Err(ScanError::NoFileName { source: source.clone() }),
                Some(name) => {
                    let mut files: Vec<SourceFile> = Vec::new();
                    files.push(
                        SourceFile {
                            abs: source.clone(),
                            rel: FilePath { text: name },
                            size: meta.size,
                            mtime_ns: mtime_ns(meta.modified),
                            dest_rel: None,
                        },
                    );
                    let mut reports: Vec<(u64, u64)> = Vec::new();
                    reports.push((1, meta.size));
                    assert(models(files@) == scan_outcome(source@, Found::Single(meta))->Ok_0.0);
                    Ok((files, 0, reports))
                },
            }
        },
        Found::Tree(entries) => {
            let ghost all = entries@;
            let mut scanner = Scanner::new(source);
            let mut reports: Vec<(u64, u64)> = Vec::new();
            let count = entries.len();
            assert(all.take(0) == Seq::<WalkEntry>::empty());
            for entry in it: entries
                invariant
                    it.seq() == all,
                    found is Tree,
                    found->Tree_0@ == all,
                    count == all.len(),
                    walk_bytes(all) <= u64::MAX,
                    scanner.source@ == source@,
                    scan_walk(source@, all.take(it.index())) is Ok,
                    ({
                        let m = scan_walk(source@, all.take(it.index()))->Ok_0;
                        &&& scanner.state() == (ScanModel { reports: Seq::empty(), ..m })
                        &&& reports_are(reports@, m.reports)
                        &&& m.skipped <= it.index()
                        &&& m.bytes == walk_bytes(all.take(it.index()))
                    }),
            {
                let ghost k = it.index();
                let ghost m = scan_walk(source@, all.take(k))->Ok_0;
                proof {
                    assert(all.take(k + 1).drop_last() == all.take(k));
                    assert(all.take(k + 1).last() == entry);
                    lemma_walk_bytes_take(all, k + 1);
                    lemma_failed_prefix(source@, all, k + 1);
                    lemma_step_reports(source@, m, entry);
                }
                match scanner.visit(entry) {
                    Err(e) => {
                        return Err(e);
                    },
                    Ok(Some(report)) => {
                        reports.push(report);
                    },
                    Ok(None) => {},
                }
            }
            assert(all.take(all.len() as int) == all);
            reports.push(scanner.last_report());
            Ok((scanner.files, scanner.skipped, reports))
        },
    }
}

/// Enumerates the regular files of a source, in the order the walk met them.
pub fn scan(source: &FilePath, found: Found) -> (r: Result<Vec<SourceFile>, ScanError>)
    requires
        found matches Found::Tree(entries) ==> walk_bytes(entries@) <= u64::MAX,
    ensures
        match scan_outcome(source@, found) {
            Err(f) => r matches Err(e) && e@ == f,
            Ok((files, skipped, reports)) => r matches Ok(v) && models(v@) == files,
        },
{
    match scan_with(source, found) {
        Ok((files, _skipped, _reports)) => Ok(files),
        Err(e) => Err(e),
    }
}

// ---------------------------------------------------------------------------
// Laws
// ---------------------------------------------------------------------------

/// A file found below a source, seen from the source by its relative path, is
/// the file again: the components of the source followed by those of the
/// relative path are those of the absolute path.
pub proof fn relative_path_restores_absolute(source: Seq<char>, abs: Seq<char>, meta: FileMeta)
    requires
        path::path_starts_with(abs, source),
    ensures
        path::components(source) + path::components(found_file(source, abs, meta).rel)
            == path::components(abs),
{
    let n = path::components(source).len() as int;
    path::rest_of_path_is_a_path(abs, n);
    assert(path::components(source) + path::components(abs).skip(n) == path::components(abs));
}

/// One unreadable entry below the source cannot fail a scan: each entry of a
/// walk that is neither a cancellation, nor a failure of the source itself, nor
/// a file outside it is taken, and every one of them counts as a file, as
/// skipped, or as neither.
pub proof fn deep_failures_never_stop_a_scan(source: Seq<char>, entries: Seq<WalkEntry>)
    requires
        forall|i: int|
            0 <= i < entries.len() ==> match #[trigger] entries[i] {
                WalkEntry::Cancelled => false,
                WalkEntry::Unreadable { depth, why } => depth > 0,
                WalkEntry::Other => true,
                WalkEntry::File { abs, meta } => path::path_starts_with(abs@, source),
            },
    ensures
        scan_walk(source, entries) matches Ok(s) && s.files.len() + s.skipped <= entries.len()
            && s.bytes == walk_bytes(entries),
    decreases entries.len(),
{
    if entries.len() > 0 {
        let front = entries.drop_last();
        assert forall|i: int| 0 <= i < front.len() implies match #[trigger] front[i] {
            WalkEntry::Cancelled => false,
            WalkEntry::Unreadable { depth, why } => depth > 0,
            WalkEntry::Other => true,
            WalkEntry::File { abs, meta } => path::path_starts_with(abs@, source),
        } by {
            assert(entries[i] == front[i]);
        }
        deep_failures_never_stop_a_scan(source, front);
        assert(entries[entries.len() - 1] == entries.last());
    }
}

/// A file time is its seconds and nanoseconds, counted from the Unix epoch
/// forwards or backwards; an unknown one counts as the epoch.
pub proof fn file_times_are_signed(secs: u64, nanos: u32)
    requires
        nanos < 1_000_000_000,
    ensures
        nanos_of(FileTime::After { secs, nanos }) / 1_000_000_000 == secs,
        nanos_of(FileTime::After { secs, nanos }) % 1_000_000_000 == nanos,
        nanos_of(FileTime::Before { secs, nanos }) == -nanos_of(FileTime::After { secs, nanos }),
        nanos_of(FileTime::Unknown) == 0,
{
}

/// What one more entry does to a walk. A regular file that could be read is one
/// more file, with its path, its size and its time, and a relative path that
/// leads from the source to it; one that could not be read, and an unreadable
/// entry below the source, is counted; anything else changes nothing. A
/// cancellation, an unreadable source and a file outside it end the scan.
pub proof fn walks_go_entry_by_entry(source: Seq<char>, entries: Seq<WalkEntry>, e: WalkEntry)
    requires
        scan_walk(source, entries) is Ok,
    ensures
        ({
            let s = scan_walk(source, entries)->Ok_0;
            let r = scan_walk(source, entries.push(e));
            match e {
                WalkEntry::Cancelled => r == Err::<ScanModel, ScanFailure>(ScanFailure::Cancelled),
                WalkEntry::Unreadable { depth, why } => if depth == 0 {
                    r == Err::<ScanModel, ScanFailure>(
                        ScanFailure::Unreadable { source, why: why@ },
                    )
                } else {
                    r matches Ok(t) && t.files == s.files && t.skipped == s.skipped + 1 && t.bytes
                        == s.bytes && t.reports == s.reports
                },
                WalkEntry::Other => r matches Ok(t) && t == s,
                WalkEntry::File { abs, meta } => if !path::path_starts_with(abs@, source) {
                    r == Err::<ScanModel, ScanFailure>(ScanFailure::Outside { path: abs@ })
                } else {
                    match meta {
                        None => r matches Ok(t) && t.files == s.files && t.skipped == s.skipped + 1
                            && t.bytes == s.bytes && t.reports == s.reports,
                        Some(m) => {
                            &&& r matches Ok(t)
                            &&& t.skipped == s.skipped
                            &&& t.bytes == s.bytes + m.size
                            &&& t.files.len() == s.files.len() + 1
                            &&& t.files.drop_last() == s.files
                            &&& t.files.last().abs == abs@
                            &&& t.files.last().size == m.size
                            &&& t.files.last().mtime_ns == nanos_of(m.modified) as i128
                            &&& t.files.last().dest_rel is None
                            &&& path::components(source) + path::components(t.files.last().rel)
                                == path::components(abs@)
                            &&& t.files.last().rel == text::join(
                                path::components(t.files.last().rel),
                                seq!['/'],
                            )
                        },
                    }
                },
            }
        }),
        scan_walk(source, Seq::empty()) matches Ok(z) && z.files.len() == 0 && z.skipped == 0
            && z.bytes == 0 && z.reports.len() == 0,
{
    assert(entries.push(e).drop_last() == entries);
    if let WalkEntry::File { abs, meta: Some(m) } = e {
        if path::path_starts_with(abs@, source) {
            relative_path_restores_absolute(source, abs@, m);
            let s = scan_walk(source, entries)->Ok_0;
            let f = found_file(source, abs@, m);
            assert(s.files.push(f).drop_last() == s.files);
            let k = path::components(source).len() as int;
            path::rest_of_path_is_a_path(abs@, k);
            assert(path::components(f.rel) == path::components(abs@).skip(k));
            assert(path::slash() == seq!['/']);
        }
    }
}

/// A failed walk stays failed, whatever it would meet next.
pub proof fn failed_walks_stay_failed(source: Seq<char>, entries: Seq<WalkEntry>, e: WalkEntry)
    requires
        scan_walk(source, entries) is Err,
    ensures
        scan_walk(source, entries.push(e)) == scan_walk(source, entries),
{
    assert(entries.push(e).drop_last() == entries);
}

/// The sizes of the files of a list, added up.
pub open spec fn bytes_of(files: Seq<SourceModel>) -> int
    decreases files.len(),
{
    if files.len() == 0 {
        0
    } else {
        bytes_of(files.drop_last()) + files.last().size
    }
}

/// Progress is reported every 512 files, with the files and the bytes so far,
/// and never in between.
pub proof fn progress_is_reported_every_512_files(source: Seq<char>, entries: Seq<WalkEntry>)
    requires
        scan_walk(source, entries) is Ok,
    ensures
        ({
            let s = scan_walk(source, entries)->Ok_0;
            &&& s.bytes == bytes_of(s.files)
            &&& s.reports.len() == s.files.len() / 512
            &&& forall|i: int|
                0 <= i < s.reports.len() ==> (#[trigger] s.reports[i]).0 == 512 * (i + 1)
                    && s.reports[i].1 == bytes_of(s.files.take(512 * (i + 1)))
        }),
    decreases entries.len(),
{
    if entries.len() > 0 {
        let front = entries.drop_last();
        progress_is_reported_every_512_files(source, front);
        let before = scan_walk(source, front)->Ok_0;
        let s = scan_walk(source, entries)->Ok_0;
        let n = before.files.len() as int;
        if s.files != before.files {
            assert(s.files.drop_last() == before.files);
            assert forall|i: int| 0 <= i < before.reports.len() implies (
            #[trigger] before.reports[i]).1 == bytes_of(s.files.take(512 * (i + 1))) by {
                assert(512 * (i + 1) <= n);
                assert(s.files.take(512 * (i + 1)) == before.files.take(512 * (i + 1)));
            }
            if (n + 1) % 512 == 0 {
                assert((n + 1) / 512 == n / 512 + 1);
                assert(512 * (n / 512 + 1) == n + 1);
                assert(s.files.take(n + 1) == s.files);
                assert forall|i: int| 0 <= i < s.reports.len() implies (
                #[trigger] s.reports[i]).0 == 512 * (i + 1) && s.reports[i].1 == bytes_of(
                    s.files.take(512 * (i + 1)),
                ) by {
                    if i < before.reports.len() {
                        assert(s.reports[i] == before.reports[i]);
                    }
                }
            } else {
                assert((n + 1) / 512 == n / 512);
                assert(s.reports == before.reports);
            }
        }
    }
}

/// A source that is a single file gives that file alone, under its own name; a
/// source that is a folder gives what its walk found. The last report tells of
/// all of it.
pub proof fn a_scan_tells_of_all_it_found(source: Seq<char>, found: Found)
    ensures
        found matches Found::Single(m) ==> match path::file_name(source) {
            None => scan_outcome(source, found) matches Err(x) && x == (ScanFailure::NoFileName {
                source,
            }),
            Some(name) => scan_outcome(source, found) matches Ok(r) && r.0.len() == 1 && r.0[0].abs
                == source && r.0[0].rel == name && r.0[0].size == m.size && r.0[0].mtime_ns
                == nanos_of(m.modified) as i128 && r.0[0].dest_rel is None && r.1 == 0 && r.2.len()
                == 1 && r.2.last() == (1int, m.size as int),
        },
        found matches Found::Tree(entries) ==> match scan_walk(source, entries@) {
            Err(x) => scan_outcome(source, found) matches Err(y) && x == y,
            Ok(s) => scan_outcome(source, found) matches Ok(r) && r.0 == s.files && r.1
                == s.skipped && r.2.drop_last() == s.reports && r.2.last() == (
                s.files.len() as int,
                s.bytes as int,
            ),
        },
{
    if let Found::Tree(entries) = found {
        if let Ok(s) = scan_walk(source, entries@) {
            let end = (s.files.len() as int, s.bytes as int);
            assert(s.reports.push(end).drop_last() == s.reports);
        }
    }
}

/// A file stands for its fields, and is written where a template puts it, or
/// else at its relative path.
pub proof fn files_stand_for_their_fields(f: SourceFile)
    ensures
        f@.abs == f.abs.text@,
        f@.rel == f.rel.text@,
        f@.size == f.size,
        f@.mtime_ns == f.mtime_ns,
        f.dest_rel matches Some(d) ==> f@.target() == d.text@,
        f.dest_rel is None ==> f@.target() == f.rel.text@,
{
}

/// The message for a failed scan names the path and the reason.
pub proof fn scan_messages_name_the_problem(p: Seq<char>, why: Seq<char>)
    ensures
        scan_message(ScanFailure::Cancelled) == "scan cancelled"@,
        scan_message(ScanFailure::Unreadable { source: p, why }) == "cannot read "@ + p + ": "@
            + why,
        scan_message(ScanFailure::NoFileName { source: p }) == "source "@ + p
            + " has no file name"@,
        scan_message(ScanFailure::Outside { path: p }) == "relativizing "@ + p,
{
}

/// Lists and reports stand for their items one by one, and a scanner for what
/// it has counted.
pub proof fn scans_stand_for_what_they_counted(
    files: Seq<SourceFile>,
    f: SourceFile,
    reports: Seq<(u64, u64)>,
    expected: Seq<(int, int)>,
    r: (u64, u64),
    e: (int, int),
    s: Scanner,
)
    ensures
        models(Seq::empty()).len() == 0,
        models(files.push(f)) == models(files).push(f@),
        reports_are(Seq::empty(), Seq::empty()),
        reports_are(reports.push(r), expected.push(e)) <==> reports_are(reports, expected) && r.0
            == e.0 && r.1 == e.1,
        s.state().files == models(s.files@),
        s.state().skipped == s.skipped,
        s.state().bytes == s.bytes,
        s.state().reports.len() == 0,
{
    assert(models(files.push(f)) =~= models(files).push(f@));
    let a = reports.push(r);
    let b = expected.push(e);
    if reports_are(a, b) {
        assert(a[reports.len() as int] == r && b[expected.len() as int] == e);
        assert forall|i: int| 0 <= i < expected.len() implies (#[trigger] reports[i]).0
            == expected[i].0 && reports[i].1 == expected[i].1 by {
            assert(a[i] == reports[i] && b[i] == expected[i]);
        }
    }
    if reports_are(reports, expected) && r.0 == e.0 && r.1 == e.1 {
        assert forall|i: int| 0 <= i < b.len() implies (#[trigger] a[i]).0 == b[i].0 && a[i].1
            == b[i].1 by {
            if i < expected.len() {
                assert(a[i] == reports[i] && b[i] == expected[i]);
            }
        }
    }
}

} // verus!
