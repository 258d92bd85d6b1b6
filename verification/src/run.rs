//! What a harvest is: its configuration, the files it selects, where a
//! template puts them, and how they compare with what is already at the
//! destinations. What touches the disk happens outside.

use crate::dates;
use crate::dates::date_parts;
use crate::filter;
use crate::filter::Filter;
use crate::hash::HashAlgo;
use crate::path;
use crate::path::FilePath;
use crate::scan;
use crate::scan::{mtime_ns, FileMeta, ScanError, SourceFile};
use crate::template;
use crate::template::{render, RenderCtx};
use crate::text;
use vstd::prelude::*;
use vstd::string::*;

verus! {

/// The file name of a journal that stands at a destination.
pub const JOURNAL_NAME: &'static str = ".harvest-journal.jsonl";

/// How far two modification times may be apart (ns) to count as the same:
/// some file systems keep them coarsely.
pub const MTIME_SLACK_NS: i128 = 2_000_000_000;

/// Everything needed to run one harvest.
#[derive(Debug, Clone)]
pub struct HarvestConfig {
    pub source: FilePath,
    pub dests: Vec<FilePath>,
    pub algo: HashAlgo,
    pub verify: bool,
    pub resume: bool,
    /// Skip files already present at every destination (matched by path, size,
    /// and modification time) — incremental copy without needing a journal.
    pub skip_existing: bool,
    pub filter: Filter,
    /// Destination path template (e.g. `"{project}/{YYYY}-{MM}-{DD}/{filename}"`).
    pub dest_template: Option<String>,
    pub project: String,
    pub write_manifest: bool,
    /// Override the journal location; `None` uses `<first-dest>/.harvest-journal.jsonl`.
    pub journal_path: Option<FilePath>,
    /// Override the manifest location; `None` uses `<first-dest>/harvest-manifest.{ext}`.
    pub manifest_path: Option<FilePath>,
}

/// What a [`HarvestConfig`] stands for.
pub struct ConfigModel {
    pub source: Seq<char>,
    pub dests: Seq<Seq<char>>,
    pub algo: HashAlgo,
    pub verify: bool,
    pub resume: bool,
    pub skip_existing: bool,
    pub filter: filter::FilterModel,
    pub dest_template: Option<Seq<char>>,
    pub project: Seq<char>,
    pub write_manifest: bool,
    pub journal_path: Option<Seq<char>>,
    pub manifest_path: Option<Seq<char>>,
}

impl View for HarvestConfig {
    type V = ConfigModel;

    open spec fn view(&self) -> ConfigModel {
        ConfigModel {
            source: self.source@,
            dests: path::path_texts(self.dests@),
            algo: self.algo,
            verify: self.verify,
            resume: self.resume,
            skip_existing: self.skip_existing,
            filter: self.filter@,
            dest_template: text::opt_text(self.dest_template),
            project: self.project@,
            write_manifest: self.write_manifest,
            journal_path: path::path_text(self.journal_path),
            manifest_path: path::path_text(self.manifest_path),
        }
    }
}

// ---------------------------------------------------------------------------
// Setup
// ---------------------------------------------------------------------------

/// Why a run could not start.
#[derive(Debug)]
pub enum SetupError {
    /// There is nothing at the source path.
    NoSource(FilePath),
    /// No destination was given.
    NoDestination,
    /// The source could not be scanned.
    Scan(ScanError),
}

/// What a [`SetupError`] stands for.
pub enum SetupFailure {
    NoSource(Seq<char>),
    NoDestination,
    Scan(scan::ScanFailure),
}

impl View for SetupError {
    type V = SetupFailure;

    open spec fn view(&self) -> SetupFailure {
        match *self {
            SetupError::NoSource(p) => SetupFailure::NoSource(p@),
            SetupError::NoDestination => SetupFailure::NoDestination,
            SetupError::Scan(e) => SetupFailure::Scan(e@),
        }
    }
}

/// The message for a run that could not start.
pub open spec fn setup_message(f: SetupFailure) -> Seq<char> {
    match f {
        SetupFailure::NoSource(p) => "source does not exist: "@ + p,
        SetupFailure::NoDestination => "at least one destination is required"@,
        SetupFailure::Scan(s) => "scanning source: "@ + scan::scan_message(s),
    }
}

impl SetupError {
    /// The message for the user.
    pub fn message(&self) -> (r: String)
        ensures
            r@ == setup_message(self@),
    {
        match self {
            SetupError::NoSource(p) => {
                let mut r = "source does not exist: ".to_owned();
                r.append(p.text.as_str());
                r
            },
            SetupError::NoDestination => "at least one destination is required".to_owned(),
            SetupError::Scan(e) => {
                let mut r = "scanning source: ".to_owned();
                r.append(e.message().as_str());
                r
            },
        }
    }
}

impl HarvestConfig {
    /// Whether a source is there at all, which even a plan needs.
    pub fn check_source(&self, source_exists: bool) -> (r: Result<(), SetupError>)
        ensures
            match r {
                Ok(_) => source_exists,
                Err(e) => !source_exists && e@ == SetupFailure::NoSource(self.source@),
            },
    {
        if source_exists {
            Ok(())
        } else {
            Err(SetupError::NoSource(self.source.clone()))
        }
    }

    /// Whether a run can start: there are a source and a destination.
    pub fn check_setup(&self, source_exists: bool) -> (r: Result<(), SetupError>)
        ensures
            match r {
                Ok(_) => source_exists && self.dests@.len() > 0,
                Err(e) => if source_exists {
                    self.dests@.len() == 0 && e@ == SetupFailure::NoDestination
                } else {
                    e@ == SetupFailure::NoSource(self.source@)
                },
            },
    {
        match self.check_source(source_exists) {
            Err(e) => Err(e),
            Ok(_) => if self.dests.len() == 0 {
                Err(SetupError::NoDestination)
            } else {
                Ok(())
            },
        }
    }
}

// ---------------------------------------------------------------------------
// Selection
// ---------------------------------------------------------------------------

/// The owners of the files of a list.
pub open spec fn owner_texts(owners: Seq<Option<String>>) -> Seq<Option<Seq<char>>> {
    Seq::new(owners.len(), |i: int| text::opt_text(owners[i]))
}

/// Where a template puts a file, in a job that starts at `now_ns`.
pub open spec fn placed(
    f: scan::SourceModel,
    tmpl: Option<Seq<char>>,
    project: Seq<char>,
    now_ns: i128,
) -> scan::SourceModel {
    match tmpl {
        None => f,
        Some(t) => scan::SourceModel {
            dest_rel: Some(
                template::rendered(
                    t,
                    template::RenderModel {
                        rel: f.rel,
                        project,
                        job: dates::date_of(now_ns as int),
                        file: dates::date_of(f.mtime_ns as int),
                    },
                ),
            ),
            ..f
        },
    }
}

/// The files that pass the filter, each where the template puts it.
pub open spec fn selected(
    files: Seq<scan::SourceModel>,
    owners: Seq<Option<Seq<char>>>,
    m: filter::FilterModel,
    tmpl: Option<Seq<char>>,
    project: Seq<char>,
    now_ns: i128,
) -> Seq<scan::SourceModel>
    decreases files.len(),
{
    if files.len() == 0 {
        Seq::<scan::SourceModel>::empty()
    } else {
        let before = selected(files.drop_last(), owners, m, tmpl, project, now_ns);
        if m.admits(files.last()) && m.owner_passes(owners[files.len() - 1]) {
            before.push(placed(files.last(), tmpl, project, now_ns))
        } else {
            before
        }
    }
}

/// Puts a file where the template wants it.
fn place(f: SourceFile, tmpl: &Option<String>, project: &String, now_ns: i128) -> (r: SourceFile)
    ensures
        r@ == placed(f@, text::opt_text(*tmpl), project@, now_ns),
{
    match tmpl {
        None => f,
        Some(t) => {
            let (job_year, job_month, job_day) = date_parts(now_ns);
            let (file_year, file_month, file_day) = date_parts(f.mtime_ns);
            let dest = {
                let ctx = RenderCtx {
                    rel: &f.rel,
                    project: project.as_str(),
                    job_year,
                    job_month,
                    job_day,
                    file_year,
                    file_month,
                    file_day,
                };
                render(t.as_str(), &ctx)
            };
            SourceFile {
                abs: f.abs,
                rel: f.rel,
                size: f.size,
                mtime_ns: f.mtime_ns,
                dest_rel: Some(dest),
            }
        },
    }
}

/// Applies the filter to what a scan found, and renders templated destination
/// paths. `owners` holds the account that owns each file, where it is known.
pub fn filter_and_template(
    cfg: &HarvestConfig,
    files: Vec<SourceFile>,
    owners: &Vec<Option<String>>,
    now_ns: i128,
) -> (r: Vec<SourceFile>)
    requires
        owners@.len() == files@.len(),
    ensures
        scan::models(r@) == selected(
            scan::models(files@),
            owner_texts(owners@),
            cfg.filter@,
            text::opt_text(cfg.dest_template),
            cfg.project@,
            now_ns,
        ),
{
    let ghost all = scan::models(files@);
    let ghost who = owner_texts(owners@);
    let ghost m = cfg.filter@;
    let ghost tmpl = text::opt_text(cfg.dest_template);
    let mut r: Vec<SourceFile> = Vec::new();
    let n = owners.len();
    let mut i: usize = 0;
    assert(scan::models(r@) == selected(all.take(0), who, m, tmpl, cfg.project@, now_ns));
    let ghost given = files@;
    for f in it: files
        invariant
            it.seq() == given,
            all == scan::models(given),
            who == owner_texts(owners@),
            m == cfg.filter@,
            tmpl == text::opt_text(cfg.dest_template),
            owners@.len() == given.len(),
            n == owners@.len(),
            i == it.index(),
            scan::models(r@) == selected(
                all.take(i as int),
                who,
                m,
                tmpl,
                cfg.project@,
                now_ns,
            ),
    {
        let ghost next = all.take(i + 1);
        assert(next.drop_last() == all.take(i as int));
        assert(next.last() == f@);
        assert(who[i as int] == text::opt_text(owners@[i as int]));
        let ghost before = scan::models(r@);
        if cfg.filter.accepts(&f) && cfg.filter.accepts_owner(&owners[i]) {
            let put = place(f, &cfg.dest_template, &cfg.project, now_ns);
            let ghost model = put@;
            r.push(put);
            assert(scan::models(r@) == before.push(model));
        }
        i += 1;
    }
    assert(all.take(all.len() as int) == all);
    r
}

// ---------------------------------------------------------------------------
// What is already there
// ---------------------------------------------------------------------------

/// Whether a file at a destination is the source file: it has the same size
/// and, within the slack, the same modification time.
pub open spec fn same_file(meta: FileMeta, f: scan::SourceModel) -> bool {
    meta.size == f.size && -MTIME_SLACK_NS <= scan::nanos_of(meta.modified) - f.mtime_ns
        <= MTIME_SLACK_NS
}

/// Whether a file is there, and is the same, at every destination.
pub open spec fn present_everywhere(stats: Seq<Option<FileMeta>>, f: scan::SourceModel) -> bool {
    forall|i: int|
        0 <= i < stats.len() ==> (#[trigger] stats[i] matches Some(m) && same_file(m, f))
}

/// Whether a file is there, but differs, at some destination.
pub open spec fn differs_somewhere(stats: Seq<Option<FileMeta>>, f: scan::SourceModel) -> bool {
    exists|i: int|
        0 <= i < stats.len() && (#[trigger] stats[i] matches Some(m) && !same_file(m, f))
}

/// Whether a file is there, the same or not, at some destination.
pub open spec fn found_somewhere(stats: Seq<Option<FileMeta>>) -> bool {
    exists|i: int| 0 <= i < stats.len() && #[trigger] stats[i] is Some
}

/// Whether a file at a destination is the source file.
fn is_same(meta: &FileMeta, f: &SourceFile) -> (r: bool)
    ensures
        r == same_file(*meta, f@),
{
    let there: i128 = mtime_ns(meta.modified);
    meta.size == f.size && there - MTIME_SLACK_NS <= f.mtime_ns && f.mtime_ns <= there
        + MTIME_SLACK_NS
}

/// True if a file is already at every destination root with a matching size
/// and (within ~2s) modification time. `stats` holds what is known of the
/// regular file at each of them.
pub fn present_at_all(stats: &Vec<Option<FileMeta>>, f: &SourceFile) -> (r: bool)
    ensures
        r == present_everywhere(stats@, f@),
{
    let mut i: usize = 0;
    while i < stats.len()
        invariant
            i <= stats@.len(),
            forall|j: int|
                0 <= j < i ==> (#[trigger] stats@[j] matches Some(m) && same_file(m, f@)),
        decreases stats@.len() - i,
    {
        match &stats[i] {
            Some(m) => {
                if !is_same(m, f) {
                    assert(!(stats@[i as int] matches Some(m) && same_file(m, f@)));
                    return false;
                }
            },
            None => {
                assert(stats@[i as int] is None);
                return false;
            },
        }
        i += 1;
    }
    true
}

/// Whether a file is there, but differs, at some destination.
fn differs_at_some(stats: &Vec<Option<FileMeta>>, f: &SourceFile) -> (r: bool)
    ensures
        r == differs_somewhere(stats@, f@),
{
    let mut i: usize = 0;
    while i < stats.len()
        invariant
            i <= stats@.len(),
            forall|j: int|
                0 <= j < i ==> !(#[trigger] stats@[j] matches Some(m) && !same_file(m, f@)),
        decreases stats@.len() - i,
    {
        match &stats[i] {
            Some(m) => {
                if !is_same(m, f) {
                    assert(stats@[i as int] matches Some(m) && !same_file(m, f@));
                    return true;
                }
            },
            None => {},
        }
        i += 1;
    }
    false
}

/// Whether a file is there, the same or not, at some destination.
fn found_at_some(stats: &Vec<Option<FileMeta>>) -> (r: bool)
    ensures
        r == found_somewhere(stats@),
{
    let mut i: usize = 0;
    while i < stats.len()
        invariant
            i <= stats@.len(),
            forall|j: int| 0 <= j < i ==> #[trigger] stats@[j] is None,
        decreases stats@.len() - i,
    {
        if stats[i].is_some() {
            return true;
        }
        i += 1;
    }
    false
}

/// The sizes of the files, added up.
pub open spec fn size_sum(files: Seq<scan::SourceModel>) -> nat
    decreases files.len(),
{
    if files.len() == 0 {
        0
    } else {
        size_sum(files.drop_last()) + files.last().size as nat
    }
}

/// The first files of a list are no larger than all of them.
pub proof fn part_is_no_larger(files: Seq<scan::SourceModel>, k: int)
    requires
        0 <= k <= files.len(),
    ensures
        size_sum(files.take(k)) <= size_sum(files),
    decreases files.len(),
{
    if k == files.len() {
        assert(files.take(k) == files);
    } else {
        part_is_no_larger(files.drop_last(), k);
        assert(files.drop_last().take(k) == files.take(k));
    }
}

/// The sizes of the files, added up, if that fits in 64 bits.
pub fn total_size(files: &Vec<SourceFile>) -> (r: Option<u64>)
    ensures
        r is Some <==> size_sum(scan::models(files@)) <= u64::MAX,
        r matches Some(n) ==> n == size_sum(scan::models(files@)),
{
    let ghost all = scan::models(files@);
    let mut sum: u64 = 0;
    let mut i: usize = 0;
    assert(all.take(0) == Seq::<scan::SourceModel>::empty());
    while i < files.len()
        invariant
            all == scan::models(files@),
            i <= files@.len(),
            sum == size_sum(all.take(i as int)),
        decreases files@.len() - i,
    {
        proof {
            assert(all.take(i + 1).drop_last() == all.take(i as int));
            assert(all.take(i + 1).last() == files@[i as int]@);
            part_is_no_larger(all, i + 1);
        }
        match sum.checked_add(files[i].size) {
            Some(next) => {
                sum = next;
            },
            None => {
                return None;
            },
        }
        i += 1;
    }
    assert(all.take(all.len() as int) == all);
    Some(sum)
}

/// A read-only pre-flight summary: what a harvest *would* do, without copying.
#[derive(Debug, Clone, Copy)]
pub struct HarvestPlan {
    pub total: usize,
    /// Files not present at any destination.
    pub new: usize,
    /// Files already present at every destination (matching size + mtime).
    pub present: usize,
    /// Files present at a destination but with different size/mtime (would overwrite).
    pub conflict: usize,
    /// Bytes that would actually be copied: those of every file that is not
    /// present at every destination.
    pub copy_bytes: u64,
}

/// What a [`HarvestPlan`] stands for.
pub struct PlanModel {
    pub total: nat,
    pub new: nat,
    pub present: nat,
    pub conflict: nat,
    pub copy_bytes: nat,
}

impl Default for HarvestPlan {
    fn default() -> (r: Self)
        ensures
            r@ == (PlanModel { total: 0, new: 0, present: 0, conflict: 0, copy_bytes: 0 }),
    {
        HarvestPlan { total: 0, new: 0, present: 0, conflict: 0, copy_bytes: 0 }
    }
}

impl View for HarvestPlan {
    type V = PlanModel;

    open spec fn view(&self) -> PlanModel {
        PlanModel {
            total: self.total as nat,
            new: self.new as nat,
            present: self.present as nat,
            conflict: self.conflict as nat,
            copy_bytes: self.copy_bytes as nat,
        }
    }
}

/// What is known of each file at each destination.
pub open spec fn stat_lists(stats: Seq<Vec<Option<FileMeta>>>) -> Seq<Seq<Option<FileMeta>>> {
    Seq::new(stats.len(), |i: int| stats[i]@)
}

/// Whether every destination was looked at for each file.
pub open spec fn covers(stats: Seq<Seq<Option<FileMeta>>>, dests: nat) -> bool {
    forall|i: int| 0 <= i < stats.len() ==> (#[trigger] stats[i]).len() == dests
}

/// What a harvest of `files` would do, given what is at the destinations. A
/// file that is missing at some of them, and the same where it is not, is
/// neither new nor a conflict, but it would be copied.
pub open spec fn plan_of(
    files: Seq<scan::SourceModel>,
    stats: Seq<Seq<Option<FileMeta>>>,
) -> PlanModel
    decreases files.len(),
{
    if files.len() == 0 {
        PlanModel { total: 0, new: 0, present: 0, conflict: 0, copy_bytes: 0 }
    } else {
        let p = plan_of(files.drop_last(), stats);
        let f = files.last();
        let there = stats[files.len() - 1];
        if present_everywhere(there, f) {
            PlanModel { total: p.total + 1, present: p.present + 1, ..p }
        } else if differs_somewhere(there, f) {
            PlanModel {
                total: p.total + 1,
                conflict: p.conflict + 1,
                copy_bytes: p.copy_bytes + f.size as nat,
                ..p
            }
        } else if found_somewhere(there) {
            PlanModel { total: p.total + 1, copy_bytes: p.copy_bytes + f.size as nat, ..p }
        } else {
            PlanModel {
                total: p.total + 1,
                new: p.new + 1,
                copy_bytes: p.copy_bytes + f.size as nat,
                ..p
            }
        }
    }
}

/// Compares the (filtered, templated) source with the destinations without
/// copying anything — powers the pre-flight confirmation. `stats` holds, for
/// each file, what is known of the regular file at each destination.
pub fn plan(
    cfg: &HarvestConfig,
    files: &Vec<SourceFile>,
    stats: &Vec<Vec<Option<FileMeta>>>,
) -> (r: HarvestPlan)
    requires
        stats@.len() == files@.len(),
        covers(stat_lists(stats@), cfg.dests@.len()),
        size_sum(scan::models(files@)) <= u64::MAX,
    ensures
        r@ == plan_of(scan::models(files@), stat_lists(stats@)),
{
    let ghost all = scan::models(files@);
    let ghost there = stat_lists(stats@);
    let mut p = HarvestPlan::default();
    let mut i: usize = 0;
    assert(all.take(0) == Seq::<scan::SourceModel>::empty());
    while i < files.len()
        invariant
            all == scan::models(files@),
            there == stat_lists(stats@),
            stats@.len() == files@.len(),
            size_sum(all) <= u64::MAX,
            i <= files@.len(),
            p@ == plan_of(all.take(i as int), there),
            p.total == i,
            p.new <= i,
            p.present <= i,
            p.conflict <= i,
            p.copy_bytes <= size_sum(all.take(i as int)),
        decreases files@.len() - i,
    {
        proof {
            assert(all.take(i + 1).drop_last() == all.take(i as int));
            assert(all.take(i + 1).last() == files@[i as int]@);
            assert(there[i as int] == stats@[i as int]@);
            part_is_no_larger(all, i + 1);
        }
        let f = &files[i];
        p.total = p.total + 1;
        if present_at_all(&stats[i], f) {
            p.present = p.present + 1;
        } else if differs_at_some(&stats[i], f) {
            p.conflict = p.conflict + 1;
            p.copy_bytes = p.copy_bytes + f.size;
        } else {
            if !found_at_some(&stats[i]) {
                p.new = p.new + 1;
            }
            p.copy_bytes = p.copy_bytes + f.size;
        }
        i += 1;
    }
    assert(all.take(all.len() as int) == all);
    p
}

// ---------------------------------------------------------------------------
// Laws
// ---------------------------------------------------------------------------

/// Whether a file is at every destination with exactly the size and the
/// modification time of the source.
pub open spec fn stamped(stats: Seq<Option<FileMeta>>, f: scan::SourceModel) -> bool {
    forall|i: int|
        0 <= i < stats.len() ==> (#[trigger] stats[i] matches Some(m) && m.size == f.size
            && scan::nanos_of(m.modified) == f.mtime_ns)
}

/// A copy that keeps the size and the modification time of its source at every
/// destination is recognised as already there.
pub proof fn stamped_copies_are_recognised(stats: Seq<Option<FileMeta>>, f: scan::SourceModel)
    requires
        stamped(stats, f),
    ensures
        present_everywhere(stats, f),
        !differs_somewhere(stats, f),
{
    assert forall|i: int| 0 <= i < stats.len() implies (#[trigger] stats[i] matches Some(m)
        && same_file(m, f)) by {
        assert(stats[i] matches Some(m) && m.size == f.size && scan::nanos_of(m.modified)
            == f.mtime_ns);
    }
}

/// Once every file is at every destination, a plan has nothing left to do.
pub proof fn complete_copy_leaves_nothing_to_plan(
    files: Seq<scan::SourceModel>,
    stats: Seq<Seq<Option<FileMeta>>>,
)
    requires
        forall|i: int|
            0 <= i < files.len() ==> present_everywhere(stats[i], #[trigger] files[i]),
    ensures
        plan_of(files, stats) == (PlanModel {
            total: files.len(),
            new: 0,
            present: files.len(),
            conflict: 0,
            copy_bytes: 0,
        }),
    decreases files.len(),
{
    if files.len() > 0 {
        let front = files.drop_last();
        assert forall|i: int| 0 <= i < front.len() implies present_everywhere(
            stats[i],
            #[trigger] front[i],
        ) by {
            assert(files[i] == front[i]);
        }
        complete_copy_leaves_nothing_to_plan(front, stats);
        assert(files[files.len() - 1] == files.last());
    }
}

/// No file is counted under two headings, and what is neither new, present nor
/// a conflict is still in the total.
pub proof fn plan_counts_each_file_once(
    files: Seq<scan::SourceModel>,
    stats: Seq<Seq<Option<FileMeta>>>,
)
    ensures
        ({
            let p = plan_of(files, stats);
            &&& p.total == files.len()
            &&& p.new + p.present + p.conflict <= p.total
            &&& p.copy_bytes <= size_sum(files)
        }),
    decreases files.len(),
{
    if files.len() > 0 {
        plan_counts_each_file_once(files.drop_last(), stats);
    }
}

/// A file counts as present at a destination only with the size of the source
/// and a modification time at most two seconds off; where it is there but with
/// another size, smaller or larger, or another time, it differs.
pub proof fn present_means_same_size_and_time(stats: Seq<Option<FileMeta>>, f: scan::SourceModel)
    ensures
        present_everywhere(stats, f) <==> forall|i: int|
            0 <= i < stats.len() ==> (#[trigger] stats[i] is Some && stats[i]->0.size == f.size
                && -2_000_000_000 <= scan::nanos_of(stats[i]->0.modified) - f.mtime_ns
                <= 2_000_000_000),
        differs_somewhere(stats, f) <==> exists|i: int|
            0 <= i < stats.len() && #[trigger] stats[i] is Some && (stats[i]->0.size != f.size
                || scan::nanos_of(stats[i]->0.modified) - f.mtime_ns > 2_000_000_000
                || f.mtime_ns - scan::nanos_of(stats[i]->0.modified) > 2_000_000_000),
        found_somewhere(stats) <==> exists|i: int|
            0 <= i < stats.len() && #[trigger] stats[i] is Some,
{
    if present_everywhere(stats, f) {
        assert forall|i: int| 0 <= i < stats.len() implies (#[trigger] stats[i] is Some
            && stats[i]->0.size == f.size && -2_000_000_000 <= scan::nanos_of(
            stats[i]->0.modified,
        ) - f.mtime_ns <= 2_000_000_000) by {
            assert(stats[i] matches Some(m) && same_file(m, f));
        }
    }
    if forall|i: int|
        0 <= i < stats.len() ==> (#[trigger] stats[i] is Some && stats[i]->0.size == f.size
            && -2_000_000_000 <= scan::nanos_of(stats[i]->0.modified) - f.mtime_ns
            <= 2_000_000_000) {
        assert forall|i: int| 0 <= i < stats.len() implies (#[trigger] stats[i] matches Some(m)
            && same_file(m, f)) by {
            assert(stats[i] is Some);
        }
    }
    if differs_somewhere(stats, f) {
        let i = choose|i: int|
            0 <= i < stats.len() && (#[trigger] stats[i] matches Some(m) && !same_file(m, f));
        assert(stats[i] is Some && !same_file(stats[i]->0, f));
    }
    if exists|i: int|
        0 <= i < stats.len() && #[trigger] stats[i] is Some && (stats[i]->0.size != f.size
            || scan::nanos_of(stats[i]->0.modified) - f.mtime_ns > 2_000_000_000 || f.mtime_ns
            - scan::nanos_of(stats[i]->0.modified) > 2_000_000_000) {
        let i = choose|i: int|
            0 <= i < stats.len() && #[trigger] stats[i] is Some && (stats[i]->0.size != f.size
                || scan::nanos_of(stats[i]->0.modified) - f.mtime_ns > 2_000_000_000
                || f.mtime_ns - scan::nanos_of(stats[i]->0.modified) > 2_000_000_000);
        assert(stats[i] matches Some(m) && !same_file(m, f));
    }
}

/// What a plan says of one file. It is present if every destination has it with
/// its size and, within two seconds, its time; a conflict if some destination
/// has it otherwise; new if there is a destination but none has it. Unless it
/// is present, its bytes are to be copied.
pub proof fn one_file_is_planned(f: scan::SourceModel, there: Seq<Option<FileMeta>>)
    ensures
        ({
            let p = plan_of(seq![f], seq![there]);
            let alike = |m: FileMeta|
                m.size == f.size && -2_000_000_000 <= scan::nanos_of(m.modified) - f.mtime_ns
                    <= 2_000_000_000;
            let present = forall|i: int|
                0 <= i < there.len() ==> #[trigger] there[i] is Some && alike(there[i]->0);
            let conflict = exists|i: int|
                0 <= i < there.len() && #[trigger] there[i] is Some && !alike(there[i]->0);
            let absent = forall|i: int| 0 <= i < there.len() ==> #[trigger] there[i] is None;
            &&& p.total == 1
            &&& p.present == if present {
                1nat
            } else {
                0
            }
            &&& p.conflict == if conflict {
                1nat
            } else {
                0
            }
            &&& p.new == if absent && there.len() > 0 {
                1nat
            } else {
                0
            }
            &&& p.copy_bytes == if present {
                0
            } else {
                f.size as nat
            }
        }),
{
    present_means_same_size_and_time(there, f);
    reveal_with_fuel(plan_of, 2);
    assert(seq![f].drop_last() == Seq::<scan::SourceModel>::empty());
    assert(seq![f].last() == f);
    assert(seq![there][0] == there);
    let alike = |m: FileMeta|
        m.size == f.size && -2_000_000_000 <= scan::nanos_of(m.modified) - f.mtime_ns
            <= 2_000_000_000;
    if there.len() > 0 && (forall|i: int| 0 <= i < there.len() ==> #[trigger] there[i] is None) {
        assert(there[0] is None);
    }
    if exists|i: int| 0 <= i < there.len() && #[trigger] there[i] is Some && !alike(there[i]->0) {
        let i = choose|i: int|
            0 <= i < there.len() && #[trigger] there[i] is Some && !alike(there[i]->0);
        assert(differs_somewhere(there, f));
        assert(!present_everywhere(there, f));
    }
    if differs_somewhere(there, f) {
        let i = choose|i: int|
            0 <= i < there.len() && #[trigger] there[i] is Some && (there[i]->0.size != f.size
                || scan::nanos_of(there[i]->0.modified) - f.mtime_ns > 2_000_000_000
                || f.mtime_ns - scan::nanos_of(there[i]->0.modified) > 2_000_000_000);
        assert(!alike(there[i]->0));
    }
    if forall|i: int| 0 <= i < there.len() ==> #[trigger] there[i] is Some && alike(there[i]->0) {
        assert(present_everywhere(there, f));
    }
    if present_everywhere(there, f) {
        assert forall|i: int| 0 <= i < there.len() implies #[trigger] there[i] is Some && alike(
            there[i]->0,
        ) by {}
    }
}

proof fn lemma_plan_of_first(
    files: Seq<scan::SourceModel>,
    a: Seq<Seq<Option<FileMeta>>>,
    b: Seq<Seq<Option<FileMeta>>>,
)
    requires
        forall|i: int| 0 <= i < files.len() ==> #[trigger] a[i] == b[i],
    ensures
        plan_of(files, a) == plan_of(files, b),
    decreases files.len(),
{
    if files.len() > 0 {
        lemma_plan_of_first(files.drop_last(), a, b);
        assert(a[files.len() - 1] == b[files.len() - 1]);
    }
}

/// A plan counts file by file: the plan of two lists is the sum of their plans.
pub proof fn plans_add_up(
    a: Seq<scan::SourceModel>,
    b: Seq<scan::SourceModel>,
    there_a: Seq<Seq<Option<FileMeta>>>,
    there_b: Seq<Seq<Option<FileMeta>>>,
)
    requires
        there_a.len() == a.len(),
        there_b.len() == b.len(),
    ensures
        ({
            let p = plan_of(a, there_a);
            let q = plan_of(b, there_b);
            plan_of(a + b, there_a + there_b) == (PlanModel {
                total: p.total + q.total,
                new: p.new + q.new,
                present: p.present + q.present,
                conflict: p.conflict + q.conflict,
                copy_bytes: p.copy_bytes + q.copy_bytes,
            })
        }),
    decreases b.len(),
{
    if b.len() == 0 {
        assert(a + b == a);
        assert(there_a + there_b == there_a);
    } else {
        let fb = b.drop_last();
        let ft = there_b.drop_last();
        plans_add_up(a, fb, there_a, ft);
        assert((a + b).drop_last() == a + fb);
        assert((a + b).last() == b.last());
        lemma_plan_of_first(a + fb, there_a + there_b, there_a + ft);
        lemma_plan_of_first(fb, there_b, ft);
        assert((there_a + there_b)[(a + b).len() - 1] == there_b[b.len() - 1]);
    }
}

/// Sizes are added up file by file.
pub proof fn sizes_add_up(a: Seq<scan::SourceModel>, b: Seq<scan::SourceModel>, f: scan::SourceModel)
    ensures
        size_sum(a + b) == size_sum(a) + size_sum(b),
        size_sum(seq![f]) == f.size,
        size_sum(Seq::empty()) == 0,
    decreases b.len(),
{
    reveal_with_fuel(size_sum, 2);
    assert(seq![f].drop_last() == Seq::<scan::SourceModel>::empty());
    assert(seq![f].last() == f);
    if b.len() == 0 {
        assert(a + b == a);
    } else {
        sizes_add_up(a, b.drop_last(), f);
        assert((a + b).drop_last() == a + b.drop_last());
        assert((a + b).last() == b.last());
    }
}

/// Selection goes file by file: a file that passes the filter and whose owner
/// passes is kept, where the template puts it; any other is dropped; the files
/// that are kept stay in order.
pub proof fn files_are_selected_one_by_one(
    a: Seq<scan::SourceModel>,
    owners_a: Seq<Option<Seq<char>>>,
    b: Seq<scan::SourceModel>,
    owners_b: Seq<Option<Seq<char>>>,
    f: scan::SourceModel,
    owner: Option<Seq<char>>,
    m: filter::FilterModel,
    tmpl: Option<Seq<char>>,
    project: Seq<char>,
    now_ns: i128,
)
    requires
        owners_a.len() == a.len(),
        owners_b.len() == b.len(),
    ensures
        selected(a + b, owners_a + owners_b, m, tmpl, project, now_ns) == selected(
            a,
            owners_a,
            m,
            tmpl,
            project,
            now_ns,
        ) + selected(b, owners_b, m, tmpl, project, now_ns),
        selected(seq![f], seq![owner], m, tmpl, project, now_ns) == if m.admits(f)
            && m.owner_passes(owner) {
            seq![placed(f, tmpl, project, now_ns)]
        } else {
            Seq::<scan::SourceModel>::empty()
        },
    decreases b.len(),
{
    let none = Seq::<scan::SourceModel>::empty();
    reveal_with_fuel(selected, 2);
    assert(seq![f].drop_last() == none);
    assert(seq![f].last() == f);
    assert(seq![owner][0] == owner);
    if b.len() == 0 {
        assert(a + b == a);
        assert(owners_a + owners_b == owners_a);
        let s = selected(a, owners_a, m, tmpl, project, now_ns);
        assert(s + none == s);
    } else {
        let fb = b.drop_last();
        let fo = owners_b.drop_last();
        files_are_selected_one_by_one(
            a,
            owners_a,
            fb,
            fo,
            f,
            owner,
            m,
            tmpl,
            project,
            now_ns,
        );
        assert((a + b).drop_last() == a + fb);
        assert((a + b).last() == b.last());
        lemma_selected_first(a + fb, owners_a + owners_b, owners_a + fo, m, tmpl, project, now_ns);
        lemma_selected_first(fb, owners_b, fo, m, tmpl, project, now_ns);
        assert((owners_a + owners_b)[(a + b).len() - 1] == owners_b[b.len() - 1]);
    }
}

proof fn lemma_selected_first(
    files: Seq<scan::SourceModel>,
    a: Seq<Option<Seq<char>>>,
    b: Seq<Option<Seq<char>>>,
    m: filter::FilterModel,
    tmpl: Option<Seq<char>>,
    project: Seq<char>,
    now_ns: i128,
)
    requires
        forall|i: int| 0 <= i < files.len() ==> #[trigger] a[i] == b[i],
    ensures
        selected(files, a, m, tmpl, project, now_ns) == selected(
            files,
            b,
            m,
            tmpl,
            project,
            now_ns,
        ),
    decreases files.len(),
{
    if files.len() > 0 {
        lemma_selected_first(files.drop_last(), a, b, m, tmpl, project, now_ns);
        assert(a[files.len() - 1] == b[files.len() - 1]);
    }
}

/// A template decides nothing but where a file is written: there it is what the
/// template gives for the path of the file, the project, the date on which the
/// job starts and the date on which the file was modified. Without a template
/// a file stays as it is.
pub proof fn templates_use_the_dates_of_job_and_file(
    f: scan::SourceModel,
    t: Seq<char>,
    project: Seq<char>,
    now_ns: i128,
    job: (int, int, int),
    file: (int, int, int),
)
    requires
        dates::falls_on(now_ns as int, job.0, job.1, job.2),
        dates::falls_on(f.mtime_ns as int, file.0, file.1, file.2),
        -9999 <= job.0 <= 9999,
        -9999 <= file.0 <= 9999,
    ensures
        placed(f, None, project, now_ns) == f,
        ({
            let g = placed(f, Some(t), project, now_ns);
            &&& g.abs == f.abs
            &&& g.rel == f.rel
            &&& g.size == f.size
            &&& g.mtime_ns == f.mtime_ns
            &&& g.dest_rel == Some(
                template::rendered(t, template::RenderModel { rel: f.rel, project, job, file }),
            )
            &&& g.target() == g.dest_rel->0
        }),
{
    dates::the_calendar_holds_every_year_of_four_digits(now_ns as int, job.0, job.1, job.2);
    dates::the_calendar_holds_every_year_of_four_digits(
        f.mtime_ns as int,
        file.0,
        file.1,
        file.2,
    );
    dates::the_date_of_an_instant_is_where_it_falls(now_ns as int, job.0, job.1, job.2);
    dates::the_date_of_an_instant_is_where_it_falls(f.mtime_ns as int, file.0, file.1, file.2);
}

/// A configuration and a plan stand for their fields.
pub proof fn configurations_stand_for_their_fields(c: HarvestConfig, p: HarvestPlan, i: int)
    ensures
        c@.source == c.source.text@,
        c@.dests.len() == c.dests@.len(),
        0 <= i < c.dests@.len() ==> c@.dests[i] == c.dests@[i].text@,
        c@.algo == c.algo,
        c@.verify == c.verify,
        c@.resume == c.resume,
        c@.skip_existing == c.skip_existing,
        c@.filter == c.filter@,
        c@.dest_template is Some <==> c.dest_template is Some,
        c.dest_template matches Some(t) ==> c@.dest_template == Some(t@),
        c@.project == c.project@,
        c@.write_manifest == c.write_manifest,
        c@.journal_path is Some <==> c.journal_path is Some,
        c.journal_path matches Some(t) ==> c@.journal_path == Some(t.text@),
        c@.manifest_path is Some <==> c.manifest_path is Some,
        c.manifest_path matches Some(t) ==> c@.manifest_path == Some(t.text@),
        p@.total == p.total,
        p@.new == p.new,
        p@.present == p.present,
        p@.conflict == p.conflict,
        p@.copy_bytes == p.copy_bytes,
{
}

/// The message for a run that could not start names what is wrong.
pub proof fn setup_messages_name_the_problem(p: Seq<char>, s: scan::ScanFailure)
    ensures
        setup_message(SetupFailure::NoSource(p)) == "source does not exist: "@ + p,
        setup_message(SetupFailure::NoDestination) == "at least one destination is required"@,
        setup_message(SetupFailure::Scan(s)) == "scanning source: "@ + scan::scan_message(s),
{
}

/// Lists of owners, and of what is known of the destinations, stand for their
/// items one by one; the destinations are covered if those of each file are.
pub proof fn lists_stand_for_their_items(
    owners: Seq<Option<String>>,
    stats: Seq<Vec<Option<FileMeta>>>,
    known: Seq<Seq<Option<FileMeta>>>,
    one: Seq<Option<FileMeta>>,
    dests: nat,
    i: int,
)
    ensures
        owner_texts(owners).len() == owners.len(),
        0 <= i < owners.len() ==> (owner_texts(owners)[i] is Some <==> owners[i] is Some),
        0 <= i < owners.len() ==> (owners[i] matches Some(s) ==> owner_texts(owners)[i] == Some(
            s@,
        )),
        stat_lists(stats).len() == stats.len(),
        0 <= i < stats.len() ==> stat_lists(stats)[i] == stats[i]@,
        covers(Seq::empty(), dests),
        covers(known.push(one), dests) <==> covers(known, dests) && one.len() == dests,
{
    if covers(known.push(one), dests) {
        assert(known.push(one)[known.len() as int] == one);
        assert forall|j: int| 0 <= j < known.len() implies (#[trigger] known[j]).len() == dests by {
            assert(known.push(one)[j] == known[j]);
        }
    }
    if covers(known, dests) && one.len() == dests {
        assert forall|j: int| 0 <= j < known.push(one).len() implies (#[trigger] known.push(
            one,
        )[j]).len() == dests by {
            if j < known.len() {
                assert(known.push(one)[j] == known[j]);
            }
        }
    }
}

} // verus!
