//! The heart of the engine: copy a source file to one or more destinations,
//! hashing the bytes as they are read, then (optionally) read each destination
//! back and confirm that its hash matches the source.
//!
//! Reading and writing happen outside. A [`CopySession`] says what has to be
//! done next and is told how it went.

use crate::hash;
use crate::hash::{HashAlgo, Hasher};
use crate::path;
use crate::path::FilePath;
use crate::scan;
use crate::scan::SourceFile;
use crate::text;
use crate::text::same_text;
use vstd::prelude::*;
use vstd::string::*;

verus! {

/// Outcome for a single destination of a single file.
#[derive(Debug, Clone)]
pub struct DestReport {
    pub path: FilePath,
    /// Hash of the bytes read back off disk, if verification ran.
    pub verified_hash: Option<String>,
    /// True if the destination matched the source (or verification was skipped).
    pub ok: bool,
}

/// Outcome for a single source file across all its destinations.
#[derive(Debug, Clone)]
pub struct FileReport {
    pub source: FilePath,
    /// Path relative to the source root. Defaults to the file name; it is
    /// replaced by the true relative path once the source file is known.
    pub rel: FilePath,
    /// Source modification time (ns since Unix epoch).
    pub mtime_ns: i128,
    /// Path relative to each destination root where the file was written
    /// (after templating). Equals `rel` for a plain mirror copy.
    pub dest_rel: FilePath,
    pub bytes: u64,
    pub source_hash: String,
    pub dests: Vec<DestReport>,
}

/// What a [`DestReport`] stands for.
pub struct DestModel {
    pub path: Seq<char>,
    pub verified_hash: Option<Seq<char>>,
    pub ok: bool,
}

/// What a [`FileReport`] stands for.
pub struct ReportModel {
    pub source: Seq<char>,
    pub rel: Seq<char>,
    pub mtime_ns: i128,
    pub dest_rel: Seq<char>,
    pub bytes: u64,
    pub source_hash: Seq<char>,
    pub dests: Seq<DestModel>,
}

impl View for DestReport {
    type V = DestModel;

    open spec fn view(&self) -> DestModel {
        DestModel {
            path: self.path@,
            verified_hash: text::opt_text(self.verified_hash),
            ok: self.ok,
        }
    }
}

/// What each destination report of a list stands for.
pub open spec fn dest_models(dests: Seq<DestReport>) -> Seq<DestModel> {
    Seq::new(dests.len(), |i: int| dests[i]@)
}

impl View for FileReport {
    type V = ReportModel;

    open spec fn view(&self) -> ReportModel {
        ReportModel {
            source: self.source@,
            rel: self.rel@,
            mtime_ns: self.mtime_ns,
            dest_rel: self.dest_rel@,
            bytes: self.bytes,
            source_hash: self.source_hash@,
            dests: dest_models(self.dests@),
        }
    }
}

impl ReportModel {
    /// Whether every destination is in order.
    pub open spec fn all_ok(self) -> bool {
        forall|i: int| 0 <= i < self.dests.len() ==> (#[trigger] self.dests[i]).ok
    }
}

impl FileReport {
    /// Whether every destination is in order.
    pub fn all_ok(&self) -> (r: bool)
        ensures
            r == self@.all_ok(),
    {
        let mut i: usize = 0;
        while i < self.dests.len()
            invariant
                i <= self.dests@.len(),
                forall|j: int| 0 <= j < i ==> (#[trigger] self@.dests[j]).ok,
            decreases self.dests@.len() - i,
        {
            if !self.dests[i].ok {
                assert(!self@.dests[i as int].ok);
                return false;
            }
            assert(self@.dests[i as int].ok);
            i += 1;
        }
        true
    }
}

/// What is reported of one destination: without verification it counts as in
/// order; with verification it is in order exactly if the checksum read back is
/// that of the source.
pub open spec fn dest_outcome(path: Seq<char>, source_hash: Seq<char>, read_back: Option<
    Seq<char>,
>) -> DestModel {
    DestModel {
        path,
        verified_hash: read_back,
        ok: match read_back {
            Some(h) => h == source_hash,
            None => true,
        },
    }
}

/// Reports on one destination. `read_back` is the checksum of what it holds, or
/// `None` where verification is off.
pub fn dest_report(path: &FilePath, source_hash: &str, read_back: Option<String>) -> (r: DestReport)
    ensures
        r@ == dest_outcome(path@, source_hash@, text::opt_text(read_back)),
{
    let ok = match &read_back {
        Some(h) => same_text(h.as_str(), source_hash),
        None => true,
    };
    DestReport { path: path.clone(), verified_hash: read_back, ok }
}

/// The report of a copy of `data` from `source` to `dests`, whose checksums
/// were read back as `read_back` (`None`: verification was off).
pub open spec fn copy_report(
    source: Seq<char>,
    dests: Seq<Seq<char>>,
    algo: HashAlgo,
    data: Seq<u8>,
    read_back: Option<Seq<Seq<char>>>,
) -> ReportModel {
    let source_hash = hash::checksum(algo, data);
    ReportModel {
        source,
        rel: match path::file_name(source) {
            Some(n) => n,
            None => source,
        },
        mtime_ns: 0,
        dest_rel: if dests.len() == 0 {
            Seq::empty()
        } else {
            match path::file_name(dests[0]) {
                Some(n) => n,
                None => Seq::empty(),
            }
        },
        bytes: data.len() as u64,
        source_hash,
        dests: Seq::new(
            dests.len(),
            |i: int|
                dest_outcome(
                    dests[i],
                    source_hash,
                    match read_back {
                        Some(h) => Some(h[i]),
                        None => None,
                    },
                ),
        ),
    }
}

/// What has to be done next to copy a file. A number is the index of the
/// destination.
#[derive(Debug, Clone, Copy)]
pub enum CopyAction {
    /// Open the source.
    Open,
    /// Create the directory that holds the destination.
    MakeDir(usize),
    /// Create the destination.
    Create(usize),
    /// Read the next chunk of the source.
    Read,
    /// Write the chunk that was read last to the destination.
    Write(usize),
    /// Flush the buffers of the destination.
    Flush(usize),
    /// Force the destination to physical disk.
    Sync(usize),
    /// Give the destination the modification time of the source, if possible.
    Stamp(usize),
    /// Open the destination to read it back.
    OpenBack(usize),
    /// Read the next chunk of the destination.
    ReadBack(usize),
    /// Nothing: the copy is complete.
    Done,
}

/// What follows once `i` destinations are open.
pub open spec fn opening(dests: Seq<Seq<char>>, i: int) -> CopyAction {
    if i >= dests.len() {
        CopyAction::Read
    } else if path::has_parent(dests[i]) {
        CopyAction::MakeDir(i as usize)
    } else {
        CopyAction::Create(i as usize)
    }
}

/// What follows once `i` destinations are verified.
pub open spec fn verifying(n: int, verify: bool, i: int) -> CopyAction {
    if verify && i < n {
        CopyAction::OpenBack(i as usize)
    } else {
        CopyAction::Done
    }
}

/// What follows once `i` destinations are on disk.
pub open spec fn settling(n: int, verify: bool, i: int) -> CopyAction {
    if i < n {
        CopyAction::Flush(i as usize)
    } else {
        verifying(n, verify, 0)
    }
}

/// What follows an action that reads nothing, once it has succeeded.
pub open spec fn following(action: CopyAction, dests: Seq<Seq<char>>, verify: bool) -> CopyAction {
    let n = dests.len() as int;
    match action {
        CopyAction::Open => opening(dests, 0),
        CopyAction::MakeDir(i) => CopyAction::Create(i),
        CopyAction::Create(i) => opening(dests, i + 1),
        CopyAction::Write(i) => if i + 1 < n {
            CopyAction::Write((i + 1) as usize)
        } else {
            CopyAction::Read
        },
        CopyAction::Flush(i) => CopyAction::Sync(i),
        CopyAction::Sync(i) => CopyAction::Stamp(i),
        CopyAction::Stamp(i) => settling(n, verify, i + 1),
        CopyAction::OpenBack(i) => CopyAction::ReadBack(i),
        _ => action,
    }
}

/// What stands in front of the cause when an action fails.
pub open spec fn failure_context(
    action: CopyAction,
    source: Seq<char>,
    dests: Seq<Seq<char>>,
) -> Seq<char> {
    match action {
        CopyAction::Open => "opening source "@ + source + ": "@,
        CopyAction::MakeDir(i) => "creating destination dir "@ + path::parent_text(dests[i as int])
            + ": "@,
        CopyAction::Create(i) => "creating "@ + dests[i as int] + ": "@,
        CopyAction::Read => "reading "@ + source + ": "@,
        CopyAction::Write(i) => "writing "@ + dests[i as int] + ": "@,
        CopyAction::Flush(i) => "flushing "@ + dests[i as int] + ": "@,
        CopyAction::Sync(i) => "syncing "@ + dests[i as int] + " to disk: "@,
        CopyAction::OpenBack(i) => "opening "@ + dests[i as int] + " to hash: "@,
        _ => Seq::<char>::empty(),
    }
}

/// One file being copied. The source is read once, chunk by chunk; every chunk
/// goes to every destination; the destinations are forced to disk and, with
/// verification, read back.
pub struct CopySession {
    pub source: FilePath,
    pub dests: Vec<FilePath>,
    pub algo: HashAlgo,
    pub verify: bool,
    /// What has to be done next.
    pub action: CopyAction,
    /// The chunk that was read last.
    pub chunk: Vec<u8>,
    /// The hash of what was read of the source.
    pub hasher: Hasher,
    /// The length of what was read of the source.
    pub total: u64,
    /// How many destinations have been forced to disk.
    pub synced: usize,
    /// The hash of what was read back of the destination at hand.
    pub back: Hasher,
    /// The checksums of the destinations that were read back.
    pub checked: Vec<String>,
    /// What each destination was handed.
    pub written: Ghost<Seq<Seq<u8>>>,
    /// What each destination held that was read back.
    pub seen: Ghost<Seq<Seq<u8>>>,
}

impl CopySession {
    /// The bytes read of the source so far.
    pub open spec fn data(self) -> Seq<u8> {
        self.hasher.fed()
    }

    /// The paths of the destinations.
    pub open spec fn targets(self) -> Seq<Seq<char>> {
        path::path_texts(self.dests@)
    }

    /// Whether every destination was handed the bytes of the source.
    pub open spec fn fanned_out(self) -> bool {
        forall|j: int| 0 <= j < self.dests@.len() ==> #[trigger] self.written@[j] == self.data()
    }

    /// What holds at each stage of a copy.
    pub open spec fn stage_wf(self) -> bool {
        let n = self.dests@.len();
        match self.action {
            CopyAction::Open => self.data().len() == 0 && self.fanned_out() && self.synced == 0
                && self.seen@.len() == 0,
            CopyAction::MakeDir(i) => i < n && path::has_parent(self.dests@[i as int]@)
                && self.data().len() == 0 && self.fanned_out() && self.synced == 0
                && self.seen@.len() == 0,
            CopyAction::Create(i) => i < n && self.data().len() == 0 && self.fanned_out()
                && self.synced == 0 && self.seen@.len() == 0,
            CopyAction::Read => self.fanned_out() && self.synced == 0 && self.seen@.len() == 0,
            CopyAction::Write(i) => {
                &&& i < n
                &&& forall|j: int| 0 <= j < i ==> #[trigger] self.written@[j] == self.data()
                &&& forall|j: int|
                    i <= j < n ==> #[trigger] self.written@[j] + self.chunk@ == self.data()
                &&& self.synced == 0
                &&& self.seen@.len() == 0
            },
            CopyAction::Flush(i) => i < n && self.fanned_out() && self.synced == i
                && self.seen@.len() == 0,
            CopyAction::Sync(i) => i < n && self.fanned_out() && self.synced == i
                && self.seen@.len() == 0,
            CopyAction::Stamp(i) => i < n && self.fanned_out() && self.synced == i + 1
                && self.seen@.len() == 0,
            CopyAction::OpenBack(i) => self.verify && i < n && self.fanned_out() && self.synced == n
                && self.seen@.len() == i,
            CopyAction::ReadBack(i) => self.verify && i < n && self.fanned_out() && self.synced == n
                && self.seen@.len() == i,
            CopyAction::Done => self.fanned_out() && self.synced == n && self.seen@.len() == if self.verify {
                n
            } else {
                0
            },
        }
    }

    /// What holds throughout a copy.
    pub open spec fn wf(self) -> bool {
        &&& self.hasher.wf()
        &&& self.hasher.algo() == self.algo
        &&& self.total == self.hasher.fed().len()
        &&& self.back.wf()
        &&& self.back.algo() == self.algo
        &&& self.written@.len() == self.dests@.len()
        &&& text::texts(self.checked@) == checksums(self.algo, self.seen@)
        &&& self.stage_wf()
    }

    /// Whether two sessions copy the same file with the same settings.
    pub open spec fn same_job(self, other: CopySession) -> bool {
        &&& self.source == other.source
        &&& self.dests == other.dests
        &&& self.algo == other.algo
        &&& self.verify == other.verify
    }

    /// The action at hand, which reads nothing, has succeeded.
    pub fn done(&mut self)
        requires
            old(self).wf(),
            !(old(self).action is Read),
            !(old(self).action is ReadBack),
            !(old(self).action is Done),
        ensures
            final(self).wf(),
            final(self).same_job(*old(self)),
            final(self).action == following(
                old(self).action,
                old(self).targets(),
                old(self).verify,
            ),
            final(self).data() == old(self).data(),
            final(self).chunk == old(self).chunk,
            final(self).seen@ == old(self).seen@,
            final(self).written@ == match old(self).action {
                CopyAction::Write(i) => old(self).written@.update(
                    i as int,
                    old(self).written@[i as int] + old(self).chunk@,
                ),
                _ => old(self).written@,
            },
            final(self).back.fed() == match old(self).action {
                CopyAction::OpenBack(i) => Seq::<u8>::empty(),
                _ => old(self).back.fed(),
            },
    {
        let n = self.dests.len();
        assert(self.targets().len() == n);
        match self.action {
            CopyAction::Open => {
                self.action = self.next_to_open(0);
            },
            CopyAction::MakeDir(i) => {
                self.action = CopyAction::Create(i);
            },
            CopyAction::Create(i) => {
                self.action = self.next_to_open(i + 1);
            },
            CopyAction::Write(i) => {
                proof {
                    self.written@ = self.written@.update(
                        i as int,
                        self.written@[i as int] + self.chunk@,
                    );
                }
                if i + 1 < n {
                    self.action = CopyAction::Write(i + 1);
                } else {
                    self.action = CopyAction::Read;
                }
            },
            CopyAction::Flush(i) => {
                self.action = CopyAction::Sync(i);
            },
            CopyAction::Sync(i) => {
                self.synced = i + 1;
                self.action = CopyAction::Stamp(i);
            },
            CopyAction::Stamp(i) => {
                self.action = self.next_to_settle(i + 1);
            },
            CopyAction::OpenBack(i) => {
                self.back = Hasher::new(self.algo);
                self.action = CopyAction::ReadBack(i);
            },
            CopyAction::Read => {},
            CopyAction::ReadBack(i) => {},
            CopyAction::Done => {},
        }
    }

    /// What follows once `i` destinations are open.
    fn next_to_open(&self, i: usize) -> (r: CopyAction)
        ensures
            r == opening(self.targets(), i as int),
    {
        if i >= self.dests.len() {
            return CopyAction::Read;
        }
        assert(self.targets()[i as int] == self.dests@[i as int]@);
        match self.dests[i].parent() {
            Some(p) => CopyAction::MakeDir(i),
            None => CopyAction::Create(i),
        }
    }

    /// What follows once `i` destinations are on disk.
    fn next_to_settle(&self, i: usize) -> (r: CopyAction)
        ensures
            r == settling(self.dests@.len() as int, self.verify, i as int),
    {
        if i < self.dests.len() {
            CopyAction::Flush(i)
        } else {
            self.next_to_verify(0)
        }
    }

    /// What follows once `i` destinations are verified.
    fn next_to_verify(&self, i: usize) -> (r: CopyAction)
        ensures
            r == verifying(self.dests@.len() as int, self.verify, i as int),
    {
        if self.verify && i < self.dests.len() {
            CopyAction::OpenBack(i)
        } else {
            CopyAction::Done
        }
    }

    /// The action at hand has read `data`; nothing means that the end was
    /// reached.
    pub fn read(&mut self, data: Vec<u8>)
        requires
            old(self).wf(),
            old(self).action is Read || old(self).action is ReadBack,
            old(self).action is Read ==> old(self).data().len() + data@.len() <= u64::MAX,
        ensures
            final(self).wf(),
            final(self).same_job(*old(self)),
            final(self).written@ == old(self).written@,
            old(self).action is Read ==> {
                &&& final(self).data() == old(self).data() + data@
                &&& final(self).chunk@ == data@
                &&& final(self).seen@ == old(self).seen@
                &&& final(self).action == if data@.len() == 0 {
                    settling(old(self).dests@.len() as int, old(self).verify, 0)
                } else if old(self).dests@.len() == 0 {
                    CopyAction::Read
                } else {
                    CopyAction::Write(0)
                }
            },
            old(self).action matches CopyAction::ReadBack(i) ==> {
                &&& final(self).data() == old(self).data()
                &&& data@.len() > 0 ==> {
                    &&& final(self).back.fed() == old(self).back.fed() + data@
                    &&& final(self).seen@ == old(self).seen@
                    &&& final(self).action == old(self).action
                }
                &&& data@.len() == 0 ==> {
                    &&& final(self).seen@ == old(self).seen@.push(old(self).back.fed())
                    &&& final(self).action == verifying(
                        old(self).dests@.len() as int,
                        old(self).verify,
                        i + 1,
                    )
                }
            },
    {
        match self.action {
            CopyAction::Read => {
                let n = data.len();
                let ghost before = self.data();
                self.hasher.update(data.as_slice());
                self.total = self.total + n as u64;
                self.chunk = data;
                if n == 0 {
                    assert(self.data() == before);
                    self.action = self.next_to_settle(0);
                } else if self.dests.len() == 0 {
                    self.action = CopyAction::Read;
                } else {
                    self.action = CopyAction::Write(0);
                }
            },
            CopyAction::ReadBack(i) => {
                if data.len() > 0 {
                    self.back.update(data.as_slice());
                } else {
                    let mut full = Hasher::new(self.algo);
                    core::mem::swap(&mut full, &mut self.back);
                    let ghost content = full.fed();
                    let sum = full.finalize_hex();
                    let ghost sums = text::texts(self.checked@);
                    let ghost sum_text = sum@;
                    self.checked.push(sum);
                    proof {
                        self.seen@ = self.seen@.push(content);
                        assert(text::texts(self.checked@) == sums.push(sum_text));
                        assert(checksums(self.algo, self.seen@) == sums.push(sum_text));
                    }
                    self.action = self.next_to_verify(i + 1);
                }
            },
            _ => {},
        }
    }

    /// The message for the user when the action at hand fails because of `why`.
    pub fn failure(&self, why: &str) -> (r: String)
        requires
            self.wf(),
        ensures
            r@ == failure_context(self.action, self.source@, self.targets()) + why@,
    {
        let mut r = String::new();
        match self.action {
            CopyAction::Open => {
                r.append("opening source ");
                r.append(self.source.text.as_str());
                r.append(": ");
            },
            CopyAction::MakeDir(i) => {
                r.append("creating destination dir ");
                match self.dests[i].parent() {
                    Some(p) => r.append(p.text.as_str()),
                    None => {},
                }
                r.append(": ");
            },
            CopyAction::Create(i) => {
                r.append("creating ");
                r.append(self.dests[i].text.as_str());
                r.append(": ");
            },
            CopyAction::Read => {
                r.append("reading ");
                r.append(self.source.text.as_str());
                r.append(": ");
            },
            CopyAction::Write(i) => {
                r.append("writing ");
                r.append(self.dests[i].text.as_str());
                r.append(": ");
            },
            CopyAction::Flush(i) => {
                r.append("flushing ");
                r.append(self.dests[i].text.as_str());
                r.append(": ");
            },
            CopyAction::Sync(i) => {
                r.append("syncing ");
                r.append(self.dests[i].text.as_str());
                r.append(" to disk: ");
            },
            CopyAction::OpenBack(i) => {
                r.append("opening ");
                r.append(self.dests[i].text.as_str());
                r.append(" to hash: ");
            },
            _ => {},
        }
        assert(r@ == failure_context(self.action, self.source@, self.targets()));
        r.append(why);
        r
    }

    /// The report of a complete copy.
    pub fn finish(self) -> (r: FileReport)
        requires
            self.wf(),
            self.action is Done,
        ensures
            r@ == copy_report(
                self.source@,
                self.targets(),
                self.algo,
                self.data(),
                if self.verify {
                    Some(checksums(self.algo, self.seen@))
                } else {
                    None
                },
            ),
    {
        let ghost backs = if self.verify {
            Some(checksums(self.algo, self.seen@))
        } else {
            None
        };
        let ghost data = self.data();
        let ghost algo = self.algo;
        let ghost expected = copy_report(self.source@, self.targets(), algo, data, backs);
        let source = self.source;
        let dests = self.dests;
        let verify = self.verify;
        let checked = self.checked;
        assert(checked@.len() == text::texts(checked@).len());
        let total = self.total;
        let source_hash = self.hasher.finalize_hex();
        let rel = match source.file_name() {
            Some(n) => FilePath { text: n },
            None => source.clone(),
        };
        let mut dest_rel = FilePath { text: String::new() };
        if dests.len() > 0 {
            assert(path::path_texts(dests@)[0] == dests@[0]@);
            match dests[0].file_name() {
                Some(n) => {
                    dest_rel = FilePath { text: n };
                },
                None => {},
            }
        }
        let mut reports: Vec<DestReport> = Vec::new();
        let mut i: usize = 0;
        while i < dests.len()
            invariant
                i <= dests@.len(),
                verify ==> checked@.len() == dests@.len(),
                backs == if verify {
                    Some(text::texts(checked@))
                } else {
                    None
                },
                expected == copy_report(source@, path::path_texts(dests@), algo, data, backs),
                source_hash@ == hash::checksum(algo, data),
                dest_models(reports@) == expected.dests.take(i as int),
            decreases dests@.len() - i,
        {
            let ghost before = dest_models(reports@);
            let read_back = if verify {
                Some(checked[i].clone())
            } else {
                None
            };
            let report = dest_report(&dests[i], source_hash.as_str(), read_back);
            assert(report@ == expected.dests[i as int]);
            let ghost model = report@;
            reports.push(report);
            i += 1;
            assert(dest_models(reports@) == before.push(model));
            assert(expected.dests.take(i as int) == before.push(model));
        }
        assert(expected.dests.take(dests@.len() as int) == expected.dests);
        FileReport {
            source: source.clone(),
            rel,
            mtime_ns: 0,
            dest_rel,
            bytes: total,
            source_hash,
            dests: reports,
        }
    }
}

/// Starts to copy `source` to every path in `dests`, hashing along the way.
/// With `verify`, each destination is read back from disk once it is written
/// and its hash compared with that of the source.
pub fn copy_file_verified(
    source: FilePath,
    dests: Vec<FilePath>,
    algo: HashAlgo,
    verify: bool,
) -> (r: CopySession)
    ensures
        r.wf(),
        r.source == source,
        r.dests == dests,
        r.algo == algo,
        r.verify == verify,
        r.action is Open,
        r.data() == Seq::<u8>::empty(),
{
    let ghost written = Seq::new(dests@.len(), |i: int| Seq::<u8>::empty());
    let checked: Vec<String> = Vec::new();
    assert(text::texts(checked@) == checksums(algo, Seq::<Seq<u8>>::empty()));
    CopySession {
        source,
        dests,
        algo,
        verify,
        action: CopyAction::Open,
        chunk: Vec::new(),
        hasher: Hasher::new(algo),
        total: 0,
        synced: 0,
        back: Hasher::new(algo),
        checked,
        written: Ghost(written),
        seen: Ghost(Seq::empty()),
    }
}

/// Where a file goes: its target below each destination root.
pub open spec fn destinations(f: scan::SourceModel, roots: Seq<Seq<char>>) -> Seq<Seq<char>> {
    Seq::new(roots.len(), |i: int| path::path_join(roots[i], f.target()))
}

/// Where a file goes: its target below each destination root.
pub fn dest_paths(f: &SourceFile, roots: &Vec<FilePath>) -> (r: Vec<FilePath>)
    ensures
        path::path_texts(r@) == destinations(f@, path::path_texts(roots@)),
{
    let mut r: Vec<FilePath> = Vec::new();
    let mut i: usize = 0;
    let ghost expected = destinations(f@, path::path_texts(roots@));
    assert(path::path_texts(r@) == expected.take(0));
    while i < roots.len()
        invariant
            i <= roots@.len(),
            expected == destinations(f@, path::path_texts(roots@)),
            path::path_texts(r@) == expected.take(i as int),
        decreases roots@.len() - i,
    {
        let ghost before = path::path_texts(r@);
        let joined = roots[i].join(f.target());
        assert(joined@ == expected[i as int]);
        let ghost model = joined@;
        r.push(joined);
        i += 1;
        assert(path::path_texts(r@) == before.push(model));
        assert(expected.take(i as int) == before.push(model));
    }
    assert(expected.take(roots@.len() as int) == expected);
    r
}

/// A report that carries the identity of its source file: its relative path,
/// modification time and target.
pub open spec fn identified(report: ReportModel, f: scan::SourceModel) -> ReportModel {
    ReportModel { rel: f.rel, mtime_ns: f.mtime_ns, dest_rel: f.target(), ..report }
}

/// Gives a report the identity of its source file, which the copy of a single
/// file does not know.
pub fn identify(report: FileReport, f: &SourceFile) -> (r: FileReport)
    ensures
        r@ == identified(report@, f@),
{
    FileReport {
        source: report.source,
        rel: f.rel.clone(),
        mtime_ns: f.mtime_ns,
        dest_rel: f.target().clone(),
        bytes: report.bytes,
        source_hash: report.source_hash,
        dests: report.dests,
    }
}

// ---------------------------------------------------------------------------
// Laws
// ---------------------------------------------------------------------------

/// The checksums of what each destination holds.
pub open spec fn checksums(algo: HashAlgo, contents: Seq<Seq<u8>>) -> Seq<Seq<char>> {
    Seq::new(contents.len(), |i: int| hash::checksum(algo, contents[i]))
}

/// No destination is read back, and no copy is complete, before every
/// destination was handed exactly the bytes of the source and was forced to
/// disk.
pub proof fn read_back_follows_sync(s: CopySession)
    requires
        s.wf(),
        s.action is OpenBack || s.action is ReadBack || s.action is Done,
    ensures
        s.synced == s.dests@.len(),
        s.written@ == Seq::new(s.dests@.len(), |i: int| s.data()),
{
    let all = Seq::new(s.dests@.len(), |i: int| s.data());
    assert(s.fanned_out());
    assert forall|j: int| 0 <= j < all.len() implies s.written@[j] == all[j] by {}
    assert(s.written@ =~= all);
}

/// Where the disk gives back what was written, a verified copy is in order.
pub proof fn honest_disk_verifies(s: CopySession)
    requires
        s.wf(),
        s.action is Done,
        s.verify,
        s.seen@ == s.written@,
    ensures
        copy_report(
            s.source@,
            s.targets(),
            s.algo,
            s.data(),
            Some(checksums(s.algo, s.seen@)),
        ).all_ok(),
{
    read_back_follows_sync(s);
    clean_copy_verifies(s.source@, s.targets(), s.algo, s.data(), s.seen@);
}

/// Read-back verification reports a destination as in order exactly if what it
/// holds on disk has the checksum of what was read from the source.
pub proof fn verification_is_real(
    source: Seq<char>,
    dests: Seq<Seq<char>>,
    algo: HashAlgo,
    data: Seq<u8>,
    on_disk: Seq<Seq<u8>>,
)
    requires
        on_disk.len() == dests.len(),
    ensures
        ({
            let r = copy_report(source, dests, algo, data, Some(checksums(algo, on_disk)));
            &&& r.dests.len() == dests.len()
            &&& forall|i: int|
                0 <= i < dests.len() ==> ((#[trigger] r.dests[i]).ok <==> hash::checksum(
                    algo,
                    on_disk[i],
                ) == hash::checksum(algo, data))
        }),
{
}

/// A clean copy passes: where every destination holds the bytes of the source,
/// the report is in order and every verified hash is the source hash.
pub proof fn clean_copy_verifies(
    source: Seq<char>,
    dests: Seq<Seq<char>>,
    algo: HashAlgo,
    data: Seq<u8>,
    on_disk: Seq<Seq<u8>>,
)
    requires
        on_disk.len() == dests.len(),
        forall|i: int| 0 <= i < on_disk.len() ==> #[trigger] on_disk[i] == data,
    ensures
        ({
            let r = copy_report(source, dests, algo, data, Some(checksums(algo, on_disk)));
            &&& r.all_ok()
            &&& forall|i: int|
                0 <= i < dests.len() ==> (#[trigger] r.dests[i]).verified_hash == Some(
                    r.source_hash,
                )
        }),
{
    let r = copy_report(source, dests, algo, data, Some(checksums(algo, on_disk)));
    assert forall|i: int| 0 <= i < dests.len() implies (#[trigger] r.dests[i]).verified_hash
        == Some(r.source_hash) && r.dests[i].ok by {
        assert(on_disk[i] == data);
    }
}

/// Without verification a report is in order and holds no verified hash.
pub proof fn skipping_verification_reports_no_hash(
    source: Seq<char>,
    dests: Seq<Seq<char>>,
    algo: HashAlgo,
    data: Seq<u8>,
)
    ensures
        copy_report(source, dests, algo, data, None).all_ok(),
        forall|i: int|
            0 <= i < dests.len() ==> (#[trigger] copy_report(
                source,
                dests,
                algo,
                data,
                None,
            ).dests[i]).verified_hash is None,
{
}

/// The action after `k` more that succeed and read nothing.
pub open spec fn steps_on(
    action: CopyAction,
    dests: Seq<Seq<char>>,
    verify: bool,
    k: nat,
) -> CopyAction
    decreases k,
{
    if k == 0 {
        action
    } else {
        following(steps_on(action, dests, verify, (k - 1) as nat), dests, verify)
    }
}

/// Once the source is read, each destination in turn is flushed, forced to
/// disk and stamped with the time of the source. Only after the last of them is
/// the first one opened to be read back, or, without verification, the copy
/// complete.
pub proof fn destinations_settle_in_turn(dests: Seq<Seq<char>>, verify: bool, i: nat)
    requires
        0 < dests.len() <= usize::MAX,
        i < dests.len(),
    ensures
        steps_on(CopyAction::Flush(0), dests, verify, 3 * i) == CopyAction::Flush(i as usize),
        steps_on(CopyAction::Flush(0), dests, verify, 3 * i + 1) == CopyAction::Sync(i as usize),
        steps_on(CopyAction::Flush(0), dests, verify, 3 * i + 2) == CopyAction::Stamp(i as usize),
        steps_on(CopyAction::Flush(0), dests, verify, 3 * dests.len()) == if verify {
            CopyAction::OpenBack(0)
        } else {
            CopyAction::Done
        },
    decreases dests.len() - i,
{
    lemma_settles(dests, verify, i);
    lemma_settles(dests, verify, (dests.len() - 1) as nat);
    let last = (3 * (dests.len() - 1) + 2) as nat;
    assert(last + 1 == 3 * dests.len());
    assert(steps_on(CopyAction::Flush(0), dests, verify, last + 1) == following(
        steps_on(CopyAction::Flush(0), dests, verify, last),
        dests,
        verify,
    ));
}

proof fn lemma_settles(dests: Seq<Seq<char>>, verify: bool, i: nat)
    requires
        i < dests.len() <= usize::MAX,
    ensures
        steps_on(CopyAction::Flush(0), dests, verify, 3 * i) == CopyAction::Flush(i as usize),
        steps_on(CopyAction::Flush(0), dests, verify, 3 * i + 1) == CopyAction::Sync(i as usize),
        steps_on(CopyAction::Flush(0), dests, verify, 3 * i + 2) == CopyAction::Stamp(i as usize),
    decreases i,
{
    let start = CopyAction::Flush(0);
    if i > 0 {
        lemma_settles(dests, verify, (i - 1) as nat);
        let k = (3 * (i - 1) + 2) as nat;
        assert(k + 1 == 3 * i);
        assert(steps_on(start, dests, verify, k + 1) == following(
            steps_on(start, dests, verify, k),
            dests,
            verify,
        ));
    }
    assert(steps_on(start, dests, verify, 3 * i + 1) == following(
        steps_on(start, dests, verify, 3 * i),
        dests,
        verify,
    ));
    assert(steps_on(start, dests, verify, 3 * i + 2) == following(
        steps_on(start, dests, verify, 3 * i + 1),
        dests,
        verify,
    ));
}

/// Every chunk is written to each destination in turn before the next is read.
pub proof fn chunks_go_to_every_destination(dests: Seq<Seq<char>>, verify: bool, i: nat)
    requires
        i < dests.len() <= usize::MAX,
    ensures
        steps_on(CopyAction::Write(0), dests, verify, i) == CopyAction::Write(i as usize),
        i + 1 == dests.len() ==> steps_on(CopyAction::Write(0), dests, verify, dests.len())
            == CopyAction::Read,
    decreases i,
{
    if i > 0 {
        chunks_go_to_every_destination(dests, verify, (i - 1) as nat);
    }
    assert(steps_on(CopyAction::Write(0), dests, verify, i + 1) == following(
        steps_on(CopyAction::Write(0), dests, verify, i),
        dests,
        verify,
    ));
}

/// Before the source is read, the folder of each destination that is in one is
/// made and the destination is created, in turn.
pub proof fn destinations_are_made_in_turn(dests: Seq<Seq<char>>, verify: bool, i: nat)
    requires
        i < dests.len() <= usize::MAX,
    ensures
        following(CopyAction::Open, dests, verify) == if path::has_parent(dests[0]) {
            CopyAction::MakeDir(0)
        } else {
            CopyAction::Create(0)
        },
        following(CopyAction::MakeDir(i as usize), dests, verify) == CopyAction::Create(i as usize),
        i + 1 < dests.len() ==> following(CopyAction::Create(i as usize), dests, verify)
            == if path::has_parent(dests[i as int + 1]) {
            CopyAction::MakeDir((i + 1) as usize)
        } else {
            CopyAction::Create((i + 1) as usize)
        },
        i + 1 == dests.len() ==> following(CopyAction::Create(i as usize), dests, verify)
            == CopyAction::Read,
        following(CopyAction::OpenBack(i as usize), dests, verify) == CopyAction::ReadBack(
            i as usize,
        ),
{
}

/// At the end of the source the first destination is settled, and at the end of
/// a destination that is read back the next one is read back, up to the last.
pub proof fn ends_of_files_lead_on(n: int, verify: bool, i: int)
    requires
        0 <= i < n <= usize::MAX,
    ensures
        settling(n, verify, 0) == CopyAction::Flush(0),
        verifying(n, true, i) == CopyAction::OpenBack(i as usize),
        verifying(n, true, n) is Done,
        verifying(n, false, i) is Done,
        settling(0, verify, 0) is Done,
{
}

/// A report tells of its copy: the source, the number of bytes, their checksum,
/// and of each destination, in order, its path and what was read back of it. As
/// long as it has no identity of its own it goes by the names of the files.
pub proof fn reports_tell_of_their_copies(
    source: Seq<char>,
    dests: Seq<Seq<char>>,
    algo: HashAlgo,
    data: Seq<u8>,
    back: Seq<Seq<char>>,
    i: int,
)
    requires
        data.len() <= u64::MAX,
        back.len() == dests.len(),
        0 <= i < dests.len(),
    ensures
        ({
            let r = copy_report(source, dests, algo, data, Some(back));
            let quick = copy_report(source, dests, algo, data, None);
            &&& r.source == source
            &&& r.bytes == data.len()
            &&& r.source_hash == hash::checksum(algo, data)
            &&& r.dests.len() == dests.len()
            &&& r.dests[i].path == dests[i]
            &&& r.dests[i].verified_hash == Some(back[i])
            &&& r.dests[i].ok <==> back[i] == hash::checksum(algo, data)
            &&& r.mtime_ns == 0 && quick.mtime_ns == 0
            &&& quick.source == source && quick.rel == r.rel && quick.dest_rel == r.dest_rel
            &&& path::file_name(source) is None ==> r.rel == source
            &&& path::file_name(source) matches Some(n) ==> r.rel == n
            &&& path::file_name(dests[0]) is None ==> r.dest_rel.len() == 0
            &&& path::file_name(dests[0]) matches Some(n) ==> r.dest_rel == n
            &&& quick.bytes == data.len() && quick.source_hash == r.source_hash
            &&& quick.dests.len() == dests.len()
            &&& quick.dests[i].path == dests[i] && quick.dests[i].verified_hash is None
                && quick.dests[i].ok
            &&& r.all_ok() ==> back[i] == hash::checksum(algo, data)
        }),
{
    let r = copy_report(source, dests, algo, data, Some(back));
    if r.all_ok() {
        assert(r.dests[i].ok);
    }
}

/// A report that is given the identity of its file takes its path, its time and
/// where it was written from the file and keeps everything else.
pub proof fn identity_comes_from_the_file(r: ReportModel, f: scan::SourceModel)
    ensures
        ({
            let g = identified(r, f);
            &&& g.rel == f.rel
            &&& g.mtime_ns == f.mtime_ns
            &&& f.dest_rel matches Some(d) ==> g.dest_rel == d
            &&& f.dest_rel is None ==> g.dest_rel == f.rel
            &&& g.source == r.source
            &&& g.bytes == r.bytes
            &&& g.source_hash == r.source_hash
            &&& g.dests == r.dests
        }),
{
}

/// A file is written below each destination root: at the names of its relative
/// path or, with a template, of the path that the template gave.
pub proof fn files_go_below_each_root(
    f: scan::SourceModel,
    roots: Seq<Seq<char>>,
    parts: Seq<Seq<char>>,
    i: int,
)
    requires
        0 <= i < roots.len(),
        parts.len() > 0,
        forall|k: int|
            0 <= k < parts.len() ==> (#[trigger] parts[k]).len() > 0 && parts[k] != seq!['.']
                && !parts[k].contains('/'),
        f.dest_rel == Some(text::join(parts, seq!['/'])) || (f.dest_rel is None && f.rel
            == text::join(parts, seq!['/'])),
    ensures
        destinations(f, roots).len() == roots.len(),
        path::components(destinations(f, roots)[i]) == path::components(roots[i]) + parts,
{
    assert(path::plain_parts(parts));
    path::join_adds_components(roots[i], parts);
}

/// A report stands for its fields: the paths and the hash as they are written,
/// and one result for each destination, in the same order.
pub proof fn reports_stand_for_their_fields(r: FileReport, i: int)
    requires
        0 <= i < r.dests@.len(),
    ensures
        r@.source == r.source.text@,
        r@.rel == r.rel.text@,
        r@.mtime_ns == r.mtime_ns,
        r@.dest_rel == r.dest_rel.text@,
        r@.bytes == r.bytes,
        r@.source_hash == r.source_hash@,
        r@.dests.len() == r.dests@.len(),
        r@.dests[i].path == r.dests@[i].path.text@,
        r@.dests[i].ok == r.dests@[i].ok,
        r@.dests[i].verified_hash is Some <==> r.dests@[i].verified_hash is Some,
        r.dests@[i].verified_hash matches Some(h) ==> r@.dests[i].verified_hash == Some(h@),
        !r.dests@[i].ok ==> !r@.all_ok(),
{
}

/// When an action fails the message says what was done to which file: the
/// source where it was read, and else the destination at hand.
pub proof fn failures_name_the_action_and_the_file(
    source: Seq<char>,
    dests: Seq<Seq<char>>,
    i: usize,
)
    requires
        i < dests.len(),
    ensures
        failure_context(CopyAction::Open, source, dests) == "opening source "@ + source + ": "@,
        failure_context(CopyAction::Read, source, dests) == "reading "@ + source + ": "@,
        failure_context(CopyAction::MakeDir(i), source, dests) == "creating destination dir "@
            + path::parent_text(dests[i as int]) + ": "@,
        failure_context(CopyAction::Create(i), source, dests) == "creating "@ + dests[i as int]
            + ": "@,
        failure_context(CopyAction::Write(i), source, dests) == "writing "@ + dests[i as int]
            + ": "@,
        failure_context(CopyAction::Flush(i), source, dests) == "flushing "@ + dests[i as int]
            + ": "@,
        failure_context(CopyAction::Sync(i), source, dests) == "syncing "@ + dests[i as int]
            + " to disk: "@,
        failure_context(CopyAction::OpenBack(i), source, dests) == "opening "@ + dests[i as int]
            + " to hash: "@,
{
}

/// Two sessions have the same job exactly if they read the same source, write
/// the same destinations and hash and verify alike; the data of a session is
/// what its hasher was fed.
pub proof fn sessions_with_one_job_agree(a: CopySession, b: CopySession)
    ensures
        a.same_job(b) <==> a.source == b.source && a.dests == b.dests && a.algo == b.algo
            && a.verify == b.verify,
        a.data() == a.hasher.fed(),
{
}

} // verus!
