//! Crash-safe transfer journal enabling stop & resume.
//!
//! A journal is a string of lines. The first is a [`JournalHeader`] describing
//! the job (algorithm, verify mode, destination set), followed by one
//! [`JournalRecord`] per file that was successfully copied (and verified, if
//! verification was on). Lines are read and written outside, each as soon as
//! it is known, so an interrupted run loses at most the single file that was
//! in flight.
//!
//! On resume, a file is skipped only if its journal record still matches the
//! current source by size and modification time — a changed source is
//! re-copied.

use crate::copy;
use crate::copy::FileReport;
use crate::hash;
use crate::path;
use crate::path::forward_slash;
use crate::scan;
use crate::scan::SourceFile;
use crate::text;
use crate::text::same_text;
use vstd::hash_map::StringHashMap;
use vstd::prelude::*;
use vstd::string::*;

verus! {

/// The version of the journal's layout.
pub const JOURNAL_VERSION: u32 = 1;

/// The byte that ends a line.
pub const NEWLINE: u8 = 10;

/// First line of a journal: identifies the job so we only resume a compatible
/// one.
#[derive(Debug, Clone)]
pub struct JournalHeader {
    pub v: u32,
    pub algo: String,
    pub verify: bool,
    pub dests: Vec<String>,
}

/// What a [`JournalHeader`] stands for.
pub struct HeaderModel {
    pub v: u32,
    pub algo: Seq<char>,
    pub verify: bool,
    pub dests: Seq<Seq<char>>,
}

impl View for JournalHeader {
    type V = HeaderModel;

    open spec fn view(&self) -> HeaderModel {
        HeaderModel {
            v: self.v,
            algo: self.algo@,
            verify: self.verify,
            dests: text::texts(self.dests@),
        }
    }
}

impl HeaderModel {
    /// Whether a run with these settings may safely resume from this journal.
    /// The order of the destinations does not matter.
    pub open spec fn compatible(self, algo: Seq<char>, verify: bool, dests: Seq<Seq<char>>) -> bool {
        &&& self.v == JOURNAL_VERSION
        &&& self.algo == algo
        &&& self.verify == verify
        &&& self.dests.to_multiset() == dests.to_multiset()
    }
}

impl JournalHeader {
    /// Whether a run with these settings may safely resume from this journal.
    /// Destinations are compared as a set (order-independent).
    pub fn compatible_with(&self, algo: &str, verify: bool, dests: &Vec<String>) -> (r: bool)
        ensures
            r == self@.compatible(algo@, verify, text::texts(dests@)),
    {
        self.v == JOURNAL_VERSION && same_text(self.algo.as_str(), algo) && self.verify == verify
            && same_set(&self.dests, dests)
    }
}

/// How often `s` is in the list.
fn count_text(list: &Vec<String>, s: &str) -> (r: usize)
    ensures
        r == text::texts(list@).to_multiset().count(s@),
{
    let ghost all = text::texts(list@);
    let mut n: usize = 0;
    let mut i: usize = 0;
    proof {
        all.take(0).to_multiset_ensures();
        assert(all.take(0) == Seq::<Seq<char>>::empty());
        assert(!all.take(0).contains(s@));
    }
    while i < list.len()
        invariant
            all == text::texts(list@),
            n <= i <= list@.len(),
            n == all.take(i as int).to_multiset().count(s@),
        decreases list@.len() - i,
    {
        proof {
            all.take(i as int).to_multiset_ensures();
            assert(all.take(i + 1) == all.take(i as int).push(list@[i as int]@));
        }
        if same_text(list[i].as_str(), s) {
            n += 1;
        }
        i += 1;
    }
    assert(all.take(all.len() as int) == all);
    n
}

/// Whether every text of `a` is as often in `a` as in `b`.
fn counts_match(a: &Vec<String>, b: &Vec<String>) -> (r: bool)
    ensures
        r == forall|i: int|
            0 <= i < a@.len() ==> text::texts(a@).to_multiset().count(#[trigger] a@[i]@)
                == text::texts(b@).to_multiset().count(a@[i]@),
{
    let mut i: usize = 0;
    while i < a.len()
        invariant
            i <= a@.len(),
            forall|j: int|
                0 <= j < i ==> text::texts(a@).to_multiset().count(#[trigger] a@[j]@)
                    == text::texts(b@).to_multiset().count(a@[j]@),
        decreases a@.len() - i,
    {
        if count_text(a, a[i].as_str()) != count_text(b, a[i].as_str()) {
            return false;
        }
        i += 1;
    }
    true
}

/// Whether two lists hold the same texts, each as often, in whatever order.
pub fn same_set(a: &Vec<String>, b: &Vec<String>) -> (r: bool)
    ensures
        r == (text::texts(a@).to_multiset() == text::texts(b@).to_multiset()),
{
    let ghost x = text::texts(a@);
    let ghost y = text::texts(b@);
    let r = counts_match(a, b) && counts_match(b, a);
    proof {
        x.to_multiset_ensures();
        y.to_multiset_ensures();
        if r {
            assert forall|t: Seq<char>| x.to_multiset().count(t) == y.to_multiset().count(t) by {
                if x.contains(t) {
                    let i = choose|i: int| 0 <= i < x.len() && x[i] == t;
                    assert(a@[i]@ == t);
                } else if y.contains(t) {
                    let i = choose|i: int| 0 <= i < y.len() && y[i] == t;
                    assert(b@[i]@ == t);
                }
            }
            assert(x.to_multiset() =~= y.to_multiset());
        }
    }
    r
}

/// One completed file.
#[derive(Debug)]
pub struct JournalRecord {
    pub rel: String,
    pub size: u64,
    pub mtime_ns: i128,
    pub hash: String,
    /// Where the file was written, relative to each destination root; empty if
    /// that is `rel`.
    pub dest: String,
}

/// What a [`JournalRecord`] stands for.
pub struct RecordModel {
    pub rel: Seq<char>,
    pub size: u64,
    pub mtime_ns: i128,
    pub hash: Seq<char>,
    pub dest: Seq<char>,
}

impl View for JournalRecord {
    type V = RecordModel;

    open spec fn view(&self) -> RecordModel {
        RecordModel {
            rel: self.rel@,
            size: self.size,
            mtime_ns: self.mtime_ns,
            hash: self.hash@,
            dest: self.dest@,
        }
    }
}

impl RecordModel {
    /// Where the file was written, relative to each destination root.
    pub open spec fn written_to(self) -> Seq<char> {
        if self.dest.len() == 0 {
            self.rel
        } else {
            self.dest
        }
    }
}

impl Clone for JournalRecord {
    fn clone(&self) -> (r: Self)
        ensures
            r == *self,
    {
        JournalRecord {
            rel: self.rel.clone(),
            size: self.size,
            mtime_ns: self.mtime_ns,
            hash: self.hash.clone(),
            dest: self.dest.clone(),
        }
    }
}

/// The record of a finished copy.
pub open spec fn record_model(r: copy::ReportModel) -> RecordModel {
    RecordModel {
        rel: path::slashed(r.rel),
        size: r.bytes,
        mtime_ns: r.mtime_ns,
        hash: r.source_hash,
        dest: path::slashed(r.dest_rel),
    }
}

/// The record of a finished copy.
pub fn record_of(report: &FileReport) -> (r: JournalRecord)
    ensures
        r@ == record_model(report@),
{
    JournalRecord {
        rel: forward_slash(&report.rel),
        size: report.bytes,
        mtime_ns: report.mtime_ns,
        hash: report.source_hash.clone(),
        dest: forward_slash(&report.dest_rel),
    }
}

/// A parsed journal: the header, and the last record of each file.
pub struct LoadedJournal {
    pub header: JournalHeader,
    pub done: StringHashMap<JournalRecord>,
}

/// The pieces of a string of bytes between its newlines.
pub open spec fn pieces(bytes: Seq<u8>) -> Seq<Seq<u8>>
    decreases bytes.len(),
{
    if bytes.len() == 0 {
        seq![Seq::<u8>::empty()]
    } else {
        let p = pieces(bytes.drop_last());
        if bytes.last() == NEWLINE {
            p.push(Seq::empty())
        } else {
            p.drop_last().push(p.last().push(bytes.last()))
        }
    }
}

/// Whether the bytes end in the middle of a line.
pub open spec fn cut_off(bytes: Seq<u8>) -> bool {
    bytes.len() > 0 && bytes.last() != NEWLINE
}

/// The lines of a string of bytes. The last one may lack its newline.
pub open spec fn lines_of(bytes: Seq<u8>) -> Seq<Seq<u8>> {
    if cut_off(bytes) {
        pieces(bytes)
    } else {
        pieces(bytes).drop_last()
    }
}

/// Whether a line holds nothing but white space.
pub open spec fn is_blank(line: Seq<u8>) -> bool {
    forall|i: int| 0 <= i < line.len() ==> #[trigger] line[i] == 32 || 9 <= line[i] <= 13
}

/// The lines that are not blank.
pub open spec fn filled_lines(lines: Seq<Seq<u8>>) -> Seq<Seq<u8>>
    decreases lines.len(),
{
    if lines.len() == 0 {
        Seq::<Seq<u8>>::empty()
    } else if is_blank(lines.last()) {
        filled_lines(lines.drop_last())
    } else {
        filled_lines(lines.drop_last()).push(lines.last())
    }
}

/// The bytes of a journal after one more line. A line that was cut off is
/// ended first.
pub open spec fn appended(bytes: Seq<u8>, line: Seq<u8>) -> Seq<u8> {
    if cut_off(bytes) {
        (bytes.push(NEWLINE) + line).push(NEWLINE)
    } else {
        (bytes + line).push(NEWLINE)
    }
}

/// Cuts the bytes of a journal into lines.
fn split_lines(bytes: &Vec<u8>) -> (r: Vec<Vec<u8>>)
    ensures
        hash::chunk_bytes(r@) == lines_of(bytes@),
{
    let mut lines: Vec<Vec<u8>> = Vec::new();
    let mut line: Vec<u8> = Vec::new();
    let mut i: usize = 0;
    proof {
        assert(bytes@.take(0) == Seq::<u8>::empty());
        assert(hash::chunk_bytes(lines@).push(line@) == pieces(bytes@.take(0)));
    }
    while i < bytes.len()
        invariant
            i <= bytes@.len(),
            hash::chunk_bytes(lines@).push(line@) == pieces(bytes@.take(i as int)),
        decreases bytes@.len() - i,
    {
        let ghost before = hash::chunk_bytes(lines@);
        let ghost part = line@;
        proof {
            assert(bytes@.take(i + 1).drop_last() == bytes@.take(i as int));
            assert(bytes@.take(i + 1).last() == bytes@[i as int]);
            assert(before.push(part).drop_last() == before);
            assert(before.push(part).last() == part);
        }
        if bytes[i] == NEWLINE {
            lines.push(line);
            line = Vec::new();
            assert(hash::chunk_bytes(lines@) == before.push(part));
        } else {
            line.push(bytes[i]);
        }
        i += 1;
    }
    assert(bytes@.take(bytes@.len() as int) == bytes@);
    let ghost before = hash::chunk_bytes(lines@);
    assert(before.push(line@).drop_last() == before);
    if bytes.len() > 0 && bytes[bytes.len() - 1] != NEWLINE {
        let ghost part = line@;
        lines.push(line);
        assert(hash::chunk_bytes(lines@) == before.push(part));
    }
    lines
}

/// Whether a line is blank.
fn blank(line: &Vec<u8>) -> (r: bool)
    ensures
        r == is_blank(line@),
{
    let mut i: usize = 0;
    while i < line.len()
        invariant
            i <= line@.len(),
            forall|j: int| 0 <= j < i ==> #[trigger] line@[j] == 32 || 9 <= line@[j] <= 13,
        decreases line@.len() - i,
    {
        if line[i] != 32 && (line[i] < 9 || line[i] > 13) {
            return false;
        }
        i += 1;
    }
    true
}

/// Cuts the bytes of a journal into the header line and the record lines; blank
/// lines hold no record. There is no header in an empty journal. What a line
/// holds is told only once it is parsed, so one that is damaged does not stand
/// in the way of those that follow.
pub fn frame(bytes: &Vec<u8>) -> (r: Option<(Vec<u8>, Vec<Vec<u8>>)>)
    ensures
        r is None <==> bytes@.len() == 0,
        r matches Some(parts) ==> parts.0@ == lines_of(bytes@)[0] && hash::chunk_bytes(parts.1@)
            == filled_lines(lines_of(bytes@).skip(1)),
{
    proof {
        lemma_some_line(bytes@);
    }
    let lines = split_lines(bytes);
    if lines.len() == 0 {
        return None;
    }
    let ghost all = hash::chunk_bytes(lines@);
    let header = lines[0].clone();
    let mut records: Vec<Vec<u8>> = Vec::new();
    let mut i: usize = 1;
    assert(hash::chunk_bytes(records@) == filled_lines(all.subrange(1, 1)));
    while i < lines.len()
        invariant
            all == hash::chunk_bytes(lines@),
            1 <= i <= lines@.len(),
            hash::chunk_bytes(records@) == filled_lines(all.subrange(1, i as int)),
        decreases lines@.len() - i,
    {
        assert(all.subrange(1, i + 1).drop_last() == all.subrange(1, i as int));
        assert(all.subrange(1, i + 1).last() == lines@[i as int]@);
        if !blank(&lines[i]) {
            let ghost before = hash::chunk_bytes(records@);
            records.push(lines[i].clone());
            assert(hash::chunk_bytes(records@) == before.push(lines@[i as int]@));
        }
        i += 1;
    }
    assert(all.subrange(1, all.len() as int) == all.skip(1));
    Some((header, records))
}

/// The last byte, if there is one.
pub open spec fn last_byte(bytes: Seq<u8>) -> Option<u8> {
    if bytes.len() == 0 {
        None
    } else {
        Some(bytes.last())
    }
}

/// The bytes to write to a journal for one more line, given the last byte that
/// it holds. A line that was cut off is ended first.
pub fn line_bytes(last: Option<u8>, line: &Vec<u8>) -> (r: Vec<u8>)
    ensures
        forall|bytes: Seq<u8>|
            last_byte(bytes) == last ==> bytes + r@ == #[trigger] appended(bytes, line@),
        last_byte(r@) == Some(NEWLINE),
{
    let mut r: Vec<u8> = Vec::new();
    if let Some(b) = last {
        if b != NEWLINE {
            r.push(NEWLINE);
        }
    }
    let ghost start = r@;
    let mut i: usize = 0;
    assert(start + line@.take(0) == start);
    while i < line.len()
        invariant
            i <= line@.len(),
            r@ == start + line@.take(i as int),
        decreases line@.len() - i,
    {
        r.push(line[i]);
        i += 1;
        assert(r@ == start + line@.take(i as int));
    }
    assert(line@.take(line@.len() as int) == line@);
    r.push(NEWLINE);
    proof {
        assert forall|bytes: Seq<u8>| last_byte(bytes) == last implies bytes + r@
            == #[trigger] appended(bytes, line@) by {
            if cut_off(bytes) {
                assert(start == seq![NEWLINE]);
                assert(bytes + r@ =~= (bytes.push(NEWLINE) + line@).push(NEWLINE));
            } else {
                assert(start == Seq::<u8>::empty());
                assert(bytes + r@ =~= (bytes + line@).push(NEWLINE));
            }
        }
    }
    r
}

/// There is always a piece; the first and only one of no bytes is no line.
proof fn lemma_some_line(bytes: Seq<u8>)
    ensures
        pieces(bytes).len() >= 1,
        lines_of(bytes).len() == 0 <==> bytes.len() == 0,
        !cut_off(bytes) ==> pieces(bytes).last() == Seq::<u8>::empty(),
    decreases bytes.len(),
{
    if bytes.len() > 0 {
        lemma_some_line(bytes.drop_last());
    }
}

/// The last record of each file in a list of lines; a malformed line counts as
/// none.
pub open spec fn last_records(lines: Seq<Option<JournalRecord>>) -> Map<Seq<char>, JournalRecord>
    decreases lines.len(),
{
    if lines.len() == 0 {
        Map::empty()
    } else {
        match lines.last() {
            Some(rec) => last_records(lines.drop_last()).insert(rec.rel@, rec),
            None => last_records(lines.drop_last()),
        }
    }
}

/// A journal from its lines. `None` if there is no valid header. A line after
/// the header that is no record is skipped rather than failing the whole load.
pub fn load(header: Option<JournalHeader>, lines: Vec<Option<JournalRecord>>) -> (r: Option<
    LoadedJournal,
>)
    ensures
        r is Some <==> header is Some,
        r matches Some(j) ==> Some(j.header) == header && j.done@ == last_records(lines@),
{
    let Some(header) = header else {
        return None;
    };
    let mut done: StringHashMap<JournalRecord> = StringHashMap::new();
    let ghost all = lines@;
    assert(last_records(all.take(0)) == Map::<Seq<char>, JournalRecord>::empty());
    for line in it: lines
        invariant
            it.seq() == all,
            done@ == last_records(all.take(it.index())),
    {
        let ghost next = all.take(it.index() + 1);
        assert(next.drop_last() == all.take(it.index()));
        assert(next.last() == line);
        match line {
            Some(rec) => {
                let key = rec.rel.clone();
                done.insert(key, rec);
            },
            None => {},
        }
    }
    assert(all.take(all.len() as int) == all);
    Some(LoadedJournal { header, done })
}

/// Whether a journal already has a file: there is a record under its path, and
/// the size and modification time are still the recorded ones.
pub open spec fn already_done(done: Map<Seq<char>, JournalRecord>, f: scan::SourceModel) -> bool {
    let key = path::slashed(f.rel);
    done.contains_key(key) && done[key].size == f.size && done[key].mtime_ns == f.mtime_ns
}

/// The record of a file that a journal already has.
pub fn find_done<'a>(done: &'a StringHashMap<JournalRecord>, f: &SourceFile) -> (r: Option<
    &'a JournalRecord,
>)
    ensures
        r is Some <==> already_done(done@, f@),
        r matches Some(rec) ==> *rec == done@[path::slashed(f@.rel)],
{
    match done.get(forward_slash(&f.rel).as_str()) {
        Some(rec) => if rec.size == f.size && rec.mtime_ns == f.mtime_ns {
            Some(rec)
        } else {
            None
        },
        None => None,
    }
}

// ---------------------------------------------------------------------------
// Laws
// ---------------------------------------------------------------------------

/// A journal may be resumed by a run with the settings it was written for, in
/// whatever order the destinations are given.
pub proof fn journal_resumes_its_own_job(h: HeaderModel, dests: Seq<Seq<char>>)
    requires
        h.v == JOURNAL_VERSION,
        h.dests.to_multiset() == dests.to_multiset(),
    ensures
        h.compatible(h.algo, h.verify, dests),
{
}

/// A journal may not be resumed with another algorithm, another verify mode or
/// another number of destinations.
pub proof fn journal_refuses_another_job(
    h: HeaderModel,
    algo: Seq<char>,
    verify: bool,
    dests: Seq<Seq<char>>,
)
    requires
        h.algo != algo || h.verify != verify || h.dests.len() != dests.len(),
    ensures
        !h.compatible(algo, verify, dests),
{
    h.dests.to_multiset_ensures();
    dests.to_multiset_ensures();
}

/// A record that is appended is a line of its own, and the lines before it stay
/// as they were, even if the last of them was cut off.
pub proof fn appended_record_is_a_line(bytes: Seq<u8>, line: Seq<u8>)
    requires
        !line.contains(NEWLINE),
    ensures
        lines_of(appended(bytes, line)) == lines_of(bytes).push(line),
        !cut_off(appended(bytes, line)),
{
    let start = if cut_off(bytes) {
        bytes.push(NEWLINE)
    } else {
        bytes
    };
    lemma_some_line(bytes);
    assert(bytes.push(NEWLINE).drop_last() == bytes);
    assert(pieces(bytes).push(Seq::empty()).drop_last() == pieces(bytes));
    assert(lines_of(start) == lines_of(bytes));
    lemma_some_line(start);
    lemma_plain_bytes(start, line);
    let whole = start + line;
    assert(Seq::<u8>::empty() + line == line);
    assert(pieces(whole) == lines_of(bytes).push(line));
    assert(whole.push(NEWLINE).drop_last() == whole);
    assert(pieces(whole).push(Seq::empty()).drop_last() == pieces(whole));
}

/// An interruption in the middle of a record costs that record alone: the lines
/// before it are still there, and so is every record that is appended later.
pub proof fn interruption_costs_one_record(bytes: Seq<u8>, torn: Seq<u8>, line: Seq<u8>)
    requires
        !cut_off(bytes),
        torn.len() > 0,
        !torn.contains(NEWLINE),
        !line.contains(NEWLINE),
    ensures
        lines_of(bytes + torn) == lines_of(bytes).push(torn),
        lines_of(appended(bytes + torn, line)) == lines_of(bytes).push(torn).push(line),
{
    lemma_some_line(bytes);
    lemma_plain_bytes(bytes, torn);
    assert(Seq::<u8>::empty() + torn == torn);
    assert((bytes + torn).last() == torn.last());
    assert(torn.contains(torn.last()));
    appended_record_is_a_line(bytes + torn, line);
}

/// Bytes other than newlines make the last piece longer.
proof fn lemma_plain_bytes(bytes: Seq<u8>, more: Seq<u8>)
    requires
        !more.contains(NEWLINE),
    ensures
        pieces(bytes + more) == pieces(bytes).drop_last().push(pieces(bytes).last() + more),
    decreases more.len(),
{
    lemma_some_line(bytes);
    let p = pieces(bytes);
    if more.len() == 0 {
        assert(bytes + more == bytes);
        assert(p.last() + more == p.last());
        assert(p.drop_last().push(p.last()) == p);
    } else {
        let front = more.drop_last();
        assert forall|i: int| 0 <= i < front.len() implies front[i] != NEWLINE by {
            assert(more[i] == front[i]);
            assert(more.contains(more[i]));
        }
        lemma_plain_bytes(bytes, front);
        assert((bytes + more).drop_last() == bytes + front);
        assert((bytes + more).last() == more.last());
        assert(more.contains(more.last()));
        let q = pieces(bytes + front);
        assert(q.drop_last() == p.drop_last());
        assert(q.last() == p.last() + front);
        assert((p.last() + front).push(more.last()) == p.last() + more);
    }
}

/// A line that was cut off in the middle costs nothing but itself.
pub proof fn torn_line_is_skipped(lines: Seq<Option<JournalRecord>>)
    ensures
        last_records(lines.push(None)) == last_records(lines),
{
    assert(lines.push(None).drop_last() == lines);
}

/// What was recorded is found again: a file whose copy was recorded last under
/// its path, with its size and modification time, is not copied again.
pub proof fn recorded_file_is_skipped(
    lines: Seq<Option<JournalRecord>>,
    rec: JournalRecord,
    report: copy::ReportModel,
    f: scan::SourceModel,
)
    requires
        rec@ == record_model(report),
        report.rel == f.rel,
        report.bytes == f.size,
        report.mtime_ns == f.mtime_ns,
    ensures
        already_done(last_records(lines.push(Some(rec))), f),
{
    assert(lines.push(Some(rec)).drop_last() == lines);
}

/// A file whose size or modification time is no longer the recorded one is
/// copied again.
pub proof fn changed_file_is_recopied(done: Map<Seq<char>, JournalRecord>, f: scan::SourceModel)
    requires
        done.contains_key(path::slashed(f.rel)) ==> done[path::slashed(f.rel)].size != f.size
            || done[path::slashed(f.rel)].mtime_ns != f.mtime_ns,
    ensures
        !already_done(done, f),
{
}

/// Later lines never lose a recorded file: a journal that was written further
/// still has a record for it.
pub proof fn records_are_kept(
    lines: Seq<Option<JournalRecord>>,
    more: Seq<Option<JournalRecord>>,
    rel: Seq<char>,
)
    requires
        last_records(lines).contains_key(rel),
    ensures
        last_records(lines + more).contains_key(rel),
    decreases more.len(),
{
    if more.len() == 0 {
        assert(lines + more == lines);
    } else {
        records_are_kept(lines, more.drop_last(), rel);
        assert((lines + more).drop_last() == lines + more.drop_last());
        assert((lines + more).last() == more.last());
    }
}

/// The bytes of some lines, each with a newline behind it.
pub open spec fn with_newlines(lines: Seq<Seq<u8>>) -> Seq<u8>
    decreases lines.len(),
{
    if lines.len() == 0 {
        Seq::<u8>::empty()
    } else {
        (with_newlines(lines.drop_last()) + lines.last()).push(10)
    }
}

/// Cutting a journal into lines loses no byte: the lines, each with a newline
/// behind it, are the bytes of the journal, with a newline more if its last
/// line was cut off. No line holds a newline.
pub proof fn lines_are_the_bytes_between_newlines(bytes: Seq<u8>)
    ensures
        bytes.len() == 0 || bytes.last() == 10 ==> with_newlines(lines_of(bytes)) == bytes,
        bytes.len() > 0 && bytes.last() != 10 ==> with_newlines(lines_of(bytes)) == bytes.push(10),
        forall|i: int|
            0 <= i < lines_of(bytes).len() ==> !(#[trigger] lines_of(bytes)[i]).contains(10),
{
    lemma_some_line(bytes);
    lemma_pieces(bytes);
    let p = pieces(bytes);
    let front = p.drop_last();
    if cut_off(bytes) {
        assert(lines_of(bytes) == p);
        assert(with_newlines(p) == (with_newlines(front) + p.last()).push(10));
    } else {
        assert(with_newlines(front) + p.last() == with_newlines(front));
        assert forall|i: int| 0 <= i < front.len() implies !(#[trigger] front[i]).contains(10) by {
            assert(front[i] == p[i]);
        }
    }
}

proof fn lemma_pieces(bytes: Seq<u8>)
    ensures
        pieces(bytes).len() > 0,
        with_newlines(pieces(bytes).drop_last()) + pieces(bytes).last() == bytes,
        forall|i: int| 0 <= i < pieces(bytes).len() ==> !(#[trigger] pieces(bytes)[i]).contains(10),
    decreases bytes.len(),
{
    let p = pieces(bytes);
    if bytes.len() == 0 {
        assert(p.drop_last() == Seq::<Seq<u8>>::empty());
        assert(p.last() == bytes);
        assert(Seq::<u8>::empty() + bytes == bytes);
    } else {
        let front = bytes.drop_last();
        let q = pieces(front);
        lemma_pieces(front);
        assert(front.push(bytes.last()) == bytes);
        if bytes.last() == NEWLINE {
            assert(p.drop_last() == q);
            assert(with_newlines(q) == (with_newlines(q.drop_last()) + q.last()).push(10));
            assert(with_newlines(q) + Seq::<u8>::empty() == with_newlines(q));
            assert forall|i: int| 0 <= i < p.len() implies !(#[trigger] p[i]).contains(10) by {
                if i < q.len() {
                    assert(p[i] == q[i]);
                }
            }
        } else {
            let last = q.last().push(bytes.last());
            assert(p.drop_last() == q.drop_last());
            assert(p.last() == last);
            assert(with_newlines(q.drop_last()) + last == (with_newlines(q.drop_last())
                + q.last()).push(bytes.last()));
            assert forall|i: int| 0 <= i < p.len() implies !(#[trigger] p[i]).contains(10) by {
                if i < q.len() - 1 {
                    assert(p[i] == q[i]);
                } else {
                    assert(!q[q.len() - 1].contains(10));
                    if last.contains(10) {
                        let k = choose|k: int| 0 <= k < last.len() && last[k] == 10;
                        assert(q.last()[k] == 10);
                    }
                }
            }
        }
    }
}

/// Lines are kept or dropped one by one, in order: a line that holds a visible
/// character is kept, and one of blanks alone is not.
pub proof fn visible_lines_are_kept(lines: Seq<Seq<u8>>, line: Seq<u8>)
    ensures
        filled_lines(Seq::empty()).len() == 0,
        (exists|i: int| 0 <= i < line.len() && #[trigger] line[i] > 32) ==> filled_lines(
            lines.push(line),
        ) == filled_lines(lines).push(line),
        (forall|i: int| 0 <= i < line.len() ==> #[trigger] line[i] == 32 || line[i] == 9 || line[i]
            == 13) ==> filled_lines(lines.push(line)) == filled_lines(lines),
{
    assert(lines.push(line).drop_last() == lines);
    if exists|i: int| 0 <= i < line.len() && #[trigger] line[i] > 32 {
        let i = choose|i: int| 0 <= i < line.len() && #[trigger] line[i] > 32;
        assert(!is_blank(line)) by {
            if is_blank(line) {
                assert(line[i] == 32 || 9 <= line[i] <= 13);
            }
        }
    }
    if forall|i: int|
        0 <= i < line.len() ==> #[trigger] line[i] == 32 || line[i] == 9 || line[i] == 13 {
        assert(is_blank(line));
    }
}

/// The last record of a file is the one that counts, a record of one file
/// leaves those of all others alone, and a line that is no record changes
/// nothing.
pub proof fn the_last_record_counts(
    lines: Seq<Option<JournalRecord>>,
    rec: JournalRecord,
    other: Seq<char>,
)
    ensures
        ({
            let before = last_records(lines);
            let after = last_records(lines.push(Some(rec)));
            &&& after.contains_key(rec.rel@) && after[rec.rel@] == rec
            &&& other != rec.rel@ ==> after.contains_key(other) == before.contains_key(other) && (
            before.contains_key(other) ==> after[other] == before[other])
            &&& last_records(lines.push(None)) == before
            &&& !last_records(Seq::empty()).contains_key(other)
        }),
{
    assert(lines.push(Some(rec)).drop_last() == lines);
    assert(lines.push(None).drop_last() == lines);
}

/// A file is done exactly if there is a record under its path, with `/` between
/// the names, that has its present size and its present modification time.
pub proof fn only_an_unchanged_file_is_done(
    done: Map<Seq<char>, JournalRecord>,
    f: scan::SourceModel,
    parts: Seq<Seq<char>>,
)
    requires
        parts.len() > 0,
        forall|i: int|
            0 <= i < parts.len() ==> (#[trigger] parts[i]).len() > 0 && parts[i] != seq!['.']
                && !parts[i].contains('/'),
        f.rel == text::join(parts, seq!['/']),
    ensures
        already_done(done, f) <==> done.contains_key(f.rel) && done[f.rel].size == f.size
            && done[f.rel].mtime_ns == f.mtime_ns,
{
    path::names_make_a_path(parts);
}

/// A record holds the path of its file, its size, its time, its checksum and
/// where it was written.
pub proof fn records_tell_of_their_copies(r: copy::ReportModel)
    ensures
        ({
            let rec = record_model(r);
            &&& rec.rel == path::slashed(r.rel)
            &&& rec.size == r.bytes
            &&& rec.mtime_ns == r.mtime_ns
            &&& rec.hash == r.source_hash
            &&& rec.dest == path::slashed(r.dest_rel)
            &&& rec.dest.len() > 0 ==> rec.written_to() == rec.dest
            &&& rec.dest.len() == 0 ==> rec.written_to() == rec.rel
        }),
{
}

/// A journal fits a run exactly if it has the present layout and the same
/// algorithm, verify mode and destinations, in whatever order.
pub proof fn a_journal_fits_its_own_settings_only(
    h: HeaderModel,
    algo: Seq<char>,
    verify: bool,
    dests: Seq<Seq<char>>,
    dest: Seq<char>,
)
    ensures
        h.compatible(algo, verify, dests) ==> h.v == 1 && h.algo == algo && h.verify == verify
            && h.dests.len() == dests.len() && (h.dests.contains(dest) <==> dests.contains(dest)),
        h.v == 1 && h.algo == algo && h.verify == verify && h.dests == dests ==> h.compatible(
            algo,
            verify,
            dests,
        ),
        h.v == 1 && h.algo == algo && h.verify == verify && dests.len() == 2 && h.dests == seq![
            dests[1],
            dests[0],
        ] ==> h.compatible(algo, verify, dests),
{
    h.dests.to_multiset_ensures();
    dests.to_multiset_ensures();
    if h.compatible(algo, verify, dests) {
        assert(h.dests.contains(dest) <==> h.dests.to_multiset().count(dest) > 0);
        assert(dests.contains(dest) <==> dests.to_multiset().count(dest) > 0);
    }
    if dests.len() == 2 && h.dests == seq![dests[1], dests[0]] {
        let e = Seq::<Seq<char>>::empty();
        e.to_multiset_ensures();
        e.push(dests[0]).to_multiset_ensures();
        e.push(dests[1]).to_multiset_ensures();
        assert(h.dests == e.push(dests[1]).push(dests[0]));
        assert(dests == e.push(dests[0]).push(dests[1]));
        assert(h.dests.to_multiset() == dests.to_multiset());
    }
}

/// A header and a record stand for their fields.
pub proof fn lines_stand_for_their_fields(h: JournalHeader, r: JournalRecord, i: int)
    ensures
        h@.v == h.v,
        h@.algo == h.algo@,
        h@.verify == h.verify,
        h@.dests.len() == h.dests@.len(),
        0 <= i < h.dests@.len() ==> h@.dests[i] == h.dests@[i]@,
        r@.rel == r.rel@,
        r@.size == r.size,
        r@.mtime_ns == r.mtime_ns,
        r@.hash == r.hash@,
        r@.dest == r.dest@,
        r.dest@.len() == 0 ==> r@.written_to() == r.rel@,
        r.dest@.len() > 0 ==> r@.written_to() == r.dest@,
{
}

/// The last byte is the one that was written last; there is none at first.
pub proof fn the_last_byte_is_the_one_written_last(bytes: Seq<u8>, b: u8)
    ensures
        last_byte(Seq::empty()) is None,
        last_byte(bytes.push(b)) == Some(b),
{
}

} // verus!
