//! Re-verification of existing destination copies against the source, without
//! copying.

use crate::path;
use crate::path::{forward_slash, FilePath};
use crate::run;
use crate::run::total_size;
use crate::scan;
use crate::scan::SourceFile;
use crate::text;
use crate::text::{copy_texts, same_text};
use crate::transfer;
use crate::transfer::{HarvestEvent, HarvestOutcome};
use vstd::prelude::*;
use vstd::string::*;

verus! {

/// The optional checksums of a list.
pub open spec fn sum_texts(sums: Seq<Option<String>>) -> Seq<Option<Seq<char>>> {
    Seq::new(sums.len(), |i: int| text::opt_text(sums[i]))
}

/// What is wrong with one destination copy: nothing if both checksums could be
/// taken and are the same; it is missing if its own could not be taken; else
/// it differs.
pub open spec fn complaint(dest: Seq<char>, source: Option<Seq<char>>, sum: Option<Seq<char>>) -> Option<
    Seq<char>,
> {
    match sum {
        None => Some("missing: "@ + dest),
        Some(d) => if source == Some(d) {
            None
        } else {
            Some("mismatch: "@ + dest)
        },
    }
}

/// What is wrong with the destination copies of a file, one after the other.
pub open spec fn complaints(
    dests: Seq<Seq<char>>,
    source: Option<Seq<char>>,
    sums: Seq<Option<Seq<char>>>,
) -> Seq<Seq<char>>
    decreases dests.len(),
{
    if dests.len() == 0 {
        Seq::<Seq<char>>::empty()
    } else {
        let before = complaints(dests.drop_last(), source, sums);
        match complaint(dests.last(), source, sums[dests.len() - 1]) {
            Some(c) => before.push(c),
            None => before,
        }
    }
}

/// One file that was looked at: its size, its paths at the destinations, the
/// checksum of the source and those of the destinations, where they could be
/// taken.
pub struct Look {
    pub size: u64,
    pub dests: Seq<Seq<char>>,
    pub source: Option<Seq<char>>,
    pub sums: Seq<Option<Seq<char>>>,
}

impl Look {
    /// What is wrong with the copies of the file.
    pub open spec fn wrong(self) -> Seq<Seq<char>> {
        complaints(self.dests, self.source, self.sums)
    }
}

/// What is wrong with the files that were looked at, one after the other.
pub open spec fn all_wrong(looks: Seq<Look>) -> Seq<Seq<char>>
    decreases looks.len(),
{
    if looks.len() == 0 {
        Seq::<Seq<char>>::empty()
    } else {
        all_wrong(looks.drop_last()) + looks.last().wrong()
    }
}

/// How many of the files that were looked at are in order at every destination.
pub open spec fn in_order(looks: Seq<Look>) -> nat
    decreases looks.len(),
{
    if looks.len() == 0 {
        0
    } else if looks.last().wrong().len() == 0 {
        in_order(looks.drop_last()) + 1
    } else {
        in_order(looks.drop_last())
    }
}

/// The bytes of the files that were looked at.
pub open spec fn look_bytes(looks: Seq<Look>) -> nat
    decreases looks.len(),
{
    if looks.len() == 0 {
        0
    } else {
        look_bytes(looks.drop_last()) + looks.last().size as nat
    }
}

/// A re-verification in progress.
pub struct VerifyRun {
    /// The number of files to verify.
    pub kept: usize,
    /// Their bytes.
    pub total_bytes: u64,
    /// The number of files that could not be read during the scan.
    pub unreadable: usize,
    /// The number of files that were looked at.
    pub done_files: usize,
    /// The bytes of the files that were looked at.
    pub done_bytes: u64,
    /// The number of files that are in order at every destination.
    pub verified: usize,
    /// What is wrong.
    pub failures: Vec<String>,
    /// The files that were looked at.
    pub looks: Ghost<Seq<Look>>,
}

impl VerifyRun {
    /// What holds throughout a re-verification.
    pub open spec fn wf(self) -> bool {
        &&& self.done_files == self.looks@.len()
        &&& self.done_bytes == look_bytes(self.looks@)
        &&& self.verified == in_order(self.looks@)
        &&& text::texts(self.failures@) == all_wrong(self.looks@)
    }

    /// How the re-verification ends. What verified counts as copied.
    pub open spec fn outcome(self, cancelled: bool) -> transfer::OutcomeModel {
        transfer::OutcomeModel {
            copied: self.verified as nat,
            skipped: 0,
            unreadable: self.unreadable,
            copied_bytes: self.done_bytes as nat,
            verify_failures: text::texts(self.failures@),
            errors: Seq::empty(),
            manifest_path: None,
            journal_path: Seq::empty(),
            cancelled,
        }
    }

    /// The event that tells what is going to be verified.
    pub fn planned(&self) -> (r: HarvestEvent)
        ensures
            r@ == (transfer::EventModel::Planned {
                total_scanned: self.kept as nat,
                kept: self.kept as nat,
                to_copy: self.kept as nat,
                skipped: 0,
                copy_bytes: self.total_bytes as nat,
            }),
    {
        HarvestEvent::Planned {
            total_scanned: self.kept,
            kept: self.kept,
            to_copy: self.kept,
            skipped: 0,
            copy_bytes: self.total_bytes,
        }
    }

    /// One file was looked at. `dests` are its paths at the destinations,
    /// `source` is the checksum of the source and `sums` are those of the
    /// destinations, where they could be taken.
    pub fn on_file(
        &mut self,
        f: &SourceFile,
        dests: &Vec<FilePath>,
        source: &Option<String>,
        sums: &Vec<Option<String>>,
    ) -> (r: HarvestEvent)
        requires
            old(self).wf(),
            old(self).done_files < usize::MAX,
            old(self).done_bytes + f.size <= u64::MAX,
            sums@.len() == dests@.len(),
        ensures
            final(self).wf(),
            final(self).kept == old(self).kept,
            final(self).total_bytes == old(self).total_bytes,
            final(self).unreadable == old(self).unreadable,
            final(self).done_files == old(self).done_files + 1,
            final(self).done_bytes == old(self).done_bytes + f.size,
            ({
                let look = Look {
                    size: f.size,
                    dests: path::path_texts(dests@),
                    source: text::opt_text(*source),
                    sums: sum_texts(sums@),
                };
                let wrong = look.wrong();
                &&& final(self).looks@ == old(self).looks@.push(look)
                &&& text::texts(final(self).failures@) == text::texts(old(self).failures@) + wrong
                &&& final(self).verified == old(self).verified + if wrong.len() == 0 {
                    1int
                } else {
                    0
                }
                &&& r@ == (transfer::EventModel::FileDone {
                    rel: path::slashed(f@.rel),
                    dest: path::slashed(f@.target()),
                    bytes: f.size,
                    done_files: (old(self).done_files + 1) as nat,
                    done_bytes: (old(self).done_bytes + f.size) as nat,
                    ok: wrong.len() == 0,
                })
            }),
    {
        let ghost all = path::path_texts(dests@);
        let ghost src = text::opt_text(*source);
        let ghost found = sum_texts(sums@);
        let ghost noted = text::texts(self.failures@);
        let mut ok = true;
        let mut i: usize = 0;
        assert(all.take(0) == Seq::<Seq<char>>::empty());
        assert(noted + complaints(all.take(0), src, found) == noted);
        while i < dests.len()
            invariant
                all == path::path_texts(dests@),
                src == text::opt_text(*source),
                found == sum_texts(sums@),
                sums@.len() == dests@.len(),
                i <= dests@.len(),
                self.kept == old(self).kept,
                self.total_bytes == old(self).total_bytes,
                self.unreadable == old(self).unreadable,
                self.done_files == old(self).done_files,
                self.done_bytes == old(self).done_bytes,
                self.verified == old(self).verified,
                self.looks == old(self).looks,
                text::texts(self.failures@) == noted + complaints(all.take(i as int), src, found),
                ok == (complaints(all.take(i as int), src, found).len() == 0),
            decreases dests@.len() - i,
        {
            assert(all.take(i + 1).drop_last() == all.take(i as int));
            assert(all.take(i + 1).last() == dests@[i as int]@);
            assert(found[i as int] == text::opt_text(sums@[i as int]));
            let ghost before = text::texts(self.failures@);
            let ghost so_far = complaints(all.take(i as int), src, found);
            match wrong_with(&dests[i], source, &sums[i]) {
                Some(c) => {
                    let ghost model = c@;
                    self.failures.push(c);
                    ok = false;
                    assert(text::texts(self.failures@) == before.push(model));
                    assert(before.push(model) == noted + so_far.push(model));
                },
                None => {},
            }
            i += 1;
        }
        assert(all.take(all.len() as int) == all);
        proof {
            let before = self.looks@;
            let look = Look { size: f.size, dests: all, source: src, sums: found };
            assert(before.push(look).drop_last() == before);
            lemma_no_more_in_order(before);
            self.looks@ = before.push(look);
        }
        self.done_bytes = self.done_bytes + f.size;
        self.done_files = self.done_files + 1;
        if ok {
            self.verified = self.verified + 1;
        }
        HarvestEvent::FileDone {
            rel: forward_slash(&f.rel),
            dest: forward_slash(f.target()),
            bytes: f.size,
            done_files: self.done_files,
            done_bytes: self.done_bytes,
            ok,
        }
    }

    /// How the re-verification ended. What verified counts as copied.
    pub fn finish(&self, cancelled: bool) -> (r: HarvestOutcome)
        ensures
            r@ == self.outcome(cancelled),
    {
        let r = HarvestOutcome {
            copied: self.verified,
            skipped: 0,
            unreadable: self.unreadable,
            copied_bytes: self.done_bytes,
            verify_failures: copy_texts(&self.failures),
            errors: Vec::new(),
            manifest_path: None,
            journal_path: FilePath { text: String::new() },
            cancelled,
        };
        assert(text::texts(r.errors@) == Seq::<Seq<char>>::empty());
        assert(r.journal_path@ == Seq::<char>::empty());
        r
    }
}

/// What is wrong with one destination copy.
fn wrong_with(dest: &FilePath, source: &Option<String>, sum: &Option<String>) -> (r: Option<String>)
    ensures
        text::opt_text(r) == complaint(dest@, text::opt_text(*source), text::opt_text(*sum)),
{
    match sum {
        None => {
            let mut c = "missing: ".to_owned();
            c.append(dest.text.as_str());
            Some(c)
        },
        Some(d) => {
            if let Some(s) = source {
                if same_text(s.as_str(), d.as_str()) {
                    return None;
                }
            }
            let mut c = "mismatch: ".to_owned();
            c.append(dest.text.as_str());
            Some(c)
        },
    }
}

/// Starts to re-verify the copies of the files that a scan found, filtered and
/// templated. `unreadable` counts what the scan could not read.
pub fn run_verify(files: &Vec<SourceFile>, unreadable: u64) -> (r: VerifyRun)
    requires
        run::size_sum(scan::models(files@)) <= u64::MAX,
    ensures
        r.wf(),
        r.kept == files@.len(),
        r.total_bytes == run::size_sum(scan::models(files@)),
        r.unreadable == unreadable as usize,
        r.done_files == 0,
        r.done_bytes == 0,
        r.verified == 0,
        r.failures@.len() == 0,
        r.looks@ == Seq::<Look>::empty(),
{
    let total_bytes: u64 = match total_size(files) {
        Some(n) => n,
        None => 0,
    };
    let r = VerifyRun {
        kept: files.len(),
        total_bytes,
        unreadable: unreadable as usize,
        done_files: 0,
        done_bytes: 0,
        verified: 0,
        failures: Vec::new(),
        looks: Ghost(Seq::empty()),
    };
    assert(text::texts(r.failures@) == Seq::<Seq<char>>::empty());
    r
}

// ---------------------------------------------------------------------------
// Laws
// ---------------------------------------------------------------------------

/// Nothing is wrong with the copies of a file exactly if the checksum of each
/// could be taken and is that of the source.
pub proof fn clean_copies_have_the_checksum_of_the_source(
    dests: Seq<Seq<char>>,
    source: Option<Seq<char>>,
    sums: Seq<Option<Seq<char>>>,
)
    ensures
        complaints(dests, source, sums).len() == 0 <==> forall|i: int|
            0 <= i < dests.len() ==> #[trigger] sums[i] is Some && sums[i] == source,
    decreases dests.len(),
{
    if dests.len() > 0 {
        clean_copies_have_the_checksum_of_the_source(dests.drop_last(), source, sums);
        let last = dests.len() - 1;
        if complaints(dests, source, sums).len() == 0 {
            assert forall|i: int| 0 <= i < dests.len() implies #[trigger] sums[i] is Some && sums[i]
                == source by {
                if i == last {
                    assert(complaint(dests.last(), source, sums[last]) is None);
                }
            }
        } else if complaints(dests.drop_last(), source, sums).len() == 0 {
            assert(!(sums[last] is Some && sums[last] == source));
        }
    }
}

/// How many of the files that were looked at have a copy at the first
/// destination whose checksum is not that of the source.
pub open spec fn mismatched(looks: Seq<Look>) -> nat
    decreases looks.len(),
{
    if looks.len() == 0 {
        0
    } else if looks.last().sums[0] != looks.last().source {
        mismatched(looks.drop_last()) + 1
    } else {
        mismatched(looks.drop_last())
    }
}

/// A re-verification finds exactly the bad copies. With one destination whose
/// copies could all be read, of n files that were looked at, k of them with
/// another checksum, n - k count as verified, and there are k complaints, each
/// of which speaks of a mismatch. Unless it was cancelled, the re-verification
/// succeeds exactly if k is zero.
pub proof fn bad_copies_are_counted(run: VerifyRun, cancelled: bool)
    requires
        run.wf(),
        forall|i: int|
            0 <= i < run.looks@.len() ==> (#[trigger] run.looks@[i]).dests.len() == 1
                && run.looks@[i].sums.len() == 1 && run.looks@[i].sums[0] is Some,
    ensures
        ({
            let n = run.looks@.len();
            let k = mismatched(run.looks@);
            let o = run.outcome(cancelled);
            &&& run.done_files == n
            &&& o.copied == n - k
            &&& o.verify_failures.len() == k
            &&& forall|i: int|
                0 <= i < k ==> text::begins_with(
                    #[trigger] o.verify_failures[i],
                    "mismatch: "@,
                )
            &&& o.success() <==> k == 0 && !cancelled
        }),
{
    lemma_mismatches(run.looks@);
}

proof fn lemma_mismatches(looks: Seq<Look>)
    requires
        forall|i: int|
            0 <= i < looks.len() ==> (#[trigger] looks[i]).dests.len() == 1
                && looks[i].sums.len() == 1 && looks[i].sums[0] is Some,
    ensures
        in_order(looks) + mismatched(looks) == looks.len(),
        all_wrong(looks).len() == mismatched(looks),
        forall|i: int|
            0 <= i < all_wrong(looks).len() ==> text::begins_with(
                #[trigger] all_wrong(looks)[i],
                "mismatch: "@,
            ),
    decreases looks.len(),
{
    if looks.len() > 0 {
        let front = looks.drop_last();
        assert forall|i: int| 0 <= i < front.len() implies (#[trigger] front[i]).dests.len() == 1
            && front[i].sums.len() == 1 && front[i].sums[0] is Some by {
            assert(front[i] == looks[i]);
        }
        lemma_mismatches(front);
        let last = looks.last();
        assert(last == looks[looks.len() - 1]);
        reveal_with_fuel(complaints, 2);
        assert(last.dests.drop_last() == Seq::<Seq<char>>::empty());
        let found = complaint(last.dests[0], last.source, last.sums[0]);
        if last.sums[0] != last.source {
            let c = "mismatch: "@ + last.dests[0];
            assert(found == Some(c));
            assert(last.wrong() == seq![c]);
            assert(c.take("mismatch: "@.len() as int) == "mismatch: "@);
        } else {
            assert(last.wrong().len() == 0);
        }
    }
}

/// A re-verification is clean exactly if every file is in order: no more files
/// are in order than were looked at, and nothing is wrong just where all are.
pub proof fn nothing_wrong_means_all_in_order(run: VerifyRun)
    requires
        run.wf(),
    ensures
        run.verified <= run.done_files,
        run.verified == run.done_files <==> run.failures@.len() == 0,
{
    lemma_no_more_in_order(run.looks@);
    assert(text::texts(run.failures@).len() == run.failures@.len());
}

proof fn lemma_no_more_in_order(looks: Seq<Look>)
    ensures
        in_order(looks) <= looks.len(),
        in_order(looks) == looks.len() <==> all_wrong(looks).len() == 0,
    decreases looks.len(),
{
    if looks.len() > 0 {
        lemma_no_more_in_order(looks.drop_last());
    }
}

/// Each destination copy is judged on its own: one with the checksum of the
/// source is in order, one whose checksum could not be taken is missing, and
/// any other is a mismatch; the complaint names the destination.
pub proof fn copies_are_judged_one_by_one(
    dests: Seq<Seq<char>>,
    dest: Seq<char>,
    source: Option<Seq<char>>,
    sums: Seq<Option<Seq<char>>>,
    sum: Option<Seq<char>>,
)
    requires
        sums.len() == dests.len(),
    ensures
        complaints(Seq::empty(), source, Seq::empty()).len() == 0,
        ({
            let before = complaints(dests, source, sums);
            let after = complaints(dests.push(dest), source, sums.push(sum));
            &&& sum is Some && sum == source ==> after == before
            &&& sum is None ==> after == before.push("missing: "@ + dest)
            &&& sum is Some && sum != source ==> after == before.push("mismatch: "@ + dest)
        }),
{
    assert(dests.push(dest).drop_last() == dests);
    lemma_complaints_first(dests, source, sums, sums.push(sum));
}

proof fn lemma_complaints_first(
    dests: Seq<Seq<char>>,
    source: Option<Seq<char>>,
    a: Seq<Option<Seq<char>>>,
    b: Seq<Option<Seq<char>>>,
)
    requires
        forall|i: int| 0 <= i < dests.len() ==> #[trigger] a[i] == b[i],
    ensures
        complaints(dests, source, a) == complaints(dests, source, b),
    decreases dests.len(),
{
    if dests.len() > 0 {
        lemma_complaints_first(dests.drop_last(), source, a, b);
        assert(a[dests.len() - 1] == b[dests.len() - 1]);
    }
}

/// A re-verification counts file by file: a file with nothing wrong is one more
/// in order, any other adds what is wrong with it, and the bytes of every file
/// count.
pub proof fn files_are_verified_one_by_one(looks: Seq<Look>, look: Look)
    ensures
        ({
            let wrong = complaints(look.dests, look.source, look.sums);
            &&& all_wrong(looks.push(look)) == all_wrong(looks) + wrong
            &&& in_order(looks.push(look)) == in_order(looks) + if wrong.len() == 0 {
                1nat
            } else {
                0
            }
            &&& look_bytes(looks.push(look)) == look_bytes(looks) + look.size
        }),
        all_wrong(Seq::empty()).len() == 0,
        in_order(Seq::empty()) == 0,
        look_bytes(Seq::empty()) == 0,
{
    assert(looks.push(look).drop_last() == looks);
}

/// The outcome of a re-verification: the files in order count as copied, what
/// is wrong is told, nothing was skipped, and there is neither an error nor a
/// manifest.
pub proof fn reverification_tells_what_it_found(run: VerifyRun, cancelled: bool)
    requires
        run.wf(),
    ensures
        ({
            let o = run.outcome(cancelled);
            &&& o.copied == in_order(run.looks@)
            &&& o.verify_failures == all_wrong(run.looks@)
            &&& o.copied_bytes == look_bytes(run.looks@)
            &&& o.skipped == 0
            &&& o.unreadable == run.unreadable
            &&& o.errors.len() == 0
            &&& o.manifest_path is None
            &&& o.journal_path.len() == 0
            &&& o.cancelled == cancelled
            &&& run.done_files == run.looks@.len()
        }),
{
}

/// A list of checksums stands for its items, one by one.
pub proof fn checksums_stand_for_themselves(sums: Seq<Option<String>>, i: int)
    requires
        0 <= i < sums.len(),
    ensures
        sum_texts(sums).len() == sums.len(),
        sum_texts(sums)[i] is Some <==> sums[i] is Some,
        sums[i] matches Some(s) ==> sum_texts(sums)[i] == Some(s@),
{
}

} // verus!
