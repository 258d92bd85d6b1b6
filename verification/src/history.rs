//! Past runs, and what the user is told at the end of one.

use crate::settings::Settings;
use crate::text;
use crate::text::{copy_texts, decimal_text};
use crate::transfer;
use crate::transfer::HarvestOutcome;
use vstd::prelude::*;
use vstd::string::*;

verus! {

/// How many past runs are kept.
pub const MAX_HISTORY: usize = 100;

/// How many milliseconds pass at least between two progress notices.
pub const PROGRESS_EVERY_MS: u128 = 80;

/// One past run.
#[derive(Debug, Clone)]
pub struct HistoryEntry {
    /// When it ended (Unix seconds).
    pub when: u64,
    pub source: String,
    pub dests: Vec<String>,
    pub copied: usize,
    pub skipped: usize,
    pub bytes: u64,
    pub success: bool,
    pub cancelled: bool,
}

/// What a [`HistoryEntry`] stands for.
pub struct HistoryModel {
    pub when: u64,
    pub source: Seq<char>,
    pub dests: Seq<Seq<char>>,
    pub copied: nat,
    pub skipped: nat,
    pub bytes: nat,
    pub success: bool,
    pub cancelled: bool,
}

impl View for HistoryEntry {
    type V = HistoryModel;

    open spec fn view(&self) -> HistoryModel {
        HistoryModel {
            when: self.when,
            source: self.source@,
            dests: text::texts(self.dests@),
            copied: self.copied as nat,
            skipped: self.skipped as nat,
            bytes: self.bytes as nat,
            success: self.success,
            cancelled: self.cancelled,
        }
    }
}

/// The entry of a run that has ended.
pub fn history_entry(when: u64, source: &str, dests: &Vec<String>, outcome: &HarvestOutcome) -> (r:
    HistoryEntry)
    ensures
        r@ == (HistoryModel {
            when,
            source: source@,
            dests: text::texts(dests@),
            copied: outcome@.copied,
            skipped: outcome@.skipped,
            bytes: outcome@.copied_bytes,
            success: outcome@.success(),
            cancelled: outcome@.cancelled,
        }),
{
    HistoryEntry {
        when,
        source: source.to_owned(),
        dests: copy_texts(dests),
        copied: outcome.copied,
        skipped: outcome.skipped,
        bytes: outcome.copied_bytes,
        success: outcome.success(),
        cancelled: outcome.cancelled,
    }
}

/// Past runs with one more: the newest first, up to the number that is kept.
pub open spec fn remembered(entries: Seq<HistoryEntry>, entry: HistoryEntry) -> Seq<HistoryEntry> {
    let all = seq![entry] + entries;
    if all.len() > MAX_HISTORY {
        all.take(MAX_HISTORY as int)
    } else {
        all
    }
}

/// Adds a run to the past runs: the newest first, up to the number that is
/// kept.
pub fn append_history(entries: Vec<HistoryEntry>, entry: HistoryEntry) -> (r: Vec<HistoryEntry>)
    ensures
        r@ == remembered(entries@, entry),
{
    let ghost all = seq![entry] + entries@;
    let ghost given = entries@;
    let n = entries.len();
    let mut r: Vec<HistoryEntry> = Vec::new();
    r.push(entry);
    assert(r@ == all.take(1));
    let mut i: usize = 0;
    for e in it: entries
        invariant
            it.seq() == given,
            n == given.len(),
            all == seq![entry] + given,
            i == it.index(),
            r@ == if i + 1 <= MAX_HISTORY {
                all.take(i + 1)
            } else {
                all.take(MAX_HISTORY as int)
            },
    {
        assert(all[i + 1] == e);
        if r.len() < MAX_HISTORY {
            r.push(e);
            assert(all.take(i + 2) == all.take(i + 1).push(e));
        }
        i += 1;
    }
    assert(all.take(all.len() as int) == all);
    r
}

/// Whether the source is to be ejected after a run: it succeeded, its copies
/// were verified, the user wants it, and the drive is removable.
pub fn wants_eject(
    outcome: &HarvestOutcome,
    settings: &Settings,
    removable: bool,
    verified: bool,
) -> (r: bool)
    ensures
        r == (outcome@.success() && settings.auto_eject && removable && verified),
{
    outcome.success() && settings.auto_eject && removable && verified
}

/// Whether enough time has passed since the last progress notice.
pub fn progress_due(elapsed_ms: u128) -> (r: bool)
    ensures
        r == (elapsed_ms >= PROGRESS_EVERY_MS),
{
    elapsed_ms >= PROGRESS_EVERY_MS
}

/// What the user is told at the end of a run.
pub open spec fn closing_words(o: transfer::OutcomeModel, ejected: bool) -> Seq<char> {
    if o.cancelled {
        "Cancelled — "@ + text::decimal(o.copied) + " files copied"@
    } else if o.success() {
        text::decimal(o.copied) + " copied, "@ + text::decimal(o.skipped) + " already present"@
            + if ejected {
            " · source ejected"@
        } else {
            Seq::<char>::empty()
        }
    } else {
        "Finished with "@ + text::decimal(o.errors.len() + o.verify_failures.len())
            + " problem(s)"@
    }
}

/// What the user is told at the end of a run.
pub fn notification_body(outcome: &HarvestOutcome, ejected: bool) -> (r: String)
    requires
        outcome.errors@.len() + outcome.verify_failures@.len() <= usize::MAX,
    ensures
        r@ == closing_words(outcome@, ejected),
{
    assert(outcome@.errors.len() == outcome.errors@.len());
    assert(outcome@.verify_failures.len() == outcome.verify_failures@.len());
    if outcome.cancelled {
        let mut r = "Cancelled — ".to_owned();
        r.append(decimal_text(outcome.copied as u64).as_str());
        r.append(" files copied");
        r
    } else if outcome.success() {
        let mut r = decimal_text(outcome.copied as u64);
        r.append(" copied, ");
        r.append(decimal_text(outcome.skipped as u64).as_str());
        r.append(" already present");
        let ghost before = r@;
        if ejected {
            r.append(" · source ejected");
        }
        assert(!ejected ==> r@ == before + Seq::<char>::empty());
        r
    } else {
        let problems: usize = outcome.errors.len() + outcome.verify_failures.len();
        let mut r = "Finished with ".to_owned();
        r.append(decimal_text(problems as u64).as_str());
        r.append(" problem(s)");
        r
    }
}

// ---------------------------------------------------------------------------
// Laws
// ---------------------------------------------------------------------------

/// The history never grows beyond what is kept, and the newest run is first.
pub proof fn history_is_bounded(entries: Seq<HistoryEntry>, entry: HistoryEntry)
    ensures
        0 < remembered(entries, entry).len() <= MAX_HISTORY,
        remembered(entries, entry)[0] == entry,
{
}

/// The history is the newest run and then the past runs as they were; of more
/// than a hundred, the oldest go.
pub proof fn history_keeps_the_newest(entries: Seq<HistoryEntry>, entry: HistoryEntry, i: int)
    ensures
        remembered(entries, entry).len() == if entries.len() < 100 {
            entries.len() + 1
        } else {
            100
        },
        remembered(entries, entry)[0] == entry,
        0 < i < remembered(entries, entry).len() ==> remembered(entries, entry)[i] == entries[i - 1],
{
}

/// The user is told how many files were copied and how many were there already,
/// or how many problems there were.
pub proof fn closing_words_tell_the_numbers(o: transfer::OutcomeModel, ejected: bool)
    ensures
        o.cancelled ==> closing_words(o, ejected) == "Cancelled — "@ + text::decimal(o.copied)
            + " files copied"@,
        !o.cancelled && o.errors.len() == 0 && o.verify_failures.len() == 0 ==> text::begins_with(
            closing_words(o, ejected),
            text::decimal(o.copied) + " copied, "@ + text::decimal(o.skipped) + " already present"@,
        ),
        !o.cancelled && (o.errors.len() > 0 || o.verify_failures.len() > 0) ==> closing_words(
            o,
            ejected,
        ) == "Finished with "@ + text::decimal(o.errors.len() + o.verify_failures.len())
            + " problem(s)"@,
        o.success() && !ejected ==> closing_words(o, ejected).len() < closing_words(o, true).len(),
        o.success() ==> closing_words(o, false) == text::decimal(o.copied) + " copied, "@
            + text::decimal(o.skipped) + " already present"@,
        o.success() ==> closing_words(o, true) == closing_words(o, false) + " · source ejected"@,
{
    reveal_strlit(" · source ejected");
    let told = text::decimal(o.copied) + " copied, "@ + text::decimal(o.skipped)
        + " already present"@;
    text::beginnings_are_followed_by_the_rest(told, told, " · source ejected"@);
    text::beginnings_are_followed_by_the_rest(told, told, Seq::empty());
    assert(told + Seq::<char>::empty() == told);
}

/// An entry stands for its fields.
pub proof fn entries_stand_for_their_fields(e: HistoryEntry, i: int)
    ensures
        e@.when == e.when,
        e@.source == e.source@,
        e@.dests.len() == e.dests@.len(),
        0 <= i < e.dests@.len() ==> e@.dests[i] == e.dests@[i]@,
        e@.copied == e.copied,
        e@.skipped == e.skipped,
        e@.bytes == e.bytes,
        e@.success == e.success,
        e@.cancelled == e.cancelled,
{
}

} // verus!
