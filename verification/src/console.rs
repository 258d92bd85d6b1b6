//! The lines that the command line prints about a run.

use crate::hash;
use crate::run::HarvestConfig;
use crate::text;
use crate::text::decimal_text;
use crate::transfer;
use crate::transfer::HarvestOutcome;
use vstd::prelude::*;
use vstd::string::*;

verus! {

/// The line that opens a run.
pub open spec fn banner_text(cfg: HarvestConfig) -> Seq<char> {
    "Harvesting "@ + cfg.source@ + " -> "@ + text::decimal(cfg.dests@.len())
        + " destination(s). Hash: "@ + hash::algo_name(cfg.algo) + ". Verify: "@ + if cfg.verify {
        "read-back"@
    } else {
        "off"@
    } + "."@
}

/// The line that opens a run.
pub fn banner(cfg: &HarvestConfig) -> (r: String)
    ensures
        r@ == banner_text(*cfg),
{
    let mut r = "Harvesting ".to_owned();
    r.append(cfg.source.text.as_str());
    r.append(" -> ");
    r.append(decimal_text(cfg.dests.len() as u64).as_str());
    r.append(" destination(s). Hash: ");
    r.append(cfg.algo.name());
    r.append(". Verify: ");
    if cfg.verify {
        r.append("read-back");
    } else {
        r.append("off");
    }
    r.append(".");
    r
}

/// The line that tells what the filter kept; none if it kept everything.
pub open spec fn filter_text(kept: nat, total_scanned: nat) -> Option<Seq<char>> {
    if kept == total_scanned {
        None
    } else {
        Some(
            "Filter kept "@ + text::decimal(kept) + " of "@ + text::decimal(total_scanned)
                + " scanned files."@,
        )
    }
}

/// The line that tells what the filter kept; none if it kept everything.
pub fn filter_line(kept: usize, total_scanned: usize) -> (r: Option<String>)
    ensures
        text::opt_text(r) == filter_text(kept as nat, total_scanned as nat),
{
    if kept == total_scanned {
        return None;
    }
    let mut r = "Filter kept ".to_owned();
    r.append(decimal_text(kept as u64).as_str());
    r.append(" of ");
    r.append(decimal_text(total_scanned as u64).as_str());
    r.append(" scanned files.");
    Some(r)
}

/// The line that tells what is going to be copied; `size` is its bytes in a
/// readable form.
pub fn planned_line(to_copy: usize, size: &str, skipped: usize) -> (r: String)
    ensures
        r@ == text::decimal(to_copy as nat) + " file(s) to copy ("@ + size@ + "), "@
            + text::decimal(skipped as nat) + " already verified."@,
{
    let mut r = decimal_text(to_copy as u64);
    r.append(" file(s) to copy (");
    r.append(size);
    r.append("), ");
    r.append(decimal_text(skipped as u64).as_str());
    r.append(" already verified.");
    r
}

/// How many files are done, of how many.
pub fn progress_text(done_files: usize, planned: u64) -> (r: String)
    ensures
        r@ == text::decimal(done_files as nat) + "/"@ + text::decimal(planned as nat),
{
    let mut r = decimal_text(done_files as u64);
    r.append("/");
    r.append(decimal_text(planned).as_str());
    r
}

/// The texts, each with `prefix` in front.
pub open spec fn prefixed(prefix: Seq<char>, lines: Seq<Seq<char>>) -> Seq<Seq<char>> {
    Seq::new(lines.len(), |i: int| prefix + lines[i])
}

/// The lines that tell what went wrong in a run, and how to go on.
pub open spec fn problem_lines(o: transfer::OutcomeModel) -> Seq<Seq<char>> {
    prefixed("ERROR: "@, o.errors) + prefixed("VERIFY FAILED: "@, o.verify_failures) + seq![
        "\nProgress saved to "@ + o.journal_path + " — re-run with --resume to continue."@,
    ]
}

/// Adds each of `more`, with `prefix` in front, to the lines.
fn append_prefixed(lines: &mut Vec<String>, prefix: &str, more: &Vec<String>)
    ensures
        text::texts(final(lines)@) == text::texts(old(lines)@) + prefixed(
            prefix@,
            text::texts(more@),
        ),
{
    let ghost first = text::texts(lines@);
    let ghost all = prefixed(prefix@, text::texts(more@));
    let mut i: usize = 0;
    assert(first + all.take(0) == first);
    while i < more.len()
        invariant
            all == prefixed(prefix@, text::texts(more@)),
            i <= more@.len(),
            text::texts(lines@) == first + all.take(i as int),
        decreases more@.len() - i,
    {
        let ghost before = text::texts(lines@);
        let mut line = prefix.to_owned();
        line.append(more[i].as_str());
        let ghost model = line@;
        assert(model == all[i as int]);
        lines.push(line);
        i += 1;
        assert(text::texts(lines@) == before.push(model));
        assert(all.take(i as int) == all.take(i - 1).push(model));
        assert(before.push(model) == first + all.take(i as int));
    }
    assert(all.take(all.len() as int) == all);
}

/// The lines that tell what went wrong in a run, and how to go on.
pub fn failure_lines(outcome: &HarvestOutcome) -> (r: Vec<String>)
    ensures
        text::texts(r@) == problem_lines(outcome@),
{
    let mut lines: Vec<String> = Vec::new();
    append_prefixed(&mut lines, "ERROR: ", &outcome.errors);
    append_prefixed(&mut lines, "VERIFY FAILED: ", &outcome.verify_failures);
    let ghost before = text::texts(lines@);
    let mut line = "\nProgress saved to ".to_owned();
    line.append(outcome.journal_path.text.as_str());
    line.append(" — re-run with --resume to continue.");
    let ghost model = line@;
    lines.push(line);
    assert(text::texts(lines@) == before.push(model));
    assert(text::texts(lines@) == problem_lines(outcome@));
    lines
}

/// The error that a run which did not succeed ends with.
pub fn failure_summary(outcome: &HarvestOutcome) -> (r: String)
    ensures
        r@ == text::decimal(outcome@.errors.len()) + " error(s), "@ + text::decimal(
            outcome@.verify_failures.len(),
        ) + " verification failure(s) — manifest not written"@,
{
    assert(outcome@.errors.len() == outcome.errors@.len());
    assert(outcome@.verify_failures.len() == outcome.verify_failures@.len());
    let mut r = decimal_text(outcome.errors.len() as u64);
    r.append(" error(s), ");
    r.append(decimal_text(outcome.verify_failures.len() as u64).as_str());
    r.append(" verification failure(s) — manifest not written");
    r
}

/// The line that closes a run that succeeded.
pub open spec fn success_text(o: transfer::OutcomeModel, verify: bool) -> Seq<char> {
    "All "@ + text::decimal(o.copied + o.skipped) + " file(s) "@ + if verify {
        "verified"@
    } else {
        "written (not verified)"@
    } + " OK ("@ + text::decimal(o.copied) + " copied, "@ + text::decimal(o.skipped)
        + " already done)."@
}

/// The line that closes a run that succeeded.
pub fn success_line(outcome: &HarvestOutcome, verify: bool) -> (r: String)
    requires
        outcome.copied + outcome.skipped <= usize::MAX,
    ensures
        r@ == success_text(outcome@, verify),
{
    let mut r = "All ".to_owned();
    r.append(decimal_text((outcome.copied + outcome.skipped) as u64).as_str());
    r.append(" file(s) ");
    if verify {
        r.append("verified");
    } else {
        r.append("written (not verified)");
    }
    r.append(" OK (");
    r.append(decimal_text(outcome.copied as u64).as_str());
    r.append(" copied, ");
    r.append(decimal_text(outcome.skipped as u64).as_str());
    r.append(" already done).");
    r
}

/// The line that tells where the manifest is, if one was written.
pub fn manifest_line(outcome: &HarvestOutcome) -> (r: Option<String>)
    ensures
        text::opt_text(r) == match outcome@.manifest_path {
            Some(p) => Some("Manifest: "@ + p),
            None => None,
        },
{
    match &outcome.manifest_path {
        Some(p) => {
            let mut r = "Manifest: ".to_owned();
            r.append(p.text.as_str());
            Some(r)
        },
        None => None,
    }
}

// ---------------------------------------------------------------------------
// Laws
// ---------------------------------------------------------------------------

/// Every problem of a run is told on a line of its own, in order: first the
/// errors, then the destinations that failed; the last line tells where the
/// journal is.
pub proof fn every_problem_has_its_line(o: transfer::OutcomeModel, i: int)
    ensures
        ({
            let lines = problem_lines(o);
            let n = o.errors.len() as int;
            &&& lines.len() == o.errors.len() + o.verify_failures.len() + 1
            &&& 0 <= i < n ==> lines[i] == "ERROR: "@ + o.errors[i]
            &&& 0 <= i < o.verify_failures.len() ==> lines[n + i] == "VERIFY FAILED: "@
                + o.verify_failures[i]
            &&& lines.last() == "\nProgress saved to "@ + o.journal_path
                + " — re-run with --resume to continue."@
        }),
{
}

/// The lines of a run tell its numbers: what the filter kept, unless it kept
/// everything, and at the end what was copied and what was done already, which
/// together are all.
pub proof fn lines_tell_the_numbers(
    kept: nat,
    total: nat,
    o: transfer::OutcomeModel,
    verify: bool,
)
    ensures
        filter_text(kept, total) is None <==> kept == total,
        kept != total ==> filter_text(kept, total) == Some(
            "Filter kept "@ + text::decimal(kept) + " of "@ + text::decimal(total)
                + " scanned files."@,
        ),
        text::begins_with(
            success_text(o, verify),
            "All "@ + text::decimal(o.copied + o.skipped) + " file(s) "@ + if verify {
                "verified"@
            } else {
                "written (not verified)"@
            },
        ),
{
    let start = "All "@ + text::decimal(o.copied + o.skipped) + " file(s) "@ + if verify {
        "verified"@
    } else {
        "written (not verified)"@
    };
    let rest = " OK ("@ + text::decimal(o.copied) + " copied, "@ + text::decimal(o.skipped)
        + " already done)."@;
    assert(success_text(o, verify) == start + rest);
    text::beginnings_are_followed_by_the_rest(start, start, rest);
}

/// The line that opens a run names the source, the number of destinations, the
/// algorithm and whether copies are read back.
pub proof fn the_first_line_tells_the_settings(cfg: HarvestConfig)
    ensures
        cfg.verify ==> banner_text(cfg) == "Harvesting "@ + cfg.source.text@ + " -> "@
            + text::decimal(cfg.dests@.len()) + " destination(s). Hash: "@ + hash::algo_name(
            cfg.algo,
        ) + ". Verify: "@ + "read-back"@ + "."@,
        !cfg.verify ==> banner_text(cfg) == "Harvesting "@ + cfg.source.text@ + " -> "@
            + text::decimal(cfg.dests@.len()) + " destination(s). Hash: "@ + hash::algo_name(
            cfg.algo,
        ) + ". Verify: "@ + "off"@ + "."@,
{
}

} // verus!
