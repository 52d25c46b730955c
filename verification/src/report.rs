//! The report: the rows of the tree, the table of groups, and the summary
//! line.

use vstd::prelude::*;
use crate::command::{argv_of, span_argv, CommandTree, TreeView};
use crate::model::TrackerView;
use crate::paint::{paint_bright_red, painted};
use crate::rows::{print_tree, tree_text};
use crate::span::{SpanView, ThreadEndReason, ThreadSpan};
use crate::status::{failed, is_bad_outcome, outcome_of, outcome_text};
use crate::table::{groups_text, print_groups};
use crate::text::{
    decimal, pad_left, percent_text, push_decimal, push_number, push_percent, push_right_aligned,
    push_seconds, push_zero_padded, seconds_text, zero_padded,
};
use crate::tracker::{ThreadTracker, TrackerError};

verus! {

/// The size of a duration of `ms` milliseconds, whatever its sign.
pub open spec fn magnitude(ms: int) -> int {
    if ms < 0 {
        -ms
    } else {
        ms
    }
}

/// The share of a duration of `ms` milliseconds that falls to a unit of
/// `unit` milliseconds of which `modulus` make up the next larger one,
/// rounded towards zero and carrying the duration's sign.
pub open spec fn clock_part(ms: int, unit: int, modulus: int) -> int {
    let share = (magnitude(ms) / unit) % modulus;
    if ms < 0 {
        -share
    } else {
        share
    }
}

/// The whole days in a duration of `ms` milliseconds, whatever its sign.
pub open spec fn whole_days(ms: int) -> int {
    magnitude(ms) / 86_400_000
}

/// A duration of `ms` milliseconds as `HH:MM:SS.mmm `, with `DDDd ` in front
/// when it lasts a day or more. The parts of a negative duration carry a
/// minus sign each, and its days are not shown.
pub open spec fn elapsed_text(ms: int) -> Seq<char> {
    let clock = zero_padded(clock_part(ms, 3_600_000, 24), 2) + seq![':'] + zero_padded(
        clock_part(ms, 60_000, 60),
        2,
    ) + seq![':'] + zero_padded(clock_part(ms, 1000, 60), 2) + seq!['.'] + zero_padded(
        clock_part(ms, 1, 1000),
        3,
    ) + seq![' '];
    if ms >= 0 && whole_days(ms) > 0 {
        zero_padded(whole_days(ms), 3) + seq!['d', ' '] + clock
    } else {
        clock
    }
}

fn magnitude_of(elapsed: i64) -> (m: u64)
    ensures
        m == magnitude(elapsed as int),
{
    if elapsed < 0 {
        (-(elapsed as i128)) as u64
    } else {
        elapsed as u64
    }
}

fn clock_part_of(elapsed: i64, unit: u64, modulus: u64) -> (part: i64)
    requires
        unit > 0,
        0 < modulus <= 1000,
    ensures
        part == clock_part(elapsed as int, unit as int, modulus as int),
{
    let share = (magnitude_of(elapsed) / unit) % modulus;
    if elapsed < 0 {
        -(share as i64)
    } else {
        share as i64
    }
}

fn clock_text(elapsed: i64) -> (text: String)
    ensures
        text@ == zero_padded(clock_part(elapsed as int, 3_600_000, 24), 2) + seq![':']
            + zero_padded(clock_part(elapsed as int, 60_000, 60), 2) + seq![':'] + zero_padded(
            clock_part(elapsed as int, 1000, 60),
            2,
        ) + seq!['.'] + zero_padded(clock_part(elapsed as int, 1, 1000), 3) + seq![' '],
{
    let hours = clock_part_of(elapsed, 3_600_000, 24);
    let min = clock_part_of(elapsed, 60_000, 60);
    let sec = clock_part_of(elapsed, 1000, 60);
    let msec = clock_part_of(elapsed, 1, 1000);
    proof {
        reveal_strlit(":");
        reveal_strlit(".");
        reveal_strlit(" ");
        assert(":"@ =~= seq![':']);
        assert("."@ =~= seq!['.']);
        assert(" "@ =~= seq![' ']);
    }
    let mut text = String::new();
    push_zero_padded(&mut text, hours, 2);
    assert(text@ =~= zero_padded(hours as int, 2));
    text.append(":");
    push_zero_padded(&mut text, min, 2);
    text.append(":");
    push_zero_padded(&mut text, sec, 2);
    text.append(".");
    push_zero_padded(&mut text, msec, 3);
    text.append(" ");
    text
}

/// Appends to `w` the duration of `elapsed` milliseconds, as `elapsed_text`
/// gives it.
pub fn format_elapsed(elapsed: i64, w: &mut String)
    ensures
        final(w)@ == old(w)@ + elapsed_text(elapsed as int),
{
    let days = magnitude_of(elapsed) / 86_400_000;
    let clock = clock_text(elapsed);
    if elapsed >= 0 && days > 0 {
        proof {
            reveal_strlit("d ");
            assert("d "@ =~= seq!['d', ' ']);
        }
        let mut text = String::new();
        push_zero_padded(&mut text, days as i64, 3);
        assert(text@ =~= zero_padded(days as int, 3));
        text.append("d ");
        text.append(clock.as_str());
        w.append(text.as_str());
    } else {
        w.append(clock.as_str());
    }
}

/// The first argument of a span that began by an exec; empty for any other
/// span and for an empty argument vector.
pub open spec fn program_name(s: SpanView) -> Seq<char> {
    if span_argv(s).len() > 0 {
        span_argv(s)[0]
    } else {
        Seq::empty()
    }
}

/// The counts of the summary: commands, wall time, the CPU time of the
/// whole tree as a share of it, reads and writes, major page faults.
pub open spec fn summary_counts(tv: TreeView, s: SpanView) -> Seq<char> {
    decimal(tv.commands.len()) + " commands "@ + pad_left(seconds_text(tv.elapsed as nat), 7, ' ')
        + "s "@ + pad_left(percent_text(s.tree_usage.cpu_spec(), tv.elapsed as nat), 7, ' ')
        + "%cpu "@ + pad_left(s.tree_usage.iops_text(), 12, ' ') + " iops "@ + pad_left(
        decimal(s.tree_usage.major_pf as nat),
        6,
        ' ',
    ) + " PF  "@
}

/// The summary line for a root span `s` that ended by `end`, in bright red
/// at its end when the outcome is a bad one and `red` holds.
pub open spec fn summary_text(tv: TreeView, s: SpanView, end: Option<ThreadEndReason>, red: bool) -> Seq<
    char,
> {
    "\n"@ + program_name(s) + ": "@ + summary_counts(tv, s) + painted(
        outcome_text(end),
        red && is_bad_outcome(end),
    ) + "\n"@
}

fn counts_of_summary(tree: &CommandTree, root: &ThreadSpan) -> (counts: String)
    ensures
        counts@ == summary_counts(tree@, root@),
{
    let mut counts = String::new();
    let count = tree.commands.len();
    push_decimal(&mut counts, count as u128);
    assert(counts@ =~= decimal(tree@.commands.len()));
    counts.append(" commands ");
    push_seconds(&mut counts, tree.elapsed as u128, 7);
    counts.append("s ");
    push_percent(&mut counts, root.tree_usage.cpu(), tree.elapsed, 7);
    counts.append("%cpu ");
    push_right_aligned(&mut counts, root.tree_usage.format_iops().as_str(), 12);
    counts.append(" iops ");
    push_number(&mut counts, root.tree_usage.major_pf as u128, 6, false);
    counts.append(" PF  ");
    counts
}

/// Appends the summary line for the root span `root`, which ended by
/// `end`.
///
/// Whether a bad outcome comes out in bright red is for `colored` to
/// decide; apart from that the line is what `summary_text` says.
pub fn print_summary(
    output: &mut String,
    tree: &CommandTree,
    root: &ThreadSpan,
    end: Option<ThreadEndReason>,
)
    ensures
        exists|red: bool|
            final(output)@ == old(output)@ + #[trigger] summary_text(tree@, root@, end, red),
{
    let mut text = String::new();
    text.append("\n");
    assert(text@ =~= "\n"@);
    match argv_of(root) {
        Some(argv) => {
            if argv.len() > 0 {
                assert(argv.deep_view()[0] == argv@[0]@);
                text.append(argv[0].as_str());
            } else {
                assert(text@ =~= "\n"@ + program_name(root@));
            }
        },
        None => {
            assert(text@ =~= "\n"@ + program_name(root@));
        },
    }
    text.append(": ");
    text.append(counts_of_summary(tree, root).as_str());
    let outcome = outcome_of(end);
    let bad = failed(end) || match end {
        Some(ThreadEndReason::Exec) => true,
        _ => false,
    };
    let shown = if bad {
        paint_bright_red(outcome.as_str())
    } else {
        outcome
    };
    let ghost red = shown@ != outcome_text(end);
    assert(shown@ == painted(outcome_text(end), red && is_bad_outcome(end)));
    text.append(shown.as_str());
    text.append("\n");
    assert(text@ == summary_text(tree@, root@, end, red));
    output.append(text.as_str());
}

/// The whole report for a tracker whose tree has been rolled up: the rows
/// of the tree, the table of groups, and the summary.
pub open spec fn report_text(
    t: TrackerView,
    tv: TreeView,
    end: Option<ThreadEndReason>,
    paints: Seq<bool>,
    red: bool,
) -> Seq<char> {
    tree_text(t, tv, paints, tv.commands.len()) + groups_text(tv.groups) + summary_text(
        tv,
        t.spans[t.root->0 as int],
        end,
        red,
    )
}

/// What the user is told where the kernel keeps no scheduler statistics.
pub open spec fn schedstat_notice() -> Seq<char> {
    "** schedstats are not enabled in the kernel, CPU measurements may be skewed"@
}

/// The warning that goes with a report made without scheduler statistics;
/// none where the kernel keeps them.
pub fn schedstat_warning(tracker: &ThreadTracker) -> (warning: Option<String>)
    ensures
        warning is Some <==> !tracker@.have_schedstats,
        warning matches Some(text) ==> text@ == schedstat_notice(),
{
    if tracker.have_schedstats() {
        None
    } else {
        Some(
            String::from_str(
                "** schedstats are not enabled in the kernel, CPU measurements may be skewed",
            ),
        )
    }
}

/// Rolls up the tree of `tracker` and renders the report on it, for a
/// terminal when `is_tty` holds. `end` is how the root ended as far as the
/// caller knows.
///
/// Fails with `NoRoot`, leaving the tracker as it was, exactly when the
/// tracker has no root. Fails with `Overflow` exactly when it has one and
/// a sum leaves its range: in the roll-up, and then the tracker is as it
/// was, or in the command tree, and then the tracker is rolled up.
/// Otherwise the tracker is rolled up and the result is what
/// `report_text` says of it, where `colored` decides which failures come
/// out in bright red.
pub fn report(tracker: &mut ThreadTracker, end: Option<ThreadEndReason>, is_tty: bool) -> (result:
    Result<String, TrackerError>)
    requires
        old(tracker)@.valid(),
    ensures
        final(tracker)@.valid(),
        old(tracker)@.rooted() ==> final(tracker)@.rooted(),
        match result {
            Ok(text) => {
                &&& old(tracker)@.root matches Some(root)
                &&& old(tracker)@.compiled(root as int) is Some
                &&& final(tracker)@ == old(tracker)@.compiled_tree(root as int)
                &&& final(tracker)@.tree_fits()
                &&& exists|paints: Seq<bool>, red: bool|
                    paints.len() == final(tracker)@.tree_view(is_tty).commands.len() && text@
                        == #[trigger] report_text(
                        final(tracker)@,
                        final(tracker)@.tree_view(is_tty),
                        end,
                        paints,
                        red,
                    )
            },
            Err(TrackerError::NoRoot) => old(tracker)@.root is None && final(tracker)@ == old(tracker)@,
            Err(TrackerError::Overflow) => {
                &&& old(tracker)@.root matches Some(root)
                &&& if old(tracker)@.compiled(root as int) is None {
                    final(tracker)@ == old(tracker)@
                } else {
                    final(tracker)@ == old(tracker)@.compiled_tree(root as int) && !final(tracker)@.tree_fits()
                }
            },
            Err(_) => false,
        },
{
    let root = match tracker.root() {
        Some(root) => root,
        None => {
            return Err(TrackerError::NoRoot);
        },
    };
    match tracker.compile_tree(root) {
        Ok(()) => {},
        Err(e) => {
            return Err(e);
        },
    }
    let tree = match CommandTree::new(tracker, is_tty) {
        Ok(tree) => tree,
        Err(e) => {
            return Err(e);
        },
    };
    let mut text = String::new();
    print_tree(&mut text, tracker, &tree);
    let ghost paints = choose|paints: Seq<bool>|
        paints.len() == tree@.commands.len() && text@ == Seq::<char>::empty() + #[trigger] tree_text(
            tracker@,
            tree@,
            paints,
            tree@.commands.len(),
        );
    assert(text@ =~= tree_text(tracker@, tree@, paints, tree@.commands.len()));
    print_groups(&mut text, &tree);
    let ghost body = text@;
    print_summary(&mut text, &tree, tracker.span(root), end);
    let ghost red = choose|red: bool|
        text@ == body + #[trigger] summary_text(tree@, tracker@.spans[root as int], end, red);
    assert(text@ == report_text(tracker@, tree@, end, paints, red));
    Ok(text)
}

} // verus!
