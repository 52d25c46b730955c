//! What holds of the tracker whatever the events are: ends that are
//! reported twice, signals among the reported ends, and events that arrive
//! in the wrong order.

use vstd::prelude::*;
use crate::span::{ThreadEnd, ThreadEndReason};
use crate::model::{
    lemma_execed_valid, lemma_finished_valid, lemma_spawned_valid, lemma_ticked_valid,
    lemma_with_span_valid, TrackerView,
};

verus! {

/// The end reason of a span after the ends in `reports` have been reported
/// for it one after the other.
pub open spec fn reason_after(
    current: Option<ThreadEndReason>,
    reports: Seq<ThreadEndReason>,
) -> Option<ThreadEndReason>
    decreases reports.len(),
{
    if reports.len() == 0 {
        current
    } else {
        TrackerView::next_reason(reason_after(current, reports.drop_last()), reports.last())
    }
}

/// The first signal among the reported ends, if there is one.
pub open spec fn first_signal(reports: Seq<ThreadEndReason>) -> Option<ThreadEndReason>
    decreases reports.len(),
{
    if reports.len() == 0 {
        None
    } else {
        match first_signal(reports.drop_last()) {
            Some(signal) => Some(signal),
            None => if reports.last() is Signal {
                Some(reports.last())
            } else {
                None
            },
        }
    }
}

/// Reporting an end gives the span the reason that `next_reason` says, and
/// the time of the report as its end time.
pub proof fn law_finish_updates_reason(
    t: TrackerView,
    tid: i32,
    end: ThreadEnd,
    now: u64,
    text: Seq<u8>,
)
    requires
        t.valid(),
        t.knows(tid) || t.room_for(1),
    ensures
        ({
            let before = t.ticked(now).with_span(tid);
            let after = t.finished(tid, end, now, text);
            let i = after.active[tid] as int;
            &&& i == before.active[tid]
            &&& after.spans[i].end_reason == TrackerView::next_reason(
                before.spans[i].end_reason,
                end.reason,
            )
            &&& after.spans[i].end_reason is Some
            &&& after.spans[i].end_time == after.clock
        }),
{
    lemma_ticked_valid(t, now);
    lemma_with_span_valid(t.ticked(now), tid);
}

/// Signals win: once a signal is among the reported ends of a span, the
/// span's end reason is a signal, namely the first that was reported,
/// unless the span had ended by a signal before. Without any signal the
/// first end that was reported stands.
pub proof fn law_signal_wins(current: Option<ThreadEndReason>, reports: Seq<ThreadEndReason>)
    ensures
        current matches Some(ThreadEndReason::Signal(_)) ==> reason_after(current, reports)
            == current,
        !(current matches Some(ThreadEndReason::Signal(_))) && first_signal(reports) is Some
            ==> reason_after(current, reports) == first_signal(reports),
        !(current matches Some(ThreadEndReason::Signal(_))) && first_signal(reports) is None
            && current is Some ==> reason_after(current, reports) == current,
        current is None && first_signal(reports) is None && reports.len() > 0 ==> reason_after(
            current,
            reports,
        ) == Some(reports[0]),
        first_signal(reports) matches Some(signal) ==> signal is Signal,
        !(current matches Some(ThreadEndReason::Signal(_))) && first_signal(reports) is None ==> !(
        reason_after(current, reports) matches Some(ThreadEndReason::Signal(_))),
    decreases reports.len(),
{
    if reports.len() > 0 {
        law_signal_wins(current, reports.drop_last());
        if reports.len() > 1 {
            assert(reports.drop_last()[0] == reports[0]);
        }
    }
}

/// A late reap changes nothing that counts: when an end of a thread is
/// reported again, the usage of its span stays what the first report made
/// it, and an end by signal stays an end by signal.
pub proof fn law_late_reap_idempotent(
    t: TrackerView,
    tid: i32,
    first: ThreadEnd,
    second: ThreadEnd,
    now: u64,
    later: u64,
    text: Seq<u8>,
    later_text: Seq<u8>,
)
    requires
        t.valid(),
        t.knows(tid) || t.room_for(1),
    ensures
        ({
            let once = t.finished(tid, first, now, text);
            let twice = once.finished(tid, second, later, later_text);
            let i = once.active[tid] as int;
            &&& twice.spans.len() == once.spans.len()
            &&& twice.active[tid] == i
            &&& twice.spans[i].usage == once.spans[i].usage
            &&& once.spans[i].end_reason is Some
            &&& once.spans[i].end_reason matches Some(ThreadEndReason::Signal(_))
                ==> twice.spans[i].end_reason == once.spans[i].end_reason
            &&& second.reason is Signal ==> twice.spans[i].end_reason matches Some(
                ThreadEndReason::Signal(_),
            )
        }),
{
    lemma_finished_valid(t, tid, first, now, text);
    law_finish_updates_reason(t, tid, first, now, text);
    let once = t.finished(tid, first, now, text);
    lemma_finished_valid(once, tid, second, later, later_text);
    law_finish_updates_reason(once, tid, second, later, later_text);
}

/// Whether two trackers link the same spans in the same way: every span
/// has the same thread, ordinal and parent in both, with the heads and
/// depths that follow from the parents, and the live thread ids and the
/// root are the same. How the spans began and which children each span
/// lists is not compared.
pub open spec fn same_parent_links(a: TrackerView, b: TrackerView) -> bool {
    &&& a.spans.len() == b.spans.len()
    &&& forall|i: int|
        0 <= i < a.spans.len() ==> (#[trigger] a.spans[i]).tid == b.spans[i].tid && a.spans[i].ordinal
            == b.spans[i].ordinal && a.spans[i].parent == b.spans[i].parent
    &&& a.heads == b.heads
    &&& a.levels == b.levels
    &&& a.active == b.active
    &&& a.root == b.root
}

/// Events out of order give the same parent links. When a thread `child`
/// that the tracker has not seen is spawned by a live thread `parent` and
/// then begins a command, it does not matter whether the spawn or the exec
/// is taken in first: both orders are accepted, and in the trees they leave
/// every span has the same parent.
///
/// Kinds and children lists are not covered, and they do differ. A spawn
/// gives its kind to the span that stands for the child and appends that
/// span to the parent's children. Taken in after the exec, that span is
/// the new command's: it loses the kind of an exec and becomes the child
/// of the spawning span, while the span that the exec ended keeps an
/// unknown kind and is in no children list but has the spawning span as
/// its parent.
pub proof fn law_spawn_exec_commute(
    t: TrackerView,
    parent: i32,
    child: i32,
    is_fork: bool,
    argv: Seq<Seq<char>>,
    end: ThreadEnd,
    now: u64,
    later: u64,
    text: Seq<u8>,
)
    requires
        t.valid(),
        t.knows(parent),
        !t.knows(child),
        t.room_for(2),
    ensures
        !t.spawn_rejected(child, parent),
        !t.spawned(child, parent, is_fork, now).exec_rejected(Some(child)),
        !t.exec_rejected(Some(child)),
        !t.execed(child, argv, Some(child), end, now, text).spawn_rejected(child, parent),
        same_parent_links(
            t.spawned(child, parent, is_fork, now).execed(
                child,
                argv,
                Some(child),
                end,
                later,
                text,
            ),
            t.execed(child, argv, Some(child), end, now, text).spawned(
                child,
                parent,
                is_fork,
                later,
            ),
        ),
{
    let n = t.spans.len() as int;
    let p = t.active[parent];
    assert(t.active.contains_key(parent));
    assert(t.span_ok(p as int));
    // The spawn first.
    lemma_spawned_valid(t, child, parent, is_fork, now);
    let s1 = t.spawned(child, parent, is_fork, now);
    let s0 = t.ticked(now).with_span(parent).with_span(child);
    assert(s0.active[child] == n);
    assert(s0.active[parent] == p);
    assert(s1.active.contains_key(child));
    lemma_execed_valid(s1, child, argv, Some(child), end, later, text);
    let a = s1.execed(child, argv, Some(child), end, later, text);
    // The exec first.
    lemma_execed_valid(t, child, argv, Some(child), end, now, text);
    let e1 = t.execed(child, argv, Some(child), end, now, text);
    let exec_end = ThreadEnd { usage: end.usage, reason: ThreadEndReason::Exec };
    lemma_finished_valid(t, child, exec_end, now, text);
    let f1 = t.finished(child, exec_end, now, text);
    assert(f1.active[child] == n);
    assert(e1.active.contains_key(child));
    assert(e1.active[child] == n + 1);
    assert(e1.active.contains_key(parent));
    assert(e1.active[parent] == p);
    assert(e1.heads[n + 1] == n);
    assert(e1.heads[p as int] == t.heads[p as int]);
    assert(e1.span_ok(p as int));
    assert(t.heads[p as int] < n);
    assert(!e1.spawn_rejected(child, parent));
    lemma_spawned_valid(e1, child, parent, is_fork, later);
    let b = e1.spawned(child, parent, is_fork, later);
    assert(a.spans.len() == n + 2);
    assert(b.spans.len() == n + 2);
    assert(a.heads =~= b.heads);
    assert(a.levels =~= b.levels);
    assert(a.active =~= b.active);
    assert forall|i: int| 0 <= i < a.spans.len() implies (#[trigger] a.spans[i]).tid
        == b.spans[i].tid && a.spans[i].ordinal == b.spans[i].ordinal && a.spans[i].parent
        == b.spans[i].parent by {
        if i < n {
            assert(t.span_ok(i));
        }
    }
}

/// The root invariant in full: the root is the first span, with the
/// ordinal 1; it began by an exec and has no parent; and no other span
/// began by an exec and has no parent.
pub proof fn law_root_unique(t: TrackerView)
    requires
        t.valid(),
        t.rooted(),
    ensures
        t.root == Some(0usize),
        t.spans[0].ordinal == 1,
        forall|i: int|
            0 <= i < t.spans.len() ==> ((#[trigger] t.spans[i]).init is Exec && t.spans[i].parent is None
                <==> i == 0),
{
    assert(t.span_ok(0));
}

/// An exec below the root leaves the root alone: when a thread begins a
/// command after another span, the root stays what it was, the thread
/// stands for a new span that began by an exec with these arguments and
/// has the ended span as its parent, and the spans that began by an exec
/// and have no parent are the same as before.
pub proof fn law_exec_keeps_root(
    t: TrackerView,
    tid: i32,
    argv: Seq<Seq<char>>,
    prev: i32,
    end: ThreadEnd,
    now: u64,
    text: Seq<u8>,
)
    requires
        t.valid(),
        t.room_for(t.exec_growth(Some(prev))),
    ensures
        ({
            let ended = t.finished(
                prev,
                ThreadEnd { usage: end.usage, reason: ThreadEndReason::Exec },
                now,
                text,
            );
            let after = t.execed(tid, argv, Some(prev), end, now, text);
            let n = after.active[tid] as int;
            &&& after.root == t.root
            &&& after.knows(tid)
            &&& !after.knows(prev) || prev == tid
            &&& n == after.spans.len() - 1
            &&& after.spans[n].init == crate::span::InitView::Exec(argv)
            &&& after.spans[n].parent == Some(ended.active[prev])
            &&& after.spans[n].usage == t.measured(end.usage, text)
            &&& forall|i: int|
                0 <= i < after.spans.len() ==> ((#[trigger] after.spans[i]).init is Exec
                    && after.spans[i].parent is None <==> i < t.spans.len() && t.spans[i].init is Exec
                    && t.spans[i].parent is None)
        }),
{
    let e = ThreadEnd { usage: end.usage, reason: ThreadEndReason::Exec };
    lemma_finished_valid(t, prev, e, now, text);
    lemma_ticked_valid(t, now);
    lemma_with_span_valid(t.ticked(now), prev);
    let ended = t.finished(prev, e, now, text);
    let after = t.execed(tid, argv, Some(prev), end, now, text);
    assert(after.spans.len() == ended.spans.len() + 1);
    assert forall|i: int| 0 <= i < after.spans.len() implies ((#[trigger] after.spans[i]).init is Exec
        && after.spans[i].parent is None <==> i < t.spans.len() && t.spans[i].init is Exec
        && t.spans[i].parent is None) by {
        if i < t.spans.len() {
            assert(after.spans[i].init == t.spans[i].init);
            assert(after.spans[i].parent == t.spans[i].parent);
        }
    }
}

} // verus!
