//! What the tracker stands for, and what each event makes of it: the span
//! tree as a value, its invariant, and the events as functions on it.

use vstd::prelude::*;
use crate::procfs::{schedstat_nanos, stat_nanos};
use crate::span::{InitView, SpanView, ThreadEnd, ThreadEndReason};
use crate::usage::{larger, ResourceUsage};

verus! {

/// What a tracker stands for: the arena of spans, and for every span the
/// head of its parent chain and its depth below that head.
pub struct TrackerView {
    pub spans: Seq<SpanView>,
    /// For each span the earliest ancestor on its parent chain: the one
    /// span of the chain without a parent.
    pub heads: Seq<usize>,
    /// For each span the number of parent links between it and its head.
    pub levels: Seq<nat>,
    /// The span that each live thread id currently stands for.
    pub active: Map<i32, usize>,
    pub root: Option<usize>,
    /// The latest time seen. Time never runs backwards in the tree.
    pub clock: u64,
    pub have_schedstats: bool,
    pub ticks_per_sec: u64,
}

impl TrackerView {
    /// The tracker before any event.
    pub open spec fn empty(have_schedstats: bool, ticks_per_sec: u64) -> TrackerView {
        TrackerView {
            spans: Seq::empty(),
            heads: Seq::empty(),
            levels: Seq::empty(),
            active: Map::empty(),
            root: None,
            clock: 0,
            have_schedstats,
            ticks_per_sec,
        }
    }

    /// What holds of a child `c` of span `i`: it lies in the same tree,
    /// deeper than `i`, and it is known how it began.
    pub open spec fn child_ok(self, i: int, c: usize) -> bool {
        &&& c < self.spans.len()
        &&& self.heads[c as int] == self.heads[i]
        &&& self.levels[c as int] > self.levels[i]
        &&& !(self.spans[c as int].init is Unknown)
    }

    /// What holds of span `i`: its ordinal is its place in the arena, its
    /// times are in order, its head is the parentless end of its parent
    /// chain, and its children lie below it.
    pub open spec fn span_ok(self, i: int) -> bool {
        let s = self.spans[i];
        &&& s.ordinal == i + 1
        &&& s.start_time <= s.end_time <= self.clock
        &&& self.heads[i] < self.spans.len()
        &&& self.spans[self.heads[i] as int].parent is None
        &&& match s.parent {
            None => self.heads[i] == i && self.levels[i] == 0,
            Some(p) => p < self.spans.len() && self.heads[p as int] == self.heads[i]
                && self.levels[i] == self.levels[p as int] + 1,
        }
        &&& forall|k: int| 0 <= k < s.children.len() ==> self.child_ok(i, #[trigger] s.children[k])
    }

    /// The tracker's invariant: every span is as `span_ok` says, every live
    /// thread id names a span of that thread, and the root is a span that
    /// began by an exec and has no parent.
    pub open spec fn valid(self) -> bool {
        &&& self.heads.len() == self.spans.len()
        &&& self.levels.len() == self.spans.len()
        &&& self.spans.len() <= usize::MAX
        &&& forall|i: int| 0 <= i < self.spans.len() ==> #[trigger] self.span_ok(i)
        &&& forall|tid: i32| #[trigger]
            self.active.contains_key(tid) ==> self.active[tid] < self.spans.len()
                && self.spans[self.active[tid] as int].tid == tid
        &&& self.root matches Some(r) ==> r < self.spans.len() && self.spans[r as int].init is Exec
            && self.spans[r as int].parent is None
    }

    /// Whether `tid` is a live thread id.
    pub open spec fn knows(self, tid: i32) -> bool {
        self.active.contains_key(tid)
    }

    /// Whether `count` more spans can be numbered.
    pub open spec fn room_for(self, count: nat) -> bool {
        self.spans.len() + count <= usize::MAX
    }

    /// The tracker after its clock has seen `now`.
    pub open spec fn ticked(self, now: u64) -> TrackerView {
        TrackerView { clock: larger(self.clock, now), ..self }
    }

    /// The tracker with one more span, begun now for thread `tid` with
    /// nothing else known of it, and standing for `tid` from now on.
    pub open spec fn with_new_span(self, tid: i32) -> TrackerView {
        let n = self.spans.len() as usize;
        TrackerView {
            spans: self.spans.push(SpanView::placeholder(tid, (n + 1) as usize, self.clock)),
            heads: self.heads.push(n),
            levels: self.levels.push(0),
            active: self.active.insert(tid, n),
            ..self
        }
    }

    /// The tracker in which `tid` is sure to have a span: as it is where
    /// `tid` is live, with a new span where it is not.
    pub open spec fn with_span(self, tid: i32) -> TrackerView {
        if self.knows(tid) {
            self
        } else {
            self.with_new_span(tid)
        }
    }

    /// The tracker after the head of `child`'s parent chain has been hung
    /// below `parent`. The whole tree of that head moves with it: its spans
    /// get the head of `parent`, and lie deeper by the depth of `parent`
    /// and one.
    pub open spec fn reparented(self, child: usize, parent: usize) -> TrackerView {
        let h = self.heads[child as int];
        let shift = self.levels[parent as int] + 1;
        TrackerView {
            spans: self.spans.update(
                h as int,
                SpanView { parent: Some(parent), ..self.spans[h as int] },
            ),
            heads: Seq::new(
                self.heads.len(),
                |i: int|
                    if self.heads[i] == h {
                        self.heads[parent as int]
                    } else {
                        self.heads[i]
                    },
            ),
            levels: Seq::new(
                self.levels.len(),
                |i: int|
                    if self.heads[i] == h {
                        self.levels[i] + shift
                    } else {
                        self.levels[i]
                    },
            ),
            ..self
        }
    }

    /// The tracker after span `i` has been given the kind `init`.
    pub open spec fn with_init(self, i: usize, init: InitView) -> TrackerView {
        TrackerView {
            spans: self.spans.update(i as int, SpanView { init, ..self.spans[i as int] }),
            ..self
        }
    }

    /// The tracker after `child` has been added at the end of the children
    /// of `parent`.
    pub open spec fn with_child(self, parent: usize, child: usize) -> TrackerView {
        TrackerView {
            spans: self.spans.update(
                parent as int,
                SpanView {
                    children: self.spans[parent as int].children.push(child),
                    ..self.spans[parent as int]
                },
            ),
            ..self
        }
    }

    /// The kind of a spawned thread: a fork has its own address space, a
    /// plain clone shares one.
    pub open spec fn spawn_kind(is_fork: bool) -> InitView {
        if is_fork {
            InitView::Forked
        } else {
            InitView::Thread
        }
    }

    /// Whether a spawn of `tid` by `parent_tid` contradicts the tree: a
    /// thread cannot spawn itself, the root's chain cannot get a parent,
    /// and the new parent cannot lie in the tree that is to hang below it.
    pub open spec fn spawn_rejected(self, tid: i32, parent_tid: i32) -> bool {
        ||| tid == parent_tid
        ||| (self.knows(tid) && self.root == Some(self.heads[self.active[tid] as int]))
        ||| (self.knows(tid) && self.knows(parent_tid) && self.heads[self.active[tid] as int]
            == self.heads[self.active[parent_tid] as int])
    }

    /// The number of spans that a spawn of `tid` by `parent_tid` adds.
    pub open spec fn spawn_growth(self, tid: i32, parent_tid: i32) -> nat {
        let for_parent: nat = if self.knows(parent_tid) {
            0
        } else {
            1
        };
        let for_child: nat = if self.knows(tid) {
            0
        } else {
            1
        };
        for_parent + for_child
    }

    /// The tracker after `parent_tid` has spawned `tid`: both have a span,
    /// the parent's made first; the head of the child's chain hangs below
    /// the parent's span; the child has the kind of the spawn and is the
    /// parent's last child.
    pub open spec fn spawned(self, tid: i32, parent_tid: i32, is_fork: bool, now: u64) -> TrackerView {
        let t = self.ticked(now).with_span(parent_tid).with_span(tid);
        let p = t.active[parent_tid];
        let c = t.active[tid];
        t.reparented(c, p).with_init(c, Self::spawn_kind(is_fork)).with_child(p, c)
    }

    /// The CPU time in nanoseconds that a thread's statistics file gives:
    /// from the scheduler statistics where the kernel has them, else from
    /// the tick counts of the status line.
    pub open spec fn cpu_reading(self, text: Seq<u8>) -> u64 {
        if self.have_schedstats {
            schedstat_nanos(text) as u64
        } else {
            stat_nanos(text, self.ticks_per_sec) as u64
        }
    }

    /// A reaped usage with the thread's own CPU time in place of the
    /// process-wide one: all of it counted as user time.
    pub open spec fn measured(self, usage: ResourceUsage, text: Seq<u8>) -> ResourceUsage {
        ResourceUsage { ucpu: self.cpu_reading(text), kcpu: 0, ..usage }
    }

    /// The end reason of a span after one more end has been reported: the
    /// first report stands, but a signal replaces anything that is not a
    /// signal.
    pub open spec fn next_reason(
        current: Option<ThreadEndReason>,
        reported: ThreadEndReason,
    ) -> Option<ThreadEndReason> {
        match current {
            None => Some(reported),
            Some(ThreadEndReason::Signal(_)) => current,
            Some(_) => if reported is Signal {
                Some(reported)
            } else {
                current
            },
        }
    }

    /// Span `s` after an end has been reported for it. Its end time is now.
    /// At the first report its usage becomes what was measured, net of what
    /// it had inherited; later reports leave the usage alone.
    pub open spec fn ended_span(self, s: SpanView, end: ThreadEnd, text: Seq<u8>) -> SpanView {
        SpanView {
            end_time: self.clock,
            usage: if s.end_reason is None {
                self.measured(end.usage, text).minus(s.usage)
            } else {
                s.usage
            },
            end_reason: Self::next_reason(s.end_reason, end.reason),
            ..s
        }
    }

    /// The tracker after an end of thread `tid` has been reported.
    pub open spec fn finished(self, tid: i32, end: ThreadEnd, now: u64, text: Seq<u8>) -> TrackerView {
        let t = self.ticked(now).with_span(tid);
        let i = t.active[tid] as int;
        TrackerView { spans: t.spans.update(i, t.ended_span(t.spans[i], end, text)), ..t }
    }

    /// The tracker in which `tid` is no longer live.
    pub open spec fn without(self, tid: i32) -> TrackerView {
        TrackerView { active: self.active.remove(tid), ..self }
    }

    /// The tracker with one more span: that of a command with the argument
    /// vector `argv`, begun now by thread `tid`, which it stands for from
    /// now on. The span starts from `usage`: what the kernel had counted
    /// for the thread when the command began, which is taken off again when
    /// the span ends. Below a `parent` the span lies a link deeper in the
    /// same tree; without one it heads a tree of its own.
    pub open spec fn with_command(
        self,
        tid: i32,
        argv: Seq<Seq<char>>,
        parent: Option<usize>,
        usage: ResourceUsage,
    ) -> TrackerView {
        let n = self.spans.len() as usize;
        let blank = SpanView::placeholder(tid, (n + 1) as usize, self.clock);
        TrackerView {
            spans: self.spans.push(
                SpanView { init: InitView::Exec(argv), parent, usage, ..blank },
            ),
            heads: self.heads.push(
                match parent {
                    Some(p) => self.heads[p as int],
                    None => n,
                },
            ),
            levels: self.levels.push(
                match parent {
                    Some(p) => self.levels[p as int] + 1,
                    None => 0,
                },
            ),
            active: self.active.insert(tid, n),
            ..self
        }
    }

    /// Whether an exec contradicts the tree: a first command is announced
    /// although there is a root. Such an exec is no event for the tracker;
    /// who feeds it asks for the root first.
    pub open spec fn exec_rejected(self, prev_tid: Option<i32>) -> bool {
        prev_tid is None && self.root is Some
    }

    /// The number of spans that an exec adds.
    pub open spec fn exec_growth(self, prev_tid: Option<i32>) -> nat {
        match prev_tid {
            Some(prev) => if self.knows(prev) {
                1
            } else {
                2
            },
            None => 1,
        }
    }

    /// The tracker after thread `tid` has begun the command `argv`.
    ///
    /// With a `prev_tid`, the span of that thread ends by `Exec` with the
    /// usage of `end`, stops being live, and becomes the parent of the new
    /// command's span, which is its last child. The kernel counts on
    /// across an exec, so the new span starts from what was measured at the
    /// exec: the usage of `end` with the thread's own CPU time. Without a
    /// `prev_tid` the new span is the root and starts from zero.
    pub open spec fn execed(
        self,
        tid: i32,
        argv: Seq<Seq<char>>,
        prev_tid: Option<i32>,
        end: ThreadEnd,
        now: u64,
        text: Seq<u8>,
    ) -> TrackerView {
        match prev_tid {
            Some(prev) => {
                let t = self.finished(
                    prev,
                    ThreadEnd { usage: end.usage, reason: ThreadEndReason::Exec },
                    now,
                    text,
                );
                let p = t.active[prev];
                let n = t.spans.len() as usize;
                t.without(prev).with_command(
                    tid,
                    argv,
                    Some(p),
                    t.measured(end.usage, text),
                ).with_child(p, n)
            },
            None => {
                let t = self.ticked(now);
                TrackerView {
                    root: Some(t.spans.len() as usize),
                    ..t.with_command(tid, argv, None, ResourceUsage::zero())
                }
            },
        }
    }

    /// The root invariant: the first span is the root, it began by an exec
    /// and has no parent, and it is the only span of which both hold.
    pub open spec fn rooted(self) -> bool {
        &&& self.root == Some(0usize)
        &&& self.spans.len() > 0
        &&& self.spans[0].init is Exec
        &&& self.spans[0].parent is None
        &&& forall|i: int|
            0 < i < self.spans.len() ==> !((#[trigger] self.spans[i]).init is Exec
                && self.spans[i].parent is None)
    }
}

/// Reporting an end keeps the tracker valid.
pub proof fn lemma_finished_valid(t: TrackerView, tid: i32, end: ThreadEnd, now: u64, text: Seq<u8>)
    requires
        t.valid(),
        t.knows(tid) || t.room_for(1),
    ensures
        t.finished(tid, end, now, text).valid(),
        t.finished(tid, end, now, text).knows(tid),
        t.finished(tid, end, now, text).active[tid] < t.finished(tid, end, now, text).spans.len(),
        t.finished(tid, end, now, text).spans.len() == t.spans.len() + (if t.knows(tid) {
            0int
        } else {
            1int
        }),
{
    lemma_ticked_valid(t, now);
    let t0 = t.ticked(now);
    lemma_with_span_valid(t0, tid);
    let t1 = t0.with_span(tid);
    let r = t.finished(tid, end, now, text);
    let i = t1.active[tid] as int;
    assert forall|j: int| 0 <= j < r.spans.len() implies #[trigger] r.span_ok(j) by {
        assert(t1.span_ok(j));
        assert(t1.span_ok(t1.heads[j] as int));
        assert forall|k: int| 0 <= k < r.spans[j].children.len() implies r.child_ok(
            j,
            #[trigger] r.spans[j].children[k],
        ) by {
            assert(t1.child_ok(j, t1.spans[j].children[k]));
        }
    }
    assert forall|other: i32| #[trigger] r.active.contains_key(other) implies r.active[other]
        < r.spans.len() && r.spans[r.active[other] as int].tid == other by {
        assert(t1.active.contains_key(other));
    }
}

/// Dropping a thread id from the live ones keeps the tracker valid.
pub proof fn lemma_without_valid(t: TrackerView, tid: i32)
    requires
        t.valid(),
    ensures
        t.without(tid).valid(),
{
    let r = t.without(tid);
    assert forall|j: int| 0 <= j < r.spans.len() implies #[trigger] r.span_ok(j) by {
        assert(t.span_ok(j));
    }
    assert forall|other: i32| #[trigger] r.active.contains_key(other) implies r.active[other]
        < r.spans.len() && r.spans[r.active[other] as int].tid == other by {
        assert(t.active.contains_key(other));
    }
}

/// Adding a command's span keeps the tracker valid.
pub proof fn lemma_with_command_valid(
    t: TrackerView,
    tid: i32,
    argv: Seq<Seq<char>>,
    parent: Option<usize>,
    usage: ResourceUsage,
)
    requires
        t.valid(),
        t.room_for(1),
        parent matches Some(p) ==> p < t.spans.len(),
    ensures
        t.with_command(tid, argv, parent, usage).valid(),
        parent matches Some(p) ==> t.with_command(tid, argv, parent, usage).child_ok(
            p as int,
            t.spans.len() as usize,
        ),
{
    let r = t.with_command(tid, argv, parent, usage);
    let n = t.spans.len() as int;
    assert forall|j: int| 0 <= j < r.spans.len() implies #[trigger] r.span_ok(j) by {
        if j < n {
            assert(t.span_ok(j));
            assert forall|k: int| 0 <= k < r.spans[j].children.len() implies r.child_ok(
                j,
                #[trigger] r.spans[j].children[k],
            ) by {
                assert(t.child_ok(j, t.spans[j].children[k]));
            }
        } else {
            match parent {
                Some(p) => {
                    assert(t.span_ok(p as int));
                },
                None => {},
            }
        }
    }
    assert forall|other: i32| #[trigger] r.active.contains_key(other) implies r.active[other]
        < r.spans.len() && r.spans[r.active[other] as int].tid == other by {
        if other != tid {
            assert(t.active.contains_key(other));
        }
    }
}

/// An exec that is not turned down keeps the tracker valid.
pub proof fn lemma_execed_valid(
    t: TrackerView,
    tid: i32,
    argv: Seq<Seq<char>>,
    prev_tid: Option<i32>,
    end: ThreadEnd,
    now: u64,
    text: Seq<u8>,
)
    requires
        t.valid(),
        !t.exec_rejected(prev_tid),
        t.room_for(t.exec_growth(prev_tid)),
    ensures
        t.execed(tid, argv, prev_tid, end, now, text).valid(),
{
    match prev_tid {
        Some(prev) => {
            let e = ThreadEnd { usage: end.usage, reason: ThreadEndReason::Exec };
            lemma_finished_valid(t, prev, e, now, text);
            let t1 = t.finished(prev, e, now, text);
            let p = t1.active[prev];
            lemma_without_valid(t1, prev);
            let t2 = t1.without(prev);
            let start = t1.measured(end.usage, text);
            lemma_with_command_valid(t2, tid, argv, Some(p), start);
            let t3 = t2.with_command(tid, argv, Some(p), start);
            lemma_with_child_valid(t3, p, t1.spans.len() as usize);
        },
        None => {
            lemma_ticked_valid(t, now);
            let t1 = t.ticked(now);
            lemma_with_command_valid(t1, tid, argv, None, ResourceUsage::zero());
            let t2 = t1.with_command(tid, argv, None, ResourceUsage::zero());
            let r = t.execed(tid, argv, prev_tid, end, now, text);
            assert forall|j: int| 0 <= j < r.spans.len() implies #[trigger] r.span_ok(j) by {
                assert(t2.span_ok(j));
            }
            assert forall|other: i32| #[trigger] r.active.contains_key(other) implies r.active[other]
                < r.spans.len() && r.spans[r.active[other] as int].tid == other by {
                assert(t2.active.contains_key(other));
            }
        },
    }
}

/// Hanging a chain's head below a span of another tree keeps the tracker
/// valid.
pub proof fn lemma_reparented_valid(t: TrackerView, child: usize, parent: usize)
    requires
        t.valid(),
        child < t.spans.len(),
        parent < t.spans.len(),
        t.heads[child as int] != t.heads[parent as int],
        t.root != Some(t.heads[child as int]),
    ensures
        t.reparented(child, parent).valid(),
{
    let r = t.reparented(child, parent);
    let h = t.heads[child as int];
    assert(t.span_ok(child as int));
    assert(t.span_ok(parent as int));
    assert(t.span_ok(h as int));
    assert forall|i: int| 0 <= i < r.spans.len() implies #[trigger] r.span_ok(i) by {
        assert(t.span_ok(i));
        let s = t.spans[i];
        match s.parent {
            None => {},
            Some(q) => {
                assert(t.span_ok(q as int));
            },
        }
        assert(t.span_ok(t.heads[i] as int));
        assert forall|k: int| 0 <= k < r.spans[i].children.len() implies r.child_ok(
            i,
            #[trigger] r.spans[i].children[k],
        ) by {
            assert(t.child_ok(i, s.children[k]));
        }
    }
    assert forall|tid: i32| #[trigger] r.active.contains_key(tid) implies r.active[tid]
        < r.spans.len() && r.spans[r.active[tid] as int].tid == tid by {
        assert(t.active.contains_key(tid));
    }
}

/// Moving the clock forward keeps the tracker valid.
pub proof fn lemma_ticked_valid(t: TrackerView, now: u64)
    requires
        t.valid(),
    ensures
        t.ticked(now).valid(),
{
    let r = t.ticked(now);
    assert forall|i: int| 0 <= i < r.spans.len() implies #[trigger] r.span_ok(i) by {
        assert(t.span_ok(i));
    }
}

/// Making sure that a thread has a span keeps the tracker valid, and leaves
/// the spans that were there as they were.
pub proof fn lemma_with_span_valid(t: TrackerView, tid: i32)
    requires
        t.valid(),
        t.knows(tid) || t.room_for(1),
    ensures
        t.with_span(tid).valid(),
        t.with_span(tid).knows(tid),
        t.with_span(tid).active[tid] < t.with_span(tid).spans.len(),
        !t.knows(tid) ==> t.with_span(tid).active[tid] == t.spans.len(),
        forall|other: i32| t.knows(other) && other != tid ==> t.with_span(tid).knows(other)
            && t.with_span(tid).active[other] == t.active[other],
        forall|i: int|
            0 <= i < t.spans.len() ==> t.with_span(tid).spans[i] == t.spans[i] && t.with_span(
                tid,
            ).heads[i] == t.heads[i],
{
    let r = t.with_span(tid);
    if !t.knows(tid) {
        let n = t.spans.len() as int;
        assert forall|i: int| 0 <= i < r.spans.len() implies #[trigger] r.span_ok(i) by {
            if i < n {
                assert(t.span_ok(i));
                assert forall|k: int| 0 <= k < r.spans[i].children.len() implies r.child_ok(
                    i,
                    #[trigger] r.spans[i].children[k],
                ) by {
                    assert(t.child_ok(i, t.spans[i].children[k]));
                }
            }
        }
        assert forall|other: i32| #[trigger] r.active.contains_key(other) implies r.active[other]
            < r.spans.len() && r.spans[r.active[other] as int].tid == other by {
            if other != tid {
                assert(t.active.contains_key(other));
            }
        }
    } else {
        assert(t.active.contains_key(tid));
    }
}

/// Giving a span another kind keeps the tracker valid.
pub proof fn lemma_with_init_valid(t: TrackerView, i: usize, init: InitView)
    requires
        t.valid(),
        i < t.spans.len(),
        t.root != Some(i),
        !(init is Unknown),
    ensures
        t.with_init(i, init).valid(),
{
    let r = t.with_init(i, init);
    assert forall|j: int| 0 <= j < r.spans.len() implies #[trigger] r.span_ok(j) by {
        assert(t.span_ok(j));
        assert(t.span_ok(t.heads[j] as int));
        assert forall|k: int| 0 <= k < r.spans[j].children.len() implies r.child_ok(
            j,
            #[trigger] r.spans[j].children[k],
        ) by {
            assert(t.child_ok(j, t.spans[j].children[k]));
        }
    }
    assert forall|tid: i32| #[trigger] r.active.contains_key(tid) implies r.active[tid]
        < r.spans.len() && r.spans[r.active[tid] as int].tid == tid by {
        assert(t.active.contains_key(tid));
    }
}

/// Adding to a span's children a span that lies below it in its tree keeps
/// the tracker valid.
pub proof fn lemma_with_child_valid(t: TrackerView, parent: usize, child: usize)
    requires
        t.valid(),
        parent < t.spans.len(),
        t.child_ok(parent as int, child),
    ensures
        t.with_child(parent, child).valid(),
{
    let r = t.with_child(parent, child);
    assert forall|j: int| 0 <= j < r.spans.len() implies #[trigger] r.span_ok(j) by {
        assert(t.span_ok(j));
        assert(t.span_ok(t.heads[j] as int));
        assert forall|k: int| 0 <= k < r.spans[j].children.len() implies r.child_ok(
            j,
            #[trigger] r.spans[j].children[k],
        ) by {
            if j == parent && k == t.spans[j].children.len() {
            } else {
                assert(t.child_ok(j, t.spans[j].children[k]));
            }
        }
    }
    assert forall|tid: i32| #[trigger] r.active.contains_key(tid) implies r.active[tid]
        < r.spans.len() && r.spans[r.active[tid] as int].tid == tid by {
        assert(t.active.contains_key(tid));
    }
}

/// A spawn that is not turned down keeps the tracker valid.
pub proof fn lemma_spawned_valid(t: TrackerView, tid: i32, parent_tid: i32, is_fork: bool, now: u64)
    requires
        t.valid(),
        !t.spawn_rejected(tid, parent_tid),
        t.room_for(t.spawn_growth(tid, parent_tid)),
    ensures
        t.spawned(tid, parent_tid, is_fork, now).valid(),
        t.ticked(now).with_span(parent_tid).valid(),
        t.ticked(now).with_span(parent_tid).with_span(tid).valid(),
        ({
            let u = t.ticked(now).with_span(parent_tid).with_span(tid);
            &&& u.knows(tid)
            &&& u.knows(parent_tid)
            &&& u.active[tid] < u.spans.len()
            &&& u.active[parent_tid] < u.spans.len()
            &&& u.heads[u.active[tid] as int] != u.heads[u.active[parent_tid] as int]
            &&& u.root != Some(u.heads[u.active[tid] as int])
            &&& u.root != Some(u.active[tid])
        }),
{
    let t0 = t.ticked(now);
    lemma_ticked_valid(t, now);
    let t1 = t0.with_span(parent_tid);
    lemma_with_span_valid(t0, parent_tid);
    let t2 = t1.with_span(tid);
    lemma_with_span_valid(t1, tid);
    let p = t2.active[parent_tid];
    let c = t2.active[tid];
    assert(t2.span_ok(p as int));
    assert(t2.span_ok(c as int));
    if t.knows(tid) {
        assert(t0.span_ok(t0.active[tid] as int));
        if t.knows(parent_tid) {
        } else {
            assert(t1.span_ok(p as int));
        }
    } else {
        assert(t1.span_ok(p as int));
    }
    assert(t2.heads[c as int] != t2.heads[p as int]);
    assert(t2.root != Some(t2.heads[c as int]));
    assert(t2.root != Some(c));
    let t3 = t2.reparented(c, p);
    lemma_reparented_valid(t2, c, p);
    let t4 = t3.with_init(c, TrackerView::spawn_kind(is_fork));
    lemma_with_init_valid(t3, c, TrackerView::spawn_kind(is_fork));
    assert(t4.child_ok(p as int, c));
    lemma_with_child_valid(t4, p, c);
}

/// Reporting an end keeps the root invariant.
pub proof fn lemma_finished_keeps_root(
    t: TrackerView,
    tid: i32,
    end: ThreadEnd,
    now: u64,
    text: Seq<u8>,
)
    requires
        t.valid(),
        t.rooted(),
        t.knows(tid) || t.room_for(1),
    ensures
        t.finished(tid, end, now, text).rooted(),
{
    let r = t.finished(tid, end, now, text);
    lemma_ticked_valid(t, now);
    lemma_with_span_valid(t.ticked(now), tid);
    assert forall|i: int| 0 < i < r.spans.len() implies !((#[trigger] r.spans[i]).init is Exec
        && r.spans[i].parent is None) by {
        if i < t.spans.len() {
            assert(!(t.spans[i].init is Exec && t.spans[i].parent is None));
        }
    }
}

/// A spawn that is not turned down keeps the root invariant.
pub proof fn lemma_spawned_keeps_root(
    t: TrackerView,
    tid: i32,
    parent_tid: i32,
    is_fork: bool,
    now: u64,
)
    requires
        t.valid(),
        t.rooted(),
        !t.spawn_rejected(tid, parent_tid),
        t.room_for(t.spawn_growth(tid, parent_tid)),
    ensures
        t.spawned(tid, parent_tid, is_fork, now).rooted(),
{
    lemma_spawned_valid(t, tid, parent_tid, is_fork, now);
    let t0 = t.ticked(now);
    lemma_ticked_valid(t, now);
    let t1 = t0.with_span(parent_tid);
    lemma_with_span_valid(t0, parent_tid);
    let t2 = t1.with_span(tid);
    lemma_with_span_valid(t1, tid);
    let p = t2.active[parent_tid];
    let c = t2.active[tid];
    let h = t2.heads[c as int];
    let r = t.spawned(tid, parent_tid, is_fork, now);
    assert(t2.span_ok(c as int));
    assert(t.span_ok(0));
    if t.knows(tid) {
        assert(t.active.contains_key(tid));
        assert(c == t.active[tid]);
        assert(h == t.heads[c as int]);
    } else {
        assert(c >= t.spans.len());
        assert(h == c);
    }
    assert(h != 0);
    assert(c != 0) by {
        if c == 0 {
            assert(t2.spans[0].parent is None);
        }
    }
    assert forall|i: int| 0 < i < r.spans.len() implies !((#[trigger] r.spans[i]).init is Exec
        && r.spans[i].parent is None) by {
        if i < t.spans.len() {
            assert(!(t.spans[i].init is Exec && t.spans[i].parent is None));
        }
    }
}

/// An exec that is not turned down keeps the root invariant, and the first
/// command of an empty tracker brings it about.
pub proof fn lemma_execed_keeps_root(
    t: TrackerView,
    tid: i32,
    argv: Seq<Seq<char>>,
    prev_tid: Option<i32>,
    end: ThreadEnd,
    now: u64,
    text: Seq<u8>,
)
    requires
        t.valid(),
        !t.exec_rejected(prev_tid),
        t.room_for(t.exec_growth(prev_tid)),
    ensures
        t.rooted() ==> t.execed(tid, argv, prev_tid, end, now, text).rooted(),
        prev_tid is None && t.spans.len() == 0 ==> t.execed(
            tid,
            argv,
            prev_tid,
            end,
            now,
            text,
        ).rooted(),
{
    let r = t.execed(tid, argv, prev_tid, end, now, text);
    match prev_tid {
        Some(prev) => {
            if t.rooted() {
                let e = ThreadEnd { usage: end.usage, reason: ThreadEndReason::Exec };
                lemma_finished_keeps_root(t, prev, e, now, text);
                lemma_finished_valid(t, prev, e, now, text);
                let t1 = t.finished(prev, e, now, text);
                assert forall|i: int| 0 < i < r.spans.len() implies !((#[trigger] r.spans[i]).init is Exec
                    && r.spans[i].parent is None) by {
                    if i < t1.spans.len() {
                        assert(!(t1.spans[i].init is Exec && t1.spans[i].parent is None));
                    }
                }
            }
        },
        None => {},
    }
}

} // verus!
