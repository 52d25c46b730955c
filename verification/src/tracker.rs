//! The tracker owns the span tree. It takes the spawn, exec and exit events
//! of the traced threads, in whatever order they arrive, and keeps the tree
//! and the map from live thread ids to spans in step with them.

use vstd::prelude::*;
use std::collections::HashMap;
use crate::aggregate::{
    lemma_compiled_tree_valid, lemma_folded_none, lemma_level_bound, table_closed, table_sound,
    Aggregate,
};
use crate::model::{
    lemma_execed_keeps_root, lemma_execed_valid, lemma_finished_keeps_root, lemma_finished_valid,
    lemma_spawned_keeps_root, lemma_spawned_valid, lemma_ticked_valid, lemma_with_span_valid,
    TrackerView,
};
use crate::procfs::{parse_schedstat, parse_stat};
use crate::span::{SpanView, ThreadEnd, ThreadEndReason, ThreadInit, ThreadSpan};
use crate::usage::{Overflow, ResourceUsage};

verus! {

broadcast use vstd::std_specs::hash::group_hash_axioms;

/// Why the tracker turned an event down. The tree is then as it was.
#[derive(Clone, Copy, Debug, PartialEq, Eq, Structural)]
pub enum TrackerError {
    /// The event contradicts the tree: it would make a span its own
    /// ancestor, or hang the root below another span.
    Protocol,
    /// A count left the range of its type.
    Overflow,
    /// There is nothing to report on: no first command was ever announced.
    NoRoot,
}

/// The arena of spans with the map from live thread ids into it.
pub struct ThreadTracker {
    spans: Vec<ThreadSpan>,
    threads: HashMap<i32, usize>,
    root: Option<usize>,
    clock: u64,
    have_schedstats: bool,
    ticks_per_sec: u64,
    heads: Ghost<Seq<usize>>,
    levels: Ghost<Seq<nat>>,
}

impl View for ThreadTracker {
    type V = TrackerView;

    closed spec fn view(&self) -> TrackerView {
        TrackerView {
            spans: self.spans@.map_values(|s: ThreadSpan| s@),
            heads: self.heads@,
            levels: self.levels@,
            active: self.threads@,
            root: self.root,
            clock: self.clock,
            have_schedstats: self.have_schedstats,
            ticks_per_sec: self.ticks_per_sec,
        }
    }
}

impl ThreadTracker {
    /// A tracker without spans. `have_schedstats` says whether the kernel
    /// offers per-thread scheduler statistics, `ticks_per_sec` is the clock
    /// tick rate that the fallback accounting counts in.
    pub fn new(have_schedstats: bool, ticks_per_sec: u64) -> (tracker: ThreadTracker)
        ensures
            tracker@ == TrackerView::empty(have_schedstats, ticks_per_sec),
            tracker@.valid(),
    {
        let tracker = ThreadTracker {
            spans: Vec::new(),
            threads: HashMap::new(),
            root: None,
            clock: 0,
            have_schedstats,
            ticks_per_sec,
            heads: Ghost(Seq::empty()),
            levels: Ghost(Seq::empty()),
        };
        assert(tracker@.spans =~= Seq::empty());
        assert(tracker@.active =~= Map::empty());
        tracker
    }

    /// The number of spans.
    pub fn len(&self) -> (n: usize)
        ensures
            n == self@.spans.len(),
    {
        self.spans.len()
    }

    /// Span `i` of the arena.
    pub fn span(&self, i: usize) -> (span: &ThreadSpan)
        requires
            i < self@.spans.len(),
        ensures
            span@ == self@.spans[i as int],
    {
        &self.spans[i]
    }

    /// The root span's place in the arena, once the first command is known.
    pub fn root(&self) -> (root: Option<usize>)
        ensures
            root == self@.root,
    {
        self.root
    }

    /// The span that stands for the live thread `tid`.
    pub fn lookup(&self, tid: i32) -> (found: Option<usize>)
        ensures
            found is Some <==> self@.knows(tid),
            found matches Some(i) ==> i == self@.active[tid],
    {
        match self.threads.get(&tid) {
            Some(i) => Some(*i),
            None => None,
        }
    }

    /// Whether no thread has been seen yet.
    pub fn is_empty(&self) -> (empty: bool)
        ensures
            empty <==> self@.spans.len() == 0,
    {
        self.spans.len() == 0
    }

    /// The latest time that the tracker has seen.
    pub fn clock(&self) -> (clock: u64)
        ensures
            clock == self@.clock,
    {
        self.clock
    }

    /// Whether per-thread scheduler statistics are on hand.
    pub fn have_schedstats(&self) -> (have: bool)
        ensures
            have == self@.have_schedstats,
    {
        self.have_schedstats
    }

    fn tick(&mut self, now: u64)
        ensures
            final(self)@ == old(self)@.ticked(now),
    {
        if now > self.clock {
            self.clock = now;
        }
    }

    /// The head of the parent chain of span `i`.
    fn chain_head(&self, i: usize) -> (head: usize)
        requires
            self@.valid(),
            i < self@.spans.len(),
        ensures
            head == self@.heads[i as int],
            head < self@.spans.len(),
    {
        let mut cur = i;
        loop
            invariant
                self@.valid(),
                cur < self@.spans.len(),
                self@.heads[cur as int] == self@.heads[i as int],
            decreases self@.levels[cur as int],
        {
            proof {
                assert(self@.span_ok(cur as int));
            }
            match self.spans[cur].parent {
                None => {
                    return cur;
                },
                Some(p) => {
                    cur = p;
                },
            }
        }
    }

    /// The span of thread `tid`, made now if the thread is not live.
    fn get_thread(&mut self, tid: i32) -> (idx: usize)
        requires
            old(self)@.knows(tid) || old(self)@.room_for(1),
            old(self)@.knows(tid) ==> old(self)@.active[tid] < old(self)@.spans.len(),
        ensures
            final(self)@ == old(self)@.with_span(tid),
            idx == final(self)@.active[tid],
            idx < final(self)@.spans.len(),
    {
        match self.threads.get(&tid) {
            Some(i) => *i,
            None => {
                let n = self.spans.len();
                self.spans.push(ThreadSpan::new(tid, n + 1, self.clock));
                self.threads.insert(tid, n);
                proof {
                    self.heads@ = self.heads@.push(n);
                    self.levels@ = self.levels@.push(0);
                    assert(self@.spans =~= old(self)@.with_new_span(tid).spans);
                }
                n
            },
        }
    }

    /// Hangs the head of `child`'s parent chain below `parent`.
    fn update_parent(&mut self, child: usize, parent: usize)
        requires
            old(self)@.valid(),
            child < old(self)@.spans.len(),
            parent < old(self)@.spans.len(),
        ensures
            final(self)@ == old(self)@.reparented(child, parent),
            final(self)@.spans.len() == old(self)@.spans.len(),
    {
        let head = self.chain_head(child);
        self.spans[head].parent = Some(parent);
        proof {
            let t = old(self)@;
            self.heads@ = t.reparented(child, parent).heads;
            self.levels@ = t.reparented(child, parent).levels;
            assert(self@.spans =~= t.reparented(child, parent).spans);
        }
    }

    fn set_init(&mut self, i: usize, init: ThreadInit)
        requires
            i < old(self)@.spans.len(),
        ensures
            final(self)@ == old(self)@.with_init(i, init@),
            final(self)@.spans.len() == old(self)@.spans.len(),
    {
        self.spans[i].init = init;
        assert(self@.spans =~= old(self)@.with_init(i, init@).spans);
    }

    fn add_child(&mut self, parent: usize, child: usize)
        requires
            parent < old(self)@.spans.len(),
        ensures
            final(self)@ == old(self)@.with_child(parent, child),
            final(self)@.spans.len() == old(self)@.spans.len(),
    {
        self.spans[parent].children.push(child);
        assert(self@.spans =~= old(self)@.with_child(parent, child).spans);
    }

    /// Whether a spawn of `tid` by `parent_tid` can be taken in.
    fn check_spawn(&self, tid: i32, parent_tid: i32) -> (result: Result<(), TrackerError>)
        requires
            self@.valid(),
        ensures
            result is Ok <==> !self@.spawn_rejected(tid, parent_tid) && self@.room_for(
                self@.spawn_growth(tid, parent_tid),
            ),
            result matches Err(e) ==> e != TrackerError::NoRoot && (e == TrackerError::Protocol
                <==> self@.spawn_rejected(tid, parent_tid)),
    {
        if tid == parent_tid {
            return Err(TrackerError::Protocol);
        }
        let known_parent = self.lookup(parent_tid);
        let known_child = self.lookup(tid);
        let mut growth: usize = 0;
        if known_parent.is_none() {
            growth = growth + 1;
        }
        match known_child {
            None => {
                growth = growth + 1;
            },
            Some(c) => {
                let head = self.chain_head(c);
                if self.root == Some(head) {
                    return Err(TrackerError::Protocol);
                }
                if let Some(p) = known_parent {
                    if self.chain_head(p) == head {
                        return Err(TrackerError::Protocol);
                    }
                }
            },
        }
        if self.spans.len() > usize::MAX - growth {
            return Err(TrackerError::Overflow);
        }
        Ok(())
    }

    /// Takes in that `parent_tid` has spawned `tid`, by a fork when
    /// `is_fork` holds and by a clone that shares the address space
    /// otherwise, at the time `now`.
    ///
    /// The event is turned down as `Protocol` exactly when
    /// `spawn_rejected` holds, else as `Overflow` when the new spans cannot
    /// be numbered; the tracker then stays as it was. Otherwise the tracker
    /// becomes what `spawned` says.
    pub fn handle_spawn(&mut self, tid: i32, parent_tid: i32, is_fork: bool, now: u64) -> (result:
        Result<(), TrackerError>)
        requires
            old(self)@.valid(),
        ensures
            final(self)@.valid(),
            result is Ok <==> !old(self)@.spawn_rejected(tid, parent_tid) && old(self)@.room_for(
                old(self)@.spawn_growth(tid, parent_tid),
            ),
            result is Ok ==> final(self)@ == old(self)@.spawned(tid, parent_tid, is_fork, now),
            result is Err ==> final(self)@ == old(self)@,
            result matches Err(e) ==> e != TrackerError::NoRoot && (e == TrackerError::Protocol
                <==> old(self)@.spawn_rejected(tid, parent_tid)),
            old(self)@.rooted() ==> final(self)@.rooted(),
    {
        match self.check_spawn(tid, parent_tid) {
            Err(e) => {
                return Err(e);
            },
            Ok(()) => {},
        }
        proof {
            lemma_spawned_valid(old(self)@, tid, parent_tid, is_fork, now);
            if old(self)@.rooted() {
                lemma_spawned_keeps_root(old(self)@, tid, parent_tid, is_fork, now);
            }
            lemma_ticked_valid(old(self)@, now);
            lemma_with_span_valid(old(self)@.ticked(now), parent_tid);
            lemma_with_span_valid(old(self)@.ticked(now).with_span(parent_tid), tid);
        }
        self.tick(now);
        let p = self.get_thread(parent_tid);
        let c = self.get_thread(tid);
        self.update_parent(c, p);
        self.set_init(
            c,
            if is_fork {
                ThreadInit::Forked
            } else {
                ThreadInit::Thread
            },
        );
        self.add_child(p, c);
        Ok(())
    }
}

impl ThreadTracker {
    /// Puts the thread's own CPU time, as its statistics file `proc_text`
    /// gives it, in place of the process-wide one in `usage`. A file that
    /// is missing, and so empty, or malformed gives zero.
    pub fn read_cpu_usage(&self, usage: &mut ResourceUsage, proc_text: &[u8])
        ensures
            *final(usage) == self@.measured(*old(usage), proc_text@),
    {
        usage.ucpu = if self.have_schedstats {
            parse_schedstat(proc_text)
        } else {
            parse_stat(proc_text, self.ticks_per_sec)
        };
        usage.kcpu = 0;
    }

    /// Takes in that an end of thread `tid` was reported at the time `now`:
    /// by the thread's exit event, or later by its reap. `proc_text` holds
    /// the thread's statistics file as far as it could be read.
    ///
    /// Fails with `Overflow`, leaving the tracker as it was, exactly when
    /// the thread is not live and its span cannot be numbered. Otherwise
    /// the tracker becomes what `finished` says, and the result is the
    /// span's place.
    pub fn finish_thread(&mut self, tid: i32, proc_end: ThreadEnd, now: u64, proc_text: &[u8]) -> (result:
        Result<usize, TrackerError>)
        requires
            old(self)@.valid(),
        ensures
            final(self)@.valid(),
            result is Ok <==> old(self)@.knows(tid) || old(self)@.room_for(1),
            result matches Ok(i) ==> final(self)@ == old(self)@.finished(
                tid,
                proc_end,
                now,
                proc_text@,
            ) && i == final(self)@.active[tid] && i < final(self)@.spans.len(),
            result matches Err(e) ==> e == TrackerError::Overflow && final(self)@ == old(self)@,
            old(self)@.rooted() ==> final(self)@.rooted(),
    {
        if self.lookup(tid).is_none() && self.spans.len() == usize::MAX {
            return Err(TrackerError::Overflow);
        }
        proof {
            lemma_finished_valid(old(self)@, tid, proc_end, now, proc_text@);
            lemma_ticked_valid(old(self)@, now);
            lemma_with_span_valid(old(self)@.ticked(now), tid);
        }
        self.tick(now);
        let i = self.get_thread(tid);
        let ghost t = self@;
        self.spans[i].end_time = self.clock;
        if self.spans[i].end_reason.is_none() {
            let mut usage = proc_end.usage;
            self.read_cpu_usage(&mut usage, proc_text);
            let initial = self.spans[i].usage;
            usage.sub(&initial);
            self.spans[i].usage = usage;
            self.spans[i].end_reason = Some(proc_end.reason);
        } else {
            let upgrade = match (proc_end.reason, self.spans[i].end_reason) {
                (ThreadEndReason::Signal(_), Some(ThreadEndReason::Signal(_))) => false,
                (ThreadEndReason::Signal(_), _) => true,
                _ => false,
            };
            if upgrade {
                self.spans[i].end_reason = Some(proc_end.reason);
            }
        }
        proof {
            let goal = old(self)@.finished(tid, proc_end, now, proc_text@);
            assert(self@.spans =~= goal.spans);
            assert(self@ == goal);
            if old(self)@.rooted() {
                lemma_finished_keeps_root(old(self)@, tid, proc_end, now, proc_text@);
            }
        }
        Ok(i)
    }

    fn forget(&mut self, tid: i32)
        ensures
            final(self)@ == old(self)@.without(tid),
    {
        self.threads.remove(&tid);
    }

    /// Adds the span of a command that thread `tid` begins now, starting
    /// from `usage`.
    fn push_command(
        &mut self,
        tid: i32,
        argv: Vec<String>,
        parent: Option<usize>,
        usage: ResourceUsage,
    ) -> (idx: usize)
        requires
            old(self)@.room_for(1),
        ensures
            final(self)@ == old(self)@.with_command(tid, argv.deep_view(), parent, usage),
            idx == old(self)@.spans.len(),
            final(self)@.spans.len() == old(self)@.spans.len() + 1,
    {
        let n = self.spans.len();
        let mut span = ThreadSpan::new(tid, n + 1, self.clock);
        span.init = ThreadInit::Exec(argv);
        span.parent = parent;
        span.usage = usage;
        self.spans.push(span);
        self.threads.insert(tid, n);
        proof {
            let t = old(self)@;
            let goal = t.with_command(tid, argv.deep_view(), parent, usage);
            self.heads@ = goal.heads;
            self.levels@ = goal.levels;
            assert(self@.spans =~= goal.spans);
        }
        n
    }

    fn set_root(&mut self, root: usize)
        ensures
            final(self)@ == (TrackerView { root: Some(root), ..old(self)@ }),
    {
        self.root = Some(root);
    }

    /// Takes in that thread `tid` has begun the command `argv` at the time
    /// `now`. `prev_tid` names the thread whose span the exec ends, with
    /// the usage of `end`; `proc_text` holds that thread's statistics file
    /// as far as it could be read. Without a `prev_tid` the command is the
    /// first one, the root of the tree.
    ///
    /// A first command must not be announced to a tracker that has its
    /// root: `root()` tells. The event is turned down as `Overflow`, and the
    /// tracker stays as it was, exactly when the new spans cannot be
    /// numbered. Otherwise the tracker becomes what `execed` says.
    pub fn handle_exec(
        &mut self,
        tid: i32,
        argv: Vec<String>,
        prev_tid: Option<i32>,
        end: ThreadEnd,
        now: u64,
        proc_text: &[u8],
    ) -> (result: Result<(), TrackerError>)
        requires
            old(self)@.valid(),
            !old(self)@.exec_rejected(prev_tid),
        ensures
            final(self)@.valid(),
            result is Ok <==> old(self)@.room_for(old(self)@.exec_growth(prev_tid)),
            result is Ok ==> final(self)@ == old(self)@.execed(
                tid,
                argv.deep_view(),
                prev_tid,
                end,
                now,
                proc_text@,
            ),
            result is Err ==> final(self)@ == old(self)@,
            result matches Err(e) ==> e == TrackerError::Overflow,
            old(self)@.rooted() ==> final(self)@.rooted(),
            result is Ok && prev_tid is None && old(self)@.spans.len() == 0 ==> final(self)@.rooted(),
    {
        proof {
            if old(self)@.room_for(old(self)@.exec_growth(prev_tid)) {
                lemma_execed_valid(old(self)@, tid, argv.deep_view(), prev_tid, end, now, proc_text@);
                lemma_execed_keeps_root(
                    old(self)@,
                    tid,
                    argv.deep_view(),
                    prev_tid,
                    end,
                    now,
                    proc_text@,
                );
            }
        }
        match prev_tid {
            Some(prev) => {
                let growth: usize = if self.lookup(prev).is_none() {
                    2
                } else {
                    1
                };
                if self.spans.len() > usize::MAX - growth {
                    return Err(TrackerError::Overflow);
                }
                let exec_end = ThreadEnd { usage: end.usage, reason: ThreadEndReason::Exec };
                proof {
                    lemma_finished_valid(old(self)@, prev, exec_end, now, proc_text@);
                }
                let p = match self.finish_thread(prev, exec_end, now, proc_text) {
                    Ok(p) => p,
                    Err(e) => {
                        return Err(e);
                    },
                };
                self.forget(prev);
                let mut start = end.usage;
                self.read_cpu_usage(&mut start, proc_text);
                let n = self.push_command(tid, argv, Some(p), start);
                self.add_child(p, n);
                Ok(())
            },
            None => {
                if self.spans.len() == usize::MAX {
                    return Err(TrackerError::Overflow);
                }
                self.tick(now);
                let n = self.push_command(tid, argv, None, ResourceUsage::new());
                self.set_root(n);
                Ok(())
            },
        }
    }
}

impl ThreadTracker {
    /// The roll-up of span `i`, noted in `table` for it and for every span
    /// below it. What the table holds already is not worked out again.
    fn aggregate(&self, i: usize, table: &mut Vec<Option<Aggregate>>) -> (result: Result<
        Aggregate,
        Overflow,
    >)
        requires
            self@.valid(),
            i < self@.spans.len(),
            table_sound(self@, old(table)@),
            table_closed(self@, old(table)@),
        ensures
            table_sound(self@, final(table)@),
            table_closed(self@, final(table)@),
            result is Ok <==> self@.compiled(i as int) is Some,
            result matches Ok(a) ==> self@.compiled(i as int) == Some(a),
            result is Ok ==> forall|x: int|
                0 <= x < self@.spans.len() ==> ((#[trigger] final(table)@[x]) is Some <==> old(
                    table,
                )@[x] is Some || self@.reaches(i as int, x)),
        decreases self@.spans.len() - self@.levels[i as int],
    {
        let ghost t = self@;
        if let Some(known) = table[i] {
            assert forall|x: int| 0 <= x < t.spans.len() implies ((#[trigger] table@[x]) is Some
                <==> old(table)@[x] is Some || t.reaches(i as int, x)) by {
                if t.reaches(i as int, x) {
                    assert(table@[i as int] is Some);
                }
            }
            return Ok(known);
        }
        let own = self.spans[i].usage;
        let mut acc = Aggregate {
            usage: own,
            tree_usage: ResourceUsage { threads: 1, ..own },
            end_time: self.spans[i].end_time,
        };
        let count = self.spans[i].children.len();
        let mut k: usize = 0;
        while k < count
            invariant
                self@ == t,
                t.valid(),
                i < t.spans.len(),
                count == t.spans[i as int].children.len(),
                k <= count,
                table_sound(t, table@),
                table_closed(t, table@),
                t.folded(i as int, k as nat) == Some(acc),
                forall|x: int|
                    0 <= x < t.spans.len() ==> ((#[trigger] table@[x]) is Some <==> old(table)@[x] is Some
                        || t.reaches_by(i as int, k as nat, x)),
            decreases count - k,
        {
            let child = self.spans[i].children[k];
            proof {
                assert(t.span_ok(i as int));
                assert(t.child_ok(i as int, child));
                lemma_level_bound(t, child as int);
            }
            let rolled = match self.aggregate(child, table) {
                Ok(rolled) => rolled,
                Err(e) => {
                    proof {
                        lemma_folded_none(t, i as int, (k + 1) as nat, count as nat);
                    }
                    return Err(e);
                },
            };
            let same_command = match self.spans[child].init {
                ThreadInit::Forked => true,
                ThreadInit::Thread => true,
                _ => false,
            };
            let mut fits = acc.tree_usage.add_self_metrics(&rolled.tree_usage).is_ok();
            if fits && same_command {
                fits = acc.usage.add_self_metrics(&rolled.usage).is_ok();
            }
            if !fits {
                proof {
                    lemma_folded_none(t, i as int, (k + 1) as nat, count as nat);
                }
                return Err(Overflow);
            }
            if rolled.end_time > acc.end_time {
                acc.end_time = rolled.end_time;
            }
            k = k + 1;
        }
        let ghost before = table@;
        table.set(i, Some(acc));
        proof {
            assert forall|x: int, y: int|
                0 <= x < t.spans.len() && 0 <= y < t.spans.len() && (#[trigger] table@[x]) is Some
                    && #[trigger] t.reaches(x, y) implies table@[y] is Some by {
                if x == i {
                    if y != i {
                        assert(t.reaches_by(i as int, count as nat, y));
                        assert(before[y] is Some);
                    }
                } else {
                    assert(before[x] is Some);
                    assert(before[y] is Some);
                }
            }
        }
        Ok(acc)
    }

    fn set_rollup(&mut self, x: usize, a: Aggregate)
        requires
            x < old(self)@.spans.len(),
        ensures
            final(self)@ == (TrackerView {
                spans: old(self)@.spans.update(
                    x as int,
                    SpanView {
                        usage: a.usage,
                        tree_usage: a.tree_usage,
                        end_time: a.end_time,
                        ..old(self)@.spans[x as int]
                    },
                ),
                ..old(self)@
            }),
    {
        self.spans[x].usage = a.usage;
        self.spans[x].tree_usage = a.tree_usage;
        self.spans[x].end_time = a.end_time;
        assert(self@.spans =~= old(self)@.spans.update(
            x as int,
            SpanView {
                usage: a.usage,
                tree_usage: a.tree_usage,
                end_time: a.end_time,
                ..old(self)@.spans[x as int]
            },
        ));
    }

    /// Rolls up the tree of span `i`: every span at or below `i` gets its
    /// tree usage, the usage of its command, and the end time of its tree.
    ///
    /// Fails, leaving the tracker as it was, exactly when a sum does not
    /// fit. Otherwise the tracker becomes what `compiled_tree` says.
    pub fn compile_tree(&mut self, i: usize) -> (result: Result<(), TrackerError>)
        requires
            old(self)@.valid(),
            i < old(self)@.spans.len(),
        ensures
            final(self)@.valid(),
            result is Ok <==> old(self)@.compiled(i as int) is Some,
            result is Ok ==> final(self)@ == old(self)@.compiled_tree(i as int),
            result matches Err(e) ==> e == TrackerError::Overflow && final(self)@ == old(self)@,
            old(self)@.rooted() ==> final(self)@.rooted(),
    {
        let ghost t = self@;
        let n = self.spans.len();
        let mut table: Vec<Option<Aggregate>> = Vec::new();
        while table.len() < n
            invariant
                table@.len() <= n,
                forall|x: int| 0 <= x < table@.len() ==> (#[trigger] table@[x]) is None,
            decreases n - table@.len(),
        {
            table.push(None);
        }
        assert(table_sound(t, table@));
        assert(table_closed(t, table@));
        if self.aggregate(i, &mut table).is_err() {
            return Err(TrackerError::Overflow);
        }
        let mut x: usize = 0;
        while x < n
            invariant
                x <= n,
                n == t.spans.len(),
                table@.len() == n,
                t.valid(),
                self@.spans.len() == n,
                self@ == (TrackerView { spans: self@.spans, ..t }),
                forall|y: int|
                    0 <= y < n ==> ((#[trigger] table@[y]) matches Some(a) ==> t.compiled(y) == Some(
                        a,
                    )),
                forall|y: int| 0 <= y < n ==> ((#[trigger] table@[y]) is Some <==> t.reaches(i as int, y)),
                forall|y: int| 0 <= y < x ==> #[trigger] self@.spans[y] == t.compiled_tree(i as int).spans[y],
                forall|y: int| x <= y < n ==> #[trigger] self@.spans[y] == t.spans[y],
            decreases n - x,
        {
            if let Some(a) = table[x] {
                self.set_rollup(x, a);
            }
            x = x + 1;
        }
        proof {
            assert(self@.spans =~= t.compiled_tree(i as int).spans);
            lemma_compiled_tree_valid(t, i as int);
        }
        Ok(())
    }
}

} // verus!
