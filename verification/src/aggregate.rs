//! What a span and all below it used together: the roll-up that is made
//! once, when the tree is complete.

use vstd::prelude::*;
use vstd::set_lib::*;
use crate::span::{InitView, SpanView};
use crate::model::TrackerView;
use crate::usage::{larger, ResourceUsage};

verus! {

/// The roll-up of one span.
#[derive(Clone, Copy, Debug)]
pub struct Aggregate {
    /// What the span's command used in this span and in the spans below it
    /// that run the same command: those that began by a fork or a clone.
    pub usage: ResourceUsage,
    /// What the span and every span below it used.
    pub tree_usage: ResourceUsage,
    /// When the last span at or below this one ended.
    pub end_time: u64,
}

impl TrackerView {
    /// The spans on the parent chain of `i`, `i` among them.
    pub open spec fn chain(self, i: int) -> Set<int>
        decreases self.levels[i],
    {
        if 0 <= i < self.spans.len() && self.span_ok(i) {
            match self.spans[i].parent {
                Some(p) => self.chain(p as int).insert(i),
                None => set![i],
            }
        } else {
            set![i]
        }
    }

    /// The roll-up of span `i` before any child is merged in: its own
    /// usage, and as a tree one thread with that usage.
    pub open spec fn own_aggregate(self, i: int) -> Aggregate {
        let s = self.spans[i];
        Aggregate {
            usage: s.usage,
            tree_usage: ResourceUsage { threads: 1, ..s.usage },
            end_time: s.end_time,
        }
    }

    /// A roll-up with that of one more child merged in; `None` when a sum
    /// does not fit. The tree always takes in the child's tree. The
    /// command's own usage takes in that of a child that began by a fork or
    /// a clone, for such a child runs the same command.
    pub open spec fn merged(acc: Aggregate, child: Aggregate, kind: InitView) -> Option<Aggregate> {
        let same_command = kind is Forked || kind is Thread;
        if !acc.tree_usage.self_metrics_fit(child.tree_usage) {
            None
        } else if same_command && !acc.usage.self_metrics_fit(child.usage) {
            None
        } else {
            Some(
                Aggregate {
                    usage: if same_command {
                        acc.usage.with_self_metrics(child.usage)
                    } else {
                        acc.usage
                    },
                    tree_usage: acc.tree_usage.with_self_metrics(child.tree_usage),
                    end_time: larger(acc.end_time, child.end_time),
                },
            )
        }
    }

    /// The roll-up of span `i` with all its children merged in; `None`
    /// when a sum at or below `i` does not fit.
    pub open spec fn compiled(self, i: int) -> Option<Aggregate>
        decreases self.spans.len() - self.levels[i], self.spans[i].children.len() + 1,
        when self.valid() && 0 <= i < self.spans.len()
    {
        self.folded(i, self.spans[i].children.len())
    }

    /// The roll-up of span `i` with its first `k` children merged in.
    pub open spec fn folded(self, i: int, k: nat) -> Option<Aggregate>
        decreases self.spans.len() - self.levels[i], k,
        when self.valid() && 0 <= i < self.spans.len() && k <= self.spans[i].children.len()
    {
        if k == 0 {
            Some(self.own_aggregate(i))
        } else {
            let c = self.spans[i].children[k - 1];
            proof {
                assert(self.span_ok(i));
                assert(self.child_ok(i, c));
                lemma_level_bound(self, c as int);
            }
            match self.folded(i, (k - 1) as nat) {
                Some(acc) => match self.compiled(c as int) {
                    Some(child) => Self::merged(acc, child, self.spans[c as int].init),
                    None => None,
                },
                None => None,
            }
        }
    }

    /// Whether `x` is span `i` or lies below it by child links.
    pub open spec fn reaches(self, i: int, x: int) -> bool
        decreases self.spans.len() - self.levels[i], self.spans[i].children.len() + 1,
        when self.valid() && 0 <= i < self.spans.len()
    {
        x == i || self.reaches_by(i, self.spans[i].children.len(), x)
    }

    /// Whether `x` is one of the first `k` children of span `i` or lies
    /// below one of them.
    pub open spec fn reaches_by(self, i: int, k: nat, x: int) -> bool
        decreases self.spans.len() - self.levels[i], k,
        when self.valid() && 0 <= i < self.spans.len() && k <= self.spans[i].children.len()
    {
        if k == 0 {
            false
        } else {
            let c = self.spans[i].children[k - 1];
            proof {
                assert(self.span_ok(i));
                assert(self.child_ok(i, c));
                lemma_level_bound(self, c as int);
            }
            self.reaches_by(i, (k - 1) as nat, x) || self.reaches(c as int, x)
        }
    }

    /// Span `x` with its roll-up written into it.
    pub open spec fn compiled_span(self, x: int) -> SpanView {
        let a = self.compiled(x)->0;
        SpanView {
            usage: a.usage,
            tree_usage: a.tree_usage,
            end_time: a.end_time,
            ..self.spans[x]
        }
    }

    /// The tracker after the tree of span `i` has been rolled up: every
    /// span at or below `i` holds its roll-up, the others are as they were.
    pub open spec fn compiled_tree(self, i: int) -> TrackerView {
        TrackerView {
            spans: Seq::new(
                self.spans.len(),
                |x: int|
                    if self.reaches(i, x) {
                        self.compiled_span(x)
                    } else {
                        self.spans[x]
                    },
            ),
            ..self
        }
    }
}

/// Whether all roll-ups noted in `table` are right.
pub open spec fn table_sound(t: TrackerView, table: Seq<Option<Aggregate>>) -> bool {
    &&& table.len() == t.spans.len()
    &&& forall|x: int|
        0 <= x < t.spans.len() ==> ((#[trigger] table[x]) matches Some(a) ==> t.compiled(x)
            == Some(a))
}

/// Whether `table` holds, with the roll-up of a span, the roll-up of every
/// span below it.
pub open spec fn table_closed(t: TrackerView, table: Seq<Option<Aggregate>>) -> bool {
    forall|x: int, y: int|
        0 <= x < t.spans.len() && 0 <= y < t.spans.len() && (#[trigger] table[x]) is Some
            && #[trigger] t.reaches(x, y) ==> table[y] is Some
}

/// The parent chain of a span holds one span for each level up to its own.
pub proof fn lemma_chain(t: TrackerView, i: int)
    requires
        t.valid(),
        0 <= i < t.spans.len(),
    ensures
        t.chain(i).finite(),
        t.chain(i).len() == t.levels[i] + 1,
        forall|x: int| #[trigger]
            t.chain(i).contains(x) ==> 0 <= x < t.spans.len() && t.levels[x] <= t.levels[i],
    decreases t.levels[i],
{
    assert(t.span_ok(i));
    match t.spans[i].parent {
        Some(p) => {
            lemma_chain(t, p as int);
            assert(!t.chain(p as int).contains(i));
        },
        None => {},
    }
}

/// No span lies as deep as there are spans.
pub proof fn lemma_level_bound(t: TrackerView, i: int)
    requires
        t.valid(),
        0 <= i < t.spans.len(),
    ensures
        t.levels[i] < t.spans.len(),
{
    lemma_chain(t, i);
    let all = set_int_range(0, t.spans.len() as int);
    lemma_int_range(0, t.spans.len() as int);
    assert(t.chain(i).subset_of(all));
    lemma_len_subset(t.chain(i), all);
}

/// Once a sum has failed to fit, merging in more children does not mend
/// it.
pub proof fn lemma_folded_none(t: TrackerView, i: int, k: nat, m: nat)
    requires
        t.valid(),
        0 <= i < t.spans.len(),
        k <= m <= t.spans[i].children.len(),
        t.folded(i, k) is None,
    ensures
        t.folded(i, m) is None,
    decreases m,
{
    if k < m {
        lemma_folded_none(t, i, k, (m - 1) as nat);
    }
}

/// Where the roll-up of a span succeeds, so does that of each of its
/// children, and so does every step of merging them.
pub proof fn lemma_folded_some(t: TrackerView, i: int, k: nat)
    requires
        t.valid(),
        0 <= i < t.spans.len(),
        k <= t.spans[i].children.len(),
        t.compiled(i) is Some,
    ensures
        t.folded(i, k) is Some,
        forall|j: int| 0 <= j < k ==> t.compiled(#[trigger] t.spans[i].children[j] as int) is Some,
    decreases k,
{
    if t.folded(i, k) is None {
        lemma_folded_none(t, i, k, t.spans[i].children.len());
    }
    if k > 0 {
        lemma_folded_some(t, i, (k - 1) as nat);
        let last = t.spans[i].children[k - 1];
        assert(t.span_ok(i));
        assert(t.child_ok(i, last));
        assert(t.compiled(last as int) is Some);
        assert forall|j: int| 0 <= j < k implies t.compiled(
            #[trigger] t.spans[i].children[j] as int,
        ) is Some by {
            if j == k - 1 {
            } else {
                assert(0 <= j < k - 1);
            }
        }
    }
}

/// Where the roll-up of a span succeeds, so does that of every span at or
/// below it.
pub proof fn lemma_reaches_compiled(t: TrackerView, i: int, x: int)
    requires
        t.valid(),
        0 <= i < t.spans.len(),
        t.compiled(i) is Some,
        t.reaches(i, x),
    ensures
        0 <= x < t.spans.len(),
        t.compiled(x) is Some,
    decreases t.spans.len() - t.levels[i], t.spans[i].children.len() + 1,
{
    if x != i {
        lemma_reaches_by_compiled(t, i, t.spans[i].children.len(), x);
    }
}

/// As `lemma_reaches_compiled`, for what lies below the first `k` children.
pub proof fn lemma_reaches_by_compiled(t: TrackerView, i: int, k: nat, x: int)
    requires
        t.valid(),
        0 <= i < t.spans.len(),
        k <= t.spans[i].children.len(),
        t.compiled(i) is Some,
        t.reaches_by(i, k, x),
    ensures
        0 <= x < t.spans.len(),
        t.compiled(x) is Some,
    decreases t.spans.len() - t.levels[i], k,
{
    let c = t.spans[i].children[k - 1];
    assert(t.span_ok(i));
    assert(t.child_ok(i, c));
    lemma_level_bound(t, c as int);
    if t.reaches(c as int, x) {
        lemma_folded_some(t, i, k);
        lemma_reaches_compiled(t, c as int, x);
    } else {
        lemma_reaches_by_compiled(t, i, (k - 1) as nat, x);
    }
}

/// A span's roll-up ends no earlier than the span and no later than the
/// clock, and its tree used at least the CPU time that its command used.
pub proof fn lemma_compiled_bounds(t: TrackerView, i: int)
    requires
        t.valid(),
        0 <= i < t.spans.len(),
    ensures
        t.compiled(i) matches Some(a) ==> t.spans[i].end_time <= a.end_time <= t.clock
            && a.usage.ucpu <= a.tree_usage.ucpu && a.usage.kcpu <= a.tree_usage.kcpu,
    decreases t.spans.len() - t.levels[i], t.spans[i].children.len() + 1,
{
    lemma_folded_bounds(t, i, t.spans[i].children.len());
}

/// As `lemma_compiled_bounds`, after the first `k` children.
pub proof fn lemma_folded_bounds(t: TrackerView, i: int, k: nat)
    requires
        t.valid(),
        0 <= i < t.spans.len(),
        k <= t.spans[i].children.len(),
    ensures
        t.folded(i, k) matches Some(a) ==> t.spans[i].end_time <= a.end_time <= t.clock
            && a.usage.ucpu <= a.tree_usage.ucpu && a.usage.kcpu <= a.tree_usage.kcpu,
    decreases t.spans.len() - t.levels[i], k,
{
    assert(t.span_ok(i));
    if k > 0 {
        let c = t.spans[i].children[k - 1];
        assert(t.child_ok(i, c));
        lemma_level_bound(t, c as int);
        lemma_folded_bounds(t, i, (k - 1) as nat);
        lemma_compiled_bounds(t, c as int);
    }
}

/// The tree of a span ends no earlier than the tree of any of its
/// children.
pub proof fn law_tree_end_covers_children(t: TrackerView, i: int, j: int)
    requires
        t.valid(),
        0 <= i < t.spans.len(),
        0 <= j < t.spans[i].children.len(),
        t.compiled(i) is Some,
    ensures
        t.compiled(t.spans[i].children[j] as int) matches Some(child) && child.end_time
            <= t.compiled(i)->0.end_time,
{
    lemma_folded_end(t, i, t.spans[i].children.len(), j);
}

/// As `law_tree_end_covers_children`, after the first `k` children.
proof fn lemma_folded_end(t: TrackerView, i: int, k: nat, j: int)
    requires
        t.valid(),
        0 <= i < t.spans.len(),
        0 <= j < k <= t.spans[i].children.len(),
        t.compiled(i) is Some,
    ensures
        t.folded(i, k) matches Some(a) && t.compiled(t.spans[i].children[j] as int) matches Some(
            child,
        ) && child.end_time <= a.end_time,
    decreases k,
{
    lemma_folded_some(t, i, k);
    lemma_folded_some(t, i, (k - 1) as nat);
    let last = t.spans[i].children[k - 1];
    assert(t.span_ok(i));
    assert(t.child_ok(i, last));
    if j < k - 1 {
        lemma_folded_end(t, i, (k - 1) as nat, j);
    }
}

/// Rolling up a tree keeps the tracker valid and the root invariant.
pub proof fn lemma_compiled_tree_valid(t: TrackerView, i: int)
    requires
        t.valid(),
        0 <= i < t.spans.len(),
        t.compiled(i) is Some,
    ensures
        t.compiled_tree(i).valid(),
        t.rooted() ==> t.compiled_tree(i).rooted(),
{
    let r = t.compiled_tree(i);
    assert forall|x: int| 0 <= x < r.spans.len() implies #[trigger] r.span_ok(x) by {
        assert(t.span_ok(x));
        assert(t.span_ok(t.heads[x] as int));
        if t.reaches(i, x) {
            lemma_reaches_compiled(t, i, x);
            lemma_compiled_bounds(t, x);
        }
        assert forall|k: int| 0 <= k < r.spans[x].children.len() implies r.child_ok(
            x,
            #[trigger] r.spans[x].children[k],
        ) by {
            assert(t.child_ok(x, t.spans[x].children[k]));
        }
    }
    assert forall|tid: i32| #[trigger] r.active.contains_key(tid) implies r.active[tid]
        < r.spans.len() && r.spans[r.active[tid] as int].tid == tid by {
        assert(t.active.contains_key(tid));
    }
    if t.rooted() {
        assert forall|x: int| 0 < x < r.spans.len() implies !((#[trigger] r.spans[x]).init is Exec
            && r.spans[x].parent is None) by {
            assert(!(t.spans[x].init is Exec && t.spans[x].parent is None));
        }
    }
}

} // verus!
