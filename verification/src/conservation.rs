//! Nothing is lost and nothing is counted twice: the CPU time of a tree is
//! the CPU time of its commands.

use vstd::prelude::*;
use crate::aggregate::{lemma_folded_some, lemma_level_bound};
use crate::command::{
    lemma_created, lemma_gathered, new_command, span_argv, with_last_marked, CommandView,
};
use crate::groups::{group_place, groups_with, GroupView};
use crate::names::command_name;
use crate::span::SpanView;
use crate::model::TrackerView;

verus! {

impl TrackerView {
    /// The CPU time that span `i` and all below it used, in nanoseconds.
    pub open spec fn tree_cpu(self, i: int) -> nat {
        match self.compiled(i) {
            Some(a) => a.tree_usage.cpu_spec(),
            None => 0,
        }
    }

    /// The CPU time that the command of span `i` used itself, in
    /// nanoseconds: in span `i` and in the spans below it that run the same
    /// command.
    pub open spec fn self_cpu(self, i: int) -> nat {
        match self.compiled(i) {
            Some(a) => a.usage.cpu_spec(),
            None => 0,
        }
    }

    /// The CPU time of the trees of the commands that lie next below the
    /// first `k` children of span `span`, taken together.
    pub open spec fn commands_cpu(self, span: int, k: nat) -> nat
        decreases self.spans.len() - self.levels[span], k,
        when self.valid() && 0 <= span < self.spans.len() && k <= self.spans[span].children.len()
    {
        if k == 0 {
            0
        } else {
            let c = self.spans[span].children[k - 1];
            proof {
                assert(self.span_ok(span));
                assert(self.child_ok(span, c));
                lemma_level_bound(self, c as int);
            }
            self.commands_cpu(span, (k - 1) as nat) + if self.spans[c as int].init is Exec {
                self.tree_cpu(c as int)
            } else {
                self.commands_cpu(c as int, self.spans[c as int].children.len())
            }
        }
    }

    /// The CPU time of the trees of those among the first `k` children of
    /// span `span` that began by an exec, taken together.
    pub open spec fn exec_children_cpu(self, span: int, k: nat) -> nat
        decreases k,
    {
        if k == 0 {
            0
        } else {
            let c = self.spans[span].children[k - 1];
            self.exec_children_cpu(span, (k - 1) as nat) + if self.spans[c as int].init is Exec {
                self.tree_cpu(c as int)
            } else {
                0
            }
        }
    }

    /// What the commands of those among the first `k` children of span
    /// `span` that began by a fork or a clone used themselves, taken
    /// together.
    pub open spec fn plain_children_cpu(self, span: int, k: nat) -> nat
        decreases k,
    {
        if k == 0 {
            0
        } else {
            let c = self.spans[span].children[k - 1];
            let kind = self.spans[c as int].init;
            self.plain_children_cpu(span, (k - 1) as nat) + if kind is Forked || kind is Thread {
                self.self_cpu(c as int)
            } else {
                0
            }
        }
    }

    /// Whether each child of span `span` that did not begin by an exec is
    /// without children of its own.
    pub open spec fn plain_children_are_leaves(self, span: int) -> bool {
        forall|k: int|
            0 <= k < self.spans[span].children.len() ==> {
                let c = #[trigger] self.spans[span].children[k];
                self.spans[c as int].init is Exec || self.spans[c as int].children.len() == 0
            }
    }
}

/// The self CPU time of the commands at the places `from` up to `to` of a
/// command list, taken together.
pub open spec fn leads_cpu(t: TrackerView, cmds: Seq<CommandView>, from: int, to: int) -> nat
    decreases to - from,
{
    if to <= from {
        0
    } else {
        leads_cpu(t, cmds, from, to - 1) + t.self_cpu(cmds[to - 1].lead as int)
    }
}

/// A tree used at least the CPU time that its command used itself, and
/// what it used beyond that is what the commands next below used as
/// trees: the spans that began by an exec and are reached through spans
/// that began by a fork or a clone only. This holds wherever the roll-up
/// succeeds, that is, wherever no sum leaves its range.
pub proof fn law_tree_cpu(t: TrackerView, i: int)
    requires
        t.valid(),
        0 <= i < t.spans.len(),
        t.compiled(i) is Some,
    ensures
        t.tree_cpu(i) >= t.self_cpu(i),
        t.tree_cpu(i) == t.self_cpu(i) + t.commands_cpu(i, t.spans[i].children.len()),
    decreases t.spans.len() - t.levels[i], t.spans[i].children.len() + 1,
{
    lemma_folded_cpu(t, i, t.spans[i].children.len());
}

/// As `law_tree_cpu`, after the first `k` children have been merged in.
pub proof fn lemma_folded_cpu(t: TrackerView, i: int, k: nat)
    requires
        t.valid(),
        0 <= i < t.spans.len(),
        k <= t.spans[i].children.len(),
        t.compiled(i) is Some,
    ensures
        t.folded(i, k) matches Some(a) && a.tree_usage.cpu_spec() == a.usage.cpu_spec()
            + t.commands_cpu(i, k),
    decreases t.spans.len() - t.levels[i], k,
{
    lemma_folded_some(t, i, k);
    if k > 0 {
        let c = t.spans[i].children[k - 1];
        assert(t.span_ok(i));
        assert(t.child_ok(i, c));
        lemma_level_bound(t, c as int);
        lemma_folded_cpu(t, i, (k - 1) as nat);
        assert(t.compiled(c as int) is Some);
        law_tree_cpu(t, c as int);
    }
}

/// What a command used itself is what its span used and what the commands
/// of the children that began by a fork or a clone used themselves. A child
/// that began by an exec adds nothing to it. This holds wherever the
/// roll-up succeeds, that is, wherever no sum leaves its range.
pub proof fn law_self_cpu(t: TrackerView, i: int)
    requires
        t.valid(),
        0 <= i < t.spans.len(),
        t.compiled(i) is Some,
    ensures
        t.self_cpu(i) == t.spans[i].usage.cpu_spec() + t.plain_children_cpu(
            i,
            t.spans[i].children.len(),
        ),
{
    lemma_folded_self_cpu(t, i, t.spans[i].children.len());
}

/// As `law_self_cpu`, after the first `k` children have been merged in.
proof fn lemma_folded_self_cpu(t: TrackerView, i: int, k: nat)
    requires
        t.valid(),
        0 <= i < t.spans.len(),
        k <= t.spans[i].children.len(),
        t.compiled(i) is Some,
    ensures
        t.folded(i, k) matches Some(a) && a.usage.cpu_spec() == t.spans[i].usage.cpu_spec()
            + t.plain_children_cpu(i, k),
    decreases k,
{
    lemma_folded_some(t, i, k);
    if k > 0 {
        let c = t.spans[i].children[k - 1];
        assert(t.span_ok(i));
        assert(t.child_ok(i, c));
        lemma_folded_self_cpu(t, i, (k - 1) as nat);
        assert(t.compiled(c as int) is Some);
    }
}

/// Where the children of a span that did not begin by an exec have no
/// children of their own, the tree of the span used what its command used
/// itself and what the children that began by an exec used as trees.
pub proof fn law_tree_cpu_over_exec_children(t: TrackerView, i: int)
    requires
        t.valid(),
        0 <= i < t.spans.len(),
        t.compiled(i) is Some,
        t.plain_children_are_leaves(i),
    ensures
        t.tree_cpu(i) == t.self_cpu(i) + t.exec_children_cpu(i, t.spans[i].children.len()),
{
    law_tree_cpu(t, i);
    lemma_exec_children_cpu(t, i, t.spans[i].children.len());
}

proof fn lemma_exec_children_cpu(t: TrackerView, i: int, k: nat)
    requires
        t.valid(),
        0 <= i < t.spans.len(),
        k <= t.spans[i].children.len(),
        t.plain_children_are_leaves(i),
    ensures
        t.commands_cpu(i, k) == t.exec_children_cpu(i, k),
    decreases k,
{
    if k > 0 {
        lemma_exec_children_cpu(t, i, (k - 1) as nat);
        let c = t.spans[i].children[k - 1];
        assert(t.span_ok(i));
        assert(t.child_ok(i, c));
        if !(t.spans[c as int].init is Exec) {
            assert(t.spans[c as int].children.len() == 0);
            assert(t.commands_cpu(c as int, 0) == 0);
        }
    }
}

/// The sum over a range of places is the sum over its two parts.
proof fn lemma_leads_cpu_split(t: TrackerView, cmds: Seq<CommandView>, from: int, mid: int, to: int)
    requires
        from <= mid <= to,
    ensures
        leads_cpu(t, cmds, from, to) == leads_cpu(t, cmds, from, mid) + leads_cpu(t, cmds, mid, to),
    decreases to - mid,
{
    if mid < to {
        lemma_leads_cpu_split(t, cmds, from, mid, to - 1);
    }
}

/// The sum over a range of places depends on the leads at those places
/// only.
proof fn lemma_leads_cpu_same(
    t: TrackerView,
    a: Seq<CommandView>,
    b: Seq<CommandView>,
    from: int,
    to: int,
)
    requires
        0 <= from,
        to <= a.len(),
        to <= b.len(),
        forall|j: int| from <= j < to ==> (#[trigger] a[j]).lead == b[j].lead,
    ensures
        leads_cpu(t, a, from, to) == leads_cpu(t, b, from, to),
    decreases to - from,
{
    if from < to {
        lemma_leads_cpu_same(t, a, b, from, to - 1);
        assert(a[to - 1].lead == b[to - 1].lead);
    }
}

/// The commands that `created` appends used themselves, taken together,
/// what the tree of their lead used.
proof fn lemma_created_cpu(
    t: TrackerView,
    lead: int,
    cmds: Seq<CommandView>,
    depth: nat,
    parent: Option<usize>,
)
    requires
        t.valid(),
        0 <= lead < t.spans.len(),
        depth <= t.levels[lead],
        parent matches Some(p) ==> p < cmds.len(),
        t.compiled(lead) is Some,
        t.created(lead, cmds, depth, parent).len() <= usize::MAX,
    ensures
        leads_cpu(
            t,
            t.created(lead, cmds, depth, parent),
            cmds.len() as int,
            t.created(lead, cmds, depth, parent).len() as int,
        ) == t.tree_cpu(lead),
    decreases t.spans.len() - t.levels[lead], t.spans[lead].children.len() + 1,
{
    let place = cmds.len() as int;
    let own = new_command(place, lead, depth, parent);
    let count = t.spans[lead].children.len();
    lemma_level_bound(t, lead);
    let g = t.gathered(lead, count, cmds.push(own), depth + 1, place as usize);
    let r = t.created(lead, cmds, depth, parent);
    lemma_gathered(t, lead, count, cmds.push(own), depth + 1, place as usize);
    assert(r == with_last_marked(g.0, g.1).update(place, CommandView { children: g.1, ..own }));
    assert(r.len() == g.0.len());
    lemma_gathered_cpu(t, lead, count, cmds.push(own), depth + 1, place as usize);
    law_tree_cpu(t, lead);
    assert(g.0[place] == cmds.push(own)[place]);
    assert forall|j: int| place <= j < r.len() implies (#[trigger] r[j]).lead == g.0[j].lead by {
        if g.1.len() > 0 {
            assert(place + 1 <= g.1[g.1.len() - 1] < g.0.len());
        }
    }
    lemma_leads_cpu_same(t, r, g.0, place, r.len() as int);
    lemma_leads_cpu_split(t, g.0, place, place + 1, g.0.len() as int);
    assert(leads_cpu(t, g.0, place, place + 1) == leads_cpu(t, g.0, place, place) + t.self_cpu(
        g.0[place].lead as int,
    ));
}

/// The commands that `gathered` appends used themselves, taken together,
/// what the commands next below used as trees.
proof fn lemma_gathered_cpu(
    t: TrackerView,
    span: int,
    k: nat,
    cmds: Seq<CommandView>,
    depth: nat,
    owner: usize,
)
    requires
        t.valid(),
        0 <= span < t.spans.len(),
        k <= t.spans[span].children.len(),
        depth <= t.levels[span] + 1,
        owner < cmds.len(),
        t.compiled(span) is Some,
        t.gathered(span, k, cmds, depth, owner).0.len() <= usize::MAX,
    ensures
        leads_cpu(
            t,
            t.gathered(span, k, cmds, depth, owner).0,
            cmds.len() as int,
            t.gathered(span, k, cmds, depth, owner).0.len() as int,
        ) == t.commands_cpu(span, k),
    decreases t.spans.len() - t.levels[span], k,
{
    if k > 0 {
        let (before, kids) = t.gathered(span, (k - 1) as nat, cmds, depth, owner);
        let c = t.spans[span].children[k - 1];
        assert(t.span_ok(span));
        assert(t.child_ok(span, c));
        lemma_level_bound(t, c as int);
        lemma_folded_some(t, span, k);
        assert(t.compiled(c as int) is Some);
        let r = t.gathered(span, k, cmds, depth, owner).0;
        lemma_gathered(t, span, (k - 1) as nat, cmds, depth, owner);
        if t.spans[c as int].init is Exec {
            assert(r == t.created(c as int, before, depth, Some(owner)));
            lemma_created(t, c as int, before, depth, Some(owner));
            lemma_created_cpu(t, c as int, before, depth, Some(owner));
        } else {
            let sub = t.gathered(c as int, t.spans[c as int].children.len(), before, depth, owner);
            assert(r == sub.0);
            lemma_gathered(t, c as int, t.spans[c as int].children.len(), before, depth, owner);
            lemma_gathered_cpu(t, c as int, t.spans[c as int].children.len(), before, depth, owner);
        }
        assert(before.len() <= r.len());
        lemma_gathered_cpu(t, span, (k - 1) as nat, cmds, depth, owner);
        assert forall|j: int| cmds.len() <= j < before.len() implies (#[trigger] r[j]).lead
            == before[j].lead by {
            assert(r[j] == before[j]);
        }
        lemma_leads_cpu_same(t, r, before, cmds.len() as int, before.len() as int);
        lemma_leads_cpu_split(t, r, cmds.len() as int, before.len() as int, r.len() as int);
    }
}

/// Conservation: the commands of a tree used themselves, taken together,
/// exactly the CPU time that the tree of the root used.
pub proof fn law_cpu_conserved(t: TrackerView, root: int)
    requires
        t.valid(),
        0 <= root < t.spans.len(),
        t.compiled(root) is Some,
        t.command_tree(root).len() <= usize::MAX,
    ensures
        leads_cpu(t, t.command_tree(root), 0, t.command_tree(root).len() as int) == t.tree_cpu(
            root,
        ),
{
    lemma_created_cpu(t, root, Seq::empty(), 0, None);
}

/// Whether two trackers have spans that are linked in the same way and
/// began in the same way.
pub open spec fn same_links(t: TrackerView, u: TrackerView) -> bool {
    &&& t.spans.len() == u.spans.len()
    &&& t.levels == u.levels
    &&& forall|i: int|
        0 <= i < t.spans.len() ==> (#[trigger] t.spans[i]).children == u.spans[i].children
            && t.spans[i].init == u.spans[i].init
}

/// The command tree depends on how the spans are linked and how they
/// began, not on what they used.
proof fn lemma_created_same(
    t: TrackerView,
    u: TrackerView,
    lead: int,
    cmds: Seq<CommandView>,
    depth: nat,
    parent: Option<usize>,
)
    requires
        t.valid(),
        u.valid(),
        same_links(t, u),
        0 <= lead < t.spans.len(),
    ensures
        t.created(lead, cmds, depth, parent) == u.created(lead, cmds, depth, parent),
    decreases t.spans.len() - t.levels[lead], t.spans[lead].children.len() + 1,
{
    let place = cmds.len() as int;
    let own = new_command(place, lead, depth, parent);
    lemma_gathered_same(
        t,
        u,
        lead,
        t.spans[lead].children.len(),
        cmds.push(own),
        depth + 1,
        place as usize,
    );
}

/// As `lemma_created_same`, for what lies below the first `k` children of
/// a span.
proof fn lemma_gathered_same(
    t: TrackerView,
    u: TrackerView,
    span: int,
    k: nat,
    cmds: Seq<CommandView>,
    depth: nat,
    owner: usize,
)
    requires
        t.valid(),
        u.valid(),
        same_links(t, u),
        0 <= span < t.spans.len(),
        k <= t.spans[span].children.len(),
    ensures
        t.gathered(span, k, cmds, depth, owner) == u.gathered(span, k, cmds, depth, owner),
    decreases t.spans.len() - t.levels[span], k,
{
    if k > 0 {
        lemma_gathered_same(t, u, span, (k - 1) as nat, cmds, depth, owner);
        let (before, kids) = t.gathered(span, (k - 1) as nat, cmds, depth, owner);
        let c = t.spans[span].children[k - 1];
        assert(t.span_ok(span));
        assert(t.child_ok(span, c));
        lemma_level_bound(t, c as int);
        assert(u.spans[c as int].init == t.spans[c as int].init);
        if t.spans[c as int].init is Exec {
            lemma_created_same(t, u, c as int, before, depth, Some(owner));
        } else {
            lemma_gathered_same(
                t,
                u,
                c as int,
                t.spans[c as int].children.len(),
                before,
                depth,
                owner,
            );
        }
    }
}

/// Every command that `created` appends is led by a span at or below the
/// lead.
proof fn lemma_created_reached(
    t: TrackerView,
    lead: int,
    cmds: Seq<CommandView>,
    depth: nat,
    parent: Option<usize>,
)
    requires
        t.valid(),
        0 <= lead < t.spans.len(),
        depth <= t.levels[lead],
        parent matches Some(p) ==> p < cmds.len(),
        t.created(lead, cmds, depth, parent).len() <= usize::MAX,
    ensures
        forall|j: int|
            cmds.len() <= j < t.created(lead, cmds, depth, parent).len() ==> t.reaches(
                lead,
                (#[trigger] t.created(lead, cmds, depth, parent)[j]).lead as int,
            ),
    decreases t.spans.len() - t.levels[lead], t.spans[lead].children.len() + 1,
{
    let place = cmds.len() as int;
    let own = new_command(place, lead, depth, parent);
    let count = t.spans[lead].children.len();
    lemma_level_bound(t, lead);
    let g = t.gathered(lead, count, cmds.push(own), depth + 1, place as usize);
    let r = t.created(lead, cmds, depth, parent);
    lemma_gathered(t, lead, count, cmds.push(own), depth + 1, place as usize);
    assert(r == with_last_marked(g.0, g.1).update(place, CommandView { children: g.1, ..own }));
    assert(r.len() == g.0.len());
    lemma_gathered_reached(t, lead, count, cmds.push(own), depth + 1, place as usize);
    assert(g.0[place] == cmds.push(own)[place]);
    assert forall|j: int| cmds.len() <= j < r.len() implies t.reaches(
        lead,
        (#[trigger] r[j]).lead as int,
    ) by {
        if g.1.len() > 0 {
            assert(place + 1 <= g.1[g.1.len() - 1] < g.0.len());
        }
        assert(r[j].lead == g.0[j].lead);
        if j > place {
            assert(t.reaches_by(lead, count, g.0[j].lead as int));
        }
    }
}

/// As `lemma_created_reached`, for what lies below the first `k` children
/// of a span.
proof fn lemma_gathered_reached(
    t: TrackerView,
    span: int,
    k: nat,
    cmds: Seq<CommandView>,
    depth: nat,
    owner: usize,
)
    requires
        t.valid(),
        0 <= span < t.spans.len(),
        k <= t.spans[span].children.len(),
        depth <= t.levels[span] + 1,
        owner < cmds.len(),
        t.gathered(span, k, cmds, depth, owner).0.len() <= usize::MAX,
    ensures
        forall|j: int|
            cmds.len() <= j < t.gathered(span, k, cmds, depth, owner).0.len() ==> t.reaches_by(
                span,
                k,
                (#[trigger] t.gathered(span, k, cmds, depth, owner).0[j]).lead as int,
            ),
    decreases t.spans.len() - t.levels[span], k,
{
    if k > 0 {
        let (before, kids) = t.gathered(span, (k - 1) as nat, cmds, depth, owner);
        let c = t.spans[span].children[k - 1];
        assert(t.span_ok(span));
        assert(t.child_ok(span, c));
        lemma_level_bound(t, c as int);
        let r = t.gathered(span, k, cmds, depth, owner).0;
        lemma_gathered(t, span, (k - 1) as nat, cmds, depth, owner);
        if t.spans[c as int].init is Exec {
            assert(r == t.created(c as int, before, depth, Some(owner)));
            lemma_created(t, c as int, before, depth, Some(owner));
            lemma_created_reached(t, c as int, before, depth, Some(owner));
        } else {
            let sub = t.gathered(c as int, t.spans[c as int].children.len(), before, depth, owner);
            assert(r == sub.0);
            lemma_gathered(t, c as int, t.spans[c as int].children.len(), before, depth, owner);
            lemma_gathered_reached(
                t,
                c as int,
                t.spans[c as int].children.len(),
                before,
                depth,
                owner,
            );
        }
        assert(before.len() <= r.len());
        lemma_gathered_reached(t, span, (k - 1) as nat, cmds, depth, owner);
        assert forall|j: int| cmds.len() <= j < r.len() implies t.reaches_by(
            span,
            k,
            (#[trigger] r[j]).lead as int,
        ) by {
            if j < before.len() {
                assert(r[j] == before[j]);
                assert(t.reaches_by(span, (k - 1) as nat, before[j].lead as int));
            } else if t.spans[c as int].init is Exec {
                assert(t.reaches(c as int, r[j].lead as int));
            } else {
                assert(t.reaches_by(
                    c as int,
                    t.spans[c as int].children.len(),
                    r[j].lead as int,
                ));
                assert(t.reaches(c as int, r[j].lead as int));
            }
        }
    }
}

/// The CPU time that the usage of the leads at the places `from` up to
/// `to` of a command list shows, taken together.
pub open spec fn shown_cpu(t: TrackerView, cmds: Seq<CommandView>, from: int, to: int) -> nat
    decreases to - from,
{
    if to <= from {
        0
    } else {
        shown_cpu(t, cmds, from, to - 1) + t.spans[cmds[to - 1].lead as int].usage.cpu_spec()
    }
}

/// Conservation in the report: once the tree has been rolled up, the CPU
/// times that the rows of the commands show as their own add up to the CPU
/// time that the root holds for its tree.
pub proof fn law_report_conserves_cpu(t: TrackerView, root: int)
    requires
        t.valid(),
        0 <= root < t.spans.len(),
        t.compiled(root) is Some,
        t.command_tree(root).len() <= usize::MAX,
    ensures
        ({
            let u = t.compiled_tree(root);
            &&& u.command_tree(root) == t.command_tree(root)
            &&& shown_cpu(u, u.command_tree(root), 0, u.command_tree(root).len() as int)
                == u.spans[root].tree_usage.cpu_spec()
        }),
{
    let u = t.compiled_tree(root);
    let cmds = t.command_tree(root);
    crate::aggregate::lemma_compiled_tree_valid(t, root);
    assert(same_links(t, u)) by {
        assert forall|i: int| 0 <= i < t.spans.len() implies (#[trigger] t.spans[i]).children
            == u.spans[i].children && t.spans[i].init == u.spans[i].init by {}
    }
    lemma_created_same(t, u, root, Seq::empty(), 0, None);
    law_cpu_conserved(t, root);
    lemma_created_reached(t, root, Seq::empty(), 0, None);
    lemma_shown_is_self(t, root, cmds, cmds.len() as int);
    assert(t.reaches(root, root));
}

/// After the roll-up a span at or below the root shows what its command
/// used itself.
proof fn lemma_shown_is_self(t: TrackerView, root: int, cmds: Seq<CommandView>, to: int)
    requires
        t.valid(),
        0 <= root < t.spans.len(),
        t.compiled(root) is Some,
        0 <= to <= cmds.len(),
        forall|j: int| 0 <= j < cmds.len() ==> t.reaches(root, (#[trigger] cmds[j]).lead as int),
    ensures
        shown_cpu(t.compiled_tree(root), cmds, 0, to) == leads_cpu(t, cmds, 0, to),
    decreases to,
{
    if to > 0 {
        lemma_shown_is_self(t, root, cmds, to - 1);
        let x = cmds[to - 1].lead as int;
        assert(t.reaches(root, x));
        crate::aggregate::lemma_reaches_compiled(t, root, x);
    }
}

/// What the runs of the first `k` groups used themselves, taken together.
pub open spec fn groups_cpu(groups: Seq<GroupView>, k: nat) -> nat
    decreases k,
{
    if k == 0 {
        0
    } else {
        groups_cpu(groups, (k - 1) as nat) + groups[k - 1].total_self_usage.cpu_spec()
    }
}

/// The number of runs in the first `k` groups.
pub open spec fn groups_runs(groups: Seq<GroupView>, k: nat) -> nat
    decreases k,
{
    if k == 0 {
        0
    } else {
        groups_runs(groups, (k - 1) as nat) + groups[k - 1].num_execs as nat
    }
}

/// The sums over the first `k` groups after the group at `place` has been
/// replaced: they change by what that group changes by.
proof fn lemma_groups_update(groups: Seq<GroupView>, place: int, group: GroupView, k: nat)
    requires
        0 <= place < groups.len(),
        k <= groups.len(),
    ensures
        groups_cpu(groups.update(place, group), k) + (if place < k {
            groups[place].total_self_usage.cpu_spec()
        } else {
            0
        }) == groups_cpu(groups, k) + (if place < k {
            group.total_self_usage.cpu_spec()
        } else {
            0
        }),
        groups_runs(groups.update(place, group), k) + (if place < k {
            groups[place].num_execs as nat
        } else {
            0
        }) == groups_runs(groups, k) + (if place < k {
            group.num_execs as nat
        } else {
            0
        }),
    decreases k,
{
    if k > 0 {
        lemma_groups_update(groups, place, group, (k - 1) as nat);
    }
}

/// The sums over the first `k` groups are the same after one more group
/// has been added at the end.
proof fn lemma_groups_push(groups: Seq<GroupView>, group: GroupView, k: nat)
    requires
        k <= groups.len(),
    ensures
        groups_cpu(groups.push(group), k) == groups_cpu(groups, k),
        groups_runs(groups.push(group), k) == groups_runs(groups, k),
    decreases k,
{
    if k > 0 {
        lemma_groups_push(groups, group, (k - 1) as nat);
    }
}

/// The place of a group lies within the groups that were searched.
proof fn lemma_group_place_bound(groups: Seq<GroupView>, name: Seq<char>, k: nat)
    ensures
        group_place(groups, name, k) <= k,
    decreases k,
{
    if k > 0 {
        lemma_group_place_bound(groups, name, (k - 1) as nat);
    }
}

/// Adding a run to the groups adds to their sums what the run's lead shows
/// as its own, and one run.
proof fn lemma_groups_with(groups: Seq<GroupView>, name: Seq<char>, s: SpanView)
    requires
        groups_with(groups, name, s) is Some,
    ensures
        ({
            let after = groups_with(groups, name, s)->0;
            &&& groups_cpu(after, after.len()) == groups_cpu(groups, groups.len())
                + s.usage.cpu_spec()
            &&& groups_runs(after, after.len()) == groups_runs(groups, groups.len()) + 1
        }),
{
    let place = group_place(groups, name, groups.len());
    lemma_group_place_bound(groups, name, groups.len());
    let after = groups_with(groups, name, s)->0;
    if place < groups.len() {
        let group = groups[place as int].with_run(s);
        assert(after == groups.update(place as int, group));
        lemma_groups_update(groups, place as int, group, groups.len());
    } else {
        let group = GroupView::empty(name).with_run(s);
        assert(after == groups.push(group));
        lemma_groups_push(groups, group, groups.len());
        assert(after[groups.len() as int] == group);
    }
}

/// The groups of the first `k` commands hold, taken together, what the
/// leads of these commands show as their own, and `k` runs.
proof fn lemma_grouped(t: TrackerView, cmds: Seq<CommandView>, k: nat)
    requires
        t.grouped(cmds, k) is Some,
    ensures
        ({
            let groups = t.grouped(cmds, k)->0;
            &&& groups_cpu(groups, groups.len()) == shown_cpu(t, cmds, 0, k as int)
            &&& groups_runs(groups, groups.len()) == k
        }),
    decreases k,
{
    if k > 0 {
        lemma_grouped(t, cmds, (k - 1) as nat);
        let before = t.grouped(cmds, (k - 1) as nat)->0;
        let s = t.spans[cmds[k - 1].lead as int];
        lemma_groups_with(before, command_name(span_argv(s)), s);
    }
}

/// Conservation over the groups: once the tree has been rolled up, what
/// the groups hold as the CPU time of their runs adds up to the CPU time
/// that the root holds for its tree, and the runs of all groups are the
/// commands of the tree. No command is lost and none is counted twice.
pub proof fn law_groups_conserve_cpu(t: TrackerView, root: int)
    requires
        t.valid(),
        0 <= root < t.spans.len(),
        t.compiled(root) is Some,
        t.command_tree(root).len() <= usize::MAX,
    ensures
        ({
            let u = t.compiled_tree(root);
            let cmds = u.command_tree(root);
            u.grouped(cmds, cmds.len()) matches Some(groups) ==> groups_cpu(groups, groups.len())
                == u.spans[root].tree_usage.cpu_spec() && groups_runs(groups, groups.len())
                == cmds.len()
        }),
{
    let u = t.compiled_tree(root);
    let cmds = u.command_tree(root);
    law_report_conserves_cpu(t, root);
    if u.grouped(cmds, cmds.len()) is Some {
        lemma_grouped(u, cmds, cmds.len());
    }
}

} // verus!
