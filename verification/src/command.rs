//! The command tree: the span tree folded so that every exec is a node and
//! everything a command forked or cloned without an exec belongs to it.

use vstd::prelude::*;
use crate::aggregate::lemma_level_bound;
use crate::groups::{
    find_group, groups_view, lemma_grouped_none, CommandGroup, GroupView,
};
use crate::model::TrackerView;
use crate::names::{command_name, normalized_name};
use crate::span::{InitView, SpanView, ThreadInit, ThreadSpan};
use crate::tracker::{ThreadTracker, TrackerError};
use crate::usage::ResourceUsage;

verus! {

/// One command: a span that began by an exec, with the commands found
/// below it.
#[derive(Debug)]
pub struct CommandSpan {
    /// The command's number in a walk of the tree that visits a command
    /// before its children, from 1.
    pub ordinal: usize,
    /// The place in the tracker of the span that leads the command.
    pub lead: usize,
    /// The places in the command tree of the commands found next below.
    pub children: Vec<usize>,
    /// The number of commands above this one.
    pub depth: usize,
    /// The place of the command next above; none for the root.
    pub parent: Option<usize>,
    /// Whether the command is the last child of its parent.
    pub last: bool,
}

/// What a `CommandSpan` stands for.
pub struct CommandView {
    pub ordinal: usize,
    pub lead: usize,
    pub children: Seq<usize>,
    pub depth: usize,
    pub parent: Option<usize>,
    pub last: bool,
}

impl View for CommandSpan {
    type V = CommandView;

    open spec fn view(&self) -> CommandView {
        CommandView {
            ordinal: self.ordinal,
            lead: self.lead,
            children: self.children@,
            depth: self.depth,
            parent: self.parent,
            last: self.last,
        }
    }
}

/// What a list of commands stands for.
pub open spec fn commands_view(commands: Seq<CommandSpan>) -> Seq<CommandView> {
    commands.map_values(|c: CommandSpan| c@)
}

/// A command as it is first listed: numbered by its place, without
/// children yet, and not known to be a last child.
pub open spec fn new_command(place: int, lead: int, depth: nat, parent: Option<usize>) -> CommandView {
    CommandView {
        ordinal: (place + 1) as usize,
        lead: lead as usize,
        children: Seq::empty(),
        depth: depth as usize,
        parent,
        last: false,
    }
}

/// The command list in which the last of `kids` is marked as a last child.
pub open spec fn with_last_marked(cmds: Seq<CommandView>, kids: Seq<usize>) -> Seq<CommandView> {
    if kids.len() > 0 {
        cmds.update(kids.last() as int, CommandView { last: true, ..cmds[kids.last() as int] })
    } else {
        cmds
    }
}

impl TrackerView {
    /// The command list `cmds` with the command led by span `lead` and all
    /// commands below it appended: the command itself first, numbered by
    /// its place, then what `gathered` finds below its span, of which the
    /// commands found next below become its children.
    pub open spec fn created(
        self,
        lead: int,
        cmds: Seq<CommandView>,
        depth: nat,
        parent: Option<usize>,
    ) -> Seq<CommandView>
        decreases self.spans.len() - self.levels[lead], self.spans[lead].children.len() + 1,
        when self.valid() && 0 <= lead < self.spans.len()
    {
        let place = cmds.len() as int;
        let own = new_command(place, lead, depth, parent);
        let (after, kids) = self.gathered(
            lead,
            self.spans[lead].children.len(),
            cmds.push(own),
            depth + 1,
            place as usize,
        );
        with_last_marked(after, kids).update(place, CommandView { children: kids, ..own })
    }

    /// The command list `cmds` with the commands appended that lie below
    /// the first `k` children of span `span`, and the places of those found
    /// next below, which are the children of the command at `owner`: a
    /// child that began by an exec is such a command, and brings its own
    /// commands along; any other child is looked through.
    pub open spec fn gathered(
        self,
        span: int,
        k: nat,
        cmds: Seq<CommandView>,
        depth: nat,
        owner: usize,
    ) -> (Seq<CommandView>, Seq<usize>)
        decreases self.spans.len() - self.levels[span], k,
        when self.valid() && 0 <= span < self.spans.len() && k <= self.spans[span].children.len()
    {
        if k == 0 {
            (cmds, Seq::empty())
        } else {
            let (before, kids) = self.gathered(span, (k - 1) as nat, cmds, depth, owner);
            let c = self.spans[span].children[k - 1];
            proof {
                assert(self.span_ok(span));
                assert(self.child_ok(span, c));
                lemma_level_bound(self, c as int);
            }
            if self.spans[c as int].init is Exec {
                (
                    self.created(c as int, before, depth, Some(owner)),
                    kids.push(before.len() as usize),
                )
            } else {
                let (after, more) = self.gathered(
                    c as int,
                    self.spans[c as int].children.len(),
                    before,
                    depth,
                    owner,
                );
                (after, kids + more)
            }
        }
    }

    /// The command tree below the root span `root`.
    pub open spec fn command_tree(self, root: int) -> Seq<CommandView> {
        self.created(root, Seq::empty(), 0, None)
    }

    /// The number of spans at or below span `i` that began by an exec,
    /// each counted as often as child links lead to it.
    pub open spec fn exec_spans(self, i: int) -> nat
        decreases self.spans.len() - self.levels[i], self.spans[i].children.len() + 1,
        when self.valid() && 0 <= i < self.spans.len()
    {
        let own: nat = if self.spans[i].init is Exec {
            1
        } else {
            0
        };
        own + self.execs_below(i, self.spans[i].children.len())
    }

    /// The number of spans at or below the first `k` children of span
    /// `span` that began by an exec.
    pub open spec fn execs_below(self, span: int, k: nat) -> nat
        decreases self.spans.len() - self.levels[span], k,
        when self.valid() && 0 <= span < self.spans.len() && k <= self.spans[span].children.len()
    {
        if k == 0 {
            0
        } else {
            let c = self.spans[span].children[k - 1];
            proof {
                assert(self.span_ok(span));
                assert(self.child_ok(span, c));
                lemma_level_bound(self, c as int);
            }
            self.execs_below(span, (k - 1) as nat) + self.exec_spans(c as int)
        }
    }
}

/// What holds of the commands that were appended to a list of `old_len`
/// commands: each is numbered by its place, is led by a span of the
/// tracker, lies no deeper than there are spans, and comes after its
/// parent.
pub open spec fn appended_ok(t: TrackerView, cmds: Seq<CommandView>, old_len: int) -> bool {
    forall|j: int|
        old_len <= j < cmds.len() ==> {
            let c = #[trigger] cmds[j];
            &&& c.ordinal == (j + 1) as usize
            &&& c.lead < t.spans.len()
            &&& c.depth < t.spans.len()
            &&& c.parent matches Some(p) ==> p < j
        }
}

/// What holds of the places found by `gathered`: they are places of
/// appended commands.
pub open spec fn kids_ok(kids: Seq<usize>, old_len: int, new_len: int) -> bool {
    forall|m: int| 0 <= m < kids.len() ==> old_len <= #[trigger] kids[m] < new_len
}

/// Appending a command and what lies below it adds at least one command
/// and keeps the commands that were there.
pub proof fn lemma_created(
    t: TrackerView,
    lead: int,
    cmds: Seq<CommandView>,
    depth: nat,
    parent: Option<usize>,
)
    requires
        t.valid(),
        0 <= lead < t.spans.len(),
        depth <= t.levels[lead],
        parent matches Some(p) ==> p < cmds.len(),
    ensures
        t.created(lead, cmds, depth, parent).len() > cmds.len(),
        t.created(lead, cmds, depth, parent).len() <= usize::MAX ==> forall|j: int|
            0 <= j < cmds.len() ==> #[trigger] t.created(lead, cmds, depth, parent)[j] == cmds[j],
        t.created(lead, cmds, depth, parent).len() <= usize::MAX ==> appended_ok(
            t,
            t.created(lead, cmds, depth, parent),
            cmds.len() as int,
        ),
    decreases t.spans.len() - t.levels[lead], t.spans[lead].children.len() + 1,
{
    let place = cmds.len() as int;
    let own = new_command(place, lead, depth, parent);
    lemma_level_bound(t, lead);
    lemma_gathered(
        t,
        lead,
        t.spans[lead].children.len(),
        cmds.push(own),
        depth + 1,
        place as usize,
    );
    let g = t.gathered(
        lead,
        t.spans[lead].children.len(),
        cmds.push(own),
        depth + 1,
        place as usize,
    );
    let r = t.created(lead, cmds, depth, parent);
    assert(r == with_last_marked(g.0, g.1).update(place, CommandView { children: g.1, ..own }));
    assert(r.len() == g.0.len());
    if r.len() <= usize::MAX {
        if g.1.len() > 0 {
            assert(place + 1 <= g.1[g.1.len() - 1] < g.0.len());
        }
        assert forall|j: int| 0 <= j < cmds.len() implies #[trigger] r[j] == cmds[j] by {
            assert(g.0[j] == cmds.push(own)[j]);
        }
        assert forall|j: int| cmds.len() <= j < r.len() implies {
            let c = #[trigger] r[j];
            &&& c.ordinal == (j + 1) as usize
            &&& c.lead < t.spans.len()
            &&& c.depth < t.spans.len()
            &&& c.parent matches Some(p) ==> p < j
        } by {
            if j == place {
            } else {
                let c = g.0[j];
                assert(c.ordinal == (j + 1) as usize && c.lead < t.spans.len());
            }
        }
    }
}

/// As `lemma_created`, for what lies below the first `k` children of a
/// span; here nothing may be added.
pub proof fn lemma_gathered(
    t: TrackerView,
    span: int,
    k: nat,
    cmds: Seq<CommandView>,
    depth: nat,
    owner: usize,
)
    requires
        t.valid(),
        0 <= span < t.spans.len(),
        k <= t.spans[span].children.len(),
        depth <= t.levels[span] + 1,
        owner < cmds.len(),
    ensures
        t.gathered(span, k, cmds, depth, owner).0.len() >= cmds.len(),
        t.gathered(span, k, cmds, depth, owner).0.len() <= usize::MAX ==> forall|j: int|
            0 <= j < cmds.len() ==> #[trigger] t.gathered(span, k, cmds, depth, owner).0[j]
                == cmds[j],
        t.gathered(span, k, cmds, depth, owner).0.len() <= usize::MAX ==> appended_ok(
            t,
            t.gathered(span, k, cmds, depth, owner).0,
            cmds.len() as int,
        ),
        t.gathered(span, k, cmds, depth, owner).0.len() <= usize::MAX ==> kids_ok(
            t.gathered(span, k, cmds, depth, owner).1,
            cmds.len() as int,
            t.gathered(span, k, cmds, depth, owner).0.len() as int,
        ),
    decreases t.spans.len() - t.levels[span], k,
{
    if k > 0 {
        lemma_gathered(t, span, (k - 1) as nat, cmds, depth, owner);
        let (before, kids) = t.gathered(span, (k - 1) as nat, cmds, depth, owner);
        let c = t.spans[span].children[k - 1];
        assert(t.span_ok(span));
        assert(t.child_ok(span, c));
        lemma_level_bound(t, c as int);
        let r = t.gathered(span, k, cmds, depth, owner);
        if t.spans[c as int].init is Exec {
            lemma_created(t, c as int, before, depth, Some(owner));
            assert(r.0 == t.created(c as int, before, depth, Some(owner)));
            assert(r.1 == kids.push(before.len() as usize));
        } else {
            lemma_gathered(t, c as int, t.spans[c as int].children.len(), before, depth, owner);
            let sub = t.gathered(c as int, t.spans[c as int].children.len(), before, depth, owner);
            assert(r.0 == sub.0);
            assert(r.1 == kids + sub.1);
        }
        assert(before.len() <= r.0.len());
        if r.0.len() <= usize::MAX {
        assert forall|j: int| 0 <= j < cmds.len() implies #[trigger] r.0[j] == cmds[j] by {
            assert(before[j] == cmds[j]);
        }
        assert forall|j: int| cmds.len() <= j < r.0.len() implies {
            let x = #[trigger] r.0[j];
            &&& x.ordinal == (j + 1) as usize
            &&& x.lead < t.spans.len()
            &&& x.depth < t.spans.len()
            &&& x.parent matches Some(p) ==> p < j
        } by {
            if j < before.len() {
                let x = before[j];
                assert(x.ordinal == (j + 1) as usize);
                assert(r.0[j] == before[j]);
            }
        }
        assert forall|m: int| 0 <= m < r.1.len() implies cmds.len() <= #[trigger] r.1[m]
            < r.0.len() by {
            if m < kids.len() {
                assert(cmds.len() <= kids[m] < before.len());
                assert(r.1[m] == kids[m]);
            } else if t.spans[c as int].init is Exec {
                assert(r.1[m] == before.len());
            } else {
                let sub = t.gathered(
                    c as int,
                    t.spans[c as int].children.len(),
                    before,
                    depth,
                    owner,
                );
                assert(r.1[m] == sub.1[m - kids.len()]);
                assert(before.len() <= sub.1[m - kids.len()] < sub.0.len());
            }
        }
        }
    }
}

/// The commands of a tree are numbered from 1 without a gap, in the order
/// of a walk that visits each command before its children and the children
/// in their order.
pub proof fn law_ordinals_contiguous(t: TrackerView, root: int)
    requires
        t.valid(),
        0 <= root < t.spans.len(),
        t.command_tree(root).len() <= usize::MAX,
    ensures
        t.command_tree(root).len() >= 1,
        forall|j: int|
            0 <= j < t.command_tree(root).len() ==> (#[trigger] t.command_tree(root)[j]).ordinal == (j
                + 1) as usize,
{
    lemma_created(t, root, Seq::empty(), 0, None);
    let r = t.command_tree(root);
    assert(appended_ok(t, r, 0));
}

/// What holds of the children of the commands that were appended to a list
/// of `old_len` commands: the first child of a command comes right after
/// it, each further child after the child before it, all within the list,
/// and each child names the command as its parent.
pub open spec fn children_ok(cmds: Seq<CommandView>, old_len: int) -> bool {
    forall|j: int, m: int|
        old_len <= j < cmds.len() && 0 <= m < cmds[j].children.len() ==> {
            let c = #[trigger] cmds[j].children[m];
            &&& j < c < cmds.len()
            &&& cmds[c as int].parent == Some(j as usize)
            &&& m == 0 ==> c == j + 1
            &&& m > 0 ==> cmds[j].children[m - 1] < c
        }
}

/// What holds of the places found by `gathered` for the command at
/// `owner`: the first is the first place that was appended, each further
/// one lies after the one before it, and the commands there name `owner`
/// as their parent. Where no place was found, nothing was appended.
pub open spec fn kids_linked(cmds: Seq<CommandView>, kids: Seq<usize>, old_len: int, owner: usize) -> bool {
    &&& kids.len() == 0 ==> cmds.len() == old_len
    &&& forall|m: int|
        0 <= m < kids.len() ==> {
            let c = #[trigger] kids[m];
            &&& old_len <= c < cmds.len()
            &&& cmds[c as int].parent == Some(owner)
            &&& m == 0 ==> c == old_len
            &&& m > 0 ==> kids[m - 1] < c
        }
}

/// The commands of a tree stand in the order of the walk: each command is
/// numbered by its place and followed at once by its first child, the
/// children of a command come in rising order, and every child names its
/// command as its parent.
pub proof fn law_command_blocks(t: TrackerView, root: int)
    requires
        t.valid(),
        0 <= root < t.spans.len(),
        t.command_tree(root).len() <= usize::MAX,
    ensures
        children_ok(t.command_tree(root), 0),
        appended_ok(t, t.command_tree(root), 0),
{
    lemma_created(t, root, Seq::empty(), 0, None);
    lemma_created_links(t, root, Seq::empty(), 0, None);
}

/// The commands that `created` appends stand in blocks.
proof fn lemma_created_links(
    t: TrackerView,
    lead: int,
    cmds: Seq<CommandView>,
    depth: nat,
    parent: Option<usize>,
)
    requires
        t.valid(),
        0 <= lead < t.spans.len(),
        depth <= t.levels[lead],
        parent matches Some(p) ==> p < cmds.len(),
        t.created(lead, cmds, depth, parent).len() <= usize::MAX,
    ensures
        children_ok(t.created(lead, cmds, depth, parent), cmds.len() as int),
        t.created(lead, cmds, depth, parent)[cmds.len() as int].parent == parent,
    decreases t.spans.len() - t.levels[lead], t.spans[lead].children.len() + 1,
{
    let place = cmds.len() as int;
    let own = new_command(place, lead, depth, parent);
    let count = t.spans[lead].children.len();
    lemma_level_bound(t, lead);
    lemma_gathered(t, lead, count, cmds.push(own), depth + 1, place as usize);
    let g = t.gathered(lead, count, cmds.push(own), depth + 1, place as usize);
    let r = t.created(lead, cmds, depth, parent);
    assert(r == with_last_marked(g.0, g.1).update(place, CommandView { children: g.1, ..own }));
    if g.1.len() > 0 {
        assert(place + 1 <= g.1[g.1.len() - 1] < g.0.len());
    }
    assert(r.len() == g.0.len());
    lemma_gathered_links(t, lead, count, cmds.push(own), depth + 1, place as usize);
    assert forall|x: int| place < x < r.len() implies (#[trigger] r[x]).children == g.0[x].children
        && r[x].parent == g.0[x].parent by {}
    assert forall|j: int, m: int|
        place <= j < r.len() && 0 <= m < r[j].children.len() implies {
        let c = #[trigger] r[j].children[m];
        &&& j < c < r.len()
        &&& r[c as int].parent == Some(j as usize)
        &&& m == 0 ==> c == j + 1
        &&& m > 0 ==> r[j].children[m - 1] < c
    } by {
        if j == place {
            let c = g.1[m];
            assert(place + 1 <= c < g.0.len());
            assert(r[c as int].parent == g.0[c as int].parent);
        } else {
            let c = g.0[j].children[m];
            assert(j < c < g.0.len());
            assert(r[c as int].parent == g.0[c as int].parent);
        }
    }
}

/// The commands that `gathered` appends stand in blocks, and the places it
/// finds are those of the first commands of the blocks.
proof fn lemma_gathered_links(
    t: TrackerView,
    span: int,
    k: nat,
    cmds: Seq<CommandView>,
    depth: nat,
    owner: usize,
)
    requires
        t.valid(),
        0 <= span < t.spans.len(),
        k <= t.spans[span].children.len(),
        depth <= t.levels[span] + 1,
        owner < cmds.len(),
        t.gathered(span, k, cmds, depth, owner).0.len() <= usize::MAX,
    ensures
        children_ok(t.gathered(span, k, cmds, depth, owner).0, cmds.len() as int),
        kids_linked(
            t.gathered(span, k, cmds, depth, owner).0,
            t.gathered(span, k, cmds, depth, owner).1,
            cmds.len() as int,
            owner,
        ),
    decreases t.spans.len() - t.levels[span], k,
{
    if k > 0 {
        let (before, kids) = t.gathered(span, (k - 1) as nat, cmds, depth, owner);
        let c = t.spans[span].children[k - 1];
        assert(t.span_ok(span));
        assert(t.child_ok(span, c));
        lemma_level_bound(t, c as int);
        let r = t.gathered(span, k, cmds, depth, owner);
        lemma_gathered(t, span, (k - 1) as nat, cmds, depth, owner);
        if t.spans[c as int].init is Exec {
            assert(r.0 == t.created(c as int, before, depth, Some(owner)));
            assert(r.1 == kids.push(before.len() as usize));
            lemma_created(t, c as int, before, depth, Some(owner));
            lemma_created_links(t, c as int, before, depth, Some(owner));
        } else {
            let sub = t.gathered(c as int, t.spans[c as int].children.len(), before, depth, owner);
            assert(r.0 == sub.0);
            assert(r.1 == kids + sub.1);
            lemma_gathered(t, c as int, t.spans[c as int].children.len(), before, depth, owner);
            lemma_gathered_links(
                t,
                c as int,
                t.spans[c as int].children.len(),
                before,
                depth,
                owner,
            );
        }
        assert(before.len() <= r.0.len());
        lemma_gathered_links(t, span, (k - 1) as nat, cmds, depth, owner);
        lemma_children_extend(before, r.0, cmds.len() as int);
        if t.spans[c as int].init is Exec {
            lemma_kids_push(before, r.0, kids, cmds.len() as int, owner);
        } else {
            let sub = t.gathered(c as int, t.spans[c as int].children.len(), before, depth, owner);
            lemma_kids_append(before, r.0, kids, sub.1, cmds.len() as int, owner);
        }
    }
}

/// Blocks stay blocks when the list grows behind them.
proof fn lemma_children_extend(before: Seq<CommandView>, after: Seq<CommandView>, old_len: int)
    requires
        0 <= old_len <= before.len() <= after.len(),
        forall|j: int| 0 <= j < before.len() ==> #[trigger] after[j] == before[j],
        children_ok(before, old_len),
        children_ok(after, before.len() as int),
    ensures
        children_ok(after, old_len),
{
    assert forall|j: int, m: int|
        old_len <= j < after.len() && 0 <= m < after[j].children.len() implies {
        let x = #[trigger] after[j].children[m];
        &&& j < x < after.len()
        &&& after[x as int].parent == Some(j as usize)
        &&& m == 0 ==> x == j + 1
        &&& m > 0 ==> after[j].children[m - 1] < x
    } by {
        if j < before.len() {
            assert(after[j] == before[j]);
            let x = before[j].children[m];
            assert(j < x < before.len());
            assert(after[x as int] == before[x as int]);
        }
    }
}

/// The places found stay linked when a command is appended and its place
/// is added to them.
proof fn lemma_kids_push(
    before: Seq<CommandView>,
    after: Seq<CommandView>,
    kids: Seq<usize>,
    old_len: int,
    owner: usize,
)
    requires
        0 <= old_len <= before.len() < after.len(),
        before.len() <= usize::MAX,
        forall|j: int| 0 <= j < before.len() ==> #[trigger] after[j] == before[j],
        kids_linked(before, kids, old_len, owner),
        after[before.len() as int].parent == Some(owner),
    ensures
        kids_linked(after, kids.push(before.len() as usize), old_len, owner),
{
    let all = kids.push(before.len() as usize);
    assert forall|m: int| 0 <= m < all.len() implies {
        let x = #[trigger] all[m];
        &&& old_len <= x < after.len()
        &&& after[x as int].parent == Some(owner)
        &&& m == 0 ==> x == old_len
        &&& m > 0 ==> all[m - 1] < x
    } by {
        if m < kids.len() {
            let x = kids[m];
            assert(all[m] == x);
            assert(old_len <= x < before.len());
            assert(after[x as int] == before[x as int]);
            if m > 0 {
                assert(all[m - 1] == kids[m - 1]);
            }
        } else {
            assert(all[m] == before.len());
            if m > 0 {
                assert(all[m - 1] == kids[m - 1]);
                assert(kids[m - 1] < before.len());
            }
        }
    }
}

/// The places found stay linked when more places are found behind them.
proof fn lemma_kids_append(
    before: Seq<CommandView>,
    after: Seq<CommandView>,
    kids: Seq<usize>,
    more: Seq<usize>,
    old_len: int,
    owner: usize,
)
    requires
        0 <= old_len <= before.len() <= after.len(),
        forall|j: int| 0 <= j < before.len() ==> #[trigger] after[j] == before[j],
        kids_linked(before, kids, old_len, owner),
        kids_linked(after, more, before.len() as int, owner),
    ensures
        kids_linked(after, kids + more, old_len, owner),
{
    let all = kids + more;
    assert forall|m: int| 0 <= m < all.len() implies {
        let x = #[trigger] all[m];
        &&& old_len <= x < after.len()
        &&& after[x as int].parent == Some(owner)
        &&& m == 0 ==> x == old_len
        &&& m > 0 ==> all[m - 1] < x
    } by {
        if m < kids.len() {
            let x = kids[m];
            assert(all[m] == x);
            assert(old_len <= x < before.len());
            assert(after[x as int] == before[x as int]);
            if m > 0 {
                assert(all[m - 1] == kids[m - 1]);
            }
        } else {
            let i = m - kids.len();
            assert(all[m] == more[i]);
            assert(before.len() <= more[i] < after.len());
            if i > 0 {
                assert(all[m - 1] == more[i - 1]);
            } else if m > 0 {
                assert(all[m - 1] == kids[m - 1]);
                assert(kids[m - 1] < before.len());
            }
        }
    }
}

/// There are as many commands as there are spans that began by an exec:
/// the tree below a root holds one command for the root and one for each
/// such span below it.
pub proof fn law_command_count(t: TrackerView, root: int)
    requires
        t.valid(),
        0 <= root < t.spans.len(),
    ensures
        t.command_tree(root).len() == 1 + t.execs_below(root, t.spans[root].children.len()),
        t.spans[root].init is Exec ==> t.command_tree(root).len() == t.exec_spans(root),
{
    lemma_created_count(t, root, Seq::empty(), 0, None);
}

/// `created` appends one command for the lead and one for each span below
/// it that began by an exec.
proof fn lemma_created_count(
    t: TrackerView,
    lead: int,
    cmds: Seq<CommandView>,
    depth: nat,
    parent: Option<usize>,
)
    requires
        t.valid(),
        0 <= lead < t.spans.len(),
        depth <= t.levels[lead],
        parent matches Some(p) ==> p < cmds.len(),
    ensures
        t.created(lead, cmds, depth, parent).len() == cmds.len() + 1 + t.execs_below(
            lead,
            t.spans[lead].children.len(),
        ),
    decreases t.spans.len() - t.levels[lead], t.spans[lead].children.len() + 1,
{
    let place = cmds.len() as int;
    let own = new_command(place, lead, depth, parent);
    let count = t.spans[lead].children.len();
    lemma_level_bound(t, lead);
    lemma_gathered(t, lead, count, cmds.push(own), depth + 1, place as usize);
    lemma_gathered_count(t, lead, count, cmds.push(own), depth + 1, place as usize);
    let g = t.gathered(lead, count, cmds.push(own), depth + 1, place as usize);
    let r = t.created(lead, cmds, depth, parent);
    assert(r == with_last_marked(g.0, g.1).update(place, CommandView { children: g.1, ..own }));
    if g.1.len() > 0 && g.0.len() <= usize::MAX {
        assert(place + 1 <= g.1[g.1.len() - 1] < g.0.len());
    }
    assert(r.len() == g.0.len());
}

/// `gathered` appends one command for each span below the first `k`
/// children that began by an exec.
proof fn lemma_gathered_count(
    t: TrackerView,
    span: int,
    k: nat,
    cmds: Seq<CommandView>,
    depth: nat,
    owner: usize,
)
    requires
        t.valid(),
        0 <= span < t.spans.len(),
        k <= t.spans[span].children.len(),
        depth <= t.levels[span] + 1,
        owner < cmds.len(),
    ensures
        t.gathered(span, k, cmds, depth, owner).0.len() == cmds.len() + t.execs_below(span, k),
    decreases t.spans.len() - t.levels[span], k,
{
    if k > 0 {
        lemma_gathered_count(t, span, (k - 1) as nat, cmds, depth, owner);
        let (before, kids) = t.gathered(span, (k - 1) as nat, cmds, depth, owner);
        let c = t.spans[span].children[k - 1];
        assert(t.span_ok(span));
        assert(t.child_ok(span, c));
        lemma_level_bound(t, c as int);
        lemma_gathered(t, span, (k - 1) as nat, cmds, depth, owner);
        let r = t.gathered(span, k, cmds, depth, owner);
        assert(t.execs_below(span, k) == t.execs_below(span, (k - 1) as nat) + t.exec_spans(
            c as int,
        ));
        let own: nat = if t.spans[c as int].init is Exec {
            1
        } else {
            0
        };
        assert(t.exec_spans(c as int) == own + t.execs_below(
            c as int,
            t.spans[c as int].children.len(),
        ));
        if t.spans[c as int].init is Exec {
            lemma_created_count(t, c as int, before, depth, Some(owner));
            assert(r.0 == t.created(c as int, before, depth, Some(owner)));
        } else {
            lemma_gathered_count(t, c as int, t.spans[c as int].children.len(), before, depth, owner);
            let sub = t.gathered(c as int, t.spans[c as int].children.len(), before, depth, owner);
            assert(r.0 == sub.0);
        }
    }
}

/// Collects into `commands` the commands below span `span`, and into
/// `kids` the places of those found next below.
fn collect_commands(
    commands: &mut Vec<CommandSpan>,
    kids: &mut Vec<usize>,
    tracker: &ThreadTracker,
    span: usize,
    depth: usize,
    owner: usize,
) -> (result: Result<(), TrackerError>)
    requires
        tracker@.valid(),
        span < tracker@.spans.len(),
        depth <= tracker@.levels[span as int] + 1,
        owner < old(commands)@.len(),
    ensures
        result is Ok <==> tracker@.gathered(
            span as int,
            tracker@.spans[span as int].children.len(),
            commands_view(old(commands)@),
            depth as nat,
            owner,
        ).0.len() <= usize::MAX,
        result is Ok ==> (commands_view(final(commands)@), final(kids)@) == ({
            let found = tracker@.gathered(
                span as int,
                tracker@.spans[span as int].children.len(),
                commands_view(old(commands)@),
                depth as nat,
                owner,
            );
            (found.0, old(kids)@ + found.1)
        }),
        result matches Err(e) ==> e == TrackerError::Overflow,
    decreases tracker@.spans.len() - tracker@.levels[span as int], 0int,
{
    let ghost t = tracker@;
    let ghost start = commands_view(commands@);
    let count = tracker.span(span).children.len();
    let mut k: usize = 0;
    assert(kids@ =~= old(kids)@ + Seq::<usize>::empty());
    while k < count
        invariant
            tracker@ == t,
            t.valid(),
            span < t.spans.len(),
            depth <= t.levels[span as int] + 1,
            owner < start.len(),
            count == t.spans[span as int].children.len(),
            k <= count,
            start == commands_view(old(commands)@),
            commands_view(commands@) == t.gathered(
                span as int,
                k as nat,
                start,
                depth as nat,
                owner,
            ).0,
            kids@ == old(kids)@ + t.gathered(span as int, k as nat, start, depth as nat, owner).1,
        decreases count - k,
    {
        let child = tracker.span(span).children[k];
        proof {
            assert(t.span_ok(span as int));
            assert(t.child_ok(span as int, child));
            lemma_level_bound(t, child as int);
            lemma_gathered(t, span as int, k as nat, start, depth as nat, owner);
        }
        let ghost before = commands_view(commands@);
        let ghost found = t.gathered(span as int, k as nat, start, depth as nat, owner).1;
        let is_exec = match tracker.span(child).init {
            ThreadInit::Exec(_) => true,
            _ => false,
        };
        if is_exec {
            match create_command(commands, tracker, child, depth, Some(owner)) {
                Ok(place) => {
                    kids.push(place);
                    assert(kids@ =~= old(kids)@ + found.push(before.len() as usize));
                },
                Err(e) => {
                    proof {
                        lemma_gathered_grows(
                            t,
                            span as int,
                            (k + 1) as nat,
                            count as nat,
                            start,
                            depth as nat,
                            owner,
                        );
                    }
                    return Err(e);
                },
            }
        } else {
            match collect_commands(commands, kids, tracker, child, depth, owner) {
                Ok(()) => {
                    assert(kids@ =~= old(kids)@ + (found + t.gathered(
                        child as int,
                        t.spans[child as int].children.len(),
                        before,
                        depth as nat,
                        owner,
                    ).1));
                },
                Err(e) => {
                    proof {
                        lemma_gathered_grows(
                            t,
                            span as int,
                            (k + 1) as nat,
                            count as nat,
                            start,
                            depth as nat,
                            owner,
                        );
                    }
                    return Err(e);
                },
            }
        }
        k = k + 1;
    }
    let total = commands.len();
    assert(commands_view(commands@).len() == total);
    Ok(())
}

/// What lies below more children is no shorter a list.
pub proof fn lemma_gathered_grows(
    t: TrackerView,
    span: int,
    k: nat,
    m: nat,
    cmds: Seq<CommandView>,
    depth: nat,
    owner: usize,
)
    requires
        t.valid(),
        0 <= span < t.spans.len(),
        k <= m <= t.spans[span].children.len(),
        depth <= t.levels[span] + 1,
        owner < cmds.len(),
    ensures
        t.gathered(span, k, cmds, depth, owner).0.len() <= t.gathered(
            span,
            m,
            cmds,
            depth,
            owner,
        ).0.len(),
    decreases m,
{
    if k < m {
        lemma_gathered_grows(t, span, k, (m - 1) as nat, cmds, depth, owner);
        lemma_gathered(t, span, (m - 1) as nat, cmds, depth, owner);
        let (before, kids) = t.gathered(span, (m - 1) as nat, cmds, depth, owner);
        let c = t.spans[span].children[m - 1];
        assert(t.span_ok(span));
        assert(t.child_ok(span, c));
        if t.spans[c as int].init is Exec {
            lemma_created(t, c as int, before, depth, Some(owner));
        } else {
            lemma_gathered(t, c as int, t.spans[c as int].children.len(), before, depth, owner);
        }
    }
}

/// Appends to `commands` the command that span `lead` leads and all
/// commands below it, and gives the command's place.
fn create_command(
    commands: &mut Vec<CommandSpan>,
    tracker: &ThreadTracker,
    lead: usize,
    depth: usize,
    parent: Option<usize>,
) -> (result: Result<usize, TrackerError>)
    requires
        tracker@.valid(),
        lead < tracker@.spans.len(),
        depth <= tracker@.levels[lead as int],
        parent matches Some(p) ==> p < old(commands)@.len(),
    ensures
        result is Ok <==> tracker@.created(
            lead as int,
            commands_view(old(commands)@),
            depth as nat,
            parent,
        ).len() <= usize::MAX,
        result matches Ok(place) ==> place == old(commands)@.len() && commands_view(
            final(commands)@,
        ) == tracker@.created(lead as int, commands_view(old(commands)@), depth as nat, parent),
        result matches Err(e) ==> e == TrackerError::Overflow,
    decreases tracker@.spans.len() - tracker@.levels[lead as int], 1int,
{
    let ghost t = tracker@;
    let ghost start = commands_view(commands@);
    let place = commands.len();
    let ghost own = new_command(place as int, lead as int, depth as nat, parent);
    proof {
        lemma_level_bound(t, lead as int);
        lemma_gathered(
            t,
            lead as int,
            t.spans[lead as int].children.len(),
            start.push(own),
            (depth + 1) as nat,
            place,
        );
    }
    if place == usize::MAX {
        return Err(TrackerError::Overflow);
    }
    commands.push(
        CommandSpan { ordinal: place + 1, lead, children: Vec::new(), depth, parent, last: false },
    );
    assert(commands_view(commands@) =~= start.push(own));
    let mut kids: Vec<usize> = Vec::new();
    match collect_commands(commands, &mut kids, tracker, lead, depth + 1, place) {
        Ok(()) => {},
        Err(e) => {
            return Err(e);
        },
    }
    let ghost after = commands_view(commands@);
    let ghost found = t.gathered(
        lead as int,
        t.spans[lead as int].children.len(),
        start.push(own),
        (depth + 1) as nat,
        place,
    );
    assert(kids@ =~= found.1);
    assert(after == found.0);
    assert(after.len() == commands@.len());
    assert(after[place as int] == start.push(own)[place as int]);
    let count = kids.len();
    if count > 0 {
        let last = kids[count - 1];
        assert(place + 1 <= found.1[count - 1] < after.len());
        commands[last].last = true;
        assert(commands_view(commands@) =~= with_last_marked(after, kids@));
    }
    let ghost marked = commands_view(commands@);
    assert(marked == with_last_marked(after, kids@));
    assert(marked[place as int] == own);
    assert(commands@[place as int]@ == own);
    commands[place].children = kids;
    let total = commands.len();
    assert(commands_view(commands@) =~= marked.update(
        place as int,
        CommandView { children: found.1, ..own },
    ));
    Ok(place)
}

/// The wall time of a span in nanoseconds.
pub open spec fn span_elapsed(s: SpanView) -> u64 {
    if s.end_time >= s.start_time {
        (s.end_time - s.start_time) as u64
    } else {
        0
    }
}

/// The argument vector of a span that began by an exec; empty for any
/// other span.
pub open spec fn span_argv(s: SpanView) -> Seq<Seq<char>> {
    match s.init {
        InitView::Exec(argv) => argv,
        _ => Seq::empty(),
    }
}

/// The length of the longest chain of commands among the first `k`.
pub open spec fn tree_depth(cmds: Seq<CommandView>, k: nat) -> nat
    decreases k,
{
    if k == 0 {
        0
    } else {
        let before = tree_depth(cmds, (k - 1) as nat);
        if cmds[k - 1].depth + 1 > before {
            (cmds[k - 1].depth + 1) as nat
        } else {
            before
        }
    }
}

/// The command tree of a tracker with what the report needs beside it.
pub struct CommandTree {
    pub is_tty: bool,
    /// When the root span began.
    pub start_time: u64,
    /// The wall time of the root span, in nanoseconds.
    pub elapsed: u64,
    /// The length of the longest chain of commands.
    pub depth: usize,
    /// The commands, each before its children. The first is the root.
    pub commands: Vec<CommandSpan>,
    /// The groups, in the order in which their names first occur.
    pub groups: Vec<CommandGroup>,
}

/// What a `CommandTree` stands for.
pub struct TreeView {
    pub is_tty: bool,
    pub start_time: u64,
    pub elapsed: u64,
    pub depth: usize,
    pub commands: Seq<CommandView>,
    pub groups: Seq<GroupView>,
}

impl View for CommandTree {
    type V = TreeView;

    open spec fn view(&self) -> TreeView {
        TreeView {
            is_tty: self.is_tty,
            start_time: self.start_time,
            elapsed: self.elapsed,
            depth: self.depth,
            commands: commands_view(self.commands@),
            groups: groups_view(self.groups@),
        }
    }
}

impl TrackerView {
    /// Whether the command tree can be made: there is a root, the commands
    /// can be numbered, and the sums of the groups stay in range.
    pub open spec fn tree_fits(self) -> bool {
        &&& self.root matches Some(r)
        &&& self.command_tree(r as int).len() <= usize::MAX
        &&& self.grouped(self.command_tree(r as int), self.command_tree(r as int).len()) is Some
    }

    /// The command tree of the tracker.
    pub open spec fn tree_view(self, is_tty: bool) -> TreeView {
        let r = self.root->0 as int;
        let cmds = self.command_tree(r);
        TreeView {
            is_tty,
            start_time: self.spans[r].start_time,
            elapsed: span_elapsed(self.spans[r]),
            depth: tree_depth(cmds, cmds.len()) as usize,
            commands: cmds,
            groups: self.grouped(cmds, cmds.len())->0,
        }
    }
}

/// The wall time of a span in nanoseconds.
pub fn elapsed_of(span: &ThreadSpan) -> (elapsed: u64)
    ensures
        elapsed == span_elapsed(span@),
{
    if span.end_time >= span.start_time {
        span.end_time - span.start_time
    } else {
        0
    }
}

/// The argument vector of a span that began by an exec.
pub fn argv_of(span: &ThreadSpan) -> (argv: Option<&Vec<String>>)
    ensures
        match argv {
            Some(a) => span@.init == InitView::Exec(a.deep_view()),
            None => !(span@.init is Exec),
        },
{
    match &span.init {
        ThreadInit::Exec(argv) => Some(argv),
        _ => None,
    }
}

/// The name under which the command led by `span` is grouped.
fn name_of(span: &ThreadSpan) -> (name: String)
    ensures
        name@ == command_name(span_argv(span@)),
{
    match argv_of(span) {
        Some(argv) => normalized_name(argv),
        None => String::new(),
    }
}

impl CommandTree {
    /// The command tree of `tracker`, for a report to a terminal when
    /// `is_tty` holds.
    ///
    /// Fails with `NoRoot` exactly when the tracker has no root, and with
    /// `Overflow` exactly when it has one and `tree_fits` fails.
    pub fn new(tracker: &ThreadTracker, is_tty: bool) -> (result: Result<CommandTree, TrackerError>)
        requires
            tracker@.valid(),
        ensures
            result is Ok <==> tracker@.tree_fits(),
            result matches Ok(tree) ==> tree@ == tracker@.tree_view(is_tty) && appended_ok(
                tracker@,
                tree@.commands,
                0,
            ),
            result matches Err(e) ==> (e == TrackerError::NoRoot <==> tracker@.root is None) && (e
                == TrackerError::Overflow <==> tracker@.root is Some),
    {
        let ghost t = tracker@;
        let root = match tracker.root() {
            Some(root) => root,
            None => {
                return Err(TrackerError::NoRoot);
            },
        };
        let mut commands: Vec<CommandSpan> = Vec::new();
        assert(commands_view(commands@) =~= Seq::empty());
        match create_command(&mut commands, tracker, root, 0, None) {
            Ok(_) => {},
            Err(e) => {
                return Err(e);
            },
        }
        let ghost cmds = commands_view(commands@);
        let count = commands.len();
        let mut depth: usize = 0;
        let mut groups: Vec<CommandGroup> = Vec::new();
        assert(groups_view(groups@) =~= Seq::empty());
        proof {
            assert(cmds == t.command_tree(root as int));
            lemma_leads_in_range(t, root as int);
        }
        let mut k: usize = 0;
        while k < count
            invariant
                tracker@ == t,
                t.valid(),
                t.root == Some(root),
                k <= count,
                count == cmds.len(),
                cmds == commands_view(commands@),
                cmds == t.command_tree(root as int),
                depth == tree_depth(cmds, k as nat),
                depth <= t.spans.len(),
                t.grouped(cmds, k as nat) == Some(groups_view(groups@)),
                appended_ok(t, cmds, 0),
            decreases count - k,
        {
            assert(cmds[k as int] == commands@[k as int]@);
            let lead = tracker.span(commands[k].lead);
            if commands[k].depth + 1 > depth {
                depth = commands[k].depth + 1;
            }
            let name = name_of(lead);
            let place = find_group(&groups, &name);
            let ghost before = groups_view(groups@);
            if place == groups.len() {
                let mut group = CommandGroup {
                    name,
                    num_execs: 0,
                    total_rss_kb: 0,
                    max_rss_kb: 0,
                    total_elapsed: 0,
                    total_self_usage: ResourceUsage::new(),
                    total_tree_usage: ResourceUsage::new(),
                };
                match group.add(lead) {
                    Ok(()) => {},
                    Err(e) => {
                        proof {
                            lemma_grouped_none(t, cmds, (k + 1) as nat, count as nat);
                        }
                        return Err(e);
                    },
                }
                groups.push(group);
                assert(groups_view(groups@) =~= before.push(group@));
            } else {
                assert(before[place as int] == groups@[place as int]@);
                let added = groups[place].add(lead);
                if added.is_err() {
                    proof {
                        lemma_grouped_none(t, cmds, (k + 1) as nat, count as nat);
                    }
                    return Err(TrackerError::Overflow);
                }
                assert(groups_view(groups@) =~= before.update(place as int, groups@[place as int]@));
            }
            k = k + 1;
        }
        let span = tracker.span(root);
        Ok(
            CommandTree {
                is_tty,
                start_time: span.start_time,
                elapsed: elapsed_of(span),
                depth,
                commands,
                groups,
            },
        )
    }

    /// The number of commands.
    pub fn num_commands(&self) -> (n: usize)
        ensures
            n == self@.commands.len(),
    {
        self.commands.len()
    }
}

/// Every command of a tree is numbered by its place, is led by a span of
/// the tracker, lies no deeper than there are spans, and comes after its
/// parent.
pub proof fn lemma_leads_in_range(t: TrackerView, root: int)
    requires
        t.valid(),
        0 <= root < t.spans.len(),
        t.command_tree(root).len() <= usize::MAX,
    ensures
        appended_ok(t, t.command_tree(root), 0),
{
    lemma_created(t, root, Seq::empty(), 0, None);
}

} // verus!
