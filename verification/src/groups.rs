//! Groups: the runs of one command name taken together. The groups are
//! kept in a list, in the order in which their names first occur, so that
//! the table of groups comes out the same on every run.

use vstd::prelude::*;
use crate::command::{elapsed_of, span_argv, span_elapsed, CommandView};
use crate::model::TrackerView;
use crate::names::command_name;
use crate::span::{SpanView, ThreadSpan};
use crate::tracker::TrackerError;
use crate::usage::{larger, ResourceUsage};

verus! {

/// The runs of one command name taken together.
#[derive(Debug)]
pub struct CommandGroup {
    pub name: String,
    pub num_execs: usize,
    /// The sum of the resident sets, in KiB.
    pub total_rss_kb: u64,
    /// The largest resident set, in KiB.
    pub max_rss_kb: u64,
    /// The sum of the wall times, in nanoseconds.
    pub total_elapsed: u64,
    pub total_self_usage: ResourceUsage,
    pub total_tree_usage: ResourceUsage,
}

/// What a `CommandGroup` stands for.
pub struct GroupView {
    pub name: Seq<char>,
    pub num_execs: usize,
    pub total_rss_kb: u64,
    pub max_rss_kb: u64,
    pub total_elapsed: u64,
    pub total_self_usage: ResourceUsage,
    pub total_tree_usage: ResourceUsage,
}

impl View for CommandGroup {
    type V = GroupView;

    open spec fn view(&self) -> GroupView {
        GroupView {
            name: self.name@,
            num_execs: self.num_execs,
            total_rss_kb: self.total_rss_kb,
            max_rss_kb: self.max_rss_kb,
            total_elapsed: self.total_elapsed,
            total_self_usage: self.total_self_usage,
            total_tree_usage: self.total_tree_usage,
        }
    }
}

/// What a list of groups stands for.
pub open spec fn groups_view(groups: Seq<CommandGroup>) -> Seq<GroupView> {
    groups.map_values(|g: CommandGroup| g@)
}

impl GroupView {
    /// The group of `name` before any run.
    pub open spec fn empty(name: Seq<char>) -> GroupView {
        GroupView {
            name,
            num_execs: 0,
            total_rss_kb: 0,
            max_rss_kb: 0,
            total_elapsed: 0,
            total_self_usage: ResourceUsage::zero(),
            total_tree_usage: ResourceUsage::zero(),
        }
    }

    /// Whether the run led by span `s` can be added without a sum leaving
    /// its range.
    pub open spec fn fits(self, s: SpanView) -> bool {
        &&& self.num_execs + 1 <= usize::MAX
        &&& self.total_rss_kb + s.usage.max_rss_kb <= u64::MAX
        &&& self.total_elapsed + span_elapsed(s) <= u64::MAX
        &&& self.total_self_usage.all_fit(s.usage)
        &&& self.total_tree_usage.all_fit(s.tree_usage)
    }

    /// The group with the run led by span `s` added.
    pub open spec fn with_run(self, s: SpanView) -> GroupView {
        GroupView {
            name: self.name,
            num_execs: (self.num_execs + 1) as usize,
            total_rss_kb: (self.total_rss_kb + s.usage.max_rss_kb) as u64,
            max_rss_kb: larger(self.max_rss_kb, s.usage.max_rss_kb),
            total_elapsed: (self.total_elapsed + span_elapsed(s)) as u64,
            total_self_usage: self.total_self_usage.with_all(s.usage),
            total_tree_usage: self.total_tree_usage.with_all(s.tree_usage),
        }
    }
}

/// The place of the group named `name` among the first `k` groups; `k`
/// when none of them has that name.
pub open spec fn group_place(groups: Seq<GroupView>, name: Seq<char>, k: nat) -> nat
    decreases k,
{
    if k == 0 {
        0
    } else {
        let before = group_place(groups, name, (k - 1) as nat);
        if before < k - 1 {
            before
        } else if groups[k - 1].name == name {
            (k - 1) as nat
        } else {
            k
        }
    }
}

/// The groups after the run led by span `s` has been added under `name`:
/// to the group of that name, or to a new group at the end. `None` when a
/// sum leaves its range.
pub open spec fn groups_with(groups: Seq<GroupView>, name: Seq<char>, s: SpanView) -> Option<
    Seq<GroupView>,
> {
    let place = group_place(groups, name, groups.len());
    let group = if place < groups.len() {
        groups[place as int]
    } else {
        GroupView::empty(name)
    };
    if !group.fits(s) {
        None
    } else if place < groups.len() {
        Some(groups.update(place as int, group.with_run(s)))
    } else {
        Some(groups.push(group.with_run(s)))
    }
}

impl TrackerView {
    /// The groups of the first `k` commands of `cmds`, in the order in
    /// which their names first occur. `None` when a sum leaves its range.
    pub open spec fn grouped(self, cmds: Seq<CommandView>, k: nat) -> Option<Seq<GroupView>>
        decreases k,
    {
        if k == 0 {
            Some(Seq::empty())
        } else {
            match self.grouped(cmds, (k - 1) as nat) {
                Some(groups) => {
                    let s = self.spans[cmds[k - 1].lead as int];
                    groups_with(groups, command_name(span_argv(s)), s)
                },
                None => None,
            }
        }
    }
}

impl CommandGroup {
    /// Adds the run led by `lead`. Fails, leaving the group as it was,
    /// exactly when a sum leaves its range.
    pub fn add(&mut self, lead: &ThreadSpan) -> (result: Result<(), TrackerError>)
        ensures
            result is Ok <==> old(self)@.fits(lead@),
            result is Ok ==> final(self)@ == old(self)@.with_run(lead@),
            result matches Err(e) ==> e == TrackerError::Overflow && final(self)@ == old(self)@,
    {
        let rss_kb = lead.usage.max_rss_kb;
        let elapsed = elapsed_of(lead);
        if self.num_execs == usize::MAX || self.total_rss_kb > u64::MAX - rss_kb
            || self.total_elapsed > u64::MAX - elapsed {
            return Err(TrackerError::Overflow);
        }
        let mut self_usage = self.total_self_usage;
        let mut tree_usage = self.total_tree_usage;
        if self_usage.add_all(&lead.usage).is_err() || tree_usage.add_all(&lead.tree_usage).is_err() {
            return Err(TrackerError::Overflow);
        }
        self.num_execs = self.num_execs + 1;
        self.total_rss_kb = self.total_rss_kb + rss_kb;
        if rss_kb > self.max_rss_kb {
            self.max_rss_kb = rss_kb;
        }
        self.total_elapsed = self.total_elapsed + elapsed;
        self.total_self_usage = self_usage;
        self.total_tree_usage = tree_usage;
        Ok(())
    }
}

/// The place of the group named `name`; the number of groups when there is
/// none.
pub(crate) fn find_group(groups: &Vec<CommandGroup>, name: &String) -> (place: usize)
    ensures
        place == group_place(groups_view(groups@), name@, groups@.len()),
        place <= groups@.len(),
{
    let mut k: usize = 0;
    while k < groups.len()
        invariant
            k <= groups@.len(),
            group_place(groups_view(groups@), name@, k as nat) == k,
        decreases groups@.len() - k,
    {
        assert(groups_view(groups@)[k as int] == groups@[k as int]@);
        if groups[k].name == *name {
            proof {
                lemma_group_place_found(groups_view(groups@), name@, k as nat, groups@.len() as nat);
            }
            return k;
        }
        k = k + 1;
    }
    k
}

/// A group found at `k` is the group found among any more groups.
proof fn lemma_group_place_found(groups: Seq<GroupView>, name: Seq<char>, k: nat, m: nat)
    requires
        k < m <= groups.len(),
        group_place(groups, name, k) == k,
        groups[k as int].name == name,
    ensures
        group_place(groups, name, m) == k,
    decreases m,
{
    if m > k + 1 {
        lemma_group_place_found(groups, name, k, (m - 1) as nat);
    }
}

/// Once a sum of the groups has left its range, more commands do not mend
/// it.
pub proof fn lemma_grouped_none(t: TrackerView, cmds: Seq<CommandView>, k: nat, m: nat)
    requires
        k <= m,
        t.grouped(cmds, k) is None,
    ensures
        t.grouped(cmds, m) is None,
    decreases m,
{
    if k < m {
        lemma_grouped_none(t, cmds, k, (m - 1) as nat);
    }
}

} // verus!
