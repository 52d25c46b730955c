//! The table of groups: the runs of each command name taken together, the
//! name that used the most CPU time last.

use vstd::prelude::*;
use crate::command::CommandTree;
use crate::groups::{groups_view, CommandGroup, GroupView};
use crate::text::{
    decimal, pad_left, percent_text, push_number, push_percent, push_right_aligned, push_seconds,
    seconds_text,
};

verus! {

/// The CPU time that the runs of a group used themselves.
pub open spec fn group_cpu(g: GroupView) -> nat {
    g.total_self_usage.cpu_spec()
}

/// The ranking `order` with group `x` put in: behind every group that used
/// no more CPU time than it.
pub open spec fn inserted(order: Seq<usize>, x: usize, groups: Seq<GroupView>) -> Seq<usize>
    decreases order.len(),
{
    if order.len() == 0 {
        seq![x]
    } else if group_cpu(groups[order.last() as int]) <= group_cpu(groups[x as int]) {
        order.push(x)
    } else {
        inserted(order.drop_last(), x, groups).push(order.last())
    }
}

/// The places of the first `k` groups in ascending order of CPU time;
/// groups of equal CPU time keep their order.
pub open spec fn ranking(groups: Seq<GroupView>, k: nat) -> Seq<usize>
    decreases k,
{
    if k == 0 {
        Seq::empty()
    } else {
        inserted(ranking(groups, (k - 1) as nat), (k - 1) as usize, groups)
    }
}

/// The mean resident set of the runs of a group, in MiB.
pub open spec fn group_avg_mb(g: GroupView) -> nat {
    if g.num_execs == 0 {
        0
    } else {
        (((g.total_rss_kb / 1024) as int) / (g.num_execs as int)) as nat
    }
}

/// The row of a group.
pub open spec fn group_row(g: GroupView) -> Seq<char> {
    let wall = g.total_elapsed as nat;
    pad_left(seconds_text(group_cpu(g)), 9, ' ') + "s "@ + pad_left(
        percent_text(group_cpu(g), wall),
        7,
        ' ',
    ) + "%cpu (tree: "@ + pad_left(percent_text(g.total_tree_usage.cpu_spec(), wall), 7, ' ')
        + "%cpu) "@ + pad_left(decimal(group_avg_mb(g)), 4, ' ') + " MB avg "@ + pad_left(
        decimal((g.max_rss_kb / 1024) as nat),
        4,
        ' ',
    ) + " MB max "@ + pad_left(g.total_self_usage.iops_text(), 10, ' ') + " iops "@ + pad_left(
        decimal(g.num_execs as nat),
        5,
        ' ',
    ) + " execs  "@ + g.name + "\n"@
}

/// The rows of the first `k` groups of the ranking `order`.
pub open spec fn group_rows(groups: Seq<GroupView>, order: Seq<usize>, k: nat) -> Seq<char>
    decreases k,
{
    if k == 0 {
        Seq::empty()
    } else {
        group_rows(groups, order, (k - 1) as nat) + group_row(groups[order[k - 1] as int])
    }
}

/// Whether one of the first `k` groups has three runs or more.
pub open spec fn any_repeated(groups: Seq<GroupView>, k: nat) -> bool
    decreases k,
{
    if k == 0 {
        false
    } else {
        any_repeated(groups, (k - 1) as nat) || groups[k - 1].num_execs >= 3
    }
}

/// The table of groups: a heading and a row for each group, in ascending
/// order of CPU time. Empty unless some group has three runs or more.
pub open spec fn groups_text(groups: Seq<GroupView>) -> Seq<char> {
    if any_repeated(groups, groups.len()) {
        "\nGroup by command (most cpu-intensive last):\n"@ + group_rows(
            groups,
            ranking(groups, groups.len()),
            groups.len(),
        )
    } else {
        Seq::empty()
    }
}

/// A ranking of the first `k` groups holds the place of each of them
/// once, in ascending order of CPU time.
pub proof fn law_ranking_sorted(groups: Seq<GroupView>, k: nat)
    requires
        k <= groups.len(),
        k <= usize::MAX,
    ensures
        ranking(groups, k).len() == k,
        forall|a: int| 0 <= a < k ==> (#[trigger] ranking(groups, k)[a]) < k,
        forall|a: int, b: int|
            0 <= a < b < k ==> #[trigger] ranking(groups, k)[a] != #[trigger] ranking(groups, k)[b],
        forall|a: int, b: int|
            0 <= a < b < k ==> group_cpu(groups[#[trigger] ranking(groups, k)[a] as int])
                <= group_cpu(groups[#[trigger] ranking(groups, k)[b] as int]),
    decreases k,
{
    if k > 0 {
        law_ranking_sorted(groups, (k - 1) as nat);
        let before = ranking(groups, (k - 1) as nat);
        let x = (k - 1) as usize;
        lemma_inserted(before, x, groups);
        let r = ranking(groups, k);
        assert forall|a: int| 0 <= a < k implies (#[trigger] r[a]) < k by {
            if r[a] != x {
                let b = choose|b: int| 0 <= b < before.len() && before[b] == r[a];
                assert(before[b] < k - 1);
            }
        }
    }
}

/// Putting a group into a ranking keeps it a ranking.
pub proof fn lemma_inserted(order: Seq<usize>, x: usize, groups: Seq<GroupView>)
    requires
        forall|a: int, b: int|
            0 <= a < b < order.len() ==> group_cpu(groups[#[trigger] order[a] as int]) <= group_cpu(
                groups[#[trigger] order[b] as int],
            ),
    ensures
        inserted(order, x, groups).len() == order.len() + 1,
        forall|a: int|
            0 <= a < order.len() + 1 ==> (#[trigger] inserted(order, x, groups)[a]) == x || (exists|
                b: int,
            |
                0 <= b < order.len() && order[b] == inserted(order, x, groups)[a]),
        forall|a: int, b: int|
            0 <= a < b < order.len() + 1 ==> group_cpu(
                groups[#[trigger] inserted(order, x, groups)[a] as int],
            ) <= group_cpu(groups[#[trigger] inserted(order, x, groups)[b] as int]),
        (forall|a: int, b: int| 0 <= a < b < order.len() ==> #[trigger] order[a] != #[trigger] order[b])
            && (forall|a: int| 0 <= a < order.len() ==> #[trigger] order[a] != x) ==> forall|
            a: int,
            b: int,
        |
            0 <= a < b < order.len() + 1 ==> #[trigger] inserted(order, x, groups)[a]
                != #[trigger] inserted(order, x, groups)[b],
        inserted(order, x, groups).last() == x || (order.len() > 0 && inserted(
            order,
            x,
            groups,
        ).last() == order.last() && group_cpu(groups[x as int]) < group_cpu(
            groups[order.last() as int],
        )),
    decreases order.len(),
{
    let r = inserted(order, x, groups);
    if order.len() == 0 {
    } else if group_cpu(groups[order.last() as int]) <= group_cpu(groups[x as int]) {
        assert forall|a: int| 0 <= a < order.len() + 1 implies (#[trigger] r[a]) == x || (exists|
            b: int,
        |
            0 <= b < order.len() && order[b] == r[a]) by {
            if a < order.len() {
                assert(order[a] == r[a]);
            }
        }
        assert forall|a: int, b: int| 0 <= a < b < order.len() + 1 implies group_cpu(
            groups[#[trigger] r[a] as int],
        ) <= group_cpu(groups[#[trigger] r[b] as int]) by {
            if b < order.len() {
                assert(r[a] == order[a] && r[b] == order[b]);
            } else if a < order.len() - 1 {
                assert(r[a] == order[a]);
                assert(group_cpu(groups[order[a] as int]) <= group_cpu(
                    groups[order[order.len() - 1] as int],
                ));
            }
        }
    } else {
        let front = order.drop_last();
        assert forall|a: int, b: int| 0 <= a < b < front.len() implies group_cpu(
            groups[#[trigger] front[a] as int],
        ) <= group_cpu(groups[#[trigger] front[b] as int]) by {
            assert(front[a] == order[a] && front[b] == order[b]);
        }
        lemma_inserted(front, x, groups);
        let inner = inserted(front, x, groups);
        assert forall|a: int| 0 <= a < order.len() + 1 implies (#[trigger] r[a]) == x || (exists|
            b: int,
        |
            0 <= b < order.len() && order[b] == r[a]) by {
            if a < order.len() {
                assert(r[a] == inner[a]);
                if inner[a] != x {
                    let b = choose|b: int| 0 <= b < front.len() && front[b] == inner[a];
                    assert(order[b] == r[a]);
                }
            } else {
                assert(order[order.len() - 1] == r[a]);
            }
        }
        assert forall|a: int, b: int| 0 <= a < b < order.len() + 1 implies group_cpu(
            groups[#[trigger] r[a] as int],
        ) <= group_cpu(groups[#[trigger] r[b] as int]) by {
            if b < order.len() {
                assert(r[a] == inner[a] && r[b] == inner[b]);
            } else {
                assert(r[a] == inner[a]);
                if inner[a] != x {
                    let c = choose|c: int| 0 <= c < front.len() && front[c] == inner[a];
                    assert(order[c] == inner[a]);
                    if c < order.len() - 1 {
                        assert(group_cpu(groups[order[c] as int]) <= group_cpu(
                            groups[order[order.len() - 1] as int],
                        ));
                    }
                }
            }
        }
    }
}

/// The places of the groups in ascending order of CPU time.
fn rank_groups(groups: &Vec<CommandGroup>) -> (order: Vec<usize>)
    ensures
        order@ == ranking(groups_view(groups@), groups@.len()),
        order@.len() == groups@.len(),
        forall|a: int| 0 <= a < order@.len() ==> (#[trigger] order@[a]) < groups@.len(),
{
    let ghost gv = groups_view(groups@);
    let mut order: Vec<usize> = Vec::new();
    let mut k: usize = 0;
    while k < groups.len()
        invariant
            k <= groups@.len(),
            gv == groups_view(groups@),
            order@ == ranking(gv, k as nat),
            order@.len() == k,
            forall|a: int| 0 <= a < order@.len() ==> (#[trigger] order@[a]) < k,
        decreases groups@.len() - k,
    {
        assert(gv[k as int] == groups@[k as int]@);
        let cpu = groups[k].total_self_usage.cpu();
        let ghost before = order@;
        let mut pos = order.len();
        assert(before.subrange(0, pos as int) =~= before);
        assert(before.subrange(pos as int, before.len() as int) =~= Seq::<usize>::empty());
        while pos > 0 && groups[order[pos - 1]].total_self_usage.cpu() > cpu
            invariant
                pos <= order@.len(),
                order@ == before,
                order@.len() == k,
                k < groups@.len(),
                gv == groups_view(groups@),
                cpu == group_cpu(gv[k as int]),
                forall|a: int| 0 <= a < order@.len() ==> (#[trigger] order@[a]) < k,
                inserted(before, k, gv) == inserted(before.subrange(0, pos as int), k, gv) + before.subrange(
                    pos as int,
                    before.len() as int,
                ),
            decreases pos,
        {
            proof {
                let front = before.subrange(0, pos as int);
                assert(gv[before[pos - 1] as int] == groups@[before[pos - 1] as int]@);
                assert(front.last() == before[pos - 1]);
                assert(front.drop_last() =~= before.subrange(0, pos - 1));
                assert(inserted(front, k, gv) == inserted(front.drop_last(), k, gv).push(
                    front.last(),
                ));
                assert(inserted(front.drop_last(), k, gv).push(front.last()) + before.subrange(
                    pos as int,
                    before.len() as int,
                ) =~= inserted(before.subrange(0, pos - 1), k, gv) + before.subrange(
                    pos - 1,
                    before.len() as int,
                ));
            }
            pos = pos - 1;
        }
        proof {
            let front = before.subrange(0, pos as int);
            if pos > 0 {
                assert(gv[before[pos - 1] as int] == groups@[before[pos - 1] as int]@);
                assert(front.last() == before[pos - 1]);
            }
            assert(inserted(front, k, gv) == front.push(k));
        }
        order.insert(pos, k);
        assert(order@ =~= inserted(before, k, gv));
        k = k + 1;
    }
    order
}

fn format_group(group: &CommandGroup) -> (row: String)
    ensures
        row@ == group_row(group@),
{
    let cpu = group.total_self_usage.cpu();
    let wall = group.total_elapsed;
    let mut row = String::new();
    push_seconds(&mut row, cpu, 9);
    assert(row@ =~= pad_left(seconds_text(cpu as nat), 9, ' '));
    row.append("s ");
    push_percent(&mut row, cpu, wall, 7);
    row.append("%cpu (tree: ");
    push_percent(&mut row, group.total_tree_usage.cpu(), wall, 7);
    row.append("%cpu) ");
    let avg: u64 = if group.num_execs == 0 {
        0
    } else {
        (group.total_rss_kb / 1024) / (group.num_execs as u64)
    };
    push_number(&mut row, avg as u128, 4, false);
    row.append(" MB avg ");
    push_number(&mut row, (group.max_rss_kb / 1024) as u128, 4, false);
    row.append(" MB max ");
    push_right_aligned(&mut row, group.total_self_usage.format_iops().as_str(), 10);
    row.append(" iops ");
    push_number(&mut row, group.num_execs as u128, 5, false);
    row.append(" execs  ");
    row.append(group.name.as_str());
    row.append("\n");
    row
}

/// Appends the table of groups, as `groups_text` gives it.
pub fn print_groups(output: &mut String, tree: &CommandTree)
    ensures
        final(output)@ == old(output)@ + groups_text(tree@.groups),
{
    let ghost gv = tree@.groups;
    let count = tree.groups.len();
    let mut repeated = false;
    let mut k: usize = 0;
    while k < count
        invariant
            k <= count,
            count == tree.groups@.len(),
            gv == groups_view(tree.groups@),
            repeated == any_repeated(gv, k as nat),
        decreases count - k,
    {
        assert(gv[k as int] == tree.groups@[k as int]@);
        if tree.groups[k].num_execs >= 3 {
            repeated = true;
        }
        k = k + 1;
    }
    if !repeated {
        assert(output@ =~= old(output)@ + groups_text(gv));
        return ;
    }
    let order = rank_groups(&tree.groups);
    let mut text = String::new();
    text.append("\nGroup by command (most cpu-intensive last):\n");
    assert(text@ =~= "\nGroup by command (most cpu-intensive last):\n"@);
    let mut rows = String::new();
    assert(rows@ =~= group_rows(gv, order@, 0));
    let mut i: usize = 0;
    while i < count
        invariant
            i <= count,
            count == tree.groups@.len(),
            count == order@.len(),
            gv == groups_view(tree.groups@),
            forall|a: int| 0 <= a < order@.len() ==> (#[trigger] order@[a]) < count,
            rows@ == group_rows(gv, order@, i as nat),
        decreases count - i,
    {
        let place = order[i];
        assert(gv[place as int] == tree.groups@[place as int]@);
        rows.append(format_group(&tree.groups[place]).as_str());
        i = i + 1;
    }
    text.append(rows.as_str());
    output.append(text.as_str());
}

} // verus!
