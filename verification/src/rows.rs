//! The rows of the tree: one for each command, each command before its
//! children, drawn with branches.

use vstd::prelude::*;
use crate::command::{appended_ok, argv_of, elapsed_of, span_elapsed, CommandTree, CommandView, TreeView};
use crate::model::TrackerView;
use crate::paint::{paint_cell, painted};
use crate::report::{elapsed_text, format_elapsed};
use crate::span::{InitView, SpanView, ThreadSpan};
use crate::status::{failed, is_failure, status_of, status_text};
use crate::text::{
    clipped, decimal, pad_left, pad_right, percent_text, push_clipped, push_decimal,
    push_left_aligned, push_number, push_percent, push_right_aligned, push_seconds, push_spaces,
    repeat, seconds_text,
};
use crate::tracker::ThreadTracker;

verus! {

/// The first `k` arguments with a blank between each two.
pub open spec fn joined(argv: Seq<Seq<char>>, k: nat) -> Seq<char>
    decreases k,
{
    if k == 0 {
        Seq::empty()
    } else if k == 1 {
        argv[0]
    } else {
        joined(argv, (k - 1) as nat) + " "@ + argv[k - 1]
    }
}

/// The command line of a span that began by an exec.
pub open spec fn command_line(s: SpanView) -> Seq<char> {
    match s.init {
        InitView::Exec(argv) => joined(argv, argv.len()),
        _ => "ERROR: missing argv"@,
    }
}

/// The arguments with a blank between each two.
pub fn join_argv(argv: &Vec<String>) -> (line: String)
    ensures
        line@ == joined(argv.deep_view(), argv@.len()),
{
    let ghost args = argv.deep_view();
    assert(args.len() == argv@.len());
    assert forall|i: int| 0 <= i < argv@.len() implies #[trigger] args[i] == argv@[i]@ by {}
    let mut line = String::new();
    if argv.len() == 0 {
        return line;
    }
    line.append(argv[0].as_str());
    assert(line@ =~= args[0]);
    let mut k: usize = 1;
    while k < argv.len()
        invariant
            1 <= k <= argv@.len(),
            args == argv.deep_view(),
            forall|i: int| 0 <= i < argv@.len() ==> #[trigger] args[i] == argv@[i]@,
            line@ == joined(args, k as nat),
        decreases argv@.len() - k,
    {
        line.append(" ");
        line.append(argv[k].as_str());
        k = k + 1;
    }
    line
}

/// What one ancestor adds to the indent of the rows below it: room under
/// a last child, a rule under any other.
pub open spec fn segment(last: bool) -> Seq<char> {
    if last {
        "  "@
    } else {
        "│ "@
    }
}

/// The branch that leads to a row: none for the root, a corner for a last
/// child, a tee for any other.
pub open spec fn connector(c: CommandView) -> Seq<char> {
    if c.parent is None {
        Seq::empty()
    } else if c.last {
        "└─"@
    } else {
        "├─"@
    }
}

/// The indent of the row of command `j`: one segment for each command
/// above it, the root left out.
pub open spec fn indent_of(cmds: Seq<CommandView>, j: int) -> Seq<char>
    decreases j,
{
    if 0 <= j < cmds.len() {
        match cmds[j].parent {
            Some(p) => if p < j && cmds[p as int].parent is Some {
                indent_of(cmds, p as int) + segment(cmds[p as int].last)
            } else {
                Seq::empty()
            },
            None => Seq::empty(),
        }
    } else {
        Seq::empty()
    }
}

/// How far a command at `depth` stands above the deepest one of a tree of
/// depth `tree_depth`, counted in levels.
pub open spec fn levels_below(tree_depth: usize, depth: usize) -> nat {
    if tree_depth > depth {
        (tree_depth - depth) as nat
    } else {
        0
    }
}

/// The number of characters to which a command line is clipped: a
/// terminal gets 100, anything else as good as all.
pub open spec fn argv_cutoff(is_tty: bool) -> nat {
    if is_tty {
        100
    } else {
        60000
    }
}

/// When a span began, counted from `origin` in whole milliseconds.
pub open spec fn start_offset_ms(s: SpanView, origin: u64) -> int {
    if s.start_time >= origin {
        (s.start_time - origin) / 1_000_000
    } else {
        0
    }
}

/// The head of a row: indent, branch, the command's number, the blanks
/// that make up for the levels below, and the start offset.
pub open spec fn row_head(tv: TreeView, s: SpanView, j: int) -> Seq<char> {
    let c = tv.commands[j];
    let below = levels_below(tv.depth, c.depth);
    indent_of(tv.commands, j) + connector(c) + pad_right("#"@ + decimal(c.ordinal as nat), 5)
        + repeat(' ', below) + repeat(' ', below) + " "@ + elapsed_text(
        start_offset_ms(s, tv.start_time),
    ) + " "@
}

/// The times of a row: wall time, and the CPU time of the command and of
/// its tree as shares of it.
pub open spec fn row_times(s: SpanView) -> Seq<char> {
    let wall = span_elapsed(s) as nat;
    pad_left(seconds_text(wall), 9, ' ') + "s "@ + pad_left(
        percent_text(s.usage.cpu_spec(), wall),
        7,
        ' ',
    ) + "%cpu (tree: "@ + pad_left(percent_text(s.tree_usage.cpu_spec(), wall), 7, ' ')
        + "%cpu) "@
}

/// The counts of a row: resident set in MiB, reads and writes, major page
/// faults, threads.
pub open spec fn row_counts(s: SpanView) -> Seq<char> {
    pad_left(decimal((s.usage.max_rss_kb / 1024) as nat), 4, ' ') + " MB "@ + pad_left(
        s.usage.iops_text(),
        8,
        ' ',
    ) + " iops "@ + pad_left(decimal(s.usage.major_pf as nat), 4, ' ') + " PF "@ + pad_left(
        decimal(s.usage.threads as nat),
        4,
        ' ',
    ) + " threads "@
}

/// The status of a row in its column: in bright red when the command
/// failed and `red` holds.
pub open spec fn status_cell(s: SpanView, red: bool) -> Seq<char> {
    painted(pad_left(status_text(s.end_reason), 8, ' '), red && is_failure(s.end_reason))
}

/// The tail of a row: status and command line.
pub open spec fn row_tail(s: SpanView, cell: Seq<char>, is_tty: bool) -> Seq<char> {
    cell + " "@ + clipped(command_line(s), argv_cutoff(is_tty)) + "\n"@
}

/// The row of command `j`, led by span `s`.
pub open spec fn row_text(tv: TreeView, s: SpanView, j: int, red: bool) -> Seq<char> {
    row_head(tv, s, j) + row_times(s) + row_counts(s) + row_tail(s, status_cell(s, red), tv.is_tty)
}

/// The rows of the first `k` commands, each in bright red or not as
/// `paints` says.
pub open spec fn tree_text(t: TrackerView, tv: TreeView, paints: Seq<bool>, k: nat) -> Seq<char>
    decreases k,
{
    if k == 0 {
        Seq::empty()
    } else {
        tree_text(t, tv, paints, (k - 1) as nat) + row_text(
            tv,
            t.spans[tv.commands[k - 1].lead as int],
            k - 1,
            paints[k - 1],
        )
    }
}

fn head_of_row(tree: &CommandTree, lead: &ThreadSpan, j: usize, indent: &str) -> (head: String)
    requires
        j < tree@.commands.len(),
        indent@ == indent_of(tree@.commands, j as int),
    ensures
        head@ == row_head(tree@, lead@, j as int),
{
    let command = &tree.commands[j];
    assert(tree@.commands[j as int] == command@);
    let mut head = String::new();
    head.append(indent);
    assert(head@ =~= indent@);
    if command.parent.is_some() {
        if command.last {
            head.append("└─");
        } else {
            head.append("├─");
        }
    } else {
        assert(head@ =~= indent@ + connector(command@));
    }
    let mut number = String::new();
    number.append("#");
    assert(number@ =~= "#"@);
    push_decimal(&mut number, command.ordinal as u128);
    push_left_aligned(&mut head, number.as_str(), 5);
    let below: usize = if tree.depth > command.depth {
        tree.depth - command.depth
    } else {
        0
    };
    push_spaces(&mut head, below);
    push_spaces(&mut head, below);
    head.append(" ");
    let offset: u64 = if lead.start_time >= tree.start_time {
        (lead.start_time - tree.start_time) / 1_000_000
    } else {
        0
    };
    format_elapsed(offset as i64, &mut head);
    head.append(" ");
    head
}

fn times_of_row(lead: &ThreadSpan) -> (times: String)
    ensures
        times@ == row_times(lead@),
{
    let wall = elapsed_of(lead);
    let mut times = String::new();
    push_seconds(&mut times, wall as u128, 9);
    assert(times@ =~= pad_left(seconds_text(wall as nat), 9, ' '));
    times.append("s ");
    push_percent(&mut times, lead.usage.cpu(), wall, 7);
    times.append("%cpu (tree: ");
    push_percent(&mut times, lead.tree_usage.cpu(), wall, 7);
    times.append("%cpu) ");
    times
}

fn counts_of_row(lead: &ThreadSpan) -> (counts: String)
    ensures
        counts@ == row_counts(lead@),
{
    let mut counts = String::new();
    push_number(&mut counts, (lead.usage.max_rss_kb / 1024) as u128, 4, false);
    assert(counts@ =~= pad_left(decimal((lead.usage.max_rss_kb / 1024) as nat), 4, ' '));
    counts.append(" MB ");
    push_right_aligned(&mut counts, lead.usage.format_iops().as_str(), 8);
    counts.append(" iops ");
    push_number(&mut counts, lead.usage.major_pf as u128, 4, false);
    counts.append(" PF ");
    push_number(&mut counts, lead.usage.threads as u128, 4, false);
    counts.append(" threads ");
    counts
}

/// The command line of `lead`.
fn line_of(lead: &ThreadSpan) -> (line: String)
    ensures
        line@ == command_line(lead@),
{
    match argv_of(lead) {
        Some(argv) => join_argv(argv),
        None => String::from_str("ERROR: missing argv"),
    }
}

fn tail_of_row(lead: &ThreadSpan, cell: &str, is_tty: bool) -> (tail: String)
    ensures
        tail@ == row_tail(lead@, cell@, is_tty),
{
    let mut tail = String::new();
    tail.append(cell);
    assert(tail@ =~= cell@);
    tail.append(" ");
    let cutoff: usize = if is_tty {
        100
    } else {
        60000
    };
    push_clipped(&mut tail, line_of(lead).as_str(), cutoff);
    tail.append("\n");
    tail
}

/// The row of command `j` with its status already in its cell.
fn format_row(tree: &CommandTree, lead: &ThreadSpan, j: usize, indent: &str, cell: &str) -> (row:
    String)
    requires
        j < tree@.commands.len(),
        indent@ == indent_of(tree@.commands, j as int),
    ensures
        row@ == row_head(tree@, lead@, j as int) + row_times(lead@) + row_counts(lead@) + row_tail(
            lead@,
            cell@,
            tree@.is_tty,
        ),
{
    let mut row = head_of_row(tree, lead, j, indent);
    row.append(times_of_row(lead).as_str());
    row.append(counts_of_row(lead).as_str());
    row.append(tail_of_row(lead, cell, tree.is_tty).as_str());
    row
}

/// The indent of the row of command `j`, given the indents of the rows
/// before it.
fn indent_for(tree: &CommandTree, indents: &Vec<String>, j: usize) -> (indent: String)
    requires
        j < tree@.commands.len(),
        indents@.len() == j,
        forall|x: int| 0 <= x < j ==> (#[trigger] indents@[x])@ == indent_of(tree@.commands, x),
        tree@.commands[j as int].parent matches Some(p) ==> p < j,
    ensures
        indent@ == indent_of(tree@.commands, j as int),
{
    let command = &tree.commands[j];
    assert(tree@.commands[j as int] == command@);
    let mut indent = String::new();
    match command.parent {
        Some(p) => {
            let above = &tree.commands[p];
            assert(tree@.commands[p as int] == above@);
            if above.parent.is_some() {
                indent.append(indents[p].as_str());
                assert(indent@ =~= indents@[p as int]@);
                if above.last {
                    indent.append("  ");
                } else {
                    indent.append("│ ");
                }
            }
        },
        None => {},
    }
    indent
}

/// Appends the rows of the tree, one for each command, each command
/// before its children.
///
/// Which failed commands come out in bright red is for `colored` to
/// decide; apart from that the rows are what `tree_text` says.
pub fn print_tree(output: &mut String, tracker: &ThreadTracker, tree: &CommandTree)
    requires
        tracker@.valid(),
        appended_ok(tracker@, tree@.commands, 0),
    ensures
        exists|paints: Seq<bool>|
            paints.len() == tree@.commands.len() && final(output)@ == old(output)@ + #[trigger] tree_text(
                tracker@,
                tree@,
                paints,
                tree@.commands.len(),
            ),
{
    let ghost t = tracker@;
    let ghost tv = tree@;
    let count = tree.commands.len();
    let mut text = String::new();
    let mut indents: Vec<String> = Vec::new();
    let ghost mut paints: Seq<bool> = Seq::empty();
    assert(text@ =~= tree_text(t, tv, paints, 0));
    let mut j: usize = 0;
    while j < count
        invariant
            tracker@ == t,
            tree@ == tv,
            t.valid(),
            appended_ok(t, tv.commands, 0),
            count == tv.commands.len(),
            j <= count,
            indents@.len() == j,
            paints.len() == j,
            forall|x: int| 0 <= x < j ==> (#[trigger] indents@[x])@ == indent_of(tv.commands, x),
            text@ == tree_text(t, tv, paints, j as nat),
        decreases count - j,
    {
        assert(tree@.commands[j as int] == tree.commands@[j as int]@);
        let ghost c = tv.commands[j as int];
        assert(c.lead < t.spans.len() && (c.parent matches Some(p) ==> p < j));
        let lead = tracker.span(tree.commands[j].lead);
        let indent = indent_for(tree, &indents, j);
        let status = status_of(lead.end_reason);
        let alarm = failed(lead.end_reason);
        let cell = paint_cell(status.as_str(), 8, alarm);
        let ghost red = cell@ != pad_left(status@, 8, ' ');
        assert(cell@ == status_cell(lead@, red));
        let row = format_row(tree, lead, j, indent.as_str(), cell.as_str());
        assert(row@ == row_text(tv, lead@, j as int, red));
        text.append(row.as_str());
        indents.push(indent);
        proof {
            let before = paints;
            paints = paints.push(red);
            lemma_tree_text_prefix(t, tv, before, paints, j as nat);
        }
        j = j + 1;
    }
    output.append(text.as_str());
}

/// The rows of the first `k` commands depend on the first `k` paints only.
proof fn lemma_tree_text_prefix(
    t: TrackerView,
    tv: TreeView,
    paints: Seq<bool>,
    more: Seq<bool>,
    k: nat,
)
    requires
        k <= paints.len() <= more.len(),
        forall|i: int| 0 <= i < k ==> paints[i] == more[i],
    ensures
        tree_text(t, tv, paints, k) == tree_text(t, tv, more, k),
    decreases k,
{
    if k > 0 {
        lemma_tree_text_prefix(t, tv, paints, more, (k - 1) as nat);
    }
}

} // verus!
