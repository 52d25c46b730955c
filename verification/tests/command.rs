use zb::command::{elapsed_of, CommandTree};
use zb::groups::CommandGroup;
use zb::span::{ThreadEnd, ThreadEndReason, ThreadSpan};
use zb::tracker::{ThreadTracker, TrackerError};
use zb::usage::ResourceUsage;

const MS: u64 = 1_000_000;

fn args(words: &[&str]) -> Vec<String> {
    words.iter().map(|w| w.to_string()).collect()
}

fn end(reason: ThreadEndReason) -> ThreadEnd {
    ThreadEnd { usage: ResourceUsage::new(), reason }
}

fn exec(t: &mut ThreadTracker, tid: i32, parent: i32, name: &str, now: u64) {
    t.handle_spawn(tid, parent, true, now).unwrap();
    t.handle_exec(tid, args(&[name]), Some(tid), end(ThreadEndReason::Exec), now, b"").unwrap();
}

/// make
/// ├─ (fork) ── cc a
/// │           └─ as a
/// ├─ cc b
/// └─ (thread) ── (fork) ── ld
fn build() -> ThreadTracker {
    let mut t = ThreadTracker::new(true, 100);
    t.handle_exec(1, args(&["make"]), None, end(ThreadEndReason::Exec), 0, b"").unwrap();
    t.handle_spawn(2, 1, true, MS).unwrap();
    exec(&mut t, 3, 2, "cc-a", 2 * MS);
    exec(&mut t, 4, 3, "as-a", 3 * MS);
    exec(&mut t, 5, 1, "cc-b", 4 * MS);
    t.handle_spawn(6, 1, false, 5 * MS).unwrap();
    t.handle_spawn(7, 6, true, 6 * MS).unwrap();
    exec(&mut t, 8, 7, "ld", 7 * MS);
    for tid in [8, 7, 6, 5, 4, 3, 2, 1] {
        t.finish_thread(tid, end(ThreadEndReason::ExitCode(0)), 10 * MS, b"").unwrap();
    }
    t
}

fn name_of(t: &ThreadTracker, tree: &CommandTree, place: usize) -> String {
    match &t.span(tree.commands[place].lead).init {
        zb::span::ThreadInit::Exec(argv) => argv[0].clone(),
        _ => panic!("a command is led by a span that began by an exec"),
    }
}

#[test]
fn commands_are_the_execs_and_what_lies_between_is_looked_through() {
    let mut t = build();
    t.compile_tree(0).unwrap();
    let tree = CommandTree::new(&t, false).unwrap();
    let names: Vec<String> = (0..tree.num_commands()).map(|j| name_of(&t, &tree, j)).collect();
    assert_eq!(names, vec!["make", "cc-a", "as-a", "cc-b", "ld"]);
    assert_eq!(tree.commands[0].children, vec![1, 3, 4]);
    assert_eq!(tree.commands[1].children, vec![2]);
    assert!(tree.commands[2].children.is_empty());
    assert!(tree.commands[3].children.is_empty());
    assert!(tree.commands[4].children.is_empty());
}

#[test]
fn ordinals_follow_a_walk_that_visits_each_command_before_its_children() {
    let mut t = build();
    t.compile_tree(0).unwrap();
    let tree = CommandTree::new(&t, false).unwrap();
    for (place, command) in tree.commands.iter().enumerate() {
        assert_eq!(command.ordinal, place + 1);
        for (m, child) in command.children.iter().enumerate() {
            assert!(*child > place);
            assert_eq!(tree.commands[*child].parent, Some(place));
            if m == 0 {
                assert_eq!(*child, place + 1);
            } else {
                assert!(command.children[m - 1] < *child);
            }
        }
    }
    // A walk from the root, each command before its children, meets the
    // ordinals 1, 2, 3, ... in this order.
    let mut walk = Vec::new();
    let mut stack = vec![0usize];
    while let Some(place) = stack.pop() {
        walk.push(tree.commands[place].ordinal);
        for child in tree.commands[place].children.iter().rev() {
            stack.push(*child);
        }
    }
    assert_eq!(walk, vec![1, 2, 3, 4, 5]);
}

#[test]
fn depth_parent_and_last_child_are_recorded() {
    let mut t = build();
    t.compile_tree(0).unwrap();
    let tree = CommandTree::new(&t, false).unwrap();
    let depths: Vec<usize> = tree.commands.iter().map(|c| c.depth).collect();
    assert_eq!(depths, vec![0, 1, 2, 1, 1]);
    assert_eq!(tree.depth, 3);
    let parents: Vec<Option<usize>> = tree.commands.iter().map(|c| c.parent).collect();
    assert_eq!(parents, vec![None, Some(0), Some(1), Some(0), Some(0)]);
    let last: Vec<bool> = tree.commands.iter().map(|c| c.last).collect();
    assert_eq!(last, vec![false, false, true, false, true]);
}

#[test]
fn the_tree_knows_the_time_of_the_root() {
    let mut t = ThreadTracker::new(true, 100);
    t.handle_exec(1, args(&["a"]), None, end(ThreadEndReason::Exec), 5 * MS, b"").unwrap();
    t.finish_thread(1, end(ThreadEndReason::ExitCode(0)), 12 * MS, b"").unwrap();
    let tree = CommandTree::new(&t, true).unwrap();
    assert!(tree.is_tty);
    assert_eq!(tree.start_time, 5 * MS);
    assert_eq!(tree.elapsed, 7 * MS);
    assert_eq!(tree.depth, 1);
    assert_eq!(elapsed_of(t.span(0)), 7 * MS);
}

#[test]
fn groups_sum_the_runs_of_a_name() {
    let mut t = ThreadTracker::new(true, 100);
    t.handle_exec(1, args(&["make"]), None, end(ThreadEndReason::Exec), 0, b"").unwrap();
    let mut tid = 10;
    let mut now = MS;
    for (rss, us, reads) in [(1000u64, 100u64, 1u64), (3000, 200, 2), (2000, 300, 3)] {
        t.handle_spawn(tid, 1, true, now).unwrap();
        t.handle_exec(tid, args(&["/usr/bin/cc", "-c"]), Some(tid), end(ThreadEndReason::Exec), now, b"").unwrap();
        let usage = ResourceUsage { max_rss_kb: rss, ucpu: 0, kcpu: 0, read_iops: reads, write_iops: 0, major_pf: 1, threads: 0 };
        let text = format!("{} 0 0", us * 1000);
        now += us * MS;
        t.finish_thread(tid, ThreadEnd { usage, reason: ThreadEndReason::ExitCode(0) }, now, text.as_bytes()).unwrap();
        tid += 1;
    }
    t.finish_thread(1, end(ThreadEndReason::ExitCode(0)), 700 * MS, b"").unwrap();
    t.compile_tree(0).unwrap();
    let tree = CommandTree::new(&t, false).unwrap();
    assert_eq!(tree.groups.len(), 2);
    assert_eq!(tree.groups[0].name, "make");
    assert_eq!(tree.groups[0].num_execs, 1);
    let cc = &tree.groups[1];
    assert_eq!(cc.name, "/usr/bin/cc");
    assert_eq!(cc.num_execs, 3);
    assert_eq!(cc.total_rss_kb, 6000);
    assert_eq!(cc.max_rss_kb, 3000);
    assert_eq!(cc.total_elapsed, 600 * MS);
    assert_eq!(cc.total_self_usage.cpu(), 600_000);
    assert_eq!(cc.total_self_usage.read_iops, 6);
    assert_eq!(cc.total_self_usage.major_pf, 3);
    assert_eq!(cc.total_tree_usage.threads, 3);
}

#[test]
fn a_group_refuses_a_sum_out_of_range() {
    let mut group = CommandGroup {
        name: "x".to_string(),
        num_execs: 1,
        total_rss_kb: u64::MAX - 10,
        max_rss_kb: 5,
        total_elapsed: 0,
        total_self_usage: ResourceUsage::new(),
        total_tree_usage: ResourceUsage::new(),
    };
    let mut lead = ThreadSpan::new(1, 1, 0);
    lead.usage.max_rss_kb = 11;
    assert_eq!(group.add(&lead), Err(TrackerError::Overflow));
    assert_eq!(group.num_execs, 1);
    assert_eq!(group.total_rss_kb, u64::MAX - 10);
    lead.usage.max_rss_kb = 10;
    assert_eq!(group.add(&lead), Ok(()));
    assert_eq!(group.num_execs, 2);
    assert_eq!(group.total_rss_kb, u64::MAX);
    assert_eq!(group.max_rss_kb, 10);
}

#[test]
fn self_cpu_of_all_commands_is_the_tree_cpu_of_the_root() {
    let mut t = ThreadTracker::new(true, 100);
    t.handle_exec(1, args(&["make"]), None, end(ThreadEndReason::Exec), 0, b"").unwrap();
    t.handle_spawn(2, 1, true, MS).unwrap();
    exec(&mut t, 3, 2, "cc", 2 * MS);
    t.handle_spawn(4, 3, false, 3 * MS).unwrap();
    exec(&mut t, 5, 1, "ld", 4 * MS);
    let mut us = 1000;
    for tid in [5, 4, 3, 2, 1] {
        let text = format!("{} 0 0", us * 1000);
        t.finish_thread(tid, end(ThreadEndReason::ExitCode(0)), 10 * MS, text.as_bytes()).unwrap();
        us += 777;
    }
    t.compile_tree(0).unwrap();
    let tree = CommandTree::new(&t, false).unwrap();
    assert_eq!(tree.num_commands(), 3);
    let commands: u128 = tree.commands.iter().map(|c| t.span(c.lead).usage.cpu()).sum();
    assert_eq!(commands, t.span(0).tree_usage.cpu());
    for place in 0..t.len() {
        assert!(t.span(place).tree_usage.cpu() >= t.span(place).usage.cpu());
    }
}

#[test]
fn there_are_as_many_commands_as_spans_that_began_by_an_exec() {
    let mut t = build();
    let execs = (0..t.len())
        .filter(|&i| matches!(t.span(i).init, zb::span::ThreadInit::Exec(_)))
        .count();
    assert_eq!(execs, 5);
    t.compile_tree(0).unwrap();
    let tree = CommandTree::new(&t, false).unwrap();
    assert_eq!(tree.num_commands(), execs);
}

#[test]
fn the_groups_hold_every_command_once() {
    let mut t = ThreadTracker::new(true, 100);
    t.handle_exec(1, args(&["make"]), None, end(ThreadEndReason::Exec), 0, b"").unwrap();
    let mut now = MS;
    let mut tid = 10;
    for (name, us) in [("cc", 300u64), ("ld", 100), ("cc", 250), ("sh", 7), ("cc", 1)] {
        t.handle_spawn(tid, 1, true, now).unwrap();
        t.handle_exec(tid, args(&[name]), Some(tid), end(ThreadEndReason::Exec), now, b"11000 0 0").unwrap();
        now += MS;
        let text = format!("{} 0 0", 11000 + us * 1000);
        t.finish_thread(tid, end(ThreadEndReason::ExitCode(0)), now, text.as_bytes()).unwrap();
        tid += 1;
    }
    t.finish_thread(1, end(ThreadEndReason::ExitCode(0)), now, b"5000 0 0").unwrap();
    t.compile_tree(0).unwrap();
    let tree = CommandTree::new(&t, false).unwrap();
    let runs: usize = tree.groups.iter().map(|g| g.num_execs).sum();
    assert_eq!(runs, tree.num_commands());
    assert_eq!(runs, 6);
    let cpu: u128 = tree.groups.iter().map(|g| g.total_self_usage.cpu()).sum();
    assert_eq!(cpu, t.span(0).tree_usage.cpu());
    // make: 5 us and five forks of 11 us each; the commands: 658 us.
    assert_eq!(cpu, (5 + 5 * 11 + 658) * 1000);
}
