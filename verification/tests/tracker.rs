use zb::span::{ThreadEnd, ThreadEndReason, ThreadInit};
use zb::tracker::{ThreadTracker, TrackerError};
use zb::usage::ResourceUsage;

const MS: u64 = 1_000_000;

fn args(words: &[&str]) -> Vec<String> {
    words.iter().map(|w| w.to_string()).collect()
}

fn end(reason: ThreadEndReason) -> ThreadEnd {
    ThreadEnd { usage: ResourceUsage::new(), reason }
}

fn end_with(reason: ThreadEndReason, max_rss_kb: u64, read_iops: u64, write_iops: u64, major_pf: u64) -> ThreadEnd {
    ThreadEnd {
        usage: ResourceUsage { max_rss_kb, ucpu: 777, kcpu: 888, read_iops, write_iops, major_pf, threads: 0 },
        reason,
    }
}

fn rooted(tid: i32) -> ThreadTracker {
    let mut tracker = ThreadTracker::new(true, 100);
    tracker.handle_exec(tid, args(&["/bin/prog"]), None, end(ThreadEndReason::Exec), 0, b"").unwrap();
    tracker
}

fn kind(tracker: &ThreadTracker, i: usize) -> &'static str {
    match tracker.span(i).init {
        ThreadInit::Unknown => "unknown",
        ThreadInit::Forked => "forked",
        ThreadInit::Thread => "thread",
        ThreadInit::Exec(_) => "exec",
    }
}

#[test]
fn a_new_tracker_is_empty() {
    let tracker = ThreadTracker::new(false, 250);
    assert!(tracker.is_empty());
    assert_eq!(tracker.len(), 0);
    assert_eq!(tracker.root(), None);
    assert_eq!(tracker.lookup(1), None);
    assert!(!tracker.have_schedstats());
    assert_eq!(tracker.clock(), 0);
}

#[test]
fn the_first_command_becomes_the_root() {
    let mut tracker = ThreadTracker::new(true, 100);
    let argv = args(&["/bin/sh", "-c", "true"]);
    assert_eq!(tracker.handle_exec(100, argv.clone(), None, end(ThreadEndReason::Exec), 5 * MS, b""), Ok(()));
    assert_eq!(tracker.len(), 1);
    assert_eq!(tracker.root(), Some(0));
    assert_eq!(tracker.lookup(100), Some(0));
    let root = tracker.span(0);
    assert_eq!(root.tid, 100);
    assert_eq!(root.ordinal, 1);
    assert_eq!(root.parent, None);
    assert_eq!(root.start_time, 5 * MS);
    assert_eq!(root.end_time, 5 * MS);
    assert_eq!(root.end_reason, None);
    assert_eq!(root.usage, ResourceUsage::new());
    match &root.init {
        ThreadInit::Exec(stored) => assert_eq!(stored, &argv),
        _ => panic!("the root did not begin by an exec"),
    }
}

#[test]
fn the_tracker_tells_whether_a_first_command_may_be_announced() {
    let mut tracker = ThreadTracker::new(true, 100);
    assert_eq!(tracker.root(), None);
    tracker.finish_thread(55, end(ThreadEndReason::LateExitCode(0)), MS, b"").unwrap();
    assert_eq!(tracker.root(), None);
    tracker.handle_exec(100, args(&["/bin/prog"]), None, end(ThreadEndReason::Exec), MS, b"").unwrap();
    assert_eq!(tracker.root(), Some(1));
    tracker.handle_exec(100, args(&["next"]), Some(100), end(ThreadEndReason::Exec), MS, b"").unwrap();
    assert_eq!(tracker.root(), Some(1));
}

#[test]
fn each_command_of_an_exec_chain_starts_from_the_counters_at_its_exec() {
    let reads = |n: u64, reason: ThreadEndReason| ThreadEnd {
        usage: ResourceUsage { max_rss_kb: 100 * n, ucpu: 5, kcpu: 5, read_iops: n, write_iops: 2 * n, major_pf: n / 10, threads: 0 },
        reason,
    };
    let cpu = |n: u64| format!("{} 0 0\n", n).into_bytes();
    let mut tracker = ThreadTracker::new(true, 100);
    tracker.handle_exec(7, args(&["a"]), None, reads(0, ThreadEndReason::Exec), 0, &cpu(0)).unwrap();
    tracker.handle_exec(7, args(&["b"]), Some(7), reads(10, ThreadEndReason::Exec), MS, &cpu(1000)).unwrap();
    // The second command starts from what the kernel had counted at its exec.
    assert_eq!(tracker.span(0).usage.read_iops, 10);
    assert_eq!(tracker.span(1).usage.read_iops, 10);
    assert_eq!(tracker.span(1).usage.ucpu, 1000);
    tracker.handle_exec(7, args(&["c"]), Some(7), reads(30, ThreadEndReason::Exec), 2 * MS, &cpu(3000)).unwrap();
    // The second command used 20 of the 30 reads itself; the third starts
    // from all 30, not from the 20 of the command before it.
    assert_eq!(tracker.span(1).usage.read_iops, 20);
    assert_eq!(tracker.span(1).usage.write_iops, 40);
    assert_eq!(tracker.span(1).usage.ucpu, 2000);
    assert_eq!(tracker.span(1).usage.kcpu, 0);
    assert_eq!(
        tracker.span(2).usage,
        ResourceUsage { max_rss_kb: 3000, ucpu: 3000, kcpu: 0, read_iops: 30, write_iops: 60, major_pf: 3, threads: 0 }
    );
    tracker.finish_thread(7, reads(60, ThreadEndReason::ExitCode(0)), 3 * MS, &cpu(6000)).unwrap();
    assert_eq!(
        tracker.span(2).usage,
        ResourceUsage { max_rss_kb: 6000, ucpu: 3000, kcpu: 0, read_iops: 30, write_iops: 60, major_pf: 3, threads: 0 }
    );
    // Nothing is counted twice: the three commands used 10, 20 and 30 reads.
    let reads: u64 = (0..3).map(|i| tracker.span(i).usage.read_iops).sum();
    assert_eq!(reads, 60);
    tracker.compile_tree(0).unwrap();
    assert_eq!(tracker.span(0).tree_usage.cpu(), 6000);
    assert_eq!(tracker.span(1).tree_usage.cpu(), 5000);
    assert_eq!(tracker.span(2).tree_usage.cpu(), 3000);
}

#[test]
fn a_command_after_a_span_that_had_ended_starts_from_the_counters_at_its_exec() {
    let mut tracker = rooted(100);
    tracker.handle_spawn(101, 100, false, MS).unwrap();
    tracker.finish_thread(101, end_with(ThreadEndReason::ExitCode(0), 10, 4, 4, 4), 2 * MS, b"500 0 0").unwrap();
    let before = tracker.span(1).usage;
    tracker.handle_exec(101, args(&["late"]), Some(101), end_with(ThreadEndReason::Exec, 20, 9, 9, 9), 3 * MS, b"900 0 0").unwrap();
    // The span that had ended keeps its usage and its reason.
    assert_eq!(tracker.span(1).usage, before);
    assert_eq!(tracker.span(1).end_reason, Some(ThreadEndReason::ExitCode(0)));
    assert_eq!(
        tracker.span(2).usage,
        ResourceUsage { max_rss_kb: 20, ucpu: 900, kcpu: 0, read_iops: 9, write_iops: 9, major_pf: 9, threads: 0 }
    );
}

#[test]
fn a_fork_hangs_the_child_below_its_parent() {
    let mut tracker = rooted(100);
    assert_eq!(tracker.handle_spawn(101, 100, true, 2 * MS), Ok(()));
    assert_eq!(tracker.len(), 2);
    assert_eq!(tracker.lookup(101), Some(1));
    let child = tracker.span(1);
    assert_eq!(child.tid, 101);
    assert_eq!(child.ordinal, 2);
    assert_eq!(child.parent, Some(0));
    assert_eq!(child.start_time, 2 * MS);
    assert_eq!(kind(&tracker, 1), "forked");
    assert_eq!(tracker.span(0).children, vec![1]);
}

#[test]
fn a_clone_makes_a_thread() {
    let mut tracker = rooted(100);
    tracker.handle_spawn(101, 100, false, MS).unwrap();
    assert_eq!(kind(&tracker, 1), "thread");
    tracker.handle_spawn(102, 100, true, MS).unwrap();
    assert_eq!(kind(&tracker, 2), "forked");
    assert_eq!(tracker.span(0).children, vec![1, 2]);
}

#[test]
fn a_spawn_by_an_unseen_parent_makes_the_parent_first() {
    let mut tracker = rooted(100);
    assert_eq!(tracker.handle_spawn(301, 300, true, MS), Ok(()));
    assert_eq!(tracker.len(), 3);
    assert_eq!(tracker.lookup(300), Some(1));
    assert_eq!(tracker.lookup(301), Some(2));
    assert_eq!(kind(&tracker, 1), "unknown");
    assert_eq!(tracker.span(1).parent, None);
    assert_eq!(tracker.span(1).children, vec![2]);
    assert_eq!(tracker.span(2).parent, Some(1));
    assert_eq!(tracker.span(1).ordinal, 2);
    assert_eq!(tracker.span(2).ordinal, 3);
}

#[test]
fn an_exec_ends_the_old_span_and_starts_a_new_one() {
    let mut tracker = rooted(100);
    tracker.handle_spawn(101, 100, true, MS).unwrap();
    let usage_at_exec = end_with(ThreadEndReason::Exec, 1500, 4, 2, 1);
    assert_eq!(
        tracker.handle_exec(101, args(&["sleep", "1"]), Some(101), usage_at_exec, 3 * MS, b"1000000 0 0\n"),
        Ok(())
    );
    assert_eq!(tracker.len(), 3);
    // The old span ended by exec, with the thread's own CPU time in place of
    // the process-wide one.
    let old = tracker.span(1);
    assert_eq!(old.end_reason, Some(ThreadEndReason::Exec));
    assert_eq!(old.end_time, 3 * MS);
    assert_eq!(
        old.usage,
        ResourceUsage { max_rss_kb: 1500, ucpu: 1_000_000, kcpu: 0, read_iops: 4, write_iops: 2, major_pf: 1, threads: 0 }
    );
    assert_eq!(old.children, vec![2]);
    // The new span starts from what the old one had used.
    let new = tracker.span(2);
    assert_eq!(new.tid, 101);
    assert_eq!(new.parent, Some(1));
    assert_eq!(new.usage, old.usage);
    assert_eq!(new.end_reason, None);
    assert_eq!(new.start_time, 3 * MS);
    assert_eq!(kind(&tracker, 2), "exec");
    // Only the newest span of the thread is live.
    assert_eq!(tracker.lookup(101), Some(2));
}

#[test]
fn an_exec_always_makes_a_new_span() {
    let mut tracker = rooted(100);
    tracker.handle_spawn(101, 100, false, MS).unwrap();
    // Thread 101 begins a command and takes over the id of its leader.
    tracker.handle_exec(100, args(&["next"]), Some(101), end(ThreadEndReason::Exec), 2 * MS, b"").unwrap();
    assert_eq!(tracker.len(), 3);
    assert_eq!(tracker.lookup(100), Some(2));
    assert_eq!(tracker.lookup(101), None);
    assert_eq!(tracker.span(2).parent, Some(1));
    assert_eq!(tracker.span(0).parent, None);
    assert_eq!(tracker.root(), Some(0));
}

#[test]
fn the_usage_of_a_command_is_net_of_what_it_inherited() {
    let mut tracker = rooted(100);
    tracker.handle_exec(100, args(&["second"]), Some(100), end_with(ThreadEndReason::Exec, 1000, 10, 5, 2), MS, b"4000 0 0").unwrap();
    let result = tracker.finish_thread(100, end_with(ThreadEndReason::ExitCode(0), 3000, 25, 5, 1), 2 * MS, b"10000 0 0");
    assert_eq!(result, Ok(1));
    assert_eq!(
        tracker.span(1).usage,
        ResourceUsage { max_rss_kb: 3000, ucpu: 6000, kcpu: 0, read_iops: 15, write_iops: 0, major_pf: 0, threads: 0 }
    );
}

#[test]
fn without_schedstats_the_tick_counts_are_read() {
    let mut tracker = ThreadTracker::new(false, 100);
    tracker.handle_exec(100, args(&["prog"]), None, end(ThreadEndReason::Exec), 0, b"").unwrap();
    let stat = b"100 (prog) S 1 100 100 0 -1 0 0 0 0 0 30 12 0 0 20 0 1 0 5 0 0";
    tracker.finish_thread(100, end_with(ThreadEndReason::ExitCode(0), 1, 0, 0, 0), MS, stat).unwrap();
    // 42 ticks at 100 ticks a second are 420 ms.
    assert_eq!(tracker.span(0).usage.ucpu, 420 * MS);
    assert_eq!(tracker.span(0).usage.kcpu, 0);
}

#[test]
fn a_missing_statistics_file_counts_as_no_cpu_time() {
    let mut tracker = rooted(100);
    tracker.finish_thread(100, end_with(ThreadEndReason::LateExitCode(0), 1, 0, 0, 0), MS, b"").unwrap();
    assert_eq!(tracker.span(0).usage.cpu(), 0);
}

#[test]
fn read_cpu_usage_overrides_the_cpu_times_only() {
    let tracker = ThreadTracker::new(true, 100);
    let mut usage = ResourceUsage { max_rss_kb: 1, ucpu: 2, kcpu: 3, read_iops: 4, write_iops: 5, major_pf: 6, threads: 7 };
    tracker.read_cpu_usage(&mut usage, b"999 1 1");
    assert_eq!(usage, ResourceUsage { max_rss_kb: 1, ucpu: 999, kcpu: 0, read_iops: 4, write_iops: 5, major_pf: 6, threads: 7 });
}

#[test]
fn an_end_of_an_unseen_thread_makes_its_span() {
    let mut tracker = rooted(100);
    assert_eq!(tracker.finish_thread(555, end(ThreadEndReason::LateExitCode(3)), 4 * MS, b""), Ok(1));
    assert_eq!(tracker.len(), 2);
    assert_eq!(kind(&tracker, 1), "unknown");
    assert_eq!(tracker.span(1).end_reason, Some(ThreadEndReason::LateExitCode(3)));
    assert_eq!(tracker.span(1).start_time, 4 * MS);
    assert_eq!(tracker.span(1).end_time, 4 * MS);
    assert_eq!(tracker.lookup(555), Some(1));
}

#[test]
fn a_late_reap_neither_counts_twice_nor_takes_a_signal_back() {
    let mut tracker = rooted(100);
    tracker.finish_thread(100, end_with(ThreadEndReason::Signal(9), 100, 1, 1, 1), MS, b"5000 0 0").unwrap();
    let first = tracker.span(0).usage;
    tracker.finish_thread(100, end_with(ThreadEndReason::LateExitCode(0), 900, 9, 9, 9), 2 * MS, b"9000 0 0").unwrap();
    assert_eq!(tracker.span(0).usage, first);
    assert_eq!(tracker.span(0).end_reason, Some(ThreadEndReason::Signal(9)));
    assert_eq!(tracker.span(0).end_time, 2 * MS);
}

#[test]
fn a_signal_replaces_an_exit_code_but_not_another_signal() {
    let mut tracker = rooted(100);
    tracker.finish_thread(100, end(ThreadEndReason::ExitCode(0)), MS, b"").unwrap();
    assert_eq!(tracker.span(0).end_reason, Some(ThreadEndReason::ExitCode(0)));
    tracker.finish_thread(100, end(ThreadEndReason::LateExitCode(1)), MS, b"").unwrap();
    assert_eq!(tracker.span(0).end_reason, Some(ThreadEndReason::ExitCode(0)));
    tracker.finish_thread(100, end(ThreadEndReason::Signal(15)), MS, b"").unwrap();
    assert_eq!(tracker.span(0).end_reason, Some(ThreadEndReason::Signal(15)));
    tracker.finish_thread(100, end(ThreadEndReason::Signal(9)), MS, b"").unwrap();
    assert_eq!(tracker.span(0).end_reason, Some(ThreadEndReason::Signal(15)));
    tracker.finish_thread(100, end(ThreadEndReason::ExitCode(4)), MS, b"").unwrap();
    assert_eq!(tracker.span(0).end_reason, Some(ThreadEndReason::Signal(15)));
}

#[test]
fn time_does_not_run_backwards() {
    let mut tracker = rooted(100);
    tracker.handle_spawn(101, 100, true, 10 * MS).unwrap();
    tracker.finish_thread(101, end(ThreadEndReason::ExitCode(0)), 4 * MS, b"").unwrap();
    assert_eq!(tracker.clock(), 10 * MS);
    assert_eq!(tracker.span(1).start_time, 10 * MS);
    assert_eq!(tracker.span(1).end_time, 10 * MS);
}

#[test]
fn a_thread_cannot_spawn_itself() {
    let mut tracker = rooted(100);
    assert_eq!(tracker.handle_spawn(100, 100, true, MS), Err(TrackerError::Protocol));
    assert_eq!(tracker.handle_spawn(7, 7, false, MS), Err(TrackerError::Protocol));
    assert_eq!(tracker.len(), 1);
    assert_eq!(tracker.clock(), 0);
}

#[test]
fn the_root_cannot_get_a_parent() {
    let mut tracker = rooted(100);
    assert_eq!(tracker.handle_spawn(100, 200, true, MS), Err(TrackerError::Protocol));
    assert_eq!(tracker.len(), 1);
    assert_eq!(tracker.lookup(200), None);
    tracker.handle_spawn(101, 100, true, MS).unwrap();
    // The chain of 101 ends in the root, so 101 cannot be spawned again.
    assert_eq!(tracker.handle_spawn(101, 300, true, MS), Err(TrackerError::Protocol));
    assert_eq!(tracker.len(), 2);
}

#[test]
fn a_span_cannot_become_its_own_ancestor() {
    let mut tracker = rooted(100);
    tracker.handle_spawn(301, 300, true, MS).unwrap();
    tracker.handle_spawn(302, 301, true, MS).unwrap();
    assert_eq!(tracker.handle_spawn(300, 302, true, MS), Err(TrackerError::Protocol));
    assert_eq!(tracker.handle_spawn(301, 300, true, MS), Err(TrackerError::Protocol));
    assert_eq!(tracker.span(1).parent, None);
    assert_eq!(tracker.span(1).children, vec![2]);
}

#[test]
fn an_orphan_tree_can_be_hung_below_a_span_of_another_tree() {
    let mut tracker = rooted(100);
    tracker.handle_spawn(301, 300, true, MS).unwrap();
    assert_eq!(tracker.handle_spawn(300, 100, true, 2 * MS), Ok(()));
    assert_eq!(tracker.span(1).parent, Some(0));
    assert_eq!(kind(&tracker, 1), "forked");
    assert_eq!(tracker.span(0).children, vec![1]);
    assert_eq!(tracker.span(2).parent, Some(1));
}

#[test]
fn an_exec_seen_before_its_spawn_hands_the_parent_to_the_head_of_the_chain() {
    let mut tracker = rooted(100);
    // Thread 101 is first seen by its exec.
    tracker.handle_exec(101, args(&["true"]), Some(101), end(ThreadEndReason::Exec), MS, b"").unwrap();
    assert_eq!(tracker.len(), 3);
    assert_eq!(kind(&tracker, 1), "unknown");
    assert_eq!(tracker.span(1).end_reason, Some(ThreadEndReason::Exec));
    assert_eq!(tracker.span(1).parent, None);
    assert_eq!(tracker.span(2).parent, Some(1));
    // Then the spawn arrives.
    assert_eq!(tracker.handle_spawn(101, 100, true, 2 * MS), Ok(()));
    assert_eq!(tracker.span(1).parent, Some(0));
    assert_eq!(tracker.span(2).parent, Some(1));
    assert_eq!(tracker.span(0).parent, None);
}

#[test]
fn spawn_and_exec_in_either_order_give_the_same_parents() {
    let mut in_order = rooted(100);
    in_order.handle_spawn(101, 100, true, MS).unwrap();
    in_order.handle_exec(101, args(&["true"]), Some(101), end(ThreadEndReason::Exec), 2 * MS, b"").unwrap();

    let mut reversed = rooted(100);
    reversed.handle_exec(101, args(&["true"]), Some(101), end(ThreadEndReason::Exec), MS, b"").unwrap();
    reversed.handle_spawn(101, 100, true, 2 * MS).unwrap();

    assert_eq!(in_order.len(), reversed.len());
    for i in 0..in_order.len() {
        assert_eq!(in_order.span(i).tid, reversed.span(i).tid);
        assert_eq!(in_order.span(i).ordinal, reversed.span(i).ordinal);
        assert_eq!(in_order.span(i).parent, reversed.span(i).parent);
    }
    assert_eq!(in_order.lookup(100), reversed.lookup(100));
    assert_eq!(in_order.lookup(101), reversed.lookup(101));
    assert_eq!(in_order.root(), reversed.root());
}

#[test]
fn exactly_one_span_is_an_exec_without_parent_and_it_is_the_first() {
    let mut tracker = rooted(100);
    tracker.handle_spawn(101, 100, true, MS).unwrap();
    tracker.handle_exec(101, args(&["a"]), Some(101), end(ThreadEndReason::Exec), MS, b"").unwrap();
    tracker.handle_exec(102, args(&["b"]), Some(102), end(ThreadEndReason::Exec), MS, b"").unwrap();
    tracker.handle_spawn(102, 101, false, MS).unwrap();
    tracker.finish_thread(900, end(ThreadEndReason::LateExitCode(0)), MS, b"").unwrap();
    tracker.handle_exec(100, args(&["c"]), Some(100), end(ThreadEndReason::Exec), MS, b"").unwrap();
    tracker.compile_tree(0).unwrap();
    let roots: Vec<usize> = (0..tracker.len())
        .filter(|&i| kind(&tracker, i) == "exec" && tracker.span(i).parent.is_none())
        .collect();
    assert_eq!(roots, vec![0]);
    assert_eq!(tracker.span(0).ordinal, 1);
    assert_eq!(tracker.root(), Some(0));
}

#[test]
fn ordinals_follow_first_observation() {
    let mut tracker = rooted(100);
    tracker.handle_spawn(101, 100, true, MS).unwrap();
    tracker.handle_spawn(102, 100, true, MS).unwrap();
    tracker.handle_exec(102, args(&["x"]), Some(102), end(ThreadEndReason::Exec), MS, b"").unwrap();
    tracker.finish_thread(101, end(ThreadEndReason::ExitCode(0)), MS, b"").unwrap();
    for i in 0..tracker.len() {
        assert_eq!(tracker.span(i).ordinal, i + 1);
    }
    assert_eq!(tracker.len(), 4);
}
