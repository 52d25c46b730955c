use zb::span::{ThreadEnd, ThreadEndReason};
use zb::tracker::{ThreadTracker, TrackerError};
use zb::usage::ResourceUsage;

const MS: u64 = 1_000_000;

fn args(words: &[&str]) -> Vec<String> {
    words.iter().map(|w| w.to_string()).collect()
}

fn end(reason: ThreadEndReason, max_rss_kb: u64) -> ThreadEnd {
    ThreadEnd {
        usage: ResourceUsage { max_rss_kb, ucpu: 0, kcpu: 0, read_iops: 0, write_iops: 0, major_pf: 0, threads: 0 },
        reason,
    }
}

fn cpu(ms: u64) -> Vec<u8> {
    format!("{} 0 0\n", ms * MS).into_bytes()
}

/// A program that forks; the child spins 100 ms, the parent 80 ms.
fn fork_and_spin() -> ThreadTracker {
    let mut tracker = ThreadTracker::new(true, 100);
    tracker.handle_exec(10, args(&["workload_sim"]), None, end(ThreadEndReason::Exec, 0), 0, b"").unwrap();
    tracker.handle_spawn(11, 10, true, MS).unwrap();
    tracker.finish_thread(11, end(ThreadEndReason::ExitCode(0), 900), 101 * MS, &cpu(100)).unwrap();
    tracker.finish_thread(10, end(ThreadEndReason::ExitCode(0), 1200), 185 * MS, &cpu(80)).unwrap();
    tracker
}

#[test]
fn fork_and_spin_counts_each_span_for_itself_and_the_tree_together() {
    let mut tracker = fork_and_spin();
    assert_eq!(tracker.span(0).usage.cpu(), (80 * MS) as u128);
    assert_eq!(tracker.span(1).usage.cpu(), (100 * MS) as u128);
    tracker.compile_tree(0).unwrap();
    assert_eq!(tracker.span(0).tree_usage.cpu(), (180 * MS) as u128);
    assert_eq!(tracker.span(1).tree_usage.cpu(), (100 * MS) as u128);
}

#[test]
fn a_forked_child_counts_for_the_command_of_its_parent() {
    let mut tracker = fork_and_spin();
    tracker.compile_tree(0).unwrap();
    // The child did not exec, so it ran the parent's command.
    assert_eq!(tracker.span(0).usage.cpu(), (180 * MS) as u128);
    assert_eq!(tracker.span(0).usage.max_rss_kb, 1200);
    assert_eq!(tracker.span(0).tree_usage.max_rss_kb, 1200);
    assert_eq!(tracker.span(0).tree_usage.threads, 2);
    assert_eq!(tracker.span(1).tree_usage.threads, 1);
}

#[test]
fn an_exec_child_counts_for_the_tree_only() {
    let mut tracker = ThreadTracker::new(true, 100);
    tracker.handle_exec(10, args(&["sh"]), None, end(ThreadEndReason::Exec, 0), 0, b"").unwrap();
    tracker.handle_spawn(11, 10, true, MS).unwrap();
    tracker.handle_exec(11, args(&["cc"]), Some(11), end(ThreadEndReason::Exec, 100), 2 * MS, &cpu(1)).unwrap();
    tracker.finish_thread(11, end(ThreadEndReason::ExitCode(0), 5000), 50 * MS, &cpu(41)).unwrap();
    tracker.finish_thread(10, end(ThreadEndReason::ExitCode(0), 700), 60 * MS, &cpu(5)).unwrap();
    tracker.compile_tree(0).unwrap();
    // sh itself: 5 ms, and 1 ms of its fork before the exec.
    assert_eq!(tracker.span(0).usage.cpu(), (6 * MS) as u128);
    // cc itself: 41 ms less the 1 ms it began with.
    assert_eq!(tracker.span(2).usage.cpu(), (40 * MS) as u128);
    assert_eq!(tracker.span(2).tree_usage.cpu(), (40 * MS) as u128);
    // The fork as a tree: itself and cc.
    assert_eq!(tracker.span(1).tree_usage.cpu(), (41 * MS) as u128);
    assert_eq!(tracker.span(0).tree_usage.cpu(), (46 * MS) as u128);
    assert_eq!(tracker.span(0).tree_usage.max_rss_kb, 5000);
    assert_eq!(tracker.span(0).usage.max_rss_kb, 700);
    assert_eq!(tracker.span(0).tree_usage.threads, 3);
    // The tree used what its commands used themselves.
    let commands: u128 = tracker.span(0).usage.cpu() + tracker.span(2).usage.cpu();
    assert_eq!(commands, tracker.span(0).tree_usage.cpu());
    assert!(tracker.span(0).tree_usage.cpu() >= tracker.span(0).usage.cpu());
}

#[test]
fn the_end_of_a_tree_is_the_latest_end_in_it() {
    let mut tracker = ThreadTracker::new(true, 100);
    tracker.handle_exec(10, args(&["a"]), None, end(ThreadEndReason::Exec, 0), 0, b"").unwrap();
    tracker.handle_spawn(11, 10, true, MS).unwrap();
    tracker.handle_spawn(12, 11, true, 2 * MS).unwrap();
    tracker.finish_thread(10, end(ThreadEndReason::ExitCode(0), 0), 10 * MS, b"").unwrap();
    tracker.finish_thread(11, end(ThreadEndReason::ExitCode(0), 0), 20 * MS, b"").unwrap();
    tracker.finish_thread(12, end(ThreadEndReason::ExitCode(0), 0), 30 * MS, b"").unwrap();
    tracker.compile_tree(0).unwrap();
    assert_eq!(tracker.span(0).end_time, 30 * MS);
    assert_eq!(tracker.span(1).end_time, 30 * MS);
    assert_eq!(tracker.span(2).end_time, 30 * MS);
    assert_eq!(tracker.span(0).start_time, 0);
}

#[test]
fn spans_outside_the_tree_are_left_alone() {
    let mut tracker = fork_and_spin();
    tracker.finish_thread(77, end(ThreadEndReason::LateExitCode(0), 5), 190 * MS, &cpu(9)).unwrap();
    tracker.compile_tree(0).unwrap();
    assert_eq!(tracker.span(2).tree_usage, ResourceUsage::new());
    assert_eq!(tracker.span(2).usage.cpu(), (9 * MS) as u128);
}

#[test]
fn a_sum_out_of_range_fails_the_roll_up_and_changes_nothing() {
    let mut tracker = ThreadTracker::new(true, 100);
    tracker.handle_exec(10, args(&["a"]), None, end(ThreadEndReason::Exec, 0), 0, b"").unwrap();
    tracker.handle_spawn(11, 10, true, MS).unwrap();
    tracker.finish_thread(11, end(ThreadEndReason::ExitCode(0), 0), 2 * MS, b"9223372036854775807").unwrap();
    tracker.handle_spawn(12, 10, true, MS).unwrap();
    tracker.finish_thread(12, end(ThreadEndReason::ExitCode(0), 0), 2 * MS, b"9223372036854775807").unwrap();
    tracker.finish_thread(10, end(ThreadEndReason::ExitCode(0), 0), 3 * MS, b"2").unwrap();
    let before = tracker.span(0).usage;
    assert_eq!(tracker.compile_tree(0), Err(TrackerError::Overflow));
    assert_eq!(tracker.span(0).usage, before);
    assert_eq!(tracker.span(0).tree_usage, ResourceUsage::new());
    assert_eq!(tracker.span(1).tree_usage, ResourceUsage::new());
    // With one tick less the sums fit.
    let mut tracker = ThreadTracker::new(true, 100);
    tracker.handle_exec(10, args(&["a"]), None, end(ThreadEndReason::Exec, 0), 0, b"").unwrap();
    tracker.handle_spawn(11, 10, true, MS).unwrap();
    tracker.finish_thread(11, end(ThreadEndReason::ExitCode(0), 0), 2 * MS, b"9223372036854775807").unwrap();
    tracker.handle_spawn(12, 10, true, MS).unwrap();
    tracker.finish_thread(12, end(ThreadEndReason::ExitCode(0), 0), 2 * MS, b"9223372036854775807").unwrap();
    tracker.finish_thread(10, end(ThreadEndReason::ExitCode(0), 0), 3 * MS, b"1").unwrap();
    assert_eq!(tracker.compile_tree(0), Ok(()));
    assert_eq!(tracker.span(0).tree_usage.ucpu, u64::MAX);
}
