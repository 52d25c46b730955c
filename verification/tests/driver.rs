use zb::driver::{log_level, Action, Driver, Event, LogLevel, Note, Poll, Reaped, Step, TraceKind, ROOT_TAIL, TERMINATE_WINDOW};
use zb::report::report;
use zb::span::{RawUsage, ThreadEndReason, ThreadInit};

const MS: u64 = 1_000_000;

fn args(words: &[&str]) -> Vec<String> {
    words.iter().map(|w| w.to_string()).collect()
}

fn usage() -> RawUsage {
    RawUsage { maxrss: 2048, utime_sec: 0, utime_usec: 3000, stime_sec: 0, stime_usec: 1000, inblock: 8, oublock: 0, majflt: 0 }
}

fn event(reaped: Reaped, now: u64) -> Event {
    Event { reaped, usage: usage(), now, argv: Vec::new(), proc_text: b"2000000 0 0\n".to_vec() }
}

fn quiet(action: Action) -> Step {
    Step { action, note: Note::Quiet }
}

fn started() -> Driver {
    let mut driver = Driver::new(100, args(&["/bin/sh", "-c", "true"]), true, 100);
    let step = driver.step(&event(Reaped::Stopped { tid: 100, signal: 5, trap: true }, MS));
    assert_eq!(step, quiet(Action::Resume { tid: 100, signal: None, attach: true }));
    driver
}

#[test]
fn the_first_stop_makes_the_root_and_switches_tracing_on() {
    let driver = started();
    assert_eq!(driver.tracker.len(), 1);
    assert_eq!(driver.tracker.root(), Some(0));
    assert_eq!(driver.tracker.span(0).tid, 100);
    match &driver.tracker.span(0).init {
        ThreadInit::Exec(argv) => assert_eq!(argv, &args(&["/bin/sh", "-c", "true"])),
        _ => panic!("the root did not begin by an exec"),
    }
    assert_eq!(driver.root_end, None);
    assert_eq!(driver.deadline, None);
}

#[test]
fn a_later_stop_only_resumes() {
    let mut driver = started();
    let step = driver.step(&event(Reaped::Stopped { tid: 100, signal: 19, trap: false }, 2 * MS));
    assert_eq!(step, quiet(Action::Resume { tid: 100, signal: Some(19), attach: false }));
    let step = driver.step(&event(Reaped::Stopped { tid: 100, signal: 5, trap: true }, 2 * MS));
    assert_eq!(step, quiet(Action::Resume { tid: 100, signal: None, attach: false }));
    assert_eq!(driver.tracker.len(), 1);
}

#[test]
fn fork_vfork_and_clone_events_spawn() {
    let mut driver = started();
    for (kind, child, forked) in [(TraceKind::Fork, 101i64, true), (TraceKind::Vfork, 102, true), (TraceKind::Clone, 103, false)] {
        let step = driver.step(&event(Reaped::Traced { tid: 100, kind, message: Some(child) }, 2 * MS));
        assert_eq!(step, quiet(Action::Resume { tid: 100, signal: None, attach: false }));
        let place = driver.tracker.lookup(child as i32).unwrap();
        assert_eq!(driver.tracker.span(place).parent, Some(0));
        assert_eq!(matches!(driver.tracker.span(place).init, ThreadInit::Forked), forked);
        assert_eq!(matches!(driver.tracker.span(place).init, ThreadInit::Thread), !forked);
    }
}

#[test]
fn an_exec_event_starts_a_command() {
    let mut driver = started();
    driver.step(&event(Reaped::Traced { tid: 100, kind: TraceKind::Fork, message: Some(101) }, 2 * MS));
    let mut exec = event(Reaped::Traced { tid: 101, kind: TraceKind::Exec, message: Some(101) }, 3 * MS);
    exec.argv = args(&["true", ""]);
    let step = driver.step(&exec);
    assert_eq!(step, quiet(Action::Resume { tid: 101, signal: None, attach: false }));
    assert_eq!(driver.tracker.len(), 3);
    assert_eq!(driver.tracker.span(1).end_reason, Some(ThreadEndReason::Exec));
    assert_eq!(driver.tracker.span(1).usage.ucpu, 2_000_000);
    assert_eq!(driver.tracker.span(1).usage.max_rss_kb, 2048);
    match &driver.tracker.span(2).init {
        ThreadInit::Exec(argv) => assert_eq!(argv, &args(&["true", ""])),
        _ => panic!("no command"),
    }
}

#[test]
fn an_exit_event_carries_the_code_above_the_low_byte() {
    let mut driver = started();
    let step = driver.step(&event(Reaped::Traced { tid: 100, kind: TraceKind::Exit, message: Some(0x0300) }, 2 * MS));
    assert_eq!(step, quiet(Action::Resume { tid: 100, signal: None, attach: false }));
    assert_eq!(driver.tracker.span(0).end_reason, Some(ThreadEndReason::ExitCode(3)));
    assert_eq!(driver.root_end, None);
    let mut driver = started();
    driver.step(&event(Reaped::Traced { tid: 100, kind: TraceKind::Exit, message: Some(0x7f05) }, 2 * MS));
    assert_eq!(driver.tracker.span(0).end_reason, Some(ThreadEndReason::ExitCode(0x7f)));
}

#[test]
fn events_without_a_message_or_of_unknown_kind_change_nothing() {
    let mut driver = started();
    let resume = Action::Resume { tid: 100, signal: None, attach: false };
    for kind in [TraceKind::Fork, TraceKind::Vfork, TraceKind::Clone, TraceKind::Exec, TraceKind::Exit] {
        let step = driver.step(&event(Reaped::Traced { tid: 100, kind, message: None }, 2 * MS));
        assert_eq!(step, Step { action: resume, note: Note::NoMessage });
    }
    let step = driver.step(&event(Reaped::Traced { tid: 100, kind: TraceKind::Unknown, message: Some(1) }, 2 * MS));
    assert_eq!(step, Step { action: resume, note: Note::UnknownEvent });
    let step = driver.step(&event(Reaped::Traced { tid: 100, kind: TraceKind::VforkDone, message: Some(1) }, 2 * MS));
    assert_eq!(step, quiet(resume));
    let step = driver.step(&event(Reaped::Unexpected, 2 * MS));
    assert_eq!(step, Step { action: Action::Wait, note: Note::UnexpectedStatus });
    assert_eq!(driver.tracker.len(), 1);
    assert_eq!(driver.tracker.span(0).end_reason, None);
    assert_eq!(driver.tracker.clock(), MS);
}

#[test]
fn a_spawn_that_contradicts_the_tree_is_left_out() {
    let mut driver = started();
    let step = driver.step(&event(Reaped::Traced { tid: 100, kind: TraceKind::Fork, message: Some(100) }, 2 * MS));
    assert_eq!(step, Step { action: Action::Resume { tid: 100, signal: None, attach: false }, note: Note::Violation });
    assert_eq!(driver.tracker.len(), 1);
}

#[test]
fn the_reap_of_the_root_records_its_end_and_sets_the_deadline() {
    let mut driver = started();
    driver.step(&event(Reaped::Traced { tid: 100, kind: TraceKind::Fork, message: Some(101) }, 2 * MS));
    let step = driver.step(&event(Reaped::Exited { tid: 101, status: 4 }, 3 * MS));
    assert_eq!(step, quiet(Action::Wait));
    assert_eq!(driver.root_end, None);
    assert_eq!(driver.deadline, None);
    assert_eq!(driver.tracker.span(1).end_reason, Some(ThreadEndReason::LateExitCode(4)));
    let step = driver.step(&event(Reaped::Exited { tid: 100, status: 7 }, 5 * MS));
    assert_eq!(step, quiet(Action::Wait));
    assert_eq!(driver.root_end, Some(ThreadEndReason::ExitCode(7)));
    assert_eq!(driver.deadline, Some(5 * MS + ROOT_TAIL));
    assert_eq!(ROOT_TAIL, 200 * MS);
    assert_eq!(driver.exit_code(), 7);
    assert_eq!(driver.poll(false, 5 * MS + ROOT_TAIL - 1), Poll::Go);
    assert_eq!(driver.poll(false, 5 * MS + ROOT_TAIL), Poll::TimedOut);
}

#[test]
fn a_root_killed_by_a_signal_gives_exit_code_two() {
    let mut driver = started();
    let step = driver.step(&event(Reaped::Signaled { tid: 100, signal: 15 }, 5 * MS));
    assert_eq!(step, quiet(Action::Wait));
    assert_eq!(driver.root_end, Some(ThreadEndReason::Signal(15)));
    assert_eq!(driver.tracker.span(0).end_reason, Some(ThreadEndReason::Signal(15)));
    assert_eq!(driver.deadline, None);
    assert_eq!(driver.exit_code(), 2);
}

#[test]
fn the_loop_is_left_when_no_thread_is_left_or_waiting_fails() {
    let mut driver = started();
    assert_eq!(driver.step(&event(Reaped::NoChildren, 5 * MS)), quiet(Action::Leave));
    assert_eq!(driver.root_end, None);
    assert_eq!(driver.exit_code(), 2);
    assert_eq!(driver.step(&event(Reaped::Failed, 5 * MS)), Step { action: Action::Leave, note: Note::WaitFailed });
    assert_eq!(driver.root_end, Some(ThreadEndReason::ExitCode(2)));
    assert_eq!(driver.exit_code(), 2);
}

#[test]
fn a_malformed_usage_record_makes_the_loop_give_up() {
    let mut driver = started();
    let mut bad = event(Reaped::Exited { tid: 100, status: 0 }, 5 * MS);
    bad.usage.utime_usec = -1;
    assert_eq!(driver.step(&bad), Step { action: Action::Abort, note: Note::Broken });
    assert_eq!(driver.root_end, None);
    assert_eq!(driver.tracker.span(0).end_reason, None);
}

#[test]
fn the_user_gets_three_seconds_after_asking_to_stop() {
    let mut driver = started();
    assert_eq!(driver.poll(false, 10 * MS), Poll::Go);
    assert_eq!(driver.deadline, None);
    assert_eq!(driver.poll(true, 20 * MS), Poll::Announce);
    assert_eq!(driver.deadline, Some(20 * MS + TERMINATE_WINDOW));
    assert_eq!(TERMINATE_WINDOW, 3000 * MS);
    assert_eq!(driver.poll(true, 30 * MS), Poll::Go);
    assert_eq!(driver.deadline, Some(20 * MS + TERMINATE_WINDOW));
    assert_eq!(driver.poll(true, 3020 * MS), Poll::TimedOut);
    // A deadline near the end of time does not wrap.
    let mut driver = started();
    assert_eq!(driver.poll(true, u64::MAX - 5), Poll::Announce);
    assert_eq!(driver.deadline, Some(u64::MAX));
}

#[test]
fn a_deadline_that_is_set_is_not_moved_by_the_user() {
    let mut driver = started();
    driver.step(&event(Reaped::Exited { tid: 100, status: 0 }, 5 * MS));
    assert_eq!(driver.poll(true, 6 * MS), Poll::Go);
    assert_eq!(driver.deadline, Some(5 * MS + ROOT_TAIL));
}

#[test]
fn exit_codes_follow_the_end_of_the_root() {
    let mut driver = started();
    assert_eq!(driver.exit_code(), 2);
    driver.root_end = Some(ThreadEndReason::ExitCode(0));
    assert_eq!(driver.exit_code(), 0);
    driver.root_end = Some(ThreadEndReason::LateExitCode(9));
    assert_eq!(driver.exit_code(), 9);
    driver.root_end = Some(ThreadEndReason::Exec);
    assert_eq!(driver.exit_code(), 2);
}

#[test]
fn verbosity_maps_to_log_levels() {
    assert_eq!(log_level(0), LogLevel::Warn);
    assert_eq!(log_level(1), LogLevel::Info);
    assert_eq!(log_level(2), LogLevel::Debug);
    assert_eq!(log_level(3), LogLevel::Trace);
    assert_eq!(log_level(255), LogLevel::Trace);
}

#[test]
fn a_whole_run_of_a_shell_that_sleeps() {
    let mut driver = Driver::new(100, args(&["/bin/sh", "-c", "sleep 0.05"]), true, 100);
    let at = |reaped: Reaped, ms: u64, cpu_us: u64, argv: &[&str]| Event {
        reaped,
        usage: RawUsage { maxrss: 1024, utime_sec: 9, utime_usec: 0, stime_sec: 9, stime_usec: 0, inblock: 0, oublock: 0, majflt: 0 },
        now: ms * MS,
        argv: args(argv),
        proc_text: format!("{} 0 0\n", cpu_us * 1000).into_bytes(),
    };
    let mut actions = Vec::new();
    let events = [
        at(Reaped::Stopped { tid: 100, signal: 5, trap: true }, 0, 0, &[]),
        at(Reaped::Traced { tid: 100, kind: TraceKind::Fork, message: Some(101) }, 1, 0, &[]),
        at(Reaped::Stopped { tid: 101, signal: 19, trap: false }, 1, 0, &[]),
        at(Reaped::Traced { tid: 101, kind: TraceKind::Exec, message: Some(101) }, 2, 200, &["sleep", "0.05"]),
        at(Reaped::Traced { tid: 101, kind: TraceKind::Exit, message: Some(0) }, 52, 700, &[]),
        at(Reaped::Exited { tid: 101, status: 0 }, 52, 0, &[]),
        at(Reaped::Traced { tid: 100, kind: TraceKind::Exit, message: Some(0) }, 53, 1300, &[]),
        at(Reaped::Exited { tid: 100, status: 0 }, 53, 0, &[]),
        at(Reaped::NoChildren, 53, 0, &[]),
    ];
    for event in events.iter() {
        assert_eq!(driver.poll(false, event.now), Poll::Go);
        actions.push(driver.step(event).action);
    }
    assert_eq!(
        actions,
        vec![
            Action::Resume { tid: 100, signal: None, attach: true },
            Action::Resume { tid: 100, signal: None, attach: false },
            Action::Resume { tid: 101, signal: Some(19), attach: false },
            Action::Resume { tid: 101, signal: None, attach: false },
            Action::Resume { tid: 101, signal: None, attach: false },
            Action::Wait,
            Action::Resume { tid: 100, signal: None, attach: false },
            Action::Wait,
            Action::Leave,
        ]
    );
    assert_eq!(driver.exit_code(), 0);
    assert_eq!(driver.deadline, Some(253 * MS));
    let text = report(&mut driver.tracker, driver.root_end, false).unwrap();
    let expected = String::new()
        + "#1        00:00:00.000      0.053s     2.8%cpu (tree:     3.8%cpu)    1 MB      0+0 iops    0 PF    0 threads   [rc=0] /bin/sh -c sleep 0.05\n"
        + "└─#2      00:00:00.002      0.050s     1.0%cpu (tree:     1.0%cpu)    1 MB      0+0 iops    0 PF    0 threads   [rc=0] sleep 0.05\n"
        + "\n"
        + "/bin/sh: 2 commands   0.053s     3.8%cpu          0+0 iops      0 PF  Exited 0\n";
    assert_eq!(text, expected);
}
