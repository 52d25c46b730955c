use zb::report::report;
use zb::span::{ThreadEnd, ThreadEndReason};
use zb::tracker::ThreadTracker;
use zb::usage::ResourceUsage;

fn failing() -> ThreadTracker {
    let mut t = ThreadTracker::new(true, 100);
    let argv = vec!["/bin/false".to_string()];
    let none = ThreadEnd { usage: ResourceUsage::new(), reason: ThreadEndReason::Exec };
    t.handle_exec(1, argv, None, none, 0, b"").unwrap();
    let exit = ThreadEnd { usage: ResourceUsage::new(), reason: ThreadEndReason::ExitCode(1) };
    t.finish_thread(1, exit, 1_000_000, b"").unwrap();
    t
}

#[test]
fn failures_are_bright_red_when_colours_are_on_and_plain_when_they_are_off() {
    colored::control::set_override(true);
    let text = report(&mut failing(), Some(ThreadEndReason::ExitCode(1)), false).unwrap();
    assert!(text.contains("threads \x1b[91m  [rc=1]\x1b[0m /bin/false\n"));
    assert!(text.ends_with(" PF  \x1b[91mExited 1\x1b[0m\n"));
    assert_eq!(text.matches('\x1b').count(), 4);

    colored::control::set_override(false);
    let text = report(&mut failing(), Some(ThreadEndReason::ExitCode(1)), false).unwrap();
    assert!(text.contains("threads   [rc=1] /bin/false\n"));
    assert!(text.ends_with(" PF  Exited 1\n"));
    assert_eq!(text.matches('\x1b').count(), 0);
    colored::control::unset_override();
}
