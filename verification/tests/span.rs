use zb::span::{timeval_to_duration, RawUsage, ThreadEnd, ThreadEndReason, ThreadSpan};
use zb::usage::ResourceUsage;

fn raw() -> RawUsage {
    RawUsage {
        maxrss: 2048,
        utime_sec: 1,
        utime_usec: 500_000,
        stime_sec: 0,
        stime_usec: 250,
        inblock: 16,
        oublock: 8,
        majflt: 3,
    }
}

#[test]
fn timeval_becomes_nanoseconds() {
    assert_eq!(timeval_to_duration(0, 0), Some(0));
    assert_eq!(timeval_to_duration(1, 500_000), Some(1_500_000_000));
    assert_eq!(timeval_to_duration(0, 999_999), Some(999_999_000));
    assert_eq!(timeval_to_duration(18_446_744_073, 709_551), Some(18_446_744_073_709_551_000));
}

#[test]
fn timeval_out_of_range_is_refused() {
    assert_eq!(timeval_to_duration(-1, 0), None);
    assert_eq!(timeval_to_duration(0, -1), None);
    assert_eq!(timeval_to_duration(0, 1_000_000), None);
    assert_eq!(timeval_to_duration(18_446_744_073, 709_552), None);
    assert_eq!(timeval_to_duration(i64::MAX, 0), None);
}

#[test]
fn from_rusage_takes_the_record_over() {
    let end = ThreadEnd::from_rusage(ThreadEndReason::ExitCode(7), &raw()).unwrap();
    assert_eq!(end.reason, ThreadEndReason::ExitCode(7));
    assert_eq!(
        end.usage,
        ResourceUsage {
            max_rss_kb: 2048,
            ucpu: 1_500_000_000,
            kcpu: 250_000,
            read_iops: 16,
            write_iops: 8,
            major_pf: 3,
            threads: 0,
        }
    );
}

#[test]
fn from_rusage_refuses_a_malformed_record() {
    let bad = [
        RawUsage { maxrss: -1, ..raw() },
        RawUsage { inblock: -1, ..raw() },
        RawUsage { oublock: -1, ..raw() },
        RawUsage { majflt: -1, ..raw() },
        RawUsage { utime_usec: 1_000_000, ..raw() },
        RawUsage { stime_sec: -5, ..raw() },
    ];
    for record in bad.iter() {
        assert!(ThreadEnd::from_rusage(ThreadEndReason::Exec, record).is_none());
    }
}

#[test]
fn a_new_span_knows_only_thread_ordinal_and_time() {
    let span = ThreadSpan::new(42, 3, 1000);
    assert_eq!(span.tid, 42);
    assert_eq!(span.ordinal, 3);
    assert_eq!(span.start_time, 1000);
    assert_eq!(span.end_time, 1000);
    assert!(matches!(span.init, zb::span::ThreadInit::Unknown));
    assert_eq!(span.parent, None);
    assert!(span.children.is_empty());
    assert_eq!(span.end_reason, None);
    assert_eq!(span.usage, ResourceUsage::new());
    assert_eq!(span.tree_usage, ResourceUsage::new());
}
