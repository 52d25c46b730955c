//! One span per observed thread: how it began, how it ended, and what it
//! used in between.

use vstd::prelude::*;
use crate::usage::ResourceUsage;

verus! {

/// Why a span ended.
#[derive(Clone, Copy, Debug, PartialEq, Eq, Structural)]
pub enum ThreadEndReason {
    /// The thread announced its exit with this code.
    ExitCode(i32),
    /// The thread was reaped with this code.
    LateExitCode(i32),
    /// The thread was killed by this signal.
    Signal(i32),
    /// The thread replaced its image; a new span carries on under its id.
    Exec,
}

/// The end of a span as the kernel reports it: the usage counted so far and
/// the reason.
#[derive(Clone, Copy, Debug)]
pub struct ThreadEnd {
    pub usage: ResourceUsage,
    pub reason: ThreadEndReason,
}

/// The kernel's usage record at a reap, field by field.
#[derive(Clone, Copy, Debug)]
pub struct RawUsage {
    pub maxrss: i64,
    pub utime_sec: i64,
    pub utime_usec: i64,
    pub stime_sec: i64,
    pub stime_usec: i64,
    pub inblock: i64,
    pub oublock: i64,
    pub majflt: i64,
}

/// Whether seconds and microseconds make a time that nanoseconds can hold:
/// neither is negative, the microseconds stay under a second, and the
/// total fits.
pub open spec fn timeval_ok(sec: i64, usec: i64) -> bool {
    &&& sec >= 0
    &&& 0 <= usec < 1_000_000
    &&& sec * 1_000_000_000 + usec * 1000 <= u64::MAX
}

/// Seconds and microseconds as nanoseconds.
pub open spec fn timeval_nanos(sec: i64, usec: i64) -> int {
    sec * 1_000_000_000 + usec * 1000
}

/// Seconds and microseconds as nanoseconds; `None` exactly when
/// `timeval_ok` fails.
pub fn timeval_to_duration(sec: i64, usec: i64) -> (nanos: Option<u64>)
    ensures
        nanos is Some <==> timeval_ok(sec, usec),
        nanos matches Some(n) ==> n == timeval_nanos(sec, usec),
{
    if sec < 0 || usec < 0 || usec >= 1_000_000 {
        return None;
    }
    let total: u128 = sec as u128 * 1_000_000_000 + usec as u128 * 1000;
    if total > u64::MAX as u128 {
        None
    } else {
        Some(total as u64)
    }
}

impl RawUsage {
    /// Whether the record holds counts that a usage can take over: no
    /// negative count, and CPU times that `timeval_ok` accepts.
    pub open spec fn well_formed(self) -> bool {
        &&& self.maxrss >= 0
        &&& self.inblock >= 0
        &&& self.oublock >= 0
        &&& self.majflt >= 0
        &&& timeval_ok(self.utime_sec, self.utime_usec)
        &&& timeval_ok(self.stime_sec, self.stime_usec)
    }

    /// The usage that the record stands for. Threads are not counted by the
    /// kernel record and start at zero.
    pub open spec fn usage(self) -> ResourceUsage {
        ResourceUsage {
            max_rss_kb: self.maxrss as u64,
            ucpu: timeval_nanos(self.utime_sec, self.utime_usec) as u64,
            kcpu: timeval_nanos(self.stime_sec, self.stime_usec) as u64,
            read_iops: self.inblock as u64,
            write_iops: self.oublock as u64,
            major_pf: self.majflt as u64,
            threads: 0,
        }
    }
}

impl ThreadEnd {
    /// The end of a span from the kernel's record; `None` exactly when the
    /// record is not well formed.
    pub fn from_rusage(reason: ThreadEndReason, rusage: &RawUsage) -> (end: Option<ThreadEnd>)
        ensures
            end is Some <==> rusage.well_formed(),
            end matches Some(e) ==> e.reason == reason && e.usage == rusage.usage(),
    {
        if rusage.maxrss < 0 || rusage.inblock < 0 || rusage.oublock < 0 || rusage.majflt < 0 {
            return None;
        }
        let ucpu = timeval_to_duration(rusage.utime_sec, rusage.utime_usec);
        let kcpu = timeval_to_duration(rusage.stime_sec, rusage.stime_usec);
        match (ucpu, kcpu) {
            (Some(ucpu), Some(kcpu)) => Some(
                ThreadEnd {
                    usage: ResourceUsage {
                        max_rss_kb: rusage.maxrss as u64,
                        ucpu,
                        kcpu,
                        read_iops: rusage.inblock as u64,
                        write_iops: rusage.oublock as u64,
                        major_pf: rusage.majflt as u64,
                        threads: 0,
                    },
                    reason,
                },
            ),
            _ => None,
        }
    }
}

/// How a span began.
#[derive(Debug)]
pub enum ThreadInit {
    /// Not yet known: the span was made for an event that names its thread
    /// before the thread's own first event arrived.
    Unknown,
    /// A fork: a new address space.
    Forked,
    /// A clone that shares the address space.
    Thread,
    /// An exec: a new command with this argument vector.
    Exec(Vec<String>),
}

/// What a `ThreadInit` stands for.
pub enum InitView {
    Unknown,
    Forked,
    Thread,
    Exec(Seq<Seq<char>>),
}

impl View for ThreadInit {
    type V = InitView;

    open spec fn view(&self) -> InitView {
        match self {
            ThreadInit::Unknown => InitView::Unknown,
            ThreadInit::Forked => InitView::Forked,
            ThreadInit::Thread => InitView::Thread,
            ThreadInit::Exec(argv) => InitView::Exec(argv.deep_view()),
        }
    }
}

/// One node of the span tree. Spans live in the tracker's arena and name
/// each other by their place in it.
#[derive(Debug)]
pub struct ThreadSpan {
    pub tid: i32,
    /// The span's number in order of first observation, from 1.
    pub ordinal: usize,
    pub start_time: u64,
    pub init: ThreadInit,
    /// Before the end: what the kernel had counted for the thread when the
    /// span began, which is zero unless the span began by an exec.
    /// After the end: what the span itself used.
    pub usage: ResourceUsage,
    pub parent: Option<usize>,
    pub children: Vec<usize>,
    pub end_reason: Option<ThreadEndReason>,
    pub end_time: u64,
    /// The usage of the span and of all below it.
    pub tree_usage: ResourceUsage,
}

/// What a `ThreadSpan` stands for.
pub struct SpanView {
    pub tid: i32,
    pub ordinal: usize,
    pub start_time: u64,
    pub init: InitView,
    pub usage: ResourceUsage,
    pub parent: Option<usize>,
    pub children: Seq<usize>,
    pub end_reason: Option<ThreadEndReason>,
    pub end_time: u64,
    pub tree_usage: ResourceUsage,
}

impl View for ThreadSpan {
    type V = SpanView;

    open spec fn view(&self) -> SpanView {
        SpanView {
            tid: self.tid,
            ordinal: self.ordinal,
            start_time: self.start_time,
            init: self.init@,
            usage: self.usage,
            parent: self.parent,
            children: self.children@,
            end_reason: self.end_reason,
            end_time: self.end_time,
            tree_usage: self.tree_usage,
        }
    }
}

impl SpanView {
    /// The span as it is first made: nothing known but its thread, its
    /// ordinal and the time.
    pub open spec fn placeholder(tid: i32, ordinal: usize, now: u64) -> SpanView {
        SpanView {
            tid,
            ordinal,
            start_time: now,
            init: InitView::Unknown,
            usage: ResourceUsage::zero(),
            parent: None,
            children: Seq::empty(),
            end_reason: None,
            end_time: now,
            tree_usage: ResourceUsage::zero(),
        }
    }
}

impl ThreadSpan {
    /// A span for a thread of which nothing is known yet.
    pub fn new(tid: i32, ordinal: usize, now: u64) -> (span: ThreadSpan)
        ensures
            span@ == SpanView::placeholder(tid, ordinal, now),
    {
        ThreadSpan {
            tid,
            ordinal,
            start_time: now,
            init: ThreadInit::Unknown,
            usage: ResourceUsage::new(),
            parent: None,
            children: Vec::new(),
            end_reason: None,
            end_time: now,
            tree_usage: ResourceUsage::new(),
        }
    }
}

} // verus!
