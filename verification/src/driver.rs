//! The decisions of the event loop. The loop itself waits for the traced
//! threads and resumes them; what each reap means for the span tree, what
//! the loop is to do next, and when it is to stop is decided here.

use vstd::prelude::*;
use crate::span::{RawUsage, ThreadEnd, ThreadEndReason};
use crate::model::TrackerView;
use crate::tracker::{ThreadTracker, TrackerError};

verus! {

/// For how many nanoseconds reaps are still taken in after the root was
/// reaped.
pub const ROOT_TAIL: u64 = 200_000_000;

/// For how many nanoseconds reaps are still taken in after the user asked
/// the tracer to stop.
pub const TERMINATE_WINDOW: u64 = 3_000_000_000;

/// The kind of a trace event.
#[derive(Clone, Copy, Debug, PartialEq, Eq, Structural)]
pub enum TraceKind {
    Fork,
    Vfork,
    Clone,
    Exec,
    VforkDone,
    Exit,
    Unknown,
}

/// What one reap brought.
#[derive(Clone, Copy, Debug, PartialEq, Eq, Structural)]
pub enum Reaped {
    /// The thread is gone, with this exit status.
    Exited { tid: i32, status: i32 },
    /// The thread is gone, killed by this signal.
    Signaled { tid: i32, signal: i32 },
    /// The thread stopped for a trace event; `message` is the event's
    /// message as far as it could be read.
    Traced { tid: i32, kind: TraceKind, message: Option<i64> },
    /// The thread stopped by this signal; `trap` says whether it is the
    /// trap signal by which the kernel delivers trace events.
    Stopped { tid: i32, signal: i32, trap: bool },
    /// A status that a traced thread should not report.
    Unexpected,
    /// There is no thread left to wait for.
    NoChildren,
    /// Waiting failed.
    Failed,
}

/// A reap with what was read along with it.
pub struct Event {
    pub reaped: Reaped,
    /// The usage record of the reap.
    pub usage: RawUsage,
    /// When the reap returned.
    pub now: u64,
    /// The argument vector of the new command, for an exec event.
    pub argv: Vec<String>,
    /// The statistics file of the thread whose span the event ends, as far
    /// as it could be read.
    pub proc_text: Vec<u8>,
}

/// What an `Event` stands for.
pub struct EventView {
    pub reaped: Reaped,
    pub usage: RawUsage,
    pub now: u64,
    pub argv: Seq<Seq<char>>,
    pub proc_text: Seq<u8>,
}

impl View for Event {
    type V = EventView;

    open spec fn view(&self) -> EventView {
        EventView {
            reaped: self.reaped,
            usage: self.usage,
            now: self.now,
            argv: self.argv.deep_view(),
            proc_text: self.proc_text@,
        }
    }
}

/// What the loop is to do after an event.
#[derive(Clone, Copy, Debug, PartialEq, Eq, Structural)]
pub enum Action {
    /// Wait for the next reap.
    Wait,
    /// Resume the thread, handing it `signal` if there is one, after
    /// switching on the tracing of its descendants if `attach` holds; then
    /// wait for the next reap.
    Resume { tid: i32, signal: Option<i32>, attach: bool },
    /// Leave the loop and report.
    Leave,
    /// Give up: the event cannot be taken in.
    Abort,
}

/// What the loop may want to log about an event.
#[derive(Clone, Copy, Debug, PartialEq, Eq, Structural)]
pub enum Note {
    Quiet,
    /// The event contradicts the tree and was left out.
    Violation,
    /// The message of a trace event could not be read; the event was left
    /// out.
    NoMessage,
    /// A trace event of a kind that is not handled.
    UnknownEvent,
    /// A status that a traced thread should not report.
    UnexpectedStatus,
    /// Waiting failed; the root counts as ended with code 2.
    WaitFailed,
    /// A count left its range, the usage record was malformed, or a first
    /// command was announced although the tree has its root.
    Broken,
}

/// The outcome of one step of the loop.
#[derive(Clone, Copy, Debug, PartialEq, Eq, Structural)]
pub struct Step {
    pub action: Action,
    pub note: Note,
}

/// What the loop is to do before it waits again.
#[derive(Clone, Copy, Debug, PartialEq, Eq, Structural)]
pub enum Poll {
    /// Wait for the next reap.
    Go,
    /// Tell the user that the tracer was asked to stop and now gives the
    /// command time to exit; then wait for the next reap.
    Announce,
    /// The time is up: leave the loop and report.
    TimedOut,
}

/// How far four levels of log output go.
#[derive(Clone, Copy, Debug, PartialEq, Eq, Structural)]
pub enum LogLevel {
    Warn,
    Info,
    Debug,
    Trace,
}

/// The log level for a count of `-v` flags.
pub open spec fn log_level_of(verbose: u8) -> LogLevel {
    if verbose == 0 {
        LogLevel::Warn
    } else if verbose == 1 {
        LogLevel::Info
    } else if verbose == 2 {
        LogLevel::Debug
    } else {
        LogLevel::Trace
    }
}

/// The log level for a count of `-v` flags.
pub fn log_level(verbose: u8) -> (level: LogLevel)
    ensures
        level == log_level_of(verbose),
{
    if verbose == 0 {
        LogLevel::Warn
    } else if verbose == 1 {
        LogLevel::Info
    } else if verbose == 2 {
        LogLevel::Debug
    } else {
        LogLevel::Trace
    }
}

/// The exit code with which the tracer ends: that of the root where it
/// exited, 2 where it was killed or its end is unknown.
pub open spec fn exit_code_of(root_end: Option<ThreadEndReason>) -> i32 {
    match root_end {
        Some(ThreadEndReason::ExitCode(code)) => code,
        Some(ThreadEndReason::LateExitCode(code)) => code,
        _ => 2,
    }
}

/// The thread id in the message of a spawn or exec event.
pub open spec fn message_tid(message: i64) -> i32 {
    message as i32
}

/// The exit code in the message of an exit event: the status word without
/// its low byte.
pub open spec fn message_exit_code(message: i64) -> i32 {
    (message as i32) >> 8
}

/// The later of two times that lie `window` apart, or the end of time.
pub open spec fn deadline_after(now: u64, window: u64) -> u64 {
    if now + window <= u64::MAX {
        (now + window) as u64
    } else {
        u64::MAX
    }
}

/// The state of the loop.
pub struct Driver {
    pub tracker: ThreadTracker,
    /// The command that is traced.
    pub command: Vec<String>,
    /// The thread id of the root.
    pub root_pid: i32,
    /// How the root ended, once it has.
    pub root_end: Option<ThreadEndReason>,
    /// When the loop is to stop at the latest.
    pub deadline: Option<u64>,
}

/// What a `Driver` stands for.
pub struct DriverView {
    pub tracker: TrackerView,
    pub command: Seq<Seq<char>>,
    pub root_pid: i32,
    pub root_end: Option<ThreadEndReason>,
    pub deadline: Option<u64>,
}

impl View for Driver {
    type V = DriverView;

    open spec fn view(&self) -> DriverView {
        DriverView {
            tracker: self.tracker@,
            command: self.command.deep_view(),
            root_pid: self.root_pid,
            root_end: self.root_end,
            deadline: self.deadline,
        }
    }
}

impl DriverView {
    /// The state before the loop waits again, and what the loop is to do.
    /// The first time that the user has asked the tracer to stop, the
    /// deadline is set, unless one is set already; once the deadline has
    /// come, the time is up.
    pub open spec fn polled(self, terminate: bool, now: u64) -> (DriverView, Poll) {
        let announce = terminate && self.deadline is None;
        let deadline = if announce {
            Some(deadline_after(now, TERMINATE_WINDOW))
        } else {
            self.deadline
        };
        let next = DriverView { deadline, ..self };
        if deadline matches Some(d) && now >= d {
            (next, Poll::TimedOut)
        } else if announce {
            (next, Poll::Announce)
        } else {
            (next, Poll::Go)
        }
    }

    /// The state with another tracker.
    pub open spec fn with_tracker(self, tracker: TrackerView) -> DriverView {
        DriverView { tracker, ..self }
    }

    /// The state after an end of thread `tid` was reported, and the step:
    /// the loop gives up where the span cannot be numbered.
    pub open spec fn after_finish(self, tid: i32, end: ThreadEnd, e: EventView, action: Action) -> (
        DriverView,
        Step,
    ) {
        if self.tracker.knows(tid) || self.tracker.room_for(1) {
            (
                self.with_tracker(self.tracker.finished(tid, end, e.now, e.proc_text)),
                Step { action, note: Note::Quiet },
            )
        } else {
            (self, Step { action: Action::Abort, note: Note::Broken })
        }
    }

    /// The state after a spawn, and the step: a spawn that contradicts the
    /// tree is left out, and the loop gives up where the new spans cannot
    /// be numbered.
    pub open spec fn after_spawn(self, tid: i32, parent_tid: i32, is_fork: bool, e: EventView) -> (
        DriverView,
        Step,
    ) {
        let resume = Action::Resume { tid: parent_tid, signal: None, attach: false };
        if self.tracker.spawn_rejected(tid, parent_tid) {
            (self, Step { action: resume, note: Note::Violation })
        } else if !self.tracker.room_for(self.tracker.spawn_growth(tid, parent_tid)) {
            (self, Step { action: Action::Abort, note: Note::Broken })
        } else {
            (
                self.with_tracker(self.tracker.spawned(tid, parent_tid, is_fork, e.now)),
                Step { action: resume, note: Note::Quiet },
            )
        }
    }

    /// The state after an exec, and the step: the loop gives up where a
    /// first command is announced although the tree has its root, and
    /// where the new spans cannot be numbered.
    pub open spec fn after_exec(
        self,
        tid: i32,
        argv: Seq<Seq<char>>,
        prev_tid: Option<i32>,
        end: ThreadEnd,
        e: EventView,
        action: Action,
    ) -> (DriverView, Step) {
        if self.tracker.exec_rejected(prev_tid) || !self.tracker.room_for(
            self.tracker.exec_growth(prev_tid),
        ) {
            (self, Step { action: Action::Abort, note: Note::Broken })
        } else {
            (
                self.with_tracker(
                    self.tracker.execed(tid, argv, prev_tid, end, e.now, e.proc_text),
                ),
                Step { action, note: Note::Quiet },
            )
        }
    }

    /// The state after a trace event of thread `tid`, and the step. The
    /// thread is resumed without a signal whatever the event was.
    pub open spec fn after_trace(
        self,
        tid: i32,
        kind: TraceKind,
        message: Option<i64>,
        usage: crate::usage::ResourceUsage,
        e: EventView,
    ) -> (DriverView, Step) {
        let resume = Action::Resume { tid, signal: None, attach: false };
        match kind {
            TraceKind::VforkDone => (self, Step { action: resume, note: Note::Quiet }),
            TraceKind::Unknown => (self, Step { action: resume, note: Note::UnknownEvent }),
            _ => match message {
                None => (self, Step { action: resume, note: Note::NoMessage }),
                Some(m) => match kind {
                    TraceKind::Fork => self.after_spawn(message_tid(m), tid, true, e),
                    TraceKind::Vfork => self.after_spawn(message_tid(m), tid, true, e),
                    TraceKind::Clone => self.after_spawn(message_tid(m), tid, false, e),
                    TraceKind::Exec => self.after_exec(
                        tid,
                        e.argv,
                        Some(message_tid(m)),
                        ThreadEnd { usage, reason: ThreadEndReason::Exec },
                        e,
                        resume,
                    ),
                    _ => self.after_finish(
                        tid,
                        ThreadEnd {
                            usage,
                            reason: ThreadEndReason::ExitCode(message_exit_code(m)),
                        },
                        e,
                        resume,
                    ),
                },
            },
        }
    }

    /// The state after the event `e`, and the step.
    ///
    /// A reaped thread ends its span; the reap of the root also records
    /// how the root ended, and an exit of the root sets the deadline for
    /// what is still to come. The first stop of all is that of the root
    /// before its command begins: it makes the root span and switches
    /// tracing on. A stopped thread is resumed with the signal that
    /// stopped it, unless that is the trap signal. When no thread is left
    /// the loop is left; when waiting fails it is left with the root
    /// counted as ended with code 2. A malformed usage record makes the
    /// loop give up.
    pub open spec fn after(self, e: EventView) -> (DriverView, Step) {
        if !e.usage.well_formed() {
            (self, Step { action: Action::Abort, note: Note::Broken })
        } else {
            let usage = e.usage.usage();
            match e.reaped {
                Reaped::Exited { tid, status } => {
                    let (next, step) = self.after_finish(
                        tid,
                        ThreadEnd { usage, reason: ThreadEndReason::LateExitCode(status) },
                        e,
                        Action::Wait,
                    );
                    if step.action == Action::Wait && tid == self.root_pid {
                        (
                            DriverView {
                                root_end: Some(ThreadEndReason::ExitCode(status)),
                                deadline: Some(deadline_after(next.tracker.clock, ROOT_TAIL)),
                                ..next
                            },
                            step,
                        )
                    } else {
                        (next, step)
                    }
                },
                Reaped::Signaled { tid, signal } => {
                    let (next, step) = self.after_finish(
                        tid,
                        ThreadEnd { usage, reason: ThreadEndReason::Signal(signal) },
                        e,
                        Action::Wait,
                    );
                    if step.action == Action::Wait && tid == self.root_pid {
                        (
                            DriverView { root_end: Some(ThreadEndReason::Signal(signal)), ..next },
                            step,
                        )
                    } else {
                        (next, step)
                    }
                },
                Reaped::Traced { tid, kind, message } => self.after_trace(
                    tid,
                    kind,
                    message,
                    usage,
                    e,
                ),
                Reaped::Stopped { tid, signal, trap } => {
                    let forward = if trap {
                        None
                    } else {
                        Some(signal)
                    };
                    if self.tracker.spans.len() == 0 {
                        self.after_exec(
                            tid,
                            self.command,
                            None,
                            ThreadEnd { usage, reason: ThreadEndReason::Exec },
                            e,
                            Action::Resume { tid, signal: forward, attach: true },
                        )
                    } else {
                        (
                            self,
                            Step {
                                action: Action::Resume { tid, signal: forward, attach: false },
                                note: Note::Quiet,
                            },
                        )
                    }
                },
                Reaped::Unexpected => (
                    self,
                    Step { action: Action::Wait, note: Note::UnexpectedStatus },
                ),
                Reaped::NoChildren => (self, Step { action: Action::Leave, note: Note::Quiet }),
                Reaped::Failed => (
                    DriverView { root_end: Some(ThreadEndReason::ExitCode(2)), ..self },
                    Step { action: Action::Leave, note: Note::WaitFailed },
                ),
            }
        }
    }
}

fn clone_argv(argv: &Vec<String>) -> (copy: Vec<String>)
    ensures
        copy.deep_view() == argv.deep_view(),
{
    let mut copy: Vec<String> = Vec::new();
    let mut i: usize = 0;
    while i < argv.len()
        invariant
            i <= argv@.len(),
            copy@.len() == i,
            forall|j: int| 0 <= j < i ==> (#[trigger] copy@[j])@ == argv@[j]@,
        decreases argv@.len() - i,
    {
        copy.push(argv[i].clone());
        i = i + 1;
    }
    assert(copy.deep_view() =~= argv.deep_view());
    copy
}

fn deadline_from(now: u64, window: u64) -> (deadline: u64)
    ensures
        deadline == deadline_after(now, window),
{
    if now > u64::MAX - window {
        u64::MAX
    } else {
        now + window
    }
}

impl Driver {
    /// The state of a loop that traces `command`, begun as thread
    /// `root_pid`.
    pub fn new(root_pid: i32, command: Vec<String>, have_schedstats: bool, ticks_per_sec: u64) -> (driver:
        Driver)
        ensures
            driver@.tracker == TrackerView::empty(have_schedstats, ticks_per_sec),
            driver@.command == command.deep_view(),
            driver@.root_pid == root_pid,
            driver@.root_end is None,
            driver@.deadline is None,
            driver@.tracker.valid(),
    {
        Driver {
            tracker: ThreadTracker::new(have_schedstats, ticks_per_sec),
            command,
            root_pid,
            root_end: None,
            deadline: None,
        }
    }

    /// Decides, before the loop waits again, whether it is to go on.
    /// `terminate` says whether the user has asked the tracer to stop.
    pub fn poll(&mut self, terminate: bool, now: u64) -> (poll: Poll)
        ensures
            (final(self)@, poll) == old(self)@.polled(terminate, now),
    {
        let announce = terminate && self.deadline.is_none();
        if announce {
            self.deadline = Some(deadline_from(now, TERMINATE_WINDOW));
        }
        match self.deadline {
            Some(d) => {
                if now >= d {
                    return Poll::TimedOut;
                }
            },
            None => {},
        }
        if announce {
            Poll::Announce
        } else {
            Poll::Go
        }
    }

    fn finish(&mut self, tid: i32, end: ThreadEnd, event: &Event, action: Action) -> (step: Step)
        requires
            old(self)@.tracker.valid(),
        ensures
            final(self)@.tracker.valid(),
            (final(self)@, step) == old(self)@.after_finish(tid, end, event@, action),
    {
        match self.tracker.finish_thread(tid, end, event.now, event.proc_text.as_slice()) {
            Ok(_) => Step { action, note: Note::Quiet },
            Err(_) => Step { action: Action::Abort, note: Note::Broken },
        }
    }

    fn spawn(&mut self, tid: i32, parent_tid: i32, is_fork: bool, event: &Event) -> (step: Step)
        requires
            old(self)@.tracker.valid(),
        ensures
            final(self)@.tracker.valid(),
            (final(self)@, step) == old(self)@.after_spawn(tid, parent_tid, is_fork, event@),
    {
        let resume = Action::Resume { tid: parent_tid, signal: None, attach: false };
        match self.tracker.handle_spawn(tid, parent_tid, is_fork, event.now) {
            Ok(()) => Step { action: resume, note: Note::Quiet },
            Err(TrackerError::Protocol) => Step { action: resume, note: Note::Violation },
            Err(_) => Step { action: Action::Abort, note: Note::Broken },
        }
    }

    fn exec(
        &mut self,
        tid: i32,
        argv: Vec<String>,
        prev_tid: Option<i32>,
        end: ThreadEnd,
        event: &Event,
        action: Action,
    ) -> (step: Step)
        requires
            old(self)@.tracker.valid(),
        ensures
            final(self)@.tracker.valid(),
            (final(self)@, step) == old(self)@.after_exec(
                tid,
                argv.deep_view(),
                prev_tid,
                end,
                event@,
                action,
            ),
    {
        if prev_tid.is_none() && self.tracker.root().is_some() {
            return Step { action: Action::Abort, note: Note::Broken };
        }
        match self.tracker.handle_exec(
            tid,
            argv,
            prev_tid,
            end,
            event.now,
            event.proc_text.as_slice(),
        ) {
            Ok(()) => Step { action, note: Note::Quiet },
            Err(_) => Step { action: Action::Abort, note: Note::Broken },
        }
    }

    fn trace(
        &mut self,
        tid: i32,
        kind: TraceKind,
        message: Option<i64>,
        usage: crate::usage::ResourceUsage,
        event: &Event,
    ) -> (step: Step)
        requires
            old(self)@.tracker.valid(),
        ensures
            final(self)@.tracker.valid(),
            (final(self)@, step) == old(self)@.after_trace(tid, kind, message, usage, event@),
    {
        let resume = Action::Resume { tid, signal: None, attach: false };
        match kind {
            TraceKind::VforkDone => Step { action: resume, note: Note::Quiet },
            TraceKind::Unknown => Step { action: resume, note: Note::UnknownEvent },
            _ => match message {
                None => Step { action: resume, note: Note::NoMessage },
                Some(m) => {
                    let other = #[verifier::truncate]
                    (m as i32);
                    match kind {
                        TraceKind::Fork => self.spawn(other, tid, true, event),
                        TraceKind::Vfork => self.spawn(other, tid, true, event),
                        TraceKind::Clone => self.spawn(other, tid, false, event),
                        TraceKind::Exec => self.exec(
                            tid,
                            clone_argv(&event.argv),
                            Some(other),
                            ThreadEnd { usage, reason: ThreadEndReason::Exec },
                            event,
                            resume,
                        ),
                        _ => self.finish(
                            tid,
                            ThreadEnd { usage, reason: ThreadEndReason::ExitCode(other >> 8) },
                            event,
                            resume,
                        ),
                    }
                },
            },
        }
    }

    /// Takes in one event and decides what the loop is to do next, as
    /// `after` says.
    pub fn step(&mut self, event: &Event) -> (step: Step)
        requires
            old(self)@.tracker.valid(),
        ensures
            final(self)@.tracker.valid(),
            (final(self)@, step) == old(self)@.after(event@),
    {
        let usage = match ThreadEnd::from_rusage(ThreadEndReason::Exec, &event.usage) {
            Some(end) => end.usage,
            None => {
                return Step { action: Action::Abort, note: Note::Broken };
            },
        };
        match event.reaped {
            Reaped::Exited { tid, status } => {
                let step = self.finish(
                    tid,
                    ThreadEnd { usage, reason: ThreadEndReason::LateExitCode(status) },
                    event,
                    Action::Wait,
                );
                if step.action == Action::Wait && tid == self.root_pid {
                    self.root_end = Some(ThreadEndReason::ExitCode(status));
                    self.deadline = Some(deadline_from(self.tracker.clock(), ROOT_TAIL));
                }
                step
            },
            Reaped::Signaled { tid, signal } => {
                let step = self.finish(
                    tid,
                    ThreadEnd { usage, reason: ThreadEndReason::Signal(signal) },
                    event,
                    Action::Wait,
                );
                if step.action == Action::Wait && tid == self.root_pid {
                    self.root_end = Some(ThreadEndReason::Signal(signal));
                }
                step
            },
            Reaped::Traced { tid, kind, message } => self.trace(tid, kind, message, usage, event),
            Reaped::Stopped { tid, signal, trap } => {
                let forward = if trap {
                    None
                } else {
                    Some(signal)
                };
                if self.tracker.is_empty() {
                    let command = clone_argv(&self.command);
                    self.exec(
                        tid,
                        command,
                        None,
                        ThreadEnd { usage, reason: ThreadEndReason::Exec },
                        event,
                        Action::Resume { tid, signal: forward, attach: true },
                    )
                } else {
                    Step {
                        action: Action::Resume { tid, signal: forward, attach: false },
                        note: Note::Quiet,
                    }
                }
            },
            Reaped::Unexpected => Step { action: Action::Wait, note: Note::UnexpectedStatus },
            Reaped::NoChildren => Step { action: Action::Leave, note: Note::Quiet },
            Reaped::Failed => {
                self.root_end = Some(ThreadEndReason::ExitCode(2));
                Step { action: Action::Leave, note: Note::WaitFailed }
            },
        }
    }

    /// The exit code with which the tracer ends.
    pub fn exit_code(&self) -> (code: i32)
        ensures
            code == exit_code_of(self@.root_end),
    {
        match self.root_end {
            Some(ThreadEndReason::ExitCode(code)) => code,
            Some(ThreadEndReason::LateExitCode(code)) => code,
            _ => 2,
        }
    }
}

/// The exit of the root decides: when the root is reaped with the status
/// `status`, the end of the root is an exit with that code and the tracer
/// ends with that code, whatever its descendants ended with. This holds
/// wherever the event can be taken in: the usage record is well formed and
/// the root's span can be numbered.
pub proof fn law_root_exit_decides(d: DriverView, e: EventView, status: i32)
    requires
        e.reaped == (Reaped::Exited { tid: d.root_pid, status }),
        e.usage.well_formed(),
        d.tracker.knows(d.root_pid) || d.tracker.room_for(1),
    ensures
        d.after(e).0.root_end == Some(ThreadEndReason::ExitCode(status)),
        exit_code_of(d.after(e).0.root_end) == status,
        d.after(e).0.deadline is Some,
        d.after(e).1.action == Action::Wait,
{
}

/// A root that is killed ends the tracer with code 2: when the root is
/// reaped as killed by `signal`, the end of the root is that signal. This
/// holds wherever the event can be taken in.
pub proof fn law_root_signal_decides(d: DriverView, e: EventView, signal: i32)
    requires
        e.reaped == (Reaped::Signaled { tid: d.root_pid, signal }),
        e.usage.well_formed(),
        d.tracker.knows(d.root_pid) || d.tracker.room_for(1),
    ensures
        d.after(e).0.root_end == Some(ThreadEndReason::Signal(signal)),
        exit_code_of(d.after(e).0.root_end) == 2,
{
}

/// Only the reap of the root and a failing wait touch the end of the
/// root: any other event leaves it as it was. A root whose end was never
/// seen ends the tracer with code 2.
pub proof fn law_root_end_kept(d: DriverView, e: EventView)
    requires
        !(e.reaped matches Reaped::Exited { tid, .. } && tid == d.root_pid),
        !(e.reaped matches Reaped::Signaled { tid, .. } && tid == d.root_pid),
        e.reaped != Reaped::Failed,
    ensures
        d.after(e).0.root_end == d.root_end,
        exit_code_of(None) == 2,
{
}

} // verus!
