//! A server: its control session, and the windows it reports.
use vstd::prelude::*;

use crate::address;
use crate::address::SocketAddr;
use crate::config;
use crate::config::{Config, ConfigError, ConfigErrorOf};
use crate::metrics;
use crate::metrics::{Counters, CountersView, ProcSample, Snap};
use crate::netutil;
use crate::netutil::{AddrError, AddrFamily};
use crate::proto;
use crate::proto::{Assignment, MetricWindow};

verus! {

/// How long a window is, in nanoseconds.
pub const WINDOW_NS: u64 = 1_000_000_000;

/// How long before the end of a window sleeping gives way to watching the clock,
/// in nanoseconds.
pub const WINDOW_SPIN_NS: u64 = 200_000;

/// Where the control socket is to be bound.
#[derive(Debug, Clone)]
pub enum ControlBind {
    /// At this address.
    Addr(SocketAddr),
    /// At what this host resolves to, with this port.
    Resolve(String, u16),
}

/// Where the control socket is to be bound, from the configured address: an IP
/// address as it is, a name after it was resolved.
pub fn control_bind(client_addr: &str) -> (res: Result<ControlBind, AddrError>)
    ensures
        match (res, netutil::host_port(client_addr@)) {
            (Ok(ControlBind::Addr(a)), Ok((host, port))) => address::ip_of(host) == Some(a.ip)
                && a == (SocketAddr { ip: a.ip, port, flowinfo: 0, scope_id: 0 }),
            (Ok(ControlBind::Resolve(h, p)), Ok((host, port))) => address::ip_of(host) is None && h@
                == host && p == port,
            (Err(e), Err(a)) => e@ == a,
            _ => false,
        },
{
    match netutil::parse_host_port(client_addr) {
        Ok((host, port)) => match address::parse_ip(host.as_str()) {
            Some(ip) => Ok(ControlBind::Addr(SocketAddr::new(ip, port))),
            None => Ok(ControlBind::Resolve(host, port)),
        },
        Err(e) => Err(e),
    }
}

/// What a session waits for.
#[derive(Debug, Clone, Copy, PartialEq, Eq, Structural)]
pub enum Phase {
    /// The next message.
    Reading,
    /// The test to be started.
    Starting,
    /// The start to be acknowledged.
    AckStart,
    /// The failed start to be reported.
    Reporting,
    /// The stop to be acknowledged.
    AckStop,
    /// Nothing; the session is over.
    Over,
}

/// A control session with a client.
#[derive(Debug, Clone, Copy, PartialEq, Eq, Structural)]
pub struct Session {
    pub phase: Phase,
    /// A test is running.
    pub running: bool,
}

/// What happens to a session.
#[derive(Debug, Clone, Copy, PartialEq, Eq, Structural)]
pub enum Event {
    /// The client wants a test to be started.
    Start,
    /// The client wants the test to be stopped.
    Stop,
    /// The client sent something else.
    Other,
    /// The client is gone.
    Closed,
    /// The test was started.
    Started,
    /// The test could not be started.
    NotStarted,
    /// The reply was sent.
    Sent,
    /// The reply could not be sent.
    NotSent,
}

/// What a session does next.
#[derive(Debug, Clone, Copy, PartialEq, Eq, Structural)]
pub enum Action {
    /// Read the next message.
    Read,
    /// Start a test, after the one that is running, if any, was stopped.
    Start { stop_first: bool },
    /// Acknowledge the start.
    AckStart,
    /// Report that the test could not be started.
    Report,
    /// Acknowledge the stop, after the test that is running, if any, was stopped.
    AckStop { stop_first: bool },
    /// End the session, after the test that is running, if any, was stopped;
    /// with the error of the reply, if one could not be sent.
    End { stop_first: bool, failed: bool },
}

impl Session {
    /// The event can happen to a session that waits for this.
    pub open spec fn awaits(self, e: Event) -> bool {
        match self.phase {
            Phase::Reading => e is Start || e is Stop || e is Other || e is Closed,
            Phase::Starting => e is Started || e is NotStarted,
            Phase::AckStart | Phase::Reporting | Phase::AckStop => e is Sent || e is NotSent,
            Phase::Over => false,
        }
    }

    /// What a session does when something happens to it.
    pub open spec fn step(self, e: Event) -> (Session, Action) {
        match (self.phase, e) {
            (_, Event::Start) => (
                Session { phase: Phase::Starting, running: false },
                Action::Start { stop_first: self.running },
            ),
            (_, Event::Stop) => (
                Session { phase: Phase::AckStop, running: false },
                Action::AckStop { stop_first: self.running },
            ),
            (_, Event::Other) => (self, Action::Read),
            (_, Event::Closed) => (
                Session { phase: Phase::Over, running: false },
                Action::End { stop_first: self.running, failed: false },
            ),
            (_, Event::Started) => (
                Session { phase: Phase::AckStart, running: true },
                Action::AckStart,
            ),
            (_, Event::NotStarted) => (
                Session { phase: Phase::Reporting, ..self },
                Action::Report,
            ),
            (Phase::AckStart | Phase::AckStop, Event::NotSent) => (
                Session { phase: Phase::Over, running: false },
                Action::End { stop_first: self.running, failed: true },
            ),
            (_, Event::Sent | Event::NotSent) => (
                Session { phase: Phase::Reading, ..self },
                Action::Read,
            ),
        }
    }

    /// A session that has just begun.
    pub open spec fn fresh() -> Session {
        Session { phase: Phase::Reading, running: false }
    }

    /// Begins a session.
    pub fn new() -> (res: Session)
        ensures
            res == Session::fresh(),
    {
        Session { phase: Phase::Reading, running: false }
    }

    /// Something happened; says what to do next.
    pub fn on_event(&mut self, e: Event) -> (res: Action)
        requires
            old(self).awaits(e),
        ensures
            (*final(self), res) == old(self).step(e),
    {
        let was_running = self.running;
        match e {
            Event::Start => {
                self.phase = Phase::Starting;
                self.running = false;
                Action::Start { stop_first: was_running }
            },
            Event::Stop => {
                self.phase = Phase::AckStop;
                self.running = false;
                Action::AckStop { stop_first: was_running }
            },
            Event::Other => Action::Read,
            Event::Closed => {
                self.phase = Phase::Over;
                self.running = false;
                Action::End { stop_first: was_running, failed: false }
            },
            Event::Started => {
                self.phase = Phase::AckStart;
                self.running = true;
                Action::AckStart
            },
            Event::NotStarted => {
                self.phase = Phase::Reporting;
                Action::Report
            },
            Event::NotSent => {
                match self.phase {
                    Phase::Reporting => {
                        self.phase = Phase::Reading;
                        Action::Read
                    },
                    _ => {
                        self.phase = Phase::Over;
                        self.running = false;
                        Action::End { stop_first: was_running, failed: true }
                    },
                }
            },
            Event::Sent => {
                self.phase = Phase::Reading;
                Action::Read
            },
        }
    }
}

/// The session after the first `k` events.
pub open spec fn session_at(events: Seq<Event>, k: int) -> Session
    decreases k,
{
    if k <= 0 {
        Session::fresh()
    } else {
        session_at(events, k - 1).step(events[k - 1]).0
    }
}

/// The events can happen to a session, one after the other.
pub open spec fn can_happen(events: Seq<Event>) -> bool {
    forall|k: int|
        0 <= k < events.len() ==> session_at(events, k).awaits(#[trigger] events[k])
}

/// The action stops a running test.
pub open spec fn stops(a: Action) -> bool {
    match a {
        Action::Start { stop_first } => stop_first,
        Action::AckStop { stop_first } => stop_first,
        Action::End { stop_first, .. } => stop_first,
        _ => false,
    }
}

/// How many tests the first `k` events left running: those that were started
/// less those that were stopped.
pub open spec fn left_running(events: Seq<Event>, k: int) -> int
    decreases k,
{
    if k <= 0 {
        0
    } else {
        let before = left_running(events, k - 1);
        let (_, a) = session_at(events, k - 1).step(events[k - 1]);
        before + (if events[k - 1] is Started {
            1int
        } else {
            0
        }) - (if stops(a) {
            1int
        } else {
            0
        })
    }
}

/// At most one test runs at a time, none is stopped that does not run, and none
/// is left running when the session is over.
pub proof fn law_one_test_at_a_time(events: Seq<Event>, k: int)
    requires
        can_happen(events),
        0 <= k <= events.len(),
    ensures
        left_running(events, k) == (if session_at(events, k).running {
            1int
        } else {
            0
        }),
        session_at(events, k).phase == Phase::Over ==> left_running(events, k) == 0,
        session_at(events, k).phase == Phase::Starting ==> left_running(events, k) == 0,
    decreases k,
{
    if k > 0 {
        law_one_test_at_a_time(events, k - 1);
        assert(session_at(events, k - 1).awaits(events[k - 1]));
        lemma_not_running(events, k - 1);
    }
}

proof fn lemma_not_running(events: Seq<Event>, k: int)
    requires
        can_happen(events),
        0 <= k <= events.len(),
    ensures
        match session_at(events, k).phase {
            Phase::Starting | Phase::Reporting | Phase::AckStop | Phase::Over => !session_at(
                events,
                k,
            ).running,
            Phase::AckStart => session_at(events, k).running,
            Phase::Reading => true,
        },
    decreases k,
{
    if k > 0 {
        lemma_not_running(events, k - 1);
        assert(session_at(events, k - 1).awaits(events[k - 1]));
    }
}

/// Every request to start or stop gets one reply: a start is acknowledged or its
/// failure reported, a stop is acknowledged, before the next message is read.
pub proof fn law_requests_are_answered(s: Session)
    requires
        s.phase == Phase::Reading,
    ensures
        ({
            let asked = s.step(Event::Start).0;
            &&& asked.phase == Phase::Starting
            &&& asked.step(Event::Started).1 == Action::AckStart
            &&& asked.step(Event::NotStarted).1 == Action::Report
            &&& asked.step(Event::Started).0.step(Event::Sent) == (
                Session { phase: Phase::Reading, running: true },
                Action::Read,
            )
            &&& asked.step(Event::NotStarted).0.step(Event::Sent) == (
                Session { phase: Phase::Reading, running: false },
                Action::Read,
            )
        }),
        s.step(Event::Stop).1 == (Action::AckStop { stop_first: s.running }),
        s.step(Event::Stop).0.step(Event::Sent) == (
            Session { phase: Phase::Reading, running: false },
            Action::Read,
        ),
{
}

/// The end of window `i`, counted from 1, of a test that began at `origin`.
pub open spec fn deadline_of(origin: u64, i: u64) -> u64 {
    metrics::capped_sum(origin, metrics::capped_product(i, WINDOW_NS))
}

/// The end of window `i`, counted from 1, of a test that began at `origin`.
pub fn window_deadline(origin: u64, i: u64) -> (res: u64)
    ensures
        res == deadline_of(origin, i),
{
    let span: u64 = match i.checked_mul(WINDOW_NS) {
        Some(n) => n,
        None => u64::MAX,
    };
    origin.saturating_add(span)
}

/// How to wait for the end of a window.
#[derive(Debug, Clone, Copy, PartialEq, Eq, Structural)]
pub enum Wait {
    /// It has come.
    Reached,
    /// The test is over; the window is not reported.
    Cancelled,
    /// Sleep for that many nanoseconds, then look again.
    Sleep(u64),
    /// It is close: look again at once.
    Spin,
}

/// How to wait for a deadline. A window whose end was not reached is never
/// reported, and sleep ends before the deadline.
pub fn wait_step(now: u64, deadline: u64, cancelled: bool) -> (res: Wait)
    ensures
        res == Wait::Reached <==> now >= deadline,
        res == Wait::Cancelled <==> now < deadline && cancelled,
        res == Wait::Spin <==> now < deadline && !cancelled && deadline - now <= WINDOW_SPIN_NS,
        match res {
            Wait::Sleep(ns) => ns > 0 && now + ns + WINDOW_SPIN_NS == deadline,
            _ => true,
        },
{
    if now >= deadline {
        return Wait::Reached;
    }
    if cancelled {
        return Wait::Cancelled;
    }
    let remain: u64 = deadline - now;
    if remain > WINDOW_SPIN_NS {
        Wait::Sleep(remain - WINDOW_SPIN_NS)
    } else {
        Wait::Spin
    }
}

/// Windows end on a grid of whole seconds from the origin: each is a second after
/// the one before it.
pub proof fn law_windows_on_the_grid(origin: u64, i: u64)
    requires
        origin + (i + 1) * WINDOW_NS <= u64::MAX,
    ensures
        deadline_of(origin, 0) == origin,
        deadline_of(origin, (i + 1) as u64) == deadline_of(origin, i) + WINDOW_NS,
{
}

/// What the loop that reports windows is about to do.
#[derive(Debug, Clone, Copy, PartialEq, Eq, Structural)]
pub enum LoopPhase {
    /// Wait for the end of the window.
    Waiting,
    /// Report the window.
    Reporting,
    /// Nothing; the test is over.
    Over,
}

/// The loop that reports windows: when the test began, and which window comes
/// next, counted from 1.
#[derive(Debug, Clone, Copy, PartialEq, Eq, Structural)]
pub struct ReportLoop {
    pub origin: u64,
    pub next: u64,
    pub phase: LoopPhase,
}

/// What happens to the loop, and when.
#[derive(Debug, Clone, Copy, PartialEq, Eq, Structural)]
pub enum LoopEvent {
    /// A look at the clock, and whether the test was stopped.
    Look { now: u64, cancelled: bool },
    /// The test was stopped during a sleep.
    Interrupted { now: u64 },
    /// The window was reported; and whether the test was stopped.
    Reported { now: u64, cancelled: bool },
}

/// What the loop does next.
#[derive(Debug, Clone, Copy, PartialEq, Eq, Structural)]
pub enum LoopStep {
    /// Look at the clock.
    Look,
    /// Sleep for that many nanoseconds, then look at the clock.
    Sleep(u64),
    /// Look at the clock again at once.
    Spin,
    /// Report the window that has ended.
    Report,
    /// End; the open window is not reported.
    End,
}

impl LoopEvent {
    /// When it happened.
    pub open spec fn time(self) -> u64 {
        match self {
            LoopEvent::Look { now, .. } => now,
            LoopEvent::Interrupted { now } => now,
            LoopEvent::Reported { now, .. } => now,
        }
    }

    /// The test was seen to be stopped.
    pub open spec fn stopped(self) -> bool {
        match self {
            LoopEvent::Look { cancelled, .. } => cancelled,
            LoopEvent::Interrupted { .. } => true,
            LoopEvent::Reported { cancelled, .. } => cancelled,
        }
    }
}

impl ReportLoop {
    /// The loop of a test that has just begun.
    pub open spec fn fresh(origin: u64) -> ReportLoop {
        ReportLoop { origin, next: 1, phase: LoopPhase::Waiting }
    }

    /// The event can happen to a loop that is about to do this.
    pub open spec fn awaits(self, e: LoopEvent) -> bool {
        match self.phase {
            LoopPhase::Waiting => e is Look || e is Interrupted,
            LoopPhase::Reporting => e is Reported,
            LoopPhase::Over => false,
        }
    }

    /// What the loop does when something happens to it. Only a window whose end
    /// has been reached is reported.
    pub open spec fn step(self, e: LoopEvent) -> (ReportLoop, LoopStep) {
        let deadline = deadline_of(self.origin, self.next);
        match e {
            LoopEvent::Look { now, cancelled } => if now >= deadline {
                (ReportLoop { phase: LoopPhase::Reporting, ..self }, LoopStep::Report)
            } else if cancelled {
                (ReportLoop { phase: LoopPhase::Over, ..self }, LoopStep::End)
            } else if deadline - now > WINDOW_SPIN_NS {
                (self, LoopStep::Sleep((deadline - now - WINDOW_SPIN_NS) as u64))
            } else {
                (self, LoopStep::Spin)
            },
            LoopEvent::Interrupted { .. } => (
                ReportLoop { phase: LoopPhase::Over, ..self },
                LoopStep::End,
            ),
            LoopEvent::Reported { cancelled, .. } => {
                let next = metrics::capped_sum(self.next, 1);
                if cancelled {
                    (ReportLoop { next, phase: LoopPhase::Over, ..self }, LoopStep::End)
                } else {
                    (ReportLoop { next, phase: LoopPhase::Waiting, ..self }, LoopStep::Look)
                }
            },
        }
    }

    /// Begins the loop of a test that began at `origin`.
    pub fn new(origin: u64) -> (res: ReportLoop)
        ensures
            res == ReportLoop::fresh(origin),
    {
        ReportLoop { origin, next: 1, phase: LoopPhase::Waiting }
    }

    /// Something happened; says what to do next.
    pub fn on_event(&mut self, e: LoopEvent) -> (res: LoopStep)
        requires
            old(self).awaits(e),
        ensures
            (*final(self), res) == old(self).step(e),
    {
        match e {
            LoopEvent::Look { now, cancelled } => {
                let deadline: u64 = window_deadline(self.origin, self.next);
                match wait_step(now, deadline, cancelled) {
                    Wait::Reached => {
                        self.phase = LoopPhase::Reporting;
                        LoopStep::Report
                    },
                    Wait::Cancelled => {
                        self.phase = LoopPhase::Over;
                        LoopStep::End
                    },
                    Wait::Sleep(ns) => LoopStep::Sleep(ns),
                    Wait::Spin => LoopStep::Spin,
                }
            },
            LoopEvent::Interrupted { .. } => {
                self.phase = LoopPhase::Over;
                LoopStep::End
            },
            LoopEvent::Reported { cancelled, .. } => {
                self.next = self.next.saturating_add(1);
                if cancelled {
                    self.phase = LoopPhase::Over;
                    LoopStep::End
                } else {
                    self.phase = LoopPhase::Waiting;
                    LoopStep::Look
                }
            },
        }
    }
}

/// The loop after the first `k` events.
pub open spec fn loop_at(origin: u64, events: Seq<LoopEvent>, k: int) -> ReportLoop
    decreases k,
{
    if k <= 0 {
        ReportLoop::fresh(origin)
    } else {
        loop_at(origin, events, k - 1).step(events[k - 1]).0
    }
}

/// Event `k` makes the loop report a window.
pub open spec fn reports(origin: u64, events: Seq<LoopEvent>, k: int) -> bool {
    loop_at(origin, events, k).step(events[k]).1 == LoopStep::Report
}

/// How many windows the first `k` events make the loop report.
pub open spec fn reports_in(origin: u64, events: Seq<LoopEvent>, k: int) -> int
    decreases k,
{
    if k <= 0 {
        0
    } else {
        reports_in(origin, events, k - 1) + (if reports(origin, events, k - 1) {
            1int
        } else {
            0
        })
    }
}

/// Event `k` can happen to the loop after those before it.
pub open spec fn in_place(origin: u64, events: Seq<LoopEvent>, k: int) -> bool {
    loop_at(origin, events, k).awaits(events[k])
}

/// The events can happen to the loop one after the other: time does not go back,
/// and a test that was stopped stays so.
pub open spec fn loop_can_run(origin: u64, events: Seq<LoopEvent>) -> bool {
    &&& events.len() < u64::MAX
    &&& forall|k: int| 0 <= k < events.len() ==> #[trigger] in_place(origin, events, k)
    &&& forall|a: int, b: int|
        0 <= a <= b < events.len() ==> (#[trigger] events[a]).time() <= (
        #[trigger] events[b]).time()
    &&& forall|a: int, b: int|
        0 <= a <= b < events.len() && (#[trigger] events[a]).stopped() ==> (
        #[trigger] events[b]).stopped()
}

/// Later windows end later.
proof fn lemma_deadlines_grow(origin: u64, i: u64, j: u64)
    requires
        i <= j,
    ensures
        deadline_of(origin, i) <= deadline_of(origin, j),
{
}

/// The number of windows that were reported goes by the state of the loop.
pub open spec fn reported_so_far(state: ReportLoop) -> int {
    if state.phase == LoopPhase::Reporting {
        state.next as int
    } else {
        state.next - 1
    }
}

/// One event is at most one report, of a window that has ended.
proof fn lemma_one_event(state: ReportLoop, e: LoopEvent)
    requires
        state.awaits(e),
        state.next < u64::MAX,
    ensures
        ({
            let (after, step) = state.step(e);
            let n = reported_so_far(state);
            &&& after.origin == state.origin
            &&& step == LoopStep::Report ==> reported_so_far(after) == n + 1 && deadline_of(
                state.origin,
                (n + 1) as u64,
            ) <= e.time()
            &&& step != LoopStep::Report ==> reported_so_far(after) == n
            &&& e.stopped() ==> after.phase != LoopPhase::Waiting
            &&& state.phase != LoopPhase::Waiting ==> step != LoopStep::Report
        }),
{
}

/// The number of windows that were reported goes by the state of the loop, and the
/// last of them had ended.
proof fn lemma_reports(origin: u64, events: Seq<LoopEvent>, k: int)
    requires
        loop_can_run(origin, events),
        0 <= k <= events.len(),
    ensures
        ({
            let n = reports_in(origin, events, k);
            &&& 0 <= n <= k
            &&& loop_at(origin, events, k).origin == origin
            &&& reported_so_far(loop_at(origin, events, k)) == n
            &&& n > 0 ==> deadline_of(origin, n as u64) <= events[k - 1].time()
        }),
    decreases k,
{
    if k > 0 {
        lemma_reports(origin, events, k - 1);
        let state = loop_at(origin, events, k - 1);
        let e = events[k - 1];
        assert(in_place(origin, events, k - 1));
        lemma_one_event(state, e);
        let n = reports_in(origin, events, k - 1);
        if n > 0 {
            assert(events[k - 2].time() <= e.time());
        }
        assert(reports_in(origin, events, k) == n + (if state.step(e).1 == LoopStep::Report {
            1int
        } else {
            0
        }));
        assert(loop_at(origin, events, k) == state.step(e).0);
    }
}

/// No window is reported before it has ended: report number `n` comes at the end
/// of window `n` or later.
pub proof fn law_reports_keep_to_the_grid(origin: u64, events: Seq<LoopEvent>, k: int)
    requires
        loop_can_run(origin, events),
        0 <= k < events.len(),
        reports(origin, events, k),
    ensures
        reports_in(origin, events, k + 1) == reports_in(origin, events, k) + 1,
        events[k].time() >= deadline_of(origin, reports_in(origin, events, k + 1) as u64),
{
    lemma_reports(origin, events, k + 1);
}

/// A test that is seen to be stopped does not wait any more.
proof fn lemma_stopped_does_not_wait(origin: u64, events: Seq<LoopEvent>, s: int, n: int)
    requires
        loop_can_run(origin, events),
        0 <= s < n <= events.len(),
        events[s].stopped(),
    ensures
        loop_at(origin, events, n).phase != LoopPhase::Waiting,
        reports_in(origin, events, n) == reports_in(origin, events, s + 1),
    decreases n,
{
    let state = loop_at(origin, events, n - 1);
    let e = events[n - 1];
    assert(in_place(origin, events, n - 1));
    assert(e.stopped());
    lemma_reports(origin, events, n - 1);
    lemma_one_event(state, e);
    assert(loop_at(origin, events, n) == state.step(e).0);
    if n > s + 1 {
        lemma_stopped_does_not_wait(origin, events, s, n - 1);
        assert(!reports(origin, events, n - 1));
    }
}

/// A stop that is seen before the end of window `k + 1` leaves at most `k` reports:
/// the interval that it cuts short is not reported.
pub proof fn law_no_partial_window(
    origin: u64,
    events: Seq<LoopEvent>,
    s: int,
    n: int,
    k: u64,
)
    requires
        loop_can_run(origin, events),
        0 <= s < n <= events.len(),
        events[s].stopped(),
        k < u64::MAX,
        events[s].time() < deadline_of(origin, (k + 1) as u64),
    ensures
        reports_in(origin, events, n) <= k,
{
    lemma_stopped_does_not_wait(origin, events, s, n);
    lemma_reports(origin, events, s + 1);
    let m = reports_in(origin, events, s + 1);
    if m > k {
        lemma_deadlines_grow(origin, (k + 1) as u64, m as u64);
    }
}

/// What was counted and used when the open window began.
#[derive(Debug, Clone)]
pub struct OpenWindow {
    pub total: Snap,
    pub peers: Vec<Snap>,
    pub process: Option<ProcSample>,
    pub mono_start: u64,
    pub wall_start: u64,
}

/// The content of an [`OpenWindow`].
pub struct OpenWindowView {
    pub total: Snap,
    pub peers: Seq<Snap>,
    pub process: Option<ProcSample>,
    pub mono_start: u64,
    pub wall_start: u64,
}

impl View for OpenWindow {
    type V = OpenWindowView;

    open spec fn view(&self) -> OpenWindowView {
        OpenWindowView {
            total: self.total,
            peers: self.peers@,
            process: self.process,
            mono_start: self.mono_start,
            wall_start: self.wall_start,
        }
    }
}

/// One look at the clocks and at the process.
#[derive(Debug, Clone, Copy)]
pub struct Reading {
    pub mono_ns: u64,
    pub wall_ns: u64,
    pub process: Option<ProcSample>,
}

/// What was counted of each peer between two moments.
pub open spec fn peer_deltas(before: Seq<Snap>, after: Seq<Snap>) -> Seq<Snap> {
    Seq::new(
        metrics::shorter(before.len(), after.len()) as nat,
        |i: int| before[i].until(after[i]),
    )
}

/// The window that begins with this look and these counts.
pub open spec fn opened(c: CountersView, now: Reading) -> OpenWindowView {
    OpenWindowView {
        total: c.total.at(),
        peers: c.moments(),
        process: now.process,
        mono_start: now.mono_ns,
        wall_start: now.wall_ns,
    }
}

/// How long the window has been open, at least a nanosecond.
pub open spec fn open_for(w: OpenWindowView, now: Reading) -> u64 {
    let d = metrics::above(w.mono_start, now.mono_ns);
    if d == 0 {
        1
    } else {
        d
    }
}

/// The report of a window that ends with this look and these counts.
pub open spec fn report_of(
    w: OpenWindowView,
    server: Seq<char>,
    c: CountersView,
    now: Reading,
    clk: int,
) -> proto::MetricWindowView {
    metrics::window_of(
        server,
        (w.wall_start, now.wall_ns),
        open_for(w, now),
        w.total.until(c.total.at()),
        peer_deltas(w.peers, c.moments()),
        c.names,
        match (w.process, now.process) {
            (Some(a), Some(b)) => metrics::cpu_between(a, b, clk),
            _ => 0,
        },
        match now.process {
            Some(p) => p.rss_bytes,
            None => 0,
        },
    )
}

impl OpenWindow {
    /// Begins a window.
    pub fn open(counters: &Counters, now: Reading) -> (res: OpenWindow)
        ensures
            res@ == opened(counters@, now),
    {
        let (total, peers) = counters.snapshot_all();
        OpenWindow {
            total,
            peers,
            process: now.process,
            mono_start: now.mono_ns,
            wall_start: now.wall_ns,
        }
    }

    /// Ends the window, and begins the next one with the same look and the same
    /// counts. `clk` is the number of clock ticks in a second.
    pub fn close(&mut self, server: &str, counters: &Counters, now: Reading, clk: i64) -> (res:
        MetricWindow)
        requires
            clk > 0,
        ensures
            res@ == report_of(old(self)@, server@, counters@, now, clk as int),
            final(self)@ == opened(counters@, now),
    {
        let next = OpenWindow::open(counters, now);
        let elapsed: u64 = now.mono_ns.saturating_sub(self.mono_start);
        let duration: u64 = if elapsed == 0 {
            1
        } else {
            elapsed
        };
        let total = self.total.delta(next.total);
        let n: usize = if self.peers.len() < next.peers.len() {
            self.peers.len()
        } else {
            next.peers.len()
        };
        let mut peers: Vec<Snap> = Vec::new();
        let ghost deltas = peer_deltas(self.peers@, next.peers@);
        let mut i: usize = 0;
        while i < n
            invariant
                n == metrics::shorter(self.peers@.len(), next.peers@.len()),
                i <= n,
                deltas == peer_deltas(self.peers@, next.peers@),
                peers@ == deltas.take(i as int),
            decreases n - i,
        {
            peers.push(self.peers[i].delta(next.peers[i]));
            i += 1;
            assert(peers@ =~= deltas.take(i as int));
        }
        assert(deltas.take(n as int) =~= deltas);
        let cpu: u64 = match (self.process, now.process) {
            (Some(a), Some(b)) => metrics::cpu_ns(a, b, clk),
            _ => 0,
        };
        let memory: u64 = match now.process {
            Some(p) => p.rss_bytes,
            None => 0,
        };
        let window = metrics::build_window(
            server,
            (self.wall_start, now.wall_ns),
            duration,
            total,
            peers.as_slice(),
            counters.names.as_slice(),
            cpu,
            memory,
        );
        *self = next;
        window
    }
}

/// Window `i` of a series that begins with an open window, each closed with one of
/// these counts and looks.
pub open spec fn open_at(
    first: OpenWindowView,
    counts: Seq<CountersView>,
    looks: Seq<Reading>,
    i: int,
) -> OpenWindowView {
    if i <= 0 {
        first
    } else {
        opened(counts[i - 1], looks[i - 1])
    }
}

/// The report of window `i` of such a series.
pub open spec fn report_at(
    first: OpenWindowView,
    server: Seq<char>,
    counts: Seq<CountersView>,
    looks: Seq<Reading>,
    clk: int,
    i: int,
) -> proto::MetricWindowView {
    report_of(open_at(first, counts, looks, i), server, counts[i], looks[i], clk)
}

/// The counts of a report.
pub open spec fn counted(w: proto::MetricWindowView) -> Snap {
    Snap {
        bytes_sent: w.bytes_sent,
        bytes_recv: w.bytes_recv,
        packets_sent: w.packets_sent,
        packets_recv: w.packets_recv,
        packets_dropped: w.packets_dropped,
    }
}

/// The sum of count `f` over the first `m` reports of a series.
pub open spec fn counted_in(
    first: OpenWindowView,
    server: Seq<char>,
    counts: Seq<CountersView>,
    looks: Seq<Reading>,
    clk: int,
    f: int,
    m: int,
) -> int
    decreases m,
{
    if m <= 0 {
        0
    } else {
        counted_in(first, server, counts, looks, clk, f, m - 1) + counted(
            report_at(first, server, counts, looks, clk, m - 1),
        ).count(f)
    }
}

/// The sum of the durations of the first `m` reports of a series.
pub open spec fn time_in(
    first: OpenWindowView,
    server: Seq<char>,
    counts: Seq<CountersView>,
    looks: Seq<Reading>,
    clk: int,
    m: int,
) -> int
    decreases m,
{
    if m <= 0 {
        0
    } else {
        time_in(first, server, counts, looks, clk, m - 1) + report_at(
            first,
            server,
            counts,
            looks,
            clk,
            m - 1,
        ).duration_ns
    }
}

/// The moments at which the windows of a series begin and end.
pub open spec fn moments_of(first: OpenWindowView, counts: Seq<CountersView>) -> Seq<Snap> {
    seq![first.total] + Seq::new(counts.len(), |i: int| counts[i].total.at())
}

proof fn lemma_counted_in(
    first: OpenWindowView,
    server: Seq<char>,
    counts: Seq<CountersView>,
    looks: Seq<Reading>,
    clk: int,
    f: int,
    m: int,
)
    requires
        0 <= m <= counts.len(),
    ensures
        counted_in(first, server, counts, looks, clk, f, m) == metrics::sum_of_windows(
            moments_of(first, counts),
            f,
            m,
        ),
    decreases m,
{
    if m > 0 {
        lemma_counted_in(first, server, counts, looks, clk, f, m - 1);
        let moments = moments_of(first, counts);
        assert(moments[m] == counts[m - 1].total.at());
        assert(moments[m - 1] == open_at(first, counts, looks, m - 1).total);
    }
}

proof fn lemma_time_in(
    first: OpenWindowView,
    server: Seq<char>,
    counts: Seq<CountersView>,
    looks: Seq<Reading>,
    clk: int,
    m: int,
)
    requires
        0 < m <= looks.len(),
        first.mono_start < looks[0].mono_ns,
        forall|a: int, b: int|
            0 <= a < b < looks.len() ==> (#[trigger] looks[a]).mono_ns < (
            #[trigger] looks[b]).mono_ns,
    ensures
        time_in(first, server, counts, looks, clk, m) == looks[m - 1].mono_ns - first.mono_start,
    decreases m,
{
    reveal_with_fuel(time_in, 2);
    if m > 1 {
        lemma_time_in(first, server, counts, looks, clk, m - 1);
        assert(looks[m - 2].mono_ns < looks[m - 1].mono_ns);
    }
}

/// The windows of a series tile it. Each begins where the one before it ended, and
/// lasts a nanosecond at least. As long as a count does not go down, its sum over
/// the reports is what was counted from the beginning to the last look: nothing is
/// lost, and nothing is counted twice. As long as the clock goes on, the durations
/// add up to the time from the beginning to the last look.
pub proof fn law_windows_tile(
    first: OpenWindowView,
    server: Seq<char>,
    counts: Seq<CountersView>,
    looks: Seq<Reading>,
    clk: int,
)
    requires
        0 < counts.len(),
        counts.len() == looks.len(),
    ensures
        report_at(first, server, counts, looks, clk, 0).wall_start_ns == first.wall_start,
        forall|i: int|
            0 < i < counts.len() ==> (#[trigger] report_at(
                first,
                server,
                counts,
                looks,
                clk,
                i,
            )).wall_start_ns == report_at(first, server, counts, looks, clk, i - 1).wall_end_ns,
        forall|i: int|
            0 <= i < counts.len() ==> (#[trigger] report_at(
                first,
                server,
                counts,
                looks,
                clk,
                i,
            )).duration_ns >= 1,
        forall|f: int|
            #![trigger counted_in(first, server, counts, looks, clk, f, counts.len() as int)]
            (forall|a: int, b: int|
                0 <= a <= b <= counts.len() ==> (#[trigger] moments_of(first, counts)[a]).count(f)
                    <= (#[trigger] moments_of(first, counts)[b]).count(f)) ==> counted_in(
                first,
                server,
                counts,
                looks,
                clk,
                f,
                counts.len() as int,
            ) == counts.last().total.at().count(f) - first.total.count(f),
        first.mono_start < looks[0].mono_ns && (forall|a: int, b: int|
            0 <= a < b < looks.len() ==> (#[trigger] looks[a]).mono_ns < (
            #[trigger] looks[b]).mono_ns) ==> time_in(
            first,
            server,
            counts,
            looks,
            clk,
            counts.len() as int,
        ) == looks.last().mono_ns - first.mono_start,
{
    let m = counts.len() as int;
    let moments = moments_of(first, counts);
    assert forall|f: int|
        #![trigger counted_in(first, server, counts, looks, clk, f, m)]
        (forall|a: int, b: int|
            0 <= a <= b <= m ==> (#[trigger] moments[a]).count(f) <= (
            #[trigger] moments[b]).count(f)) implies counted_in(
        first,
        server,
        counts,
        looks,
        clk,
        f,
        m,
    ) == counts.last().total.at().count(f) - first.total.count(f) by {
        lemma_counted_in(first, server, counts, looks, clk, f, m);
        metrics::law_windows_add_up(moments, f, m);
        assert(moments[0] == first.total);
        assert(moments[m] == counts.last().total.at());
    }
    if first.mono_start < looks[0].mono_ns && (forall|a: int, b: int|
        0 <= a < b < looks.len() ==> (#[trigger] looks[a]).mono_ns < (
        #[trigger] looks[b]).mono_ns) {
        lemma_time_in(first, server, counts, looks, clk, m);
    }
}

/// Where one target of a test is.
#[derive(Debug, Clone, Copy, PartialEq, Eq, Structural)]
pub struct Destination {
    pub id: u32,
    /// The address that came with the assignment; `None` if the target's name is
    /// to be resolved.
    pub addr: Option<SocketAddr>,
}

/// What a server needs to know to start a test.
#[derive(Debug, Clone)]
pub struct TestSetup {
    pub port: u16,
    pub family: Option<AddrFamily>,
    /// The address to bind that came with the assignment, if one did.
    pub bind: Option<SocketAddr>,
    /// The targets; each gets as many senders as there are workers.
    pub destinations: Vec<Destination>,
}

/// Where the targets of an assignment are.
pub open spec fn destinations_of(targets: Seq<proto::TargetView>) -> Seq<Destination> {
    targets.map_values(
        |t: proto::TargetView| Destination { id: t.id, addr: address::socket_addr_of(t.addr) },
    )
}

/// Port, family, address to bind and targets of a test, from what the client sent.
pub open spec fn setup_of(cfg: config::ConfigView, a: proto::AssignmentView) -> (
    u16,
    Option<AddrFamily>,
    Option<SocketAddr>,
    Seq<Destination>,
) {
    let (host, port) = netutil::host_port(cfg.test_addr)->Ok_0;
    (
        port,
        AddrFamily::of_host(host),
        address::socket_addr_of(a.bind),
        destinations_of(a.targets),
    )
}

/// A test runs on the port of the test address, in the family of its host, bound to the
/// address of the assignment, towards each of its targets in order.
pub proof fn law_setup_of_a_test(
    cfg: config::ConfigView,
    a: proto::AssignmentView,
    host: Seq<char>,
    port: u16,
    k: int,
)
    requires
        netutil::host_port(cfg.test_addr) == Ok::<(Seq<char>, u16), netutil::AddrErrorView>(
            (host, port),
        ),
        0 <= k < a.targets.len(),
    ensures
        setup_of(cfg, a).0 == port,
        setup_of(cfg, a).1 == AddrFamily::of_host(host),
        setup_of(cfg, a).2 == address::socket_addr_of(a.bind),
        setup_of(cfg, a).3.len() == a.targets.len(),
        setup_of(cfg, a).3[k].id == a.targets[k].id,
        setup_of(cfg, a).3[k].addr == address::socket_addr_of(a.targets[k].addr),
{
}

/// What a server needs to know to start a test, from what the client sent; an
/// error if the configuration is not valid.
pub fn prepare(cfg: &Config, assignment: &Assignment) -> (res: Result<TestSetup, ConfigError>)
    ensures
        match res {
            Err(e) => config::config_error(cfg@) == Some(e@),
            Ok(setup) => {
                let (host, port) = netutil::host_port(cfg@.test_addr)->Ok_0;
                &&& config::config_error(cfg@) is None
                &&& (setup.port, setup.family, setup.bind, setup.destinations@) == setup_of(
                    cfg@,
                    assignment@,
                )
                &&& setup.port == port
                &&& setup.family == AddrFamily::of_host(host)
                &&& setup.bind == address::socket_addr_of(assignment@.bind)
                &&& setup.destinations@ == destinations_of(assignment@.targets)
            },
        },
{
    match cfg.validate() {
        Ok(_) => {},
        Err(e) => {
            return Err(e);
        },
    }
    let (host, port) = match netutil::parse_host_port(cfg.test_addr.as_str()) {
        Ok(found) => found,
        Err(e) => {
            return Err(ConfigErrorOf::TestAddr(cfg.test_addr.clone(), e));
        },
    };
    let n: usize = assignment.targets.len();
    let mut destinations: Vec<Destination> = Vec::new();
    let ghost want = destinations_of(assignment@.targets);
    let mut i: usize = 0;
    while i < n
        invariant
            n == assignment.targets@.len(),
            i <= n,
            want == destinations_of(assignment@.targets),
            destinations@ == want.take(i as int),
        decreases n - i,
    {
        let t = &assignment.targets[i];
        assert(assignment@.targets[i as int] == t@);
        destinations.push(
            Destination { id: t.id, addr: address::parse_socket_addr(t.addr.as_str()) },
        );
        i += 1;
        assert(destinations@ =~= want.take(i as int));
    }
    assert(assignment@.targets.len() == n);
    assert(want.take(n as int) =~= want);
    Ok(
        TestSetup {
            port,
            family: AddrFamily::from_host(host.as_str()),
            bind: address::parse_socket_addr(assignment.bind.as_str()),
            destinations,
        },
    )
}

/// A task that sends to a target.
#[derive(Debug, Clone, Copy, PartialEq, Eq, Structural)]
pub struct Sender {
    /// The number of the target.
    pub target: usize,
    pub to: Destination,
}

/// The senders to the first `k` targets: as many as there are workers to each,
/// target after target.
pub open spec fn senders_to(destinations: Seq<Destination>, workers: nat, k: int) -> Seq<Sender>
    decreases k,
{
    if k <= 0 {
        Seq::empty()
    } else {
        senders_to(destinations, workers, k - 1) + Seq::new(
            workers,
            |w: int| Sender { target: (k - 1) as usize, to: destinations[k - 1] },
        )
    }
}

/// The senders of a test: as many as there are workers to each target, target
/// after target.
pub fn senders(destinations: &[Destination], workers: u32) -> (res: Vec<Sender>)
    ensures
        res@ == senders_to(destinations@, workers as nat, destinations@.len() as int),
{
    let n: usize = destinations.len();
    let mut list: Vec<Sender> = Vec::new();
    let mut i: usize = 0;
    while i < n
        invariant
            n == destinations@.len(),
            i <= n,
            list@ == senders_to(destinations@, workers as nat, i as int),
        decreases n - i,
    {
        let one = Sender { target: i, to: destinations[i] };
        let ghost before = list@;
        let mut w: u32 = 0;
        assert(list@ =~= before + Seq::new(0, |x: int| one));
        while w < workers
            invariant
                w <= workers,
                list@ == before + Seq::new(w as nat, |x: int| one),
            decreases workers - w,
        {
            list.push(one);
            w += 1;
            assert(list@ =~= before + Seq::new(w as nat, |x: int| one));
        }
        i += 1;
        assert(list@ =~= senders_to(destinations@, workers as nat, i as int));
    }
    list
}

/// There are as many senders as targets times workers, and those to target `t`
/// stand together.
pub proof fn law_workers_per_target(destinations: Seq<Destination>, workers: nat, k: int)
    requires
        0 <= k <= destinations.len() <= usize::MAX,
    ensures
        senders_to(destinations, workers, k).len() == k * workers,
        forall|t: int, w: int|
            #![trigger senders_to(destinations, workers, k)[t * workers + w]]
            0 <= t < k && 0 <= w < workers ==> senders_to(destinations, workers, k)[t * workers + w]
                == (Sender { target: t as usize, to: destinations[t] }),
    decreases k,
{
    if k > 0 {
        law_workers_per_target(destinations, workers, k - 1);
        let before = senders_to(destinations, workers, k - 1);
        let all = senders_to(destinations, workers, k);
        assert(k * workers == (k - 1) * workers + workers) by (nonlinear_arith);
        assert forall|t: int, w: int|
            #![trigger all[t * workers + w]]
            0 <= t < k && 0 <= w < workers implies all[t * workers + w] == (Sender {
            target: t as usize,
            to: destinations[t],
        }) by {
            if t < k - 1 {
                assert(0 <= t * workers + w < (k - 1) * workers) by (nonlinear_arith)
                    requires
                        0 <= t < k - 1,
                        0 <= w < workers,
                ;
                assert(all[t * workers + w] == before[t * workers + w]);
            }
        }
    } else {
        assert(0 * workers == 0);
    }
}

/// None of the five counts goes down from the one moment to the other.
pub open spec fn no_less(a: Snap, b: Snap) -> bool {
    &&& a.bytes_sent <= b.bytes_sent
    &&& a.bytes_recv <= b.bytes_recv
    &&& a.packets_sent <= b.packets_sent
    &&& a.packets_recv <= b.packets_recv
    &&& a.packets_dropped <= b.packets_dropped
}

/// What a report shows of the peer of this name; all at 0 if it shows nothing.
pub open spec fn shown(w: proto::MetricWindowView, name: Seq<char>) -> Snap {
    if exists|j: int| 0 <= j < w.peers.len() && (#[trigger] w.peers[j]).peer == name {
        let j = choose|j: int| 0 <= j < w.peers.len() && (#[trigger] w.peers[j]).peer == name;
        Snap {
            bytes_sent: w.peers[j].bytes_sent,
            bytes_recv: w.peers[j].bytes_recv,
            packets_sent: w.peers[j].packets_sent,
            packets_recv: w.peers[j].packets_recv,
            packets_dropped: w.peers[j].packets_dropped,
        }
    } else {
        Snap {
            bytes_sent: 0,
            bytes_recv: 0,
            packets_sent: 0,
            packets_recv: 0,
            packets_dropped: 0,
        }
    }
}

/// Sums of the five counts.
pub struct Sums {
    pub bytes_sent: int,
    pub bytes_recv: int,
    pub packets_sent: int,
    pub packets_recv: int,
    pub packets_dropped: int,
}

impl Sums {
    /// With these counts added.
    pub open spec fn plus(self, s: Snap) -> Sums {
        Sums {
            bytes_sent: self.bytes_sent + s.bytes_sent,
            bytes_recv: self.bytes_recv + s.bytes_recv,
            packets_sent: self.packets_sent + s.packets_sent,
            packets_recv: self.packets_recv + s.packets_recv,
            packets_dropped: self.packets_dropped + s.packets_dropped,
        }
    }

    /// The sums are what was counted from the one moment to the other.
    pub open spec fn are_between(self, a: Snap, b: Snap) -> bool {
        &&& self.bytes_sent == b.bytes_sent - a.bytes_sent
        &&& self.bytes_recv == b.bytes_recv - a.bytes_recv
        &&& self.packets_sent == b.packets_sent - a.packets_sent
        &&& self.packets_recv == b.packets_recv - a.packets_recv
        &&& self.packets_dropped == b.packets_dropped - a.packets_dropped
    }
}

/// The sums over some reports of the counts that they show of a peer.
pub open spec fn sum_shown(reports: Seq<proto::MetricWindowView>, name: Seq<char>) -> Sums
    decreases reports.len(),
{
    if reports.len() == 0 {
        Sums {
            bytes_sent: 0,
            bytes_recv: 0,
            packets_sent: 0,
            packets_recv: 0,
            packets_dropped: 0,
        }
    } else {
        sum_shown(reports.drop_last(), name).plus(shown(reports.last(), name))
    }
}

/// The sums over some reports of their totals.
pub open spec fn sum_total(reports: Seq<proto::MetricWindowView>) -> Sums
    decreases reports.len(),
{
    if reports.len() == 0 {
        Sums {
            bytes_sent: 0,
            bytes_recv: 0,
            packets_sent: 0,
            packets_recv: 0,
            packets_dropped: 0,
        }
    } else {
        let w = reports.last();
        sum_total(reports.drop_last()).plus(
            Snap {
                bytes_sent: w.bytes_sent,
                bytes_recv: w.bytes_recv,
                packets_sent: w.packets_sent,
                packets_recv: w.packets_recv,
                packets_dropped: w.packets_dropped,
            },
        )
    }
}

/// What a report shows of a peer is what was counted of it since the window began.
proof fn lemma_shown(
    w: OpenWindowView,
    server: Seq<char>,
    c: CountersView,
    now: Reading,
    clk: int,
    i: int,
)
    requires
        c.names.no_duplicates(),
        c.peers.len() == c.names.len(),
        w.peers.len() == c.names.len(),
        0 <= i < c.names.len(),
    ensures
        shown(report_of(w, server, c, now, clk), c.names[i]) == w.peers[i].until(c.peers[i].at()),
{
    let report = report_of(w, server, c, now, clk);
    let snaps = peer_deltas(w.peers, c.moments());
    let name = c.names[i];
    let s = snaps[i];
    assert(s == w.peers[i].until(c.peers[i].at()));
    metrics::law_window_carries_the_counts(
        server,
        (w.wall_start, now.wall_ns),
        open_for(w, now),
        w.total.until(c.total.at()),
        snaps,
        c.names,
        report.cpu_ns,
        report.memory_bytes,
    );
    assert forall|j: int|
        0 <= j < report.peers.len() && (#[trigger] report.peers[j]).peer
            == name implies !metrics::all_zero(s) && metrics::carries(
        report.peers[j],
        name,
        s,
    ) by {
        assert(metrics::is_entry(report.peers[j], c.names, snaps, c.names.len() as int));
        let q = choose|q: int|
            0 <= q < c.names.len() && !metrics::all_zero(#[trigger] snaps[q]) && metrics::carries(
                report.peers[j],
                c.names[q],
                snaps[q],
            );
        assert(c.names[q] == c.names[i]);
    }
    if !metrics::all_zero(s) {
        assert(metrics::has_entry(report.peers, name, s));
        let j = choose|j: int|
            0 <= j < report.peers.len() && metrics::carries(#[trigger] report.peers[j], name, s);
        assert(report.peers[j].peer == name);
    }
}

/// The reports of a series of windows.
pub open spec fn reports_of(
    first: OpenWindowView,
    server: Seq<char>,
    counts: Seq<CountersView>,
    looks: Seq<Reading>,
    clk: int,
    m: nat,
) -> Seq<proto::MetricWindowView> {
    Seq::new(m, |i: int| report_at(first, server, counts, looks, clk, i))
}

/// All the counts of a series belong to the same hosts, and none of them goes down.
pub open spec fn steady(first: OpenWindowView, counts: Seq<CountersView>) -> bool {
    &&& counts.len() > 0
    &&& counts[0].names.no_duplicates()
    &&& first.peers.len() == counts[0].names.len()
    &&& forall|k: int|
        0 <= k < counts.len() ==> (#[trigger] counts[k]).names == counts[0].names
            && counts[k].peers.len() == counts[0].names.len()
    &&& forall|i: int|
        0 <= i < first.peers.len() ==> no_less(first.peers[i], #[trigger] counts[0].peers[i].at())
    &&& no_less(first.total, counts[0].total.at())
    &&& forall|k: int, i: int|
        0 < k < counts.len() && 0 <= i < first.peers.len() ==> no_less(
            counts[k - 1].peers[i].at(),
            #[trigger] counts[k].peers[i].at(),
        )
    &&& forall|k: int|
        0 < k < counts.len() ==> no_less(
            counts[k - 1].total.at(),
            #[trigger] counts[k].total.at(),
        )
}

proof fn lemma_peer_sums(
    first: OpenWindowView,
    server: Seq<char>,
    counts: Seq<CountersView>,
    looks: Seq<Reading>,
    clk: int,
    i: int,
    m: nat,
)
    requires
        steady(first, counts),
        counts.len() == looks.len(),
        0 < m <= counts.len(),
        0 <= i < counts[0].names.len(),
    ensures
        ({
            let all = reports_of(first, server, counts, looks, clk, m);
            let name = counts[0].names[i];
            let (a, b) = (first.peers[i], counts[m - 1].peers[i].at());
            sum_shown(all, name).are_between(a, b)
        }),
    decreases m,
{
    let all = reports_of(first, server, counts, looks, clk, m);
    let less = reports_of(first, server, counts, looks, clk, (m - 1) as nat);
    let name = counts[0].names[i];
    let w = open_at(first, counts, looks, m - 1);
    let c = counts[m - 1];
    reveal_with_fuel(sum_shown, 2);
    reveal_with_fuel(sum_total, 2);
    assert(all.drop_last() =~= less);
    assert(all.last() == report_of(w, server, c, looks[m - 1], clk));
    assert(c.names == counts[0].names);
    if m > 1 {
        assert(counts[m - 2].names == counts[0].names);
        lemma_peer_sums(first, server, counts, looks, clk, i, (m - 1) as nat);
        assert(w.peers[i] == counts[m - 2].peers[i].at());
        assert(no_less(w.peers[i], c.peers[i].at()));
    } else {
        assert(less =~= Seq::empty());
        assert(no_less(w.peers[i], c.peers[i].at()));
    }
    lemma_shown(w, server, c, looks[m - 1], clk, i);
}

/// Over a series of windows each of the five counts that the reports show of a peer
/// adds up to what was counted of that peer from the first look to the last, and each
/// of the five totals to what was counted in total.
pub proof fn law_windows_add_up_for_each_peer(
    first: OpenWindowView,
    server: Seq<char>,
    counts: Seq<CountersView>,
    looks: Seq<Reading>,
    clk: int,
    i: int,
)
    requires
        steady(first, counts),
        counts.len() == looks.len(),
        0 <= i < counts[0].names.len(),
    ensures
        ({
            let all = reports_of(first, server, counts, looks, clk, counts.len());
            let name = counts[0].names[i];
            let (a, b) = (first.peers[i], counts.last().peers[i].at());
            let (t, u) = (first.total, counts.last().total.at());
            &&& sum_shown(all, name).are_between(a, b)
            &&& sum_total(all).are_between(t, u)
        }),
{
    lemma_peer_sums(first, server, counts, looks, clk, i, counts.len());
    lemma_total_sums(first, server, counts, looks, clk, counts.len());
}

proof fn lemma_total_sums(
    first: OpenWindowView,
    server: Seq<char>,
    counts: Seq<CountersView>,
    looks: Seq<Reading>,
    clk: int,
    m: nat,
)
    requires
        steady(first, counts),
        counts.len() == looks.len(),
        0 < m <= counts.len(),
    ensures
        ({
            let all = reports_of(first, server, counts, looks, clk, m);
            let (t, u) = (first.total, counts[m - 1].total.at());
            sum_total(all).are_between(t, u)
        }),
    decreases m,
{
    let all = reports_of(first, server, counts, looks, clk, m);
    let less = reports_of(first, server, counts, looks, clk, (m - 1) as nat);
    let w = open_at(first, counts, looks, m - 1);
    let c = counts[m - 1];
    reveal_with_fuel(sum_shown, 2);
    reveal_with_fuel(sum_total, 2);
    assert(all.drop_last() =~= less);
    assert(all.last() == report_of(w, server, c, looks[m - 1], clk));
    if m > 1 {
        lemma_total_sums(first, server, counts, looks, clk, (m - 1) as nat);
        assert(no_less(w.total, c.total.at()));
    } else {
        assert(less =~= Seq::empty());
        assert(no_less(w.total, c.total.at()));
    }
}

/// What a report says: its window begins with the look that opened it and ends with
/// the one that closed it, lasts as long as the clock went on, and shows the memory of
/// the second look. The next window begins with the same look and the same counts.
pub proof fn law_report_of_a_window(
    w: OpenWindowView,
    server: Seq<char>,
    c: CountersView,
    now: Reading,
    clk: int,
)
    requires
        clk > 0,
    ensures
        ({
            let r = report_of(w, server, c, now, clk);
            &&& r.server == server
            &&& r.wall_start_ns == w.wall_start
            &&& r.wall_end_ns == now.wall_ns
            &&& w.mono_start < now.mono_ns ==> r.duration_ns == now.mono_ns - w.mono_start
            &&& w.mono_start >= now.mono_ns ==> r.duration_ns == 1
            &&& now.process is Some ==> r.memory_bytes == now.process->0.rss_bytes
            &&& now.process is None ==> r.memory_bytes == 0
            &&& now.process is None || w.process is None ==> r.cpu_ns == 0
            &&& now.process is Some && w.process is Some ==> r.cpu_ns == metrics::cpu_between(
                w.process->0,
                now.process->0,
                clk,
            )
        }),
        ({
            let next = opened(c, now);
            &&& next.mono_start == now.mono_ns
            &&& next.wall_start == now.wall_ns
            &&& next.process == now.process
            &&& next.total == c.total.at()
            &&& next.peers == c.moments()
        }),
{
}

/// Window `i` of a test ends `i` whole seconds of 1000000000 nanoseconds after the
/// test began.
pub proof fn law_windows_are_seconds(origin: u64, i: u64)
    requires
        origin + i * 1_000_000_000 <= u64::MAX,
    ensures
        deadline_of(origin, i) == origin + i * 1_000_000_000,
{
}

/// A loop that waits reports a window as soon as its end is seen to have come. Before
/// that it ends if the test was stopped; else it sleeps until 200000 nanoseconds are
/// left, and watches the clock from then on.
pub proof fn law_waiting_for_a_window(state: ReportLoop, now: u64, cancelled: bool)
    requires
        state.phase == LoopPhase::Waiting,
        state.origin + state.next * 1_000_000_000 <= u64::MAX,
    ensures
        ({
            let end = state.origin + state.next * 1_000_000_000;
            let (after, step) = state.step(LoopEvent::Look { now, cancelled });
            &&& after.origin == state.origin && after.next == state.next
            &&& now >= end ==> step == LoopStep::Report && after.phase == LoopPhase::Reporting
            &&& now < end && cancelled ==> step == LoopStep::End && after.phase == LoopPhase::Over
            &&& now < end && !cancelled ==> after.phase == LoopPhase::Waiting && match step {
                LoopStep::Sleep(ns) => ns > 0 && now + ns + 200_000 == end,
                LoopStep::Spin => end - now <= 200_000,
                _ => false,
            }
            &&& state.step(LoopEvent::Interrupted { now }) == (
                ReportLoop { origin: state.origin, next: state.next, phase: LoopPhase::Over },
                LoopStep::End,
            )
        }),
{
}

/// After a report the loop goes on with the next window, or ends if the test was
/// stopped.
pub proof fn law_after_a_report(state: ReportLoop, now: u64, cancelled: bool)
    requires
        state.phase == LoopPhase::Reporting,
        state.next < u64::MAX,
    ensures
        ({
            let (after, step) = state.step(LoopEvent::Reported { now, cancelled });
            &&& after.origin == state.origin
            &&& after.next == state.next + 1
            &&& cancelled ==> step == LoopStep::End && after.phase == LoopPhase::Over
            &&& !cancelled ==> step == LoopStep::Look && after.phase == LoopPhase::Waiting
        }),
        ReportLoop::fresh(now).next == 1,
        ReportLoop::fresh(now).origin == now,
        ReportLoop::fresh(now).phase == LoopPhase::Waiting,
{
}

/// How a session ends, and what it passes over: a client that is gone ends it, and
/// stops the test; so does a reply to a start or stop that cannot be sent, as a
/// failure. A report of a failed start that cannot be sent, or a message that is
/// neither start nor stop, changes nothing.
pub proof fn law_how_sessions_end(s: Session)
    ensures
        s.phase == Phase::Reading ==> {
            &&& s.step(Event::Closed).0 == (Session { phase: Phase::Over, running: false })
            &&& s.step(Event::Closed).1 == (Action::End { stop_first: s.running, failed: false })
            &&& s.step(Event::Other) == (s, Action::Read)
            &&& s.step(Event::Start).1 == (Action::Start { stop_first: s.running })
            &&& !s.step(Event::Start).0.running
        },
        s.phase == Phase::AckStart || s.phase == Phase::AckStop ==> {
            &&& s.step(Event::NotSent).0 == (Session { phase: Phase::Over, running: false })
            &&& s.step(Event::NotSent).1 == (Action::End { stop_first: s.running, failed: true })
        },
        s.phase == Phase::Reporting ==> s.step(Event::NotSent) == (
            Session { phase: Phase::Reading, running: s.running },
            Action::Read,
        ),
        s.phase == Phase::Starting ==> s.step(Event::Started).0.running,
        s.phase == Phase::Starting ==> s.step(Event::NotStarted).0.running == s.running,
{
}

/// What a server sends to: every target of its assignment, in order, under its number
/// and at the address that came with it.
pub proof fn law_destinations_are_the_targets(targets: Seq<proto::TargetView>, k: int)
    requires
        0 <= k < targets.len(),
    ensures
        destinations_of(targets).len() == targets.len(),
        destinations_of(targets)[k].id == targets[k].id,
        destinations_of(targets)[k].addr == address::socket_addr_of(targets[k].addr),
{
}

/// What is said of an open window is said of its fields.
pub proof fn law_content_of_an_open_window(w: OpenWindow)
    ensures
        w@.total == w.total,
        w@.peers == w.peers@,
        w@.process == w.process,
        w@.mono_start == w.mono_start,
        w@.wall_start == w.wall_start,
{
}

} // verus!
