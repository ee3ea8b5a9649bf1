//! The control protocol: its messages, and the frames they travel in.
use vstd::prelude::*;

use crate::bytes;
use crate::config::Config;
use crate::number;

verus! {

/// What one server does in a test: where it binds and whom it sends to.
#[derive(Debug, Clone)]
pub struct Assignment {
    pub self_name: String,
    pub self_id: u32,
    /// Socket address this server binds for the data plane (ip:port).
    pub bind: String,
    pub targets: Vec<Target>,
}

/// One destination of a server.
#[derive(Debug, Clone)]
pub struct Target {
    pub name: String,
    pub id: u32,
    /// Socket address to connect or send to (ip:port).
    pub addr: String,
}

/// The text content of an [`Assignment`].
pub struct AssignmentView {
    pub self_name: Seq<char>,
    pub self_id: u32,
    pub bind: Seq<char>,
    pub targets: Seq<TargetView>,
}

/// The text content of a [`Target`].
pub struct TargetView {
    pub name: Seq<char>,
    pub id: u32,
    pub addr: Seq<char>,
}

impl View for Target {
    type V = TargetView;

    open spec fn view(&self) -> TargetView {
        TargetView { name: self.name@, id: self.id, addr: self.addr@ }
    }
}

impl View for Assignment {
    type V = AssignmentView;

    open spec fn view(&self) -> AssignmentView {
        AssignmentView {
            self_name: self.self_name@,
            self_id: self.self_id,
            bind: self.bind@,
            targets: self.targets@.map_values(|t: Target| t@),
        }
    }
}

/// What one server counted of one peer in a window.
#[derive(Debug, Clone)]
pub struct PeerMetrics {
    pub peer: String,
    pub bytes_sent: u64,
    pub bytes_recv: u64,
    pub packets_sent: u64,
    pub packets_recv: u64,
    pub packets_dropped: u64,
}

/// What one server counted in a window. Rates follow from the counts and the
/// duration.
#[derive(Debug, Clone)]
pub struct MetricWindow {
    pub server: String,
    /// CLOCK_REALTIME nanoseconds at window open.
    pub wall_start_ns: u64,
    /// CLOCK_REALTIME nanoseconds at window close.
    pub wall_end_ns: u64,
    /// CLOCK_MONOTONIC delta for the window (nanoseconds).
    pub duration_ns: u64,
    pub bytes_sent: u64,
    pub bytes_recv: u64,
    pub packets_sent: u64,
    pub packets_recv: u64,
    pub packets_dropped: u64,
    /// Processor time that the server used in the window (nanoseconds).
    pub cpu_ns: u64,
    pub memory_bytes: u64,
    pub peers: Vec<PeerMetrics>,
}

/// The content of a [`PeerMetrics`].
pub struct PeerMetricsView {
    pub peer: Seq<char>,
    pub bytes_sent: u64,
    pub bytes_recv: u64,
    pub packets_sent: u64,
    pub packets_recv: u64,
    pub packets_dropped: u64,
}

/// The content of a [`MetricWindow`].
pub struct MetricWindowView {
    pub server: Seq<char>,
    pub wall_start_ns: u64,
    pub wall_end_ns: u64,
    pub duration_ns: u64,
    pub bytes_sent: u64,
    pub bytes_recv: u64,
    pub packets_sent: u64,
    pub packets_recv: u64,
    pub packets_dropped: u64,
    pub cpu_ns: u64,
    pub memory_bytes: u64,
    pub peers: Seq<PeerMetricsView>,
}

impl View for PeerMetrics {
    type V = PeerMetricsView;

    open spec fn view(&self) -> PeerMetricsView {
        PeerMetricsView {
            peer: self.peer@,
            bytes_sent: self.bytes_sent,
            bytes_recv: self.bytes_recv,
            packets_sent: self.packets_sent,
            packets_recv: self.packets_recv,
            packets_dropped: self.packets_dropped,
        }
    }
}

impl View for MetricWindow {
    type V = MetricWindowView;

    open spec fn view(&self) -> MetricWindowView {
        MetricWindowView {
            server: self.server@,
            wall_start_ns: self.wall_start_ns,
            wall_end_ns: self.wall_end_ns,
            duration_ns: self.duration_ns,
            bytes_sent: self.bytes_sent,
            bytes_recv: self.bytes_recv,
            packets_sent: self.packets_sent,
            packets_recv: self.packets_recv,
            packets_dropped: self.packets_dropped,
            cpu_ns: self.cpu_ns,
            memory_bytes: self.memory_bytes,
            peers: self.peers@.map_values(|p: PeerMetrics| p@),
        }
    }
}

/// A control message. `W` is what a window of metrics is to the receiver.
#[derive(Debug, Clone)]
pub enum Msg<W> {
    Start { config: Config, assignment: Assignment },
    Stop,
    Ack { cmd: String },
    Metrics { window: W },
    Error { message: String },
}

/// The longest message that a frame may carry, in bytes.
pub const MAX_FRAME: usize = 16_777_216;

/// What is wrong with a frame.
#[derive(Debug, Clone, Copy, PartialEq, Eq, Structural)]
pub enum FrameError {
    /// The message to send has this many bytes, more than a frame may carry.
    TooLarge(usize),
    /// A frame begins with this length, which is 0 or more than a frame may
    /// carry.
    Length(u32),
}

/// The message of a frame error.
pub open spec fn frame_error_text(e: FrameError) -> Seq<char> {
    match e {
        FrameError::TooLarge(n) => "control message too large ("@ + number::decimal(n as nat)
            + " bytes)"@,
        FrameError::Length(n) => "invalid control frame length "@ + number::decimal(n as nat),
    }
}

impl FrameError {
    /// The message of the error.
    pub fn message(&self) -> (res: String)
        ensures
            res@ == frame_error_text(*self),
    {
        let mut out = String::new();
        match self {
            FrameError::TooLarge(n) => {
                out.append("control message too large (");
                number::push_decimal(&mut out, *n as u64);
                out.append(" bytes)");
            },
            FrameError::Length(n) => {
                out.append("invalid control frame length ");
                number::push_decimal(&mut out, *n as u64);
            },
        }
        assert(out@ =~= frame_error_text(*self));
        out
    }
}

/// A frame: the length of the message in four bytes, then the message.
pub open spec fn framed(data: Seq<u8>) -> Seq<u8> {
    bytes::be_bytes(data.len(), 4) + data
}

/// The frame of a message.
pub fn write_frame(data: &[u8]) -> (res: Result<Vec<u8>, FrameError>)
    ensures
        match res {
            Ok(frame) => data@.len() <= MAX_FRAME && frame@ == framed(data@),
            Err(e) => data@.len() > MAX_FRAME && e == FrameError::TooLarge(data@.len() as usize),
        },
        res is Ok <==> data@.len() <= 16_777_216,
{
    let n: usize = data.len();
    if n > MAX_FRAME {
        return Err(FrameError::TooLarge(n));
    }
    let head = bytes::be_bytes_u32(n as u32);
    let mut frame: Vec<u8> = Vec::new();
    frame.push(head[0]);
    frame.push(head[1]);
    frame.push(head[2]);
    frame.push(head[3]);
    let ghost first = frame@;
    assert(first =~= head@);
    let mut i: usize = 0;
    while i < n
        invariant
            n == data@.len(),
            i <= n,
            frame@ == first + data@.take(i as int),
        decreases n - i,
    {
        frame.push(data[i]);
        i += 1;
        assert(data@.take(i as int) =~= data@.take(i - 1).push(data@[i - 1]));
    }
    assert(data@.take(n as int) =~= data@);
    Ok(frame)
}

/// What the bytes that have arrived amount to.
#[derive(Debug, Clone)]
pub enum FrameStep {
    /// The frame is not complete; this many bytes of it, and no more, can be
    /// read next.
    NeedMore(usize),
    /// The frame is complete, and this is its message.
    Ready(Vec<u8>),
}

/// What a [`FrameStep`] says.
pub enum FrameStepView {
    NeedMore(nat),
    Ready(Seq<u8>),
}

impl View for FrameStep {
    type V = FrameStepView;

    open spec fn view(&self) -> FrameStepView {
        match self {
            FrameStep::NeedMore(k) => FrameStepView::NeedMore(*k as nat),
            FrameStep::Ready(data) => FrameStepView::Ready(data@),
        }
    }
}

/// How far the frame that begins with these bytes has been read.
pub open spec fn frame_step(s: Seq<u8>) -> Result<FrameStepView, FrameError> {
    if s.len() < 4 {
        Ok(FrameStepView::NeedMore((4 - s.len()) as nat))
    } else {
        let n = bytes::be_value(s.take(4));
        if n == 0 || n > MAX_FRAME {
            Err(FrameError::Length(n as u32))
        } else if s.len() < 4 + n {
            Ok(FrameStepView::NeedMore((4 + n - s.len()) as nat))
        } else {
            Ok(FrameStepView::Ready(s.subrange(4, 4 + n as int)))
        }
    }
}

/// Reads the frame that begins with the bytes that have arrived.
pub fn read_frame(s: &[u8]) -> (res: Result<FrameStep, FrameError>)
    ensures
        match res {
            Ok(step) => frame_step(s@) == Ok::<FrameStepView, FrameError>(step@),
            Err(e) => frame_step(s@) == Err::<FrameStepView, FrameError>(e),
        },
{
    let have: usize = s.len();
    if have < 4 {
        return Ok(FrameStep::NeedMore(4 - have));
    }
    assert(s@.subrange(0, 4) =~= s@.take(4));
    let n: u32 = bytes::be_u32_at(s, 0);
    if n == 0 || n as u64 > MAX_FRAME as u64 {
        return Err(FrameError::Length(n));
    }
    let end: usize = 4 + n as usize;
    if have < end {
        return Ok(FrameStep::NeedMore(end - have));
    }
    let mut data: Vec<u8> = Vec::new();
    let mut i: usize = 4;
    while i < end
        invariant
            4 <= i <= end <= s@.len(),
            data@ == s@.subrange(4, i as int),
        decreases end - i,
    {
        data.push(s[i]);
        i += 1;
        assert(s@.subrange(4, i as int) =~= s@.subrange(4, i - 1).push(s@[i - 1]));
    }
    Ok(FrameStep::Ready(data))
}

/// A message that was framed comes out of the frame again, whatever follows it.
pub proof fn law_frame_round_trip(data: Seq<u8>, rest: Seq<u8>)
    requires
        0 < data.len() <= MAX_FRAME,
    ensures
        frame_step(framed(data) + rest) == Ok::<FrameStepView, FrameError>(
            FrameStepView::Ready(data),
        ),
{
    let s = framed(data) + rest;
    bytes::lemma_be_bytes_len(data.len(), 4);
    bytes::lemma_limits();
    bytes::law_be_round_trip(data.len(), 4);
    assert(s.take(4) =~= bytes::be_bytes(data.len(), 4));
    assert(s.subrange(4, 4 + data.len() as int) =~= data);
}

/// As long as part of a frame is missing, more bytes are asked for, at least one
/// and never more than the frame still has.
pub proof fn law_frame_prefix_waits(data: Seq<u8>, k: int)
    requires
        0 < data.len() <= MAX_FRAME,
        0 <= k < 4 + data.len(),
    ensures
        match frame_step(framed(data).take(k)) {
            Ok(FrameStepView::NeedMore(more)) => 1 <= more <= 4 + data.len() - k,
            _ => false,
        },
{
    let s = framed(data).take(k);
    bytes::lemma_be_bytes_len(data.len(), 4);
    if k >= 4 {
        bytes::lemma_limits();
        bytes::law_be_round_trip(data.len(), 4);
        assert(s.take(4) =~= bytes::be_bytes(data.len(), 4));
    }
}

/// A frame is the length of the message in four bytes, the most significant first, and
/// then the message as it is.
pub proof fn law_frame_layout(data: Seq<u8>)
    requires
        data.len() <= 16_777_216,
    ensures
        ({
            let f = framed(data);
            &&& f.len() == 4 + data.len()
            &&& f[0] * 0x100_0000 + f[1] * 0x1_0000 + f[2] * 0x100 + f[3] == data.len()
            &&& f.skip(4) == data
        }),
{
    bytes::law_bytes_are_base_256(data.len(), 0);
    assert(framed(data).skip(4) =~= data);
}

/// How the bytes that have arrived are read. The first four are the length of the
/// message, which is refused if it is 0 or above 16777216. What is asked for is exactly
/// what is missing: of the four bytes first, of the message then. When all is there the
/// message is what follows the four bytes, for that length.
pub proof fn law_frames_are_read(s: Seq<u8>)
    ensures
        s.len() < 4 ==> frame_step(s) == Ok::<FrameStepView, FrameError>(
            FrameStepView::NeedMore((4 - s.len()) as nat),
        ),
        s.len() >= 4 ==> {
            let n = s[0] * 0x100_0000 + s[1] * 0x1_0000 + s[2] * 0x100 + s[3];
            &&& n == 0 || n > 16_777_216 ==> frame_step(s) == Err::<FrameStepView, FrameError>(
                FrameError::Length(n as u32),
            )
            &&& 0 < n <= 16_777_216 && s.len() < 4 + n ==> frame_step(s) == Ok::<
                FrameStepView,
                FrameError,
            >(FrameStepView::NeedMore((4 + n - s.len()) as nat))
            &&& 0 < n <= 16_777_216 && s.len() >= 4 + n ==> frame_step(s) == Ok::<
                FrameStepView,
                FrameError,
            >(FrameStepView::Ready(s.subrange(4, 4 + n)))
        },
{
    if s.len() >= 4 {
        bytes::law_value_of_bytes(s.take(4));
    }
}

/// What is said of an assignment is said of its fields.
pub proof fn law_content_of_an_assignment(a: Assignment, k: int)
    requires
        0 <= k < a.targets@.len(),
    ensures
        a@.self_name == a.self_name@,
        a@.self_id == a.self_id,
        a@.bind == a.bind@,
        a@.targets.len() == a.targets@.len(),
        a@.targets[k].name == a.targets@[k].name@,
        a@.targets[k].id == a.targets@[k].id,
        a@.targets[k].addr == a.targets@[k].addr@,
{
}

/// What is said of a window is said of its fields.
pub proof fn law_content_of_a_window(w: MetricWindow, k: int)
    requires
        0 <= k < w.peers@.len(),
    ensures
        w@.server == w.server@,
        w@.wall_start_ns == w.wall_start_ns,
        w@.wall_end_ns == w.wall_end_ns,
        w@.duration_ns == w.duration_ns,
        w@.cpu_ns == w.cpu_ns,
        w@.memory_bytes == w.memory_bytes,
        w@.bytes_sent == w.bytes_sent,
        w@.bytes_recv == w.bytes_recv,
        w@.packets_sent == w.packets_sent,
        w@.packets_recv == w.packets_recv,
        w@.packets_dropped == w.packets_dropped,
        w@.peers.len() == w.peers@.len(),
        w@.peers[k].peer == w.peers@[k].peer@,
        w@.peers[k].bytes_sent == w.peers@[k].bytes_sent,
        w@.peers[k].bytes_recv == w.peers@[k].bytes_recv,
        w@.peers[k].packets_sent == w.peers@[k].packets_sent,
        w@.peers[k].packets_recv == w.peers@[k].packets_recv,
        w@.peers[k].packets_dropped == w.peers@[k].packets_dropped,
{
}

/// What is said of a step of reading is said of what it holds.
pub proof fn law_content_of_a_step(step: FrameStep)
    ensures
        match step {
            FrameStep::NeedMore(k) => step@ == FrameStepView::NeedMore(k as nat),
            FrameStep::Ready(data) => step@ == FrameStepView::Ready(data@),
        },
{
}

} // verus!
