//! Counting traffic, sampling the process, and closing windows.
use vstd::prelude::*;

use crate::number;
use crate::proto;
use crate::proto::{MetricWindow, PeerMetrics, PeerMetricsView};
use crate::rounding;
use crate::text;

verus! {

/// Nanoseconds in a second.
pub const SECOND_NS: u64 = 1_000_000_000;

/// Running counts of traffic. They wrap around at the end of their range.
#[derive(Debug, Clone, Copy, PartialEq, Eq, Structural)]
pub struct AtomStats {
    pub bytes_sent: u64,
    pub bytes_recv: u64,
    pub packets_sent: u64,
    pub packets_recv: u64,
    pub packets_dropped: u64,
}

/// The counts at one moment.
#[derive(Debug, Clone, Copy, PartialEq, Eq, Structural)]
pub struct Snap {
    pub bytes_sent: u64,
    pub bytes_recv: u64,
    pub packets_sent: u64,
    pub packets_recv: u64,
    pub packets_dropped: u64,
}

impl Default for AtomStats {
    fn default() -> (res: AtomStats)
        ensures
            res == AtomStats::zero(),
    {
        AtomStats {
            bytes_sent: 0,
            bytes_recv: 0,
            packets_sent: 0,
            packets_recv: 0,
            packets_dropped: 0,
        }
    }
}

impl Default for Snap {
    fn default() -> (res: Snap)
        ensures
            res == AtomStats::zero().at(),
    {
        Snap {
            bytes_sent: 0,
            bytes_recv: 0,
            packets_sent: 0,
            packets_recv: 0,
            packets_dropped: 0,
        }
    }
}

impl AtomStats {
    /// Nothing counted yet.
    pub open spec fn zero() -> AtomStats {
        AtomStats {
            bytes_sent: 0,
            bytes_recv: 0,
            packets_sent: 0,
            packets_recv: 0,
            packets_dropped: 0,
        }
    }

    /// The counts, as they are.
    pub open spec fn at(self) -> Snap {
        Snap {
            bytes_sent: self.bytes_sent,
            bytes_recv: self.bytes_recv,
            packets_sent: self.packets_sent,
            packets_recv: self.packets_recv,
            packets_dropped: self.packets_dropped,
        }
    }

    /// The counts after that much was sent.
    pub open spec fn sent(self, bytes: u64, packets: u64) -> AtomStats {
        AtomStats {
            bytes_sent: self.bytes_sent.wrapping_add(bytes),
            packets_sent: self.packets_sent.wrapping_add(packets),
            ..self
        }
    }

    /// The counts after that much was received.
    pub open spec fn received(self, bytes: u64, packets: u64) -> AtomStats {
        AtomStats {
            bytes_recv: self.bytes_recv.wrapping_add(bytes),
            packets_recv: self.packets_recv.wrapping_add(packets),
            ..self
        }
    }

    /// The counts after that many packets were lost.
    pub open spec fn lost(self, n: u64) -> AtomStats {
        AtomStats { packets_dropped: self.packets_dropped.wrapping_add(n), ..self }
    }

    /// The counts at this moment.
    pub fn snapshot(&self) -> (res: Snap)
        ensures
            res == self.at(),
    {
        Snap {
            bytes_sent: self.bytes_sent,
            bytes_recv: self.bytes_recv,
            packets_sent: self.packets_sent,
            packets_recv: self.packets_recv,
            packets_dropped: self.packets_dropped,
        }
    }

    /// Counts bytes and packets that were sent.
    pub fn add_sent(&mut self, bytes: u64, packets: u64)
        ensures
            *final(self) == old(self).sent(bytes, packets),
    {
        self.bytes_sent = self.bytes_sent.wrapping_add(bytes);
        self.packets_sent = self.packets_sent.wrapping_add(packets);
    }

    /// Counts bytes and packets that were received.
    pub fn add_recv(&mut self, bytes: u64, packets: u64)
        ensures
            *final(self) == old(self).received(bytes, packets),
    {
        self.bytes_recv = self.bytes_recv.wrapping_add(bytes);
        self.packets_recv = self.packets_recv.wrapping_add(packets);
    }

    /// Counts packets that were lost.
    pub fn add_drop(&mut self, n: u64)
        ensures
            *final(self) == old(self).lost(n),
    {
        self.packets_dropped = self.packets_dropped.wrapping_add(n);
    }
}

/// How far `b` is above `a`; 0 if it is not.
pub open spec fn above(a: u64, b: u64) -> u64 {
    if b > a {
        (b - a) as u64
    } else {
        0
    }
}

impl Snap {
    /// What was counted between this moment and a later one.
    pub open spec fn until(self, later: Snap) -> Snap {
        Snap {
            bytes_sent: above(self.bytes_sent, later.bytes_sent),
            bytes_recv: above(self.bytes_recv, later.bytes_recv),
            packets_sent: above(self.packets_sent, later.packets_sent),
            packets_recv: above(self.packets_recv, later.packets_recv),
            packets_dropped: above(self.packets_dropped, later.packets_dropped),
        }
    }

    /// Something was counted.
    pub open spec fn active(self) -> bool {
        ||| self.bytes_sent > 0
        ||| self.bytes_recv > 0
        ||| self.packets_sent > 0
        ||| self.packets_recv > 0
        ||| self.packets_dropped > 0
    }

    /// The counts by number, for statements about each of them.
    pub open spec fn count(self, i: int) -> u64 {
        if i == 0 {
            self.bytes_sent
        } else if i == 1 {
            self.bytes_recv
        } else if i == 2 {
            self.packets_sent
        } else if i == 3 {
            self.packets_recv
        } else {
            self.packets_dropped
        }
    }

    /// What was counted between this moment and a later one; a count that went
    /// down counts as 0.
    pub fn delta(self, later: Snap) -> (res: Snap)
        ensures
            res == self.until(later),
    {
        Snap {
            bytes_sent: later.bytes_sent.saturating_sub(self.bytes_sent),
            bytes_recv: later.bytes_recv.saturating_sub(self.bytes_recv),
            packets_sent: later.packets_sent.saturating_sub(self.packets_sent),
            packets_recv: later.packets_recv.saturating_sub(self.packets_recv),
            packets_dropped: later.packets_dropped.saturating_sub(self.packets_dropped),
        }
    }
}

/// The sum of a count over the first `k` windows between the moments.
pub open spec fn sum_of_windows(moments: Seq<Snap>, i: int, k: int) -> int
    decreases k,
{
    if k <= 0 {
        0
    } else {
        sum_of_windows(moments, i, k - 1) + moments[k - 1].until(moments[k]).count(i)
    }
}

/// The windows between moments at which nothing went down add up to what was
/// counted from the first moment to the last: nothing is counted twice, and
/// nothing is missed.
pub proof fn law_windows_add_up(moments: Seq<Snap>, i: int, k: int)
    requires
        0 <= k < moments.len(),
        forall|a: int, b: int|
            0 <= a <= b < moments.len() ==> (#[trigger] moments[a]).count(i) <= (
            #[trigger] moments[b]).count(i),
    ensures
        sum_of_windows(moments, i, k) == moments[k].count(i) - moments[0].count(i),
    decreases k,
{
    if k > 0 {
        law_windows_add_up(moments, i, k - 1);
        assert(moments[k - 1].count(i) <= moments[k].count(i));
    }
}

/// The counts of a server: in total, and by peer. Peers go by their place in
/// the host list.
#[derive(Debug, Clone)]
pub struct Counters {
    pub total: AtomStats,
    pub peers: Vec<AtomStats>,
    pub names: Vec<String>,
}

/// The content of a [`Counters`].
#[verifier::ext_equal]
pub struct CountersView {
    pub total: AtomStats,
    pub peers: Seq<AtomStats>,
    pub names: Seq<Seq<char>>,
}

impl View for Counters {
    type V = CountersView;

    open spec fn view(&self) -> CountersView {
        CountersView {
            total: self.total,
            peers: self.peers@,
            names: text::texts(self.names@),
        }
    }
}

impl CountersView {
    /// The counts after that much was sent to a peer, if it is known.
    pub open spec fn sent(self, peer: Option<u32>, bytes: u64, packets: u64) -> CountersView {
        CountersView {
            total: self.total.sent(bytes, packets),
            peers: match peer {
                Some(p) if p < self.peers.len() => self.peers.update(
                    p as int,
                    self.peers[p as int].sent(bytes, packets),
                ),
                _ => self.peers,
            },
            ..self
        }
    }

    /// The counts after that much was received from a peer, if it is known.
    pub open spec fn received(self, peer: Option<u32>, bytes: u64, packets: u64) -> CountersView {
        CountersView {
            total: self.total.received(bytes, packets),
            peers: match peer {
                Some(p) if p < self.peers.len() => self.peers.update(
                    p as int,
                    self.peers[p as int].received(bytes, packets),
                ),
                _ => self.peers,
            },
            ..self
        }
    }

    /// The counts after packets to or from a peer were lost, if it is known.
    pub open spec fn lost(self, peer: Option<u32>, n: u64) -> CountersView {
        CountersView {
            total: self.total.lost(n),
            peers: match peer {
                Some(p) if p < self.peers.len() => self.peers.update(
                    p as int,
                    self.peers[p as int].lost(n),
                ),
                _ => self.peers,
            },
            ..self
        }
    }

    /// Every count at this moment.
    pub open spec fn moments(self) -> Seq<Snap> {
        self.peers.map_values(|p: AtomStats| p.at())
    }
}

impl Counters {
    /// Counters for the hosts of a list, all at 0.
    pub fn new(hostlist: &[String]) -> (res: Counters)
        ensures
            res@.total == AtomStats::zero(),
            res@.names == text::texts(hostlist@),
            res@.peers == Seq::new(hostlist@.len(), |i: int| AtomStats::zero()),
    {
        let n: usize = hostlist.len();
        let mut peers: Vec<AtomStats> = Vec::new();
        let mut names: Vec<String> = Vec::new();
        let mut i: usize = 0;
        while i < n
            invariant
                n == hostlist@.len(),
                i <= n,
                peers@ == Seq::new(i as nat, |j: int| AtomStats::zero()),
                text::texts(names@) == text::texts(hostlist@).take(i as int),
            decreases n - i,
        {
            let ghost before = text::texts(names@);
            peers.push(AtomStats::default());
            names.push(hostlist[i].clone());
            assert(text::texts(names@) =~= before.push(hostlist@[i as int]@));
            i += 1;
            assert(peers@ =~= Seq::new(i as nat, |j: int| AtomStats::zero()));
            assert(text::texts(names@) =~= text::texts(hostlist@).take(i as int));
        }
        assert(text::texts(hostlist@).take(n as int) =~= text::texts(hostlist@));
        Counters { total: AtomStats::default(), peers, names }
    }

    /// The counts of a peer, if there is one of that number.
    pub fn peer(&self, id: u32) -> (res: Option<AtomStats>)
        ensures
            res == (if id < self@.peers.len() {
                Some(self@.peers[id as int])
            } else {
                None
            }),
    {
        if (id as usize) < self.peers.len() {
            Some(self.peers[id as usize])
        } else {
            None
        }
    }

    /// All counts at this moment.
    pub fn snapshot_all(&self) -> (res: (Snap, Vec<Snap>))
        ensures
            res.0 == self@.total.at(),
            res.1@ == self@.moments(),
    {
        let n: usize = self.peers.len();
        let mut peers: Vec<Snap> = Vec::new();
        let mut i: usize = 0;
        while i < n
            invariant
                n == self.peers@.len(),
                i <= n,
                peers@ == self@.moments().take(i as int),
            decreases n - i,
        {
            peers.push(self.peers[i].snapshot());
            i += 1;
            assert(peers@ =~= self@.moments().take(i as int));
        }
        assert(self@.moments().take(n as int) =~= self@.moments());
        (self.total.snapshot(), peers)
    }

    /// Counts what was sent, in total and, if it is known, for the peer.
    pub fn record_sent(&mut self, peer: Option<u32>, bytes: u64, packets: u64)
        ensures
            final(self)@ == old(self)@.sent(peer, bytes, packets),
    {
        self.total.add_sent(bytes, packets);
        if let Some(p) = peer {
            if (p as usize) < self.peers.len() {
                let mut stats = self.peers[p as usize];
                stats.add_sent(bytes, packets);
                self.peers.set(p as usize, stats);
            }
        }
        assert(self@ =~= old(self)@.sent(peer, bytes, packets));
    }

    /// Counts what was received, in total and, if it is known, for the peer.
    pub fn record_recv(&mut self, peer: Option<u32>, bytes: u64, packets: u64)
        ensures
            final(self)@ == old(self)@.received(peer, bytes, packets),
    {
        self.total.add_recv(bytes, packets);
        if let Some(p) = peer {
            if (p as usize) < self.peers.len() {
                let mut stats = self.peers[p as usize];
                stats.add_recv(bytes, packets);
                self.peers.set(p as usize, stats);
            }
        }
        assert(self@ =~= old(self)@.received(peer, bytes, packets));
    }

    /// Counts packets that were lost, in total and, if it is known, for the peer.
    pub fn record_drop(&mut self, peer: Option<u32>, n: u64)
        ensures
            final(self)@ == old(self)@.lost(peer, n),
    {
        self.total.add_drop(n);
        if let Some(p) = peer {
            if (p as usize) < self.peers.len() {
                let mut stats = self.peers[p as usize];
                stats.add_drop(n);
                self.peers.set(p as usize, stats);
            }
        }
        assert(self@ =~= old(self)@.lost(peer, n));
    }
}

/// What the process has used so far.
#[derive(Debug, Clone, Copy, PartialEq, Eq, Structural)]
pub struct ProcSample {
    pub utime_ticks: u64,
    pub stime_ticks: u64,
    pub rss_bytes: u64,
}

/// The number that a word spells, if it is one of 64 bits.
pub open spec fn word_number(w: Seq<char>) -> Option<u64> {
    match number::unsigned(w, u64::MAX as nat) {
        Ok(n) => Some(n as u64),
        Err(_) => None,
    }
}

/// User and system time in the text of `/proc/self/stat`, in ticks. The name of
/// the program, between parentheses, may itself hold parentheses and blanks.
/// After it come one more character, eleven other words, and the two times.
pub open spec fn stat_cpu(stat: Seq<char>) -> Option<(u64, u64)> {
    let after = text::after_last(stat, ')', stat.len() as int);
    if after == 0 || after >= stat.len() || stat[after] as u32 >= 0x80 {
        None
    } else {
        let w = text::words(stat.skip(after + 1), 0);
        if w.len() < 13 {
            None
        } else {
            match (word_number(w[11]), word_number(w[12])) {
                (Some(u), Some(s)) => Some((u, s)),
                _ => None,
            }
        }
    }
}

/// The resident pages in the text of `/proc/self/statm`; 0 if they are not to be
/// found.
pub open spec fn statm_pages(statm: Seq<char>) -> u64 {
    let w = text::words(statm, 0);
    if w.len() < 2 {
        0
    } else {
        match word_number(w[1]) {
            Some(n) => n,
            None => 0,
        }
    }
}

/// The product, or the largest number if it is larger.
pub open spec fn capped_product(a: u64, b: u64) -> u64 {
    if a * b > u64::MAX {
        u64::MAX
    } else {
        (a * b) as u64
    }
}

/// The sum, or the largest number if it is larger.
pub open spec fn capped_sum(a: u64, b: u64) -> u64 {
    if a + b > u64::MAX {
        u64::MAX
    } else {
        (a + b) as u64
    }
}

fn capped_mul(a: u64, b: u64) -> (res: u64)
    ensures
        res == capped_product(a, b),
{
    match a.checked_mul(b) {
        Some(n) => n,
        None => u64::MAX,
    }
}

fn parse_word(w: &Vec<char>) -> (res: Option<u64>)
    ensures
        res == word_number(w@),
{
    match number::parse_unsigned(w.as_slice(), u64::MAX) {
        Ok(n) => Some(n),
        Err(_) => None,
    }
}

/// User and system time in the text of `/proc/self/stat`, in ticks.
pub fn parse_stat_cpu(stat: &str) -> (res: Option<(u64, u64)>)
    ensures
        res == stat_cpu(stat@),
{
    let chars = text::chars_of(stat);
    let s = chars.as_slice();
    let after: usize = text::find_after_last(s, ')');
    if after == 0 || after >= s.len() || s[after] as u32 >= 0x80 {
        return None;
    }
    let rest = text::part(s, after + 1, s.len());
    assert(rest@ =~= stat@.skip(after + 1));
    let w = text::split_words(rest);
    let ghost all = text::words(rest@, 0);
    assert(w@.len() == all.len());
    if w.len() < 13 {
        return None;
    }
    assert(w@[11]@ == all[11]);
    assert(w@[12]@ == all[12]);
    match (parse_word(&w[11]), parse_word(&w[12])) {
        (Some(u), Some(s)) => Some((u, s)),
        _ => None,
    }
}

/// The resident pages in the text of `/proc/self/statm`.
pub fn parse_statm_pages(statm: &str) -> (res: u64)
    ensures
        res == statm_pages(statm@),
{
    let chars = text::chars_of(statm);
    let w = text::split_words(chars.as_slice());
    let ghost all = text::words(statm@, 0);
    assert(w@.len() == all.len());
    if w.len() < 2 {
        return 0;
    }
    assert(w@[1]@ == all[1]);
    match parse_word(&w[1]) {
        Some(n) => n,
        None => 0,
    }
}

/// What the process has used, from the texts of `/proc/self/stat` and
/// `/proc/self/statm` and the size of a page; `None` if the first cannot be read.
pub fn sample_proc(stat: &str, statm: &str, page: u64) -> (res: Option<ProcSample>)
    ensures
        res == (match stat_cpu(stat@) {
            Some((u, s)) => Some(
                ProcSample {
                    utime_ticks: u,
                    stime_ticks: s,
                    rss_bytes: capped_product(statm_pages(statm@), page),
                },
            ),
            None => None,
        }),
{
    match parse_stat_cpu(stat) {
        Some((u, s)) => {
            let pages: u64 = parse_statm_pages(statm);
            Some(
                ProcSample {
                    utime_ticks: u,
                    stime_ticks: s,
                    rss_bytes: capped_mul(pages, page),
                },
            )
        },
        None => None,
    }
}

/// Clock ticks in a second: what the system says, or 100.
pub fn clk_tck(v: i64) -> (res: i64)
    ensures
        res == (if v > 0 {
            v
        } else {
            100
        }),
{
    if v > 0 {
        v
    } else {
        100
    }
}

/// Bytes in a page: what the system says, or 4096.
pub fn page_size(v: i64) -> (res: i64)
    ensures
        res == (if v > 0 {
            v
        } else {
            4096
        }),
{
    if v > 0 {
        v
    } else {
        4096
    }
}

/// A clock reading in nanoseconds; 0 if the clock could not be read.
pub fn clock_ns(rc: i32, seconds: u64, nanoseconds: u64) -> (res: u64)
    ensures
        res == (if rc != 0 {
            0
        } else {
            capped_sum(capped_product(seconds, SECOND_NS), nanoseconds)
        }),
        rc == 0 && seconds * 1_000_000_000 + nanoseconds <= u64::MAX ==> res == seconds
            * 1_000_000_000 + nanoseconds,
        rc == 0 && seconds * 1_000_000_000 + nanoseconds > u64::MAX ==> res == u64::MAX,
{
    if rc != 0 {
        return 0;
    }
    capped_mul(seconds, SECOND_NS).saturating_add(nanoseconds)
}

/// Processor time between two samples, in nanoseconds, from ticks of which there
/// are `clk` in a second.
pub open spec fn cpu_between(before: ProcSample, after: ProcSample, clk: int) -> u64 {
    capped_product(
        capped_sum(
            above(before.utime_ticks, after.utime_ticks),
            above(before.stime_ticks, after.stime_ticks),
        ),
        (SECOND_NS as int / clk) as u64,
    )
}

/// Processor time between two samples, in nanoseconds.
pub fn cpu_ns(before: ProcSample, after: ProcSample, clk: i64) -> (res: u64)
    requires
        clk > 0,
    ensures
        res == cpu_between(before, after, clk as int),
{
    let user: u64 = after.utime_ticks.saturating_sub(before.utime_ticks);
    let system: u64 = after.stime_ticks.saturating_sub(before.stime_ticks);
    let ticks: u64 = user.saturating_add(system);
    let each: u64 = SECOND_NS / clk as u64;
    capped_mul(ticks, each)
}

/// The peers of the first `k` of which something was counted.
pub open spec fn active_peers(names: Seq<Seq<char>>, snaps: Seq<Snap>, k: int) -> Seq<
    PeerMetricsView,
>
    decreases k,
{
    if k <= 0 {
        Seq::empty()
    } else {
        let rest = active_peers(names, snaps, k - 1);
        let s = snaps[k - 1];
        if s.active() {
            rest.push(
                PeerMetricsView {
                    peer: names[k - 1],
                    bytes_sent: s.bytes_sent,
                    bytes_recv: s.bytes_recv,
                    packets_sent: s.packets_sent,
                    packets_recv: s.packets_recv,
                    packets_dropped: s.packets_dropped,
                },
            )
        } else {
            rest
        }
    }
}

/// The smaller of two lengths.
pub open spec fn shorter(a: nat, b: nat) -> int {
    if a < b {
        a as int
    } else {
        b as int
    }
}

/// The window with the given counts. Peers of which nothing was counted are left
/// out.
pub open spec fn window_of(
    server: Seq<char>,
    wall: (u64, u64),
    duration_ns: u64,
    total: Snap,
    peer_snaps: Seq<Snap>,
    names: Seq<Seq<char>>,
    cpu_ns: u64,
    memory_bytes: u64,
) -> proto::MetricWindowView {
    proto::MetricWindowView {
        server,
        wall_start_ns: wall.0,
        wall_end_ns: wall.1,
        duration_ns,
        bytes_sent: total.bytes_sent,
        bytes_recv: total.bytes_recv,
        packets_sent: total.packets_sent,
        packets_recv: total.packets_recv,
        packets_dropped: total.packets_dropped,
        cpu_ns,
        memory_bytes,
        peers: active_peers(names, peer_snaps, shorter(names.len(), peer_snaps.len())),
    }
}

/// Builds the window with the given counts.
pub fn build_window(
    server: &str,
    wall: (u64, u64),
    duration_ns: u64,
    total: Snap,
    peer_snaps: &[Snap],
    names: &[String],
    cpu_ns: u64,
    memory_bytes: u64,
) -> (res: MetricWindow)
    ensures
        res@ == window_of(
            server@,
            wall,
            duration_ns,
            total,
            peer_snaps@,
            text::texts(names@),
            cpu_ns,
            memory_bytes,
        ),
{
    let ghost all = text::texts(names@);
    let n: usize = if names.len() < peer_snaps.len() {
        names.len()
    } else {
        peer_snaps.len()
    };
    let mut peers: Vec<PeerMetrics> = Vec::new();
    let mut i: usize = 0;
    assert(peers@.map_values(|p: PeerMetrics| p@) =~= active_peers(all, peer_snaps@, 0));
    while i < n
        invariant
            n <= names@.len(),
            n <= peer_snaps@.len(),
            i <= n,
            all == text::texts(names@),
            peers@.map_values(|p: PeerMetrics| p@) == active_peers(all, peer_snaps@, i as int),
        decreases n - i,
    {
        let s = peer_snaps[i];
        let ghost before = peers@.map_values(|p: PeerMetrics| p@);
        if s.bytes_sent > 0 || s.bytes_recv > 0 || s.packets_sent > 0 || s.packets_recv > 0
            || s.packets_dropped > 0 {
            let p = PeerMetrics {
                peer: names[i].clone(),
                bytes_sent: s.bytes_sent,
                bytes_recv: s.bytes_recv,
                packets_sent: s.packets_sent,
                packets_recv: s.packets_recv,
                packets_dropped: s.packets_dropped,
            };
            let ghost seen = p@;
            peers.push(p);
            assert(peers@.map_values(|p: PeerMetrics| p@) =~= before.push(seen));
        }
        i += 1;
    }
    let mut name = String::new();
    name.append(server);
    assert(name@ =~= server@);
    MetricWindow {
        server: name,
        wall_start_ns: wall.0,
        wall_end_ns: wall.1,
        duration_ns,
        bytes_sent: total.bytes_sent,
        bytes_recv: total.bytes_recv,
        packets_sent: total.packets_sent,
        packets_recv: total.packets_recv,
        packets_dropped: total.packets_dropped,
        cpu_ns,
        memory_bytes,
        peers,
    }
}

/// A peer is in the window exactly if something was counted of it.
pub proof fn law_window_shows_active_peers(names: Seq<Seq<char>>, snaps: Seq<Snap>, k: int)
    requires
        0 <= k <= names.len(),
        k <= snaps.len(),
        names.no_duplicates(),
    ensures
        forall|i: int|
            0 <= i < k ==> ((#[trigger] snaps[i]).active() <==> exists|j: int|
                0 <= j < active_peers(names, snaps, k).len() && (#[trigger] active_peers(
                    names,
                    snaps,
                    k,
                )[j]).peer == names[i]),
    decreases k,
{
    if k > 0 {
        law_window_shows_active_peers(names, snaps, k - 1);
        lemma_peers_from_names(names, snaps, k - 1);
        let rest = active_peers(names, snaps, k - 1);
        let now = active_peers(names, snaps, k);
        assert(forall|j: int| 0 <= j < rest.len() ==> #[trigger] now[j] == rest[j]);
        assert forall|i: int| 0 <= i < k implies ((#[trigger] snaps[i]).active() <==> exists|j: int|
            0 <= j < now.len() && (#[trigger] now[j]).peer == names[i]) by {
            if i < k - 1 {
                if snaps[i].active() {
                    let j = choose|j: int| 0 <= j < rest.len() && (#[trigger] rest[j]).peer
                        == names[i];
                    assert(now[j].peer == names[i]);
                }
                if exists|j: int| 0 <= j < now.len() && (#[trigger] now[j]).peer == names[i] {
                    let j = choose|j: int| 0 <= j < now.len() && (#[trigger] now[j]).peer
                        == names[i];
                    if j < rest.len() {
                        assert(rest[j].peer == names[i]);
                    } else {
                        assert(names[k - 1] == names[i]);
                    }
                }
            } else {
                if snaps[i].active() {
                    assert(now[rest.len() as int].peer == names[i]);
                } else {
                    assert forall|j: int| 0 <= j < now.len() implies (#[trigger] now[j]).peer
                        != names[i] by {
                        assert(among(names, k - 1, rest[j].peer));
                    }
                }
            }
        }
    }
}

spec fn among(names: Seq<Seq<char>>, k: int, name: Seq<char>) -> bool {
    exists|a: int| 0 <= a < k && name == #[trigger] names[a]
}

proof fn lemma_peers_from_names(names: Seq<Seq<char>>, snaps: Seq<Snap>, k: int)
    requires
        0 <= k <= names.len(),
        k <= snaps.len(),
    ensures
        forall|j: int|
            0 <= j < active_peers(names, snaps, k).len() ==> among(
                names,
                k,
                (#[trigger] active_peers(names, snaps, k)[j]).peer,
            ),
    decreases k,
{
    if k > 0 {
        lemma_peers_from_names(names, snaps, k - 1);
        let rest = active_peers(names, snaps, k - 1);
        let now = active_peers(names, snaps, k);
        assert forall|j: int| 0 <= j < now.len() implies among(
            names,
            k,
            (#[trigger] now[j]).peer,
        ) by {
            if j < rest.len() {
                assert(among(names, k - 1, rest[j].peer));
            } else {
                assert(now[j].peer == names[k - 1]);
            }
        }
    }
}

/// Bytes in a kibibyte.
pub const KIB: u64 = 0x400;

/// Bytes in a mebibyte.
pub const MIB: u64 = 0x10_0000;

/// Bytes in a gibibyte.
pub const GIB: u64 = 0x4000_0000;

/// The number in double precision: numbers of up to 53 bits are exact.
pub open spec fn in_double(n: nat) -> nat {
    if n < rounding::TWO_53 {
        n
    } else {
        rounding::nearest(n, 1).0
    }
}

/// A count of bytes in units of `unit`, to two places after the point.
pub open spec fn in_units(v: nat, unit: nat) -> Seq<char> {
    let h = rounding::half_even(v * 100, unit);
    number::decimal(h / 100) + "."@ + number::padded(h % 100, 2)
}

/// A count of bytes for people.
pub open spec fn bytes_text(n: nat) -> Seq<char> {
    let v = in_double(n);
    if v >= GIB {
        in_units(v, GIB as nat) + " GiB"@
    } else if v >= MIB {
        in_units(v, MIB as nat) + " MiB"@
    } else if v >= KIB {
        in_units(v, KIB as nat) + " KiB"@
    } else {
        number::decimal(n) + " B"@
    }
}

fn round_half_even(p: u128, q: u128) -> (res: u128)
    requires
        0 < q <= 0x1_0000_0000_0000_0000,
        p < 0x1_0000_0000_0000_0000_0000_0000_0000_0000,
    ensures
        res == rounding::half_even(p as nat, q as nat),
{
    let n: u128 = p / q;
    let r: u128 = p % q;
    if 2 * r < q || (2 * r == q && n % 2 == 0) {
        n
    } else {
        proof {
            assert(n < u128::MAX) by (nonlinear_arith)
                requires
                    n == p / q,
                    r == p % q,
                    q > 0,
                    2 * r >= q,
                    p <= u128::MAX,
            ;
        }
        n + 1
    }
}

/// The number in double precision.
fn double_of(n: u64) -> (res: u128)
    ensures
        res == in_double(n as nat),
        res <= n + 0x1000,
{
    if n < rounding::TWO_53 {
        return n as u128;
    }
    let mut q: u128 = 1;
    while n as u128 >= 0x20_0000_0000_0000u128 * q
        invariant
            n >= rounding::TWO_53,
            1 <= q <= 0x1000,
            n >= rounding::TWO_52 * q,
            rounding::nearest(n as nat, 1).0 == q * rounding::nearest(n as nat, q as nat).0,
        decreases 0x2000 - q,
    {
        proof {
            let inner = rounding::nearest(n as nat, 2 * q as nat).0;
            assert(rounding::nearest(n as nat, q as nat).0 == 2 * inner);
            assert(q * (2 * inner) == (2 * q) * inner) by (nonlinear_arith);
        }
        q = 2 * q;
    }
    let m: u128 = round_half_even(n as u128, q);
    proof {
        assert(rounding::nearest(n as nat, q as nat).0 == m);
        lemma_half_even_bound(n as nat, q as nat);
        assert(m * q == q * m) by (nonlinear_arith);
    }
    m * q
}

proof fn lemma_half_even_bound(n: nat, q: nat)
    requires
        q > 0,
    ensures
        rounding::half_even(n, q) * q <= n + q,
{
    assert((n / q) * q <= n) by (nonlinear_arith)
        requires
            q > 0,
    ;
    assert((n / q + 1) * q == (n / q) * q + q) by (nonlinear_arith);
}

fn push_in_units(out: &mut String, v: u128, unit: u64)
    requires
        0 < unit,
        v <= 0x1_0000_0000_0000_1000,
        v <= 0x1_0000_0000_0000 * unit,
    ensures
        final(out)@ == old(out)@ + in_units(v as nat, unit as nat),
{
    let h: u128 = round_half_even(v * 100, unit as u128);
    proof {
        let r = (v * 100) as nat;
        assert(r / (unit as nat) <= 100 * 0x1_0000_0000_0000) by (nonlinear_arith)
            requires
                r <= 100 * (0x1_0000_0000_0000 * unit),
                unit > 0,
        ;
    }
    number::push_decimal(out, (h / 100) as u64);
    out.append(".");
    number::push_padded(out, (h % 100) as u64, 2);
    assert(out@ =~= old(out)@ + in_units(v as nat, unit as nat));
}

/// A count of bytes for people.
pub fn fmt_bytes(n: u64) -> (res: String)
    ensures
        res@ == bytes_text(n as nat),
{
    let v: u128 = double_of(n);
    let mut out = String::new();
    if v >= GIB as u128 {
        push_in_units(&mut out, v, GIB);
        out.append(" GiB");
    } else if v >= MIB as u128 {
        push_in_units(&mut out, v, MIB);
        out.append(" MiB");
    } else if v >= KIB as u128 {
        push_in_units(&mut out, v, KIB);
        out.append(" KiB");
    } else {
        number::push_decimal(&mut out, n);
        out.append(" B");
    }
    assert(out@ =~= bytes_text(n as nat));
    out
}

/// What is shown of a window. The rates, the duration and the load come as
/// texts.
#[derive(Debug, Clone)]
pub struct WindowText {
    pub server: String,
    pub seconds: String,
    pub send: String,
    pub recv: String,
    pub packets_dropped: u64,
    pub packets_sent: u64,
    pub packets_recv: u64,
    pub cpu: String,
    pub memory_bytes: u64,
}

/// The line that shows a window.
pub open spec fn window_line(w: WindowText) -> Seq<char> {
    text::filled("["@ + w.server@ + "]"@, 12) + " window="@ + w.seconds@ + "s   send="@ + w.send@
        + "   recv="@ + w.recv@ + "   drop="@ + text::filled(
        number::decimal(w.packets_dropped as nat),
        6,
    ) + " pkts="@ + text::filled(
        number::decimal(w.packets_sent as nat) + "/"@ + number::decimal(w.packets_recv as nat),
        18,
    ) + " cpu="@ + w.cpu@ + "%   rss="@ + bytes_text(w.memory_bytes as nat)
}

/// The line that shows a window.
pub fn format_window(w: &WindowText) -> (res: String)
    ensures
        res@ == window_line(*w),
{
    let mut name = String::new();
    name.append("[");
    name.append(w.server.as_str());
    name.append("]");
    assert(name@ =~= "["@ + w.server@ + "]"@);
    let mut packets = String::new();
    number::push_decimal(&mut packets, w.packets_sent);
    packets.append("/");
    number::push_decimal(&mut packets, w.packets_recv);
    assert(packets@ =~= number::decimal(w.packets_sent as nat) + "/"@ + number::decimal(
        w.packets_recv as nat,
    ));
    let mut out = String::new();
    text::push_filled(&mut out, name.as_str(), 12);
    out.append(" window=");
    out.append(w.seconds.as_str());
    out.append("s   send=");
    out.append(w.send.as_str());
    out.append("   recv=");
    out.append(w.recv.as_str());
    out.append("   drop=");
    text::push_filled(&mut out, number::decimal_text(w.packets_dropped).as_str(), 6);
    out.append(" pkts=");
    text::push_filled(&mut out, packets.as_str(), 18);
    out.append(" cpu=");
    out.append(w.cpu.as_str());
    out.append("%   rss=");
    out.append(fmt_bytes(w.memory_bytes).as_str());
    assert(out@ =~= window_line(*w));
    out
}

/// The text is on one line.
pub open spec fn one_line(s: Seq<char>) -> bool {
    forall|i: int| 0 <= i < s.len() ==> s[i] != '\n'
}

proof fn lemma_one_line_add(a: Seq<char>, b: Seq<char>)
    requires
        one_line(a),
        one_line(b),
    ensures
        one_line(a + b),
{
}

proof fn lemma_one_line_filled(s: Seq<char>, width: nat)
    requires
        one_line(s),
    ensures
        one_line(text::filled(s, width)),
{
}

proof fn lemma_one_line_decimal(n: nat)
    ensures
        one_line(number::decimal(n)),
{
    number::lemma_decimal(n);
    let d = number::decimal(n);
    assert forall|i: int| 0 <= i < d.len() implies d[i] != '\n' by {
        assert(number::is_digit(d[i]));
    }
}

proof fn lemma_one_line_units(v: nat, unit: nat)
    ensures
        one_line(in_units(v, unit)),
{
    let h = rounding::half_even(v * 100, unit);
    reveal_strlit(".");
    lemma_one_line_decimal(h / 100);
    lemma_one_line_decimal(h % 100);
    lemma_one_line_add(number::decimal(h / 100), "."@);
    assert(one_line(number::padded(h % 100, 2)));
    lemma_one_line_add(number::decimal(h / 100) + "."@, number::padded(h % 100, 2));
}

proof fn lemma_one_line_bytes(n: nat)
    ensures
        one_line(bytes_text(n)),
{
    let v = in_double(n);
    reveal_strlit(" GiB");
    reveal_strlit(" MiB");
    reveal_strlit(" KiB");
    reveal_strlit(" B");
    lemma_one_line_units(v, GIB as nat);
    lemma_one_line_units(v, MIB as nat);
    lemma_one_line_units(v, KIB as nat);
    lemma_one_line_decimal(n);
}

/// A window is shown on one line, as long as its texts are on one line.
pub proof fn law_window_is_one_line(w: WindowText)
    requires
        one_line(w.server@),
        one_line(w.seconds@),
        one_line(w.send@),
        one_line(w.recv@),
        one_line(w.cpu@),
    ensures
        one_line(window_line(w)),
{
    reveal_strlit("[");
    reveal_strlit("]");
    reveal_strlit("/");
    reveal_strlit(" window=");
    reveal_strlit("s   send=");
    reveal_strlit("   recv=");
    reveal_strlit("   drop=");
    reveal_strlit(" pkts=");
    reveal_strlit(" cpu=");
    reveal_strlit("%   rss=");
    lemma_one_line_decimal(w.packets_dropped as nat);
    lemma_one_line_decimal(w.packets_sent as nat);
    lemma_one_line_decimal(w.packets_recv as nat);
    lemma_one_line_bytes(w.memory_bytes as nat);
    lemma_one_line_filled("["@ + w.server@ + "]"@, 12);
    lemma_one_line_filled(number::decimal(w.packets_dropped as nat), 6);
    lemma_one_line_filled(
        number::decimal(w.packets_sent as nat) + "/"@ + number::decimal(w.packets_recv as nat),
        18,
    );
}

/// The entry of a peer carries the peer's name and its own five counts.
pub open spec fn carries(entry: PeerMetricsView, name: Seq<char>, s: Snap) -> bool {
    &&& entry.peer == name
    &&& entry.bytes_sent == s.bytes_sent
    &&& entry.bytes_recv == s.bytes_recv
    &&& entry.packets_sent == s.packets_sent
    &&& entry.packets_recv == s.packets_recv
    &&& entry.packets_dropped == s.packets_dropped
}

/// None of the five counts is above 0.
pub open spec fn all_zero(s: Snap) -> bool {
    &&& s.bytes_sent == 0
    &&& s.bytes_recv == 0
    &&& s.packets_sent == 0
    &&& s.packets_recv == 0
    &&& s.packets_dropped == 0
}

/// One of the entries carries the counts of the peer.
pub open spec fn has_entry(entries: Seq<PeerMetricsView>, name: Seq<char>, s: Snap) -> bool {
    exists|j: int| 0 <= j < entries.len() && carries(#[trigger] entries[j], name, s)
}

/// The entry carries the counts of one of the first `k` peers, of which something was
/// counted.
pub open spec fn is_entry(
    entry: PeerMetricsView,
    names: Seq<Seq<char>>,
    snaps: Seq<Snap>,
    k: int,
) -> bool {
    exists|i: int|
        0 <= i < k && !all_zero(#[trigger] snaps[i]) && carries(entry, names[i], snaps[i])
}

proof fn lemma_entries(names: Seq<Seq<char>>, snaps: Seq<Snap>, k: int)
    requires
        0 <= k <= names.len(),
        k <= snaps.len(),
    ensures
        active_peers(names, snaps, k).len() <= k,
        forall|i: int|
            0 <= i < k && !all_zero(#[trigger] snaps[i]) ==> has_entry(
                active_peers(names, snaps, k),
                names[i],
                snaps[i],
            ),
        forall|j: int|
            0 <= j < active_peers(names, snaps, k).len() ==> is_entry(
                #[trigger] active_peers(names, snaps, k)[j],
                names,
                snaps,
                k,
            ),
    decreases k,
{
    if k > 0 {
        lemma_entries(names, snaps, k - 1);
        let rest = active_peers(names, snaps, k - 1);
        let now = active_peers(names, snaps, k);
        let last = k - 1;
        assert(forall|j: int| 0 <= j < rest.len() ==> #[trigger] now[j] == rest[j]);
        assert(snaps[last].active() <==> !all_zero(snaps[last]));
        if snaps[last].active() {
            assert(carries(now[rest.len() as int], names[last], snaps[last]));
        }
        assert forall|i: int| 0 <= i < k && !all_zero(#[trigger] snaps[i]) implies has_entry(
            now,
            names[i],
            snaps[i],
        ) by {
            if i < last {
                assert(has_entry(rest, names[i], snaps[i]));
                let j = choose|j: int|
                    0 <= j < rest.len() && carries(#[trigger] rest[j], names[i], snaps[i]);
                assert(carries(now[j], names[i], snaps[i]));
            }
        }
        assert forall|j: int| 0 <= j < now.len() implies is_entry(
            #[trigger] now[j],
            names,
            snaps,
            k,
        ) by {
            if j < rest.len() {
                assert(now[j] == rest[j]);
                assert(is_entry(rest[j], names, snaps, last));
                let i = choose|i: int|
                    0 <= i < last && !all_zero(#[trigger] snaps[i]) && carries(
                        rest[j],
                        names[i],
                        snaps[i],
                    );
                assert(carries(now[j], names[i], snaps[i]));
            }
        }
    }
}

/// What a window shows of the peers: every peer of which something was counted has
/// an entry with its own name and its own five counts, and there is no other entry.
/// The totals are the five counts of the server itself.
pub proof fn law_window_carries_the_counts(
    server: Seq<char>,
    wall: (u64, u64),
    duration_ns: u64,
    total: Snap,
    snaps: Seq<Snap>,
    names: Seq<Seq<char>>,
    cpu_ns: u64,
    memory_bytes: u64,
)
    ensures
        ({
            let k = if names.len() < snaps.len() {
                names.len() as int
            } else {
                snaps.len() as int
            };
            let w = window_of(
                server,
                wall,
                duration_ns,
                total,
                snaps,
                names,
                cpu_ns,
                memory_bytes,
            );
            &&& w.server == server
            &&& w.wall_start_ns == wall.0
            &&& w.wall_end_ns == wall.1
            &&& w.duration_ns == duration_ns
            &&& w.cpu_ns == cpu_ns
            &&& w.memory_bytes == memory_bytes
            &&& w.bytes_sent == total.bytes_sent
            &&& w.bytes_recv == total.bytes_recv
            &&& w.packets_sent == total.packets_sent
            &&& w.packets_recv == total.packets_recv
            &&& w.packets_dropped == total.packets_dropped
            &&& w.peers.len() <= k
            &&& forall|i: int|
                0 <= i < k && !all_zero(#[trigger] snaps[i]) ==> has_entry(
                    w.peers,
                    names[i],
                    snaps[i],
                )
            &&& forall|j: int|
                0 <= j < w.peers.len() ==> is_entry(
                    #[trigger] w.peers[j],
                    names,
                    snaps,
                    k,
                )
        }),
{
    lemma_entries(names, snaps, shorter(names.len(), snaps.len()));
}

/// What is counted between two moments, where nothing goes down, is the difference
/// of each of the five counts; a count that goes down gives 0.
pub proof fn law_differences(before: Snap, after: Snap)
    ensures
        before.bytes_sent <= after.bytes_sent ==> before.until(after).bytes_sent
            == after.bytes_sent - before.bytes_sent,
        before.bytes_sent > after.bytes_sent ==> before.until(after).bytes_sent == 0,
        before.bytes_recv <= after.bytes_recv ==> before.until(after).bytes_recv
            == after.bytes_recv - before.bytes_recv,
        before.bytes_recv > after.bytes_recv ==> before.until(after).bytes_recv == 0,
        before.packets_sent <= after.packets_sent ==> before.until(after).packets_sent
            == after.packets_sent - before.packets_sent,
        before.packets_sent > after.packets_sent ==> before.until(after).packets_sent == 0,
        before.packets_recv <= after.packets_recv ==> before.until(after).packets_recv
            == after.packets_recv - before.packets_recv,
        before.packets_recv > after.packets_recv ==> before.until(after).packets_recv == 0,
        before.packets_dropped <= after.packets_dropped ==> before.until(after).packets_dropped
            == after.packets_dropped - before.packets_dropped,
        before.packets_dropped > after.packets_dropped ==> before.until(after).packets_dropped == 0,
{
}

/// `now` is `before` with that much more, where the count does not wrap around.
pub open spec fn is_more(before: u64, by: u64, now: u64) -> bool {
    before + by <= u64::MAX ==> now == before + by
}

/// What is sent adds to the bytes and the packets that were sent, in total and for
/// the peer, and to nothing else.
pub proof fn law_sent_is_counted(c: CountersView, peer: u32, bytes: u64, packets: u64, q: int)
    requires
        0 <= q < c.peers.len(),
    ensures
        ({
            let after = c.sent(Some(peer), bytes, packets);
            let (t, u) = (c.total, after.total);
            let (p, r) = (c.peers[q], after.peers[q]);
            &&& after.names == c.names
            &&& after.peers.len() == c.peers.len()
            &&& is_more(t.bytes_sent, bytes, u.bytes_sent)
            &&& is_more(t.packets_sent, packets, u.packets_sent)
            &&& u.bytes_recv == t.bytes_recv
            &&& u.packets_recv == t.packets_recv
            &&& u.packets_dropped == t.packets_dropped
            &&& q != peer ==> r == p
            &&& q == peer ==> {
                &&& is_more(p.bytes_sent, bytes, r.bytes_sent)
                &&& is_more(p.packets_sent, packets, r.packets_sent)
                &&& r.bytes_recv == p.bytes_recv
                &&& r.packets_recv == p.packets_recv
                &&& r.packets_dropped == p.packets_dropped
            }
            &&& c.sent(None, bytes, packets).total == u
            &&& c.sent(None, bytes, packets).peers == c.peers
            &&& c.sent(None, bytes, packets).names == c.names
        }),
{
}

/// What is received adds to the bytes and the packets that were received, in total
/// and for the peer, and to nothing else.
pub proof fn law_received_is_counted(c: CountersView, peer: u32, bytes: u64, packets: u64, q: int)
    requires
        0 <= q < c.peers.len(),
    ensures
        ({
            let after = c.received(Some(peer), bytes, packets);
            let (t, u) = (c.total, after.total);
            let (p, r) = (c.peers[q], after.peers[q]);
            &&& after.names == c.names
            &&& after.peers.len() == c.peers.len()
            &&& is_more(t.bytes_recv, bytes, u.bytes_recv)
            &&& is_more(t.packets_recv, packets, u.packets_recv)
            &&& u.bytes_sent == t.bytes_sent
            &&& u.packets_sent == t.packets_sent
            &&& u.packets_dropped == t.packets_dropped
            &&& q != peer ==> r == p
            &&& q == peer ==> {
                &&& is_more(p.bytes_recv, bytes, r.bytes_recv)
                &&& is_more(p.packets_recv, packets, r.packets_recv)
                &&& r.bytes_sent == p.bytes_sent
                &&& r.packets_sent == p.packets_sent
                &&& r.packets_dropped == p.packets_dropped
            }
            &&& c.received(None, bytes, packets).total == u
            &&& c.received(None, bytes, packets).peers == c.peers
            &&& c.received(None, bytes, packets).names == c.names
        }),
{
}

/// What is lost adds to the packets that were dropped, in total and for the peer,
/// and to nothing else.
pub proof fn law_lost_is_counted(c: CountersView, peer: u32, n: u64, q: int)
    requires
        0 <= q < c.peers.len(),
    ensures
        ({
            let after = c.lost(Some(peer), n);
            let (t, u) = (c.total, after.total);
            let (p, r) = (c.peers[q], after.peers[q]);
            &&& after.names == c.names
            &&& after.peers.len() == c.peers.len()
            &&& is_more(t.packets_dropped, n, u.packets_dropped)
            &&& u.bytes_sent == t.bytes_sent
            &&& u.bytes_recv == t.bytes_recv
            &&& u.packets_sent == t.packets_sent
            &&& u.packets_recv == t.packets_recv
            &&& q != peer ==> r == p
            &&& q == peer ==> {
                &&& is_more(p.packets_dropped, n, r.packets_dropped)
                &&& r.bytes_sent == p.bytes_sent
                &&& r.bytes_recv == p.bytes_recv
                &&& r.packets_sent == p.packets_sent
                &&& r.packets_recv == p.packets_recv
            }
            &&& c.lost(None, n).total == u
            &&& c.lost(None, n).peers == c.peers
            &&& c.lost(None, n).names == c.names
        }),
{
}

/// A look at the counts shows each of them as it is, in total and of every peer, and
/// counters begin with all of them at 0.
pub proof fn law_looks_show_the_counts(c: CountersView, q: int)
    requires
        0 <= q < c.peers.len(),
    ensures
        c.moments().len() == c.peers.len(),
        ({
            let (a, s) = (c.total, c.total.at());
            let (b, t) = (c.peers[q], c.moments()[q]);
            &&& s.bytes_sent == a.bytes_sent
            &&& s.bytes_recv == a.bytes_recv
            &&& s.packets_sent == a.packets_sent
            &&& s.packets_recv == a.packets_recv
            &&& s.packets_dropped == a.packets_dropped
            &&& t.bytes_sent == b.bytes_sent
            &&& t.bytes_recv == b.bytes_recv
            &&& t.packets_sent == b.packets_sent
            &&& t.packets_recv == b.packets_recv
            &&& t.packets_dropped == b.packets_dropped
        }),
        all_zero(AtomStats::zero().at()),
{
}

/// The processor time between two samples is the ticks of both kinds, each as long as the
/// clock says; ticks that went down count as none, and what is too much for 64 bits as the
/// most that they hold.
pub proof fn law_processor_time(before: ProcSample, after: ProcSample, clk: int)
    requires
        clk > 0,
    ensures
        ({
            let user = if before.utime_ticks <= after.utime_ticks {
                after.utime_ticks - before.utime_ticks
            } else {
                0
            };
            let system = if before.stime_ticks <= after.stime_ticks {
                after.stime_ticks - before.stime_ticks
            } else {
                0
            };
            let ns = (user + system) * (1_000_000_000int / clk);
            user + system <= u64::MAX ==> cpu_between(before, after, clk) == if ns <= u64::MAX {
                ns
            } else {
                u64::MAX as int
            }
        }),
{
    assert(0 <= 1_000_000_000int / clk <= 1_000_000_000) by (nonlinear_arith)
        requires
            clk > 0,
    ;
}

/// A sum or a product is the number itself as long as 64 bits hold it, and the greatest
/// that they hold above that.
pub proof fn law_what_64_bits_hold(a: u64, b: u64)
    ensures
        a + b <= u64::MAX ==> capped_sum(a, b) == a + b,
        a + b > u64::MAX ==> capped_sum(a, b) == u64::MAX,
        a * b <= u64::MAX ==> capped_product(a, b) == a * b,
        a * b > u64::MAX ==> capped_product(a, b) == u64::MAX,
{
}

/// Without a parenthesis, or with less than 13 words behind it, there are no times.
pub proof fn law_no_times_of_a_process(before: Seq<char>, rest: Seq<char>)
    requires
        !rest.contains(')'),
        rest.len() > 0,
        text::words(rest.skip(1), 0).len() < 13,
    ensures
        stat_cpu(rest) is None,
        stat_cpu(before + seq![')'] + rest) is None,
{
    let s = before + seq![')'] + rest;
    let n = before.len() as int;
    text::lemma_after_last(rest, ')', rest.len() as int);
    let at = text::after_last(rest, ')', rest.len() as int);
    if at > 0 {
        assert(rest.contains(rest[at - 1]));
    }
    text::lemma_after_last(s, ')', s.len() as int);
    assert(s[n] == ')');
    assert forall|i: int| n < i < s.len() implies s[i] != ')' by {
        assert(s[i] == rest[i - n - 1]);
        assert(rest.contains(rest[i - n - 1]));
    }
    assert(text::after_last(s, ')', s.len() as int) == n + 1);
    assert(s.skip(n + 2) =~= rest.skip(1));
}

/// The two times in the text of `/proc/self/stat` are words number 12 and 13 after
/// the last parenthesis and one more character, whatever comes before it.
pub proof fn law_times_of_a_process(before: Seq<char>, c: char, rest: Seq<char>)
    requires
        c != ')',
        (c as u32) < 0x80,
        !rest.contains(')'),
        text::words(rest, 0).len() >= 13,
        forall|i: int|
            11 <= i <= 12 ==> {
                let w = #[trigger] text::words(rest, 0)[i];
                w.len() > 0 && number::all_digits(w) && number::decimal_value(w) <= u64::MAX
            },
    ensures
        stat_cpu(before + seq![')', c] + rest) == Some(
            (
                number::decimal_value(text::words(rest, 0)[11]) as u64,
                number::decimal_value(text::words(rest, 0)[12]) as u64,
            ),
        ),
{
    let s = before + seq![')', c] + rest;
    let n = before.len() as int;
    text::lemma_after_last(s, ')', s.len() as int);
    assert(s[n] == ')');
    assert forall|i: int| n < i < s.len() implies s[i] != ')' by {
        if i > n + 1 {
            assert(s[i] == rest[i - n - 2]);
            assert(rest.contains(rest[i - n - 2]));
        }
    }
    assert(text::after_last(s, ')', s.len() as int) == n + 1);
    assert(s[n + 1] == c);
    assert(s.skip(n + 2) =~= rest);
    let w = text::words(rest, 0);
    assert(w[11].len() > 0 && w[12].len() > 0);
    number::lemma_unsigned_digits(w[11], u64::MAX as nat);
    number::lemma_unsigned_digits(w[12], u64::MAX as nat);
}

/// The resident pages are the second word of the text of `/proc/self/statm`.
pub proof fn law_pages_of_a_process(statm: Seq<char>)
    requires
        text::words(statm, 0).len() >= 2,
        text::words(statm, 0)[1].len() > 0,
        number::all_digits(text::words(statm, 0)[1]),
        number::decimal_value(text::words(statm, 0)[1]) <= u64::MAX,
    ensures
        statm_pages(statm) == number::decimal_value(text::words(statm, 0)[1]),
{
    number::lemma_unsigned_digits(text::words(statm, 0)[1], u64::MAX as nat);
}

/// `text` is the nearest number of hundredths of `unit` to `n`, with two places after
/// the point, and the name of the unit.
pub open spec fn shows_units(text: Seq<char>, n: nat, unit: nat, name: Seq<char>) -> bool {
    exists|h: nat|
        2 * (100 * n - h * unit) <= unit && 2 * (h * unit - 100 * n) <= unit && text
            == #[trigger] number::decimal(h / 100) + seq!['.'] + number::padded(h % 100, 2) + name
}

proof fn lemma_shows_units(n: nat, unit: nat, name: Seq<char>)
    requires
        unit > 0,
    ensures
        shows_units(in_units(n, unit) + name, n, unit, name),
{
    let h = rounding::half_even(n * 100, unit);
    let v = n * 100;
    let (k, r) = (v / unit, v % unit);
    vstd::arithmetic::div_mod::lemma_fundamental_div_mod(v as int, unit as int);
    assert(k * unit == unit * k) by (nonlinear_arith);
    assert((k + 1) * unit == k * unit + unit) by (nonlinear_arith);
    reveal_strlit(".");
    assert("."@ =~= seq!['.']);
    assert(in_units(n, unit) + name == number::decimal(h / 100) + seq!['.'] + number::padded(
        h % 100,
        2,
    ) + name);
}

/// Bytes for people: below 1024 as they are, then in units of 1024, of 1024 times
/// 1024, and of that times 1024, to two places after the point.
pub proof fn law_bytes_for_people(n: nat)
    ensures
        n < 1024 ==> bytes_text(n) == number::decimal(n) + " B"@,
        1024 <= n < 1024 * 1024 ==> shows_units(bytes_text(n), n, 1024, " KiB"@),
        1024 * 1024 <= n < 1024 * 1024 * 1024 ==> shows_units(
            bytes_text(n),
            n,
            1024 * 1024,
            " MiB"@,
        ),
        1024 * 1024 * 1024 <= n < 0x20_0000_0000_0000 ==> shows_units(
            bytes_text(n),
            n,
            1024 * 1024 * 1024,
            " GiB"@,
        ),
{
    lemma_shows_units(n, 1024, " KiB"@);
    lemma_shows_units(n, 1024 * 1024, " MiB"@);
    lemma_shows_units(n, 1024 * 1024 * 1024, " GiB"@);
}

/// A number of more than 53 bits is shown as one that differs from it by less than one
/// part in 2^52.
pub proof fn law_many_bytes_for_people(n: nat)
    requires
        0x20_0000_0000_0000 <= n,
    ensures
        (in_double(n) - n) * 0x10_0000_0000_0000 <= n,
        (n - in_double(n)) * 0x10_0000_0000_0000 <= n,
        shows_units(bytes_text(n), in_double(n), 1024 * 1024 * 1024, " GiB"@),
{
    let v = in_double(n);
    rounding::law_rounding_is_close(n, 1);
    rounding::lemma_nearest_whole(n);
    assert(v * 1 == v && n * 1 == n);
    assert(v >= GIB);
    lemma_shows_units(v, 1024 * 1024 * 1024, " GiB"@);
}

/// The line of a window: the server, how long the window was, what was sent and
/// received, the packets that were dropped, those that were sent and those that were
/// received, and what the process used. Columns 1, 5 and 6 are filled up with blanks
/// to 12, 6 and 18 characters.
pub proof fn law_window_line_shows_all(w: WindowText)
    ensures
        window_line(w) == text::filled(seq!['['] + w.server@ + seq![']'], 12) + " window="@
            + w.seconds@ + "s   send="@ + w.send@ + "   recv="@ + w.recv@ + "   drop="@
            + text::filled(number::decimal(w.packets_dropped as nat), 6) + " pkts="@ + text::filled(
            number::decimal(w.packets_sent as nat) + seq!['/'] + number::decimal(
                w.packets_recv as nat,
            ),
            18,
        ) + " cpu="@ + w.cpu@ + "%   rss="@ + bytes_text(w.memory_bytes as nat),
{
    reveal_strlit("[");
    reveal_strlit("]");
    reveal_strlit("/");
    assert("["@ =~= seq!['[']);
    assert("]"@ =~= seq![']']);
    assert("/"@ =~= seq!['/']);
}

/// What is said of counters is said of their fields.
pub proof fn law_content_of_counters(c: Counters, k: int)
    requires
        0 <= k < c.names@.len(),
    ensures
        c@.total == c.total,
        c@.peers == c.peers@,
        c@.names.len() == c.names@.len(),
        c@.names[k] == c.names@[k]@,
{
}

} // verus!
