//! The test traffic: payload, packet headers, what is counted, and the choices
//! a sender and a receiver make.
use vstd::prelude::*;

use crate::address::{IpAddr, SocketAddr};
use crate::bytes;
use crate::metrics;
use crate::metrics::{AtomStats, Counters, CountersView};
use crate::netutil;
use crate::netutil::{AddrFamily, NoAddress};
use crate::text;

verus! {

/// Bytes in the header of a packet.
pub const UDP_HDR: usize = 20;

/// Bytes in the longest packet.
pub const UDP_PKT: usize = 8192;

/// Bytes of payload in the longest packet.
pub const UDP_CHUNK: usize = 8172;

/// What every packet begins with: `TFP1`.
pub const UDP_MAGIC: u32 = 0x5446_5031;

/// Why there is no payload of a size.
#[derive(Debug, Clone, Copy, PartialEq, Eq, Structural)]
pub enum PayloadError {
    /// The machine cannot address so many bytes.
    TooLarge,
    /// It would be empty.
    Zero,
}

impl PayloadError {
    /// The message of the error.
    pub fn message(&self) -> (res: &'static str)
        ensures
            res@ == (match self {
                PayloadError::TooLarge => "payload_size too large"@,
                PayloadError::Zero => "payload_size must be >= 1"@,
            }),
    {
        match self {
            PayloadError::TooLarge => "payload_size too large",
            PayloadError::Zero => "payload_size must be >= 1",
        }
    }
}

/// Byte `i` of a payload.
pub open spec fn payload_byte(i: int) -> u8 {
    ((i * 131 + 0xA5) % 256) as u8
}

/// The payload of `n` bytes.
pub open spec fn payload_of(n: nat) -> Seq<u8> {
    Seq::new(n, |i: int| payload_byte(i))
}

proof fn lemma_next_byte(i: int)
    requires
        i >= 0,
    ensures
        payload_byte(i + 1) == (payload_byte(i) as int + 131) % 256,
{
    let x = i * 131 + 0xA5;
    assert((i + 1) * 131 + 0xA5 == x + 131);
    assert((x + 131) % 256 == (x % 256 + 131) % 256);
}

/// Makes the payload of a test.
pub fn make_payload(size: u64) -> (res: Result<Vec<u8>, PayloadError>)
    ensures
        match res {
            Ok(buf) => 0 < size <= usize::MAX && buf@ == payload_of(size as nat),
            Err(PayloadError::TooLarge) => size > usize::MAX,
            Err(PayloadError::Zero) => size == 0,
        },
{
    if size > usize::MAX as u64 {
        return Err(PayloadError::TooLarge);
    }
    let n: usize = size as usize;
    if n == 0 {
        return Err(PayloadError::Zero);
    }
    let mut buf: Vec<u8> = Vec::with_capacity(n);
    let mut b: u8 = 0xA5;
    let mut i: usize = 0;
    while i < n
        invariant
            i <= n,
            b == payload_byte(i as int),
            buf@ == payload_of(i as nat),
        decreases n - i,
    {
        buf.push(b);
        proof {
            lemma_next_byte(i as int);
        }
        b = b.wrapping_add(131);
        i += 1;
        assert(buf@ =~= payload_of(i as nat));
    }
    Ok(buf)
}

/// The header of a packet: the magic number, the sender, the place of the packet
/// in the sender's stream, and how many bytes of payload follow.
pub open spec fn header(sender: u32, seq: u64, len: u32) -> Seq<u8> {
    bytes::be_bytes(UDP_MAGIC as nat, 4) + bytes::be_bytes(sender as nat, 4) + bytes::be_bytes(
        seq as nat,
        8,
    ) + bytes::be_bytes(len as nat, 4)
}

/// What the header of a packet says; `None` if it has none.
pub open spec fn header_of(packet: Seq<u8>) -> Option<(u32, u64, u32)> {
    if packet.len() < UDP_HDR || bytes::be_value(packet.subrange(0, 4)) != UDP_MAGIC {
        None
    } else {
        Some(
            (
                bytes::be_value(packet.subrange(4, 8)) as u32,
                bytes::be_value(packet.subrange(8, 16)) as u64,
                bytes::be_value(packet.subrange(16, 20)) as u32,
            ),
        )
    }
}

proof fn lemma_header_len(sender: u32, seq: u64, len: u32)
    ensures
        header(sender, seq, len).len() == UDP_HDR,
{
    bytes::lemma_be_bytes_len(UDP_MAGIC as nat, 4);
    bytes::lemma_be_bytes_len(sender as nat, 4);
    bytes::lemma_be_bytes_len(seq as nat, 8);
    bytes::lemma_be_bytes_len(len as nat, 4);
}

/// What was written into a header is read from it, whatever follows it.
pub proof fn law_header_round_trip(sender: u32, seq: u64, len: u32, rest: Seq<u8>)
    ensures
        header_of(header(sender, seq, len) + rest) == Some((sender, seq, len)),
{
    let p = header(sender, seq, len) + rest;
    bytes::lemma_be_bytes_len(UDP_MAGIC as nat, 4);
    bytes::lemma_be_bytes_len(sender as nat, 4);
    bytes::lemma_be_bytes_len(seq as nat, 8);
    bytes::lemma_be_bytes_len(len as nat, 4);
    bytes::lemma_limits();
    bytes::law_be_round_trip(UDP_MAGIC as nat, 4);
    bytes::law_be_round_trip(sender as nat, 4);
    bytes::law_be_round_trip(seq as nat, 8);
    bytes::law_be_round_trip(len as nat, 4);
    assert(p.subrange(0, 4) =~= bytes::be_bytes(UDP_MAGIC as nat, 4));
    assert(p.subrange(4, 8) =~= bytes::be_bytes(sender as nat, 4));
    assert(p.subrange(8, 16) =~= bytes::be_bytes(seq as nat, 8));
    assert(p.subrange(16, 20) =~= bytes::be_bytes(len as nat, 4));
}

fn put_u32(buf: &mut [u8], at: usize, n: u32)
    requires
        at + 4 <= old(buf)@.len(),
    ensures
        final(buf)@ == old(buf)@.take(at as int) + bytes::be_bytes(n as nat, 4) + old(buf)@.skip(
            at + 4,
        ),
{
    let b = bytes::be_bytes_u32(n);
    buf[at] = b[0];
    buf[at + 1] = b[1];
    buf[at + 2] = b[2];
    buf[at + 3] = b[3];
    assert(buf@ =~= old(buf)@.take(at as int) + b@ + old(buf)@.skip(at + 4));
}

/// Writes a header to the beginning of a packet.
pub fn write_hdr(buf: &mut [u8], sender_id: u32, seq: u64, len: u32)
    requires
        old(buf)@.len() >= UDP_HDR,
    ensures
        final(buf)@ == header(sender_id, seq, len) + old(buf)@.skip(UDP_HDR as int),
{
    proof {
        lemma_header_len(sender_id, seq, len);
        bytes::lemma_be_bytes_len(UDP_MAGIC as nat, 4);
        bytes::lemma_be_bytes_len(sender_id as nat, 4);
        bytes::lemma_be_bytes_len((seq / 0x1_0000_0000) as nat, 4);
        bytes::lemma_be_bytes_len((seq % 0x1_0000_0000) as nat, 4);
        bytes::lemma_be_bytes_len(len as nat, 4);
        bytes::lemma_be_bytes_halves(seq as nat);
    }
    put_u32(buf, 0, UDP_MAGIC);
    put_u32(buf, 4, sender_id);
    put_u32(buf, 8, (seq / 0x1_0000_0000) as u32);
    put_u32(buf, 12, (seq % 0x1_0000_0000) as u32);
    put_u32(buf, 16, len);
    assert(buf@ =~= header(sender_id, seq, len) + old(buf)@.skip(UDP_HDR as int));
}

/// Reads the header of a packet.
pub fn read_hdr(buf: &[u8]) -> (res: Option<(u32, u64, u32)>)
    ensures
        res == header_of(buf@),
{
    if buf.len() < UDP_HDR {
        return None;
    }
    if bytes::be_u32_at(buf, 0) != UDP_MAGIC {
        return None;
    }
    let sender_id: u32 = bytes::be_u32_at(buf, 4);
    let high: u32 = bytes::be_u32_at(buf, 8);
    let low: u32 = bytes::be_u32_at(buf, 12);
    let len: u32 = bytes::be_u32_at(buf, 16);
    proof {
        let eight = buf@.subrange(8, 16);
        bytes::lemma_be_value_halves(eight);
        assert(eight.take(4) =~= buf@.subrange(8, 12));
        assert(eight.skip(4) =~= buf@.subrange(12, 16));
    }
    let seq: u64 = high as u64 * 0x1_0000_0000 + low as u64;
    Some((sender_id, seq, len))
}

/// How many packets a packet with number `seq` shows to be missing, where
/// `expected` is the number that should come next.
pub open spec fn missed(expected: Option<u64>, seq: u64) -> u64 {
    match expected {
        Some(e) if seq > e => (seq - e) as u64,
        _ => 0,
    }
}

/// The number that should come next, after one has come. A number that comes
/// late changes nothing.
pub open spec fn expected_after(expected: Option<u64>, seq: u64) -> Option<u64> {
    match expected {
        Some(e) if seq < e => Some(e),
        _ => Some(metrics::capped_sum(seq, 1)),
    }
}

/// Notes the number of a packet, and says how many it shows to be missing.
pub fn note_seq(expected: &mut Option<u64>, seq: u64) -> (res: u64)
    ensures
        res == missed(*old(expected), seq),
        *final(expected) == expected_after(*old(expected), seq),
{
    match *expected {
        None => {
            *expected = Some(seq.saturating_add(1));
            0
        },
        Some(e) => {
            if seq == e {
                *expected = Some(e.saturating_add(1));
                0
            } else if seq > e {
                *expected = Some(seq.saturating_add(1));
                seq - e
            } else {
                0
            }
        },
    }
}

/// What should come next after the first `k` numbers.
pub open spec fn expected_at(seqs: Seq<u64>, k: int) -> Option<u64>
    decreases k,
{
    if k <= 0 {
        None
    } else {
        expected_after(expected_at(seqs, k - 1), seqs[k - 1])
    }
}

/// How many packets the first `k` numbers show to be missing.
pub open spec fn missed_in(seqs: Seq<u64>, k: int) -> int
    decreases k,
{
    if k <= 0 {
        0
    } else {
        missed_in(seqs, k - 1) + missed(expected_at(seqs, k - 1), seqs[k - 1])
    }
}

/// How many of the first `k` packets came as the one that was expected or a later
/// one.
pub open spec fn advances(seqs: Seq<u64>, k: int) -> int
    decreases k,
{
    if k <= 0 {
        0
    } else {
        advances(seqs, k - 1) + match expected_at(seqs, k - 1) {
            Some(e) if seqs[k - 1] < e => 0int,
            _ => 1,
        }
    }
}

/// In whatever order packets come: those that are counted as missing, and those
/// that came in their turn or early, make up everything from the first packet to
/// the one before the next that is expected.
pub proof fn law_everything_is_accounted_for(seqs: Seq<u64>, k: int)
    requires
        0 < k <= seqs.len(),
        forall|a: int| 0 <= a < seqs.len() ==> #[trigger] seqs[a] < u64::MAX,
    ensures
        expected_at(seqs, k) is Some,
        missed_in(seqs, k) + advances(seqs, k) == expected_at(seqs, k)->0 - seqs[0],
    decreases k,
{
    reveal_with_fuel(missed_in, 2);
    reveal_with_fuel(expected_at, 2);
    reveal_with_fuel(advances, 2);
    if k > 1 {
        law_everything_is_accounted_for(seqs, k - 1);
        assert(seqs[k - 1] < u64::MAX);
    } else {
        assert(seqs[0] < u64::MAX);
    }
}

/// Of packets that come in order, exactly those between the first and the last
/// that did not come are counted as missing.
pub proof fn law_gaps_are_counted(seqs: Seq<u64>, k: int)
    requires
        0 < k <= seqs.len(),
        forall|a: int, b: int| 0 <= a < b < seqs.len() ==> #[trigger] seqs[a] < #[trigger] seqs[b],
        forall|a: int| 0 <= a < seqs.len() ==> #[trigger] seqs[a] < u64::MAX,
    ensures
        missed_in(seqs, k) == seqs[k - 1] - seqs[0] + 1 - k,
        expected_at(seqs, k) == Some((seqs[k - 1] + 1) as u64),
    decreases k,
{
    reveal_with_fuel(missed_in, 2);
    reveal_with_fuel(expected_at, 2);
    if k > 1 {
        law_gaps_are_counted(seqs, k - 1);
        assert(seqs[k - 2] < seqs[k - 1]);
    }
}

/// A packet that comes late, or twice, is never counted as missing and does not
/// change what should come next.
pub proof fn law_late_packets_change_nothing(expected: u64, seq: u64)
    requires
        seq < expected,
    ensures
        missed(Some(expected), seq) == 0,
        expected_after(Some(expected), seq) == Some(expected),
{
}

/// What a receiver has counted, and the number that should come next from each
/// peer.
#[derive(Debug, Clone)]
pub struct Receiver {
    pub counters: Counters,
    pub expected: Vec<Option<u64>>,
    pub self_id: u32,
}

/// The content of a [`Receiver`].
#[verifier::ext_equal]
pub struct ReceiverView {
    pub counters: CountersView,
    pub expected: Seq<Option<u64>>,
    pub self_id: u32,
}

impl View for Receiver {
    type V = ReceiverView;

    open spec fn view(&self) -> ReceiverView {
        ReceiverView {
            counters: self.counters@,
            expected: self.expected@,
            self_id: self.self_id,
        }
    }
}

impl ReceiverView {
    /// There is a count and an expected number for each peer.
    pub open spec fn wf(self) -> bool {
        self.expected.len() == self.counters.peers.len()
    }

    /// The sender is another host of the list.
    pub open spec fn is_peer(self, sender: u32) -> bool {
        sender < self.expected.len() && sender != self.self_id
    }

    /// After a datagram has come. One without a header, or of another length
    /// than its header says, is ignored; one of an unknown sender counts in the
    /// total only.
    pub open spec fn after(self, datagram: Seq<u8>) -> ReceiverView {
        match header_of(datagram) {
            Some((sender, seq, len)) if len == datagram.len() - UDP_HDR => if self.is_peer(sender) {
                ReceiverView {
                    counters: self.counters.received(Some(sender), len as u64, 1).lost(
                        Some(sender),
                        missed(self.expected[sender as int], seq),
                    ),
                    expected: self.expected.update(
                        sender as int,
                        expected_after(self.expected[sender as int], seq),
                    ),
                    ..self
                }
            } else {
                ReceiverView { counters: self.counters.received(None, len as u64, 1), ..self }
            },
            _ => self,
        }
    }

    /// After a TCP read that gave `n` bytes from a peer, if it is known.
    pub open spec fn after_tcp(self, peer: Option<u32>, n: nat) -> ReceiverView {
        if n == 0 {
            self
        } else {
            ReceiverView { counters: self.counters.received(peer, n as u64, 0), ..self }
        }
    }

    /// After the first `k` of some datagrams have come.
    pub open spec fn after_all(self, datagrams: Seq<Seq<u8>>, k: int) -> ReceiverView
        decreases k,
    {
        if k <= 0 {
            self
        } else {
            self.after_all(datagrams, k - 1).after(datagrams[k - 1])
        }
    }
}

impl Receiver {
    /// A receiver that has seen nothing yet.
    pub fn new(hostlist: &[String], self_id: u32) -> (res: Receiver)
        ensures
            res@.wf(),
            res@.self_id == self_id,
            res@.counters.total == AtomStats::zero(),
            res@.counters.names == text::texts(hostlist@),
            res@.counters.peers == Seq::new(hostlist@.len(), |i: int| AtomStats::zero()),
            res@.expected == Seq::new(hostlist@.len(), |i: int| None::<u64>),
    {
        let counters = Counters::new(hostlist);
        let n: usize = hostlist.len();
        let mut expected: Vec<Option<u64>> = Vec::new();
        let mut i: usize = 0;
        while i < n
            invariant
                i <= n,
                expected@ == Seq::new(i as nat, |j: int| None::<u64>),
            decreases n - i,
        {
            expected.push(None);
            i += 1;
            assert(expected@ =~= Seq::new(i as nat, |j: int| None::<u64>));
        }
        Receiver { counters, expected, self_id }
    }

    /// Counts a datagram.
    pub fn on_datagram(&mut self, datagram: &[u8])
        requires
            old(self)@.wf(),
        ensures
            final(self)@ == old(self)@.after(datagram@),
            final(self)@.wf(),
    {
        let (sender, seq, len) = match read_hdr(datagram) {
            Some(h) => h,
            None => {
                return;
            },
        };
        if len as u64 != (datagram.len() - UDP_HDR) as u64 {
            return;
        }
        if (sender as usize) < self.expected.len() && sender != self.self_id {
            self.counters.record_recv(Some(sender), len as u64, 1);
            let mut slot = self.expected[sender as usize];
            let lost: u64 = note_seq(&mut slot, seq);
            self.expected.set(sender as usize, slot);
            self.counters.record_drop(Some(sender), lost);
        } else {
            self.counters.record_recv(None, len as u64, 1);
        }
        assert(self@ =~= old(self)@.after(datagram@));
    }

    /// Counts what a TCP read gave: bytes from a peer, if it is known. Says
    /// whether to read on; a read of no bytes is the end of the stream.
    pub fn on_tcp_read(&mut self, peer: Option<u32>, n: usize) -> (res: bool)
        ensures
            res == (n > 0),
            final(self)@ == old(self)@.after_tcp(peer, n as nat),
            final(self)@ == (if n > 0 {
                (ReceiverView {
                    counters: old(self)@.counters.received(peer, n as u64, 0),
                    ..old(self)@
                })
            } else {
                old(self)@
            }),
    {
        if n == 0 {
            return false;
        }
        self.counters.record_recv(peer, n as u64, 0);
        true
    }
}

/// The packet that carries `n` bytes of the payload from `offset` on.
pub open spec fn packet(payload: Seq<u8>, offset: int, n: int, sender: u32, seq: u64) -> Seq<u8> {
    header(sender, seq, n as u32) + payload.subrange(offset, offset + n)
}

/// How many bytes of payload the packet at `offset` carries.
pub open spec fn chunk_len(len: nat, offset: int) -> int {
    if len - offset < UDP_CHUNK {
        len - offset
    } else {
        UDP_CHUNK as int
    }
}

/// How many packets a payload takes.
pub open spec fn packet_count(len: nat) -> nat {
    (len + UDP_CHUNK - 1) as nat / UDP_CHUNK as nat
}

/// The packets of a payload from `offset` on, numbered from `seq`.
pub open spec fn packets(payload: Seq<u8>, offset: int, sender: u32, seq: int) -> Seq<Seq<u8>>
    decreases payload.len() - offset,
{
    if offset >= payload.len() {
        Seq::empty()
    } else {
        let n = chunk_len(payload.len(), offset);
        seq![packet(payload, offset, n, sender, seq as u64)] + packets(
            payload,
            offset + n,
            sender,
            seq + 1,
        )
    }
}

/// The bytes of payload that packets carry, one after the other.
pub open spec fn carried(packets: Seq<Seq<u8>>) -> Seq<u8>
    decreases packets.len(),
{
    if packets.len() == 0 {
        Seq::empty()
    } else {
        packets[0].skip(UDP_HDR as int) + carried(packets.skip(1))
    }
}

/// The packets of a payload carry all of it, in order.
pub proof fn law_packets_carry_the_payload(
    payload: Seq<u8>,
    offset: int,
    sender: u32,
    seq: int,
)
    requires
        0 <= offset <= payload.len(),
    ensures
        carried(packets(payload, offset, sender, seq)) == payload.skip(offset),
    decreases payload.len() - offset,
{
    let all = packets(payload, offset, sender, seq);
    if offset < payload.len() {
        let n = chunk_len(payload.len(), offset);
        law_packets_carry_the_payload(payload, offset + n, sender, seq + 1);
        lemma_header_len(sender, seq as u64, n as u32);
        assert(all.skip(1) =~= packets(payload, offset + n, sender, seq + 1));
        assert(all[0].skip(UDP_HDR as int) =~= payload.subrange(offset, offset + n));
        assert(carried(all) =~= payload.skip(offset));
    } else {
        assert(carried(all) =~= payload.skip(offset));
    }
}

/// How many packets there are, and that each is no longer than a packet may be.
pub proof fn law_packets_fit(payload: Seq<u8>, offset: int, sender: u32, seq: int)
    requires
        0 <= offset <= payload.len(),
        offset % (UDP_CHUNK as int) == 0,
    ensures
        packets(payload, offset, sender, seq).len() == packet_count((payload.len() - offset) as nat),
        forall|i: int|
            0 <= i < packets(payload, offset, sender, seq).len() ==> (#[trigger] packets(
                payload,
                offset,
                sender,
                seq,
            )[i]).len() <= UDP_PKT,
    decreases payload.len() - offset,
{
    let all = packets(payload, offset, sender, seq);
    if offset < payload.len() {
        let n = chunk_len(payload.len(), offset);
        let rest = packets(payload, offset + n, sender, seq + 1);
        lemma_header_len(sender, seq as u64, n as u32);
        if n == UDP_CHUNK {
            law_packets_fit(payload, offset + n, sender, seq + 1);
        } else {
            assert(rest.len() == 0);
        }
        assert forall|i: int| 0 <= i < all.len() implies (#[trigger] all[i]).len() <= UDP_PKT by {
            if i > 0 {
                assert(all[i] == rest[i - 1]);
            }
        }
    }
}

/// A packet as a sender makes it is taken by a receiver, as what the sender put
/// into it.
pub proof fn law_packets_are_accepted(
    payload: Seq<u8>,
    offset: int,
    sender: u32,
    seq: u64,
)
    requires
        0 <= offset < payload.len(),
    ensures
        ({
            let n = chunk_len(payload.len(), offset);
            let p = packet(payload, offset, n, sender, seq);
            header_of(p) == Some((sender, seq, n as u32)) && n as u32 == p.len() - UDP_HDR
        }),
{
    let n = chunk_len(payload.len(), offset);
    lemma_header_len(sender, seq, n as u32);
    law_header_round_trip(sender, seq, n as u32, payload.subrange(offset, offset + n));
}

proof fn lemma_after_first(r: ReceiverView, p: Seq<u8>, rest: Seq<Seq<u8>>, k: int)
    requires
        0 <= k <= rest.len(),
    ensures
        r.after_all(seq![p] + rest, k + 1) == r.after(p).after_all(rest, k),
    decreases k,
{
    let all = seq![p] + rest;
    reveal_with_fuel(ReceiverView::after_all, 2);
    if k > 0 {
        lemma_after_first(r, p, rest, k - 1);
        assert(all[k] == rest[k - 1]);
    } else {
        assert(all[0] == p);
    }
}

/// One packet is counted as received, and nothing as missing.
proof fn lemma_one_delivered(
    r: ReceiverView,
    payload: Seq<u8>,
    offset: int,
    sender: u32,
    seq: u64,
)
    requires
        r.wf(),
        r.is_peer(sender),
        0 <= offset < payload.len(),
        seq < u64::MAX,
        r.expected[sender as int] is Some ==> r.expected[sender as int] == Some(seq),
    ensures
        ({
            let n = chunk_len(payload.len(), offset);
            let next = r.after(packet(payload, offset, n, sender, seq));
            &&& next.counters == r.counters.received(Some(sender), n as u64, 1)
            &&& next.expected == r.expected.update(sender as int, Some((seq + 1) as u64))
            &&& next.self_id == r.self_id
        }),
{
    let n = chunk_len(payload.len(), offset);
    law_packets_are_accepted(payload, offset, sender, seq);
    let counted = r.counters.received(Some(sender), n as u64, 1);
    assert(missed(r.expected[sender as int], seq) == 0);
    assert(counted.lost(Some(sender), 0) =~= counted);
}

/// What is counted in two steps is counted in one.
proof fn lemma_received_twice(c: CountersView, peer: u32, a: (u64, u64), b: (u64, u64))
    requires
        peer < c.peers.len(),
        a.0 + b.0 <= u64::MAX,
        a.1 + b.1 <= u64::MAX,
    ensures
        c.received(Some(peer), a.0, a.1).received(Some(peer), b.0, b.1) == c.received(
            Some(peer),
            (a.0 + b.0) as u64,
            (a.1 + b.1) as u64,
        ),
{
    let twice = c.received(Some(peer), a.0, a.1).received(Some(peer), b.0, b.1);
    let once = c.received(Some(peer), (a.0 + b.0) as u64, (a.1 + b.1) as u64);
    assert(twice.peers =~= once.peers);
    assert(twice =~= once);
}

/// What a sender counts as sent, a receiver that gets every packet of it counts
/// as received from that sender, byte for byte and packet for packet, and
/// nothing as missing.
pub proof fn law_delivered_is_counted(
    r: ReceiverView,
    payload: Seq<u8>,
    offset: int,
    sender: u32,
    seq: int,
)
    requires
        r.wf(),
        r.is_peer(sender),
        0 <= offset <= payload.len() <= u64::MAX,
        offset % (UDP_CHUNK as int) == 0,
        0 <= seq,
        seq + packet_count((payload.len() - offset) as nat) <= u64::MAX,
        r.expected[sender as int] is Some ==> r.expected[sender as int] == Some(seq as u64),
    ensures
        ({
            let len = (payload.len() - offset) as nat;
            let all = packets(payload, offset, sender, seq);
            let done = r.after_all(all, all.len() as int);
            &&& done.counters == r.counters.received(
                Some(sender),
                len as u64,
                packet_count(len) as u64,
            )
            &&& len > 0 ==> done.expected == r.expected.update(
                sender as int,
                Some((seq + packet_count(len)) as u64),
            )
            &&& len == 0 ==> done.expected == r.expected
        }),
    decreases payload.len() - offset,
{
    let len = (payload.len() - offset) as nat;
    let all = packets(payload, offset, sender, seq);
    let count = packet_count(len);
    let i = sender as int;
    assert(packet_count(0) == 0);
    if offset < payload.len() {
        let n = chunk_len(payload.len(), offset);
        let p = packet(payload, offset, n, sender, seq as u64);
        let rest = packets(payload, offset + n, sender, seq + 1);
        let next = r.after(p);
        let left = (len - n) as nat;
        assert(count == packet_count(left) + 1);
        lemma_one_delivered(r, payload, offset, sender, seq as u64);
        lemma_after_first(r, p, rest, rest.len() as int);
        let done = r.after_all(all, all.len() as int);
        assert(done == next.after_all(rest, rest.len() as int));
        lemma_received_twice(
            r.counters,
            sender,
            (n as u64, 1),
            (left as u64, packet_count(left) as u64),
        );
        if n == UDP_CHUNK {
            law_delivered_is_counted(next, payload, offset + n, sender, seq + 1);
        } else {
            let whole = next.counters.received(Some(sender), 0, 0);
            assert(whole.peers =~= next.counters.peers);
            assert(whole =~= next.counters);
        }
        assert(done.expected =~= r.expected.update(i, Some((seq + count) as u64)));
    } else {
        let whole = r.counters.received(Some(sender), 0, 0);
        assert(whole.peers =~= r.counters.peers);
        assert(whole =~= r.counters);
    }
}

/// The number for the next packet to a destination, and the numbers after that was taken.
pub open spec fn take_seq(seqs: Seq<u64>, dest_id: u32) -> (u64, Seq<u64>) {
    if dest_id < seqs.len() {
        let seq = seqs[dest_id as int];
        (seq, seqs.update(dest_id as int, seq.wrapping_add(1)))
    } else {
        (0, seqs)
    }
}

/// Takes the next number for packets to a destination; 0 for a destination that
/// is not in the list.
pub fn next_seq(seqs: &mut Vec<u64>, dest_id: u32) -> (res: u64)
    ensures
        (res, final(seqs)@) == take_seq(old(seqs)@, dest_id),
        res == (if dest_id < old(seqs)@.len() {
            old(seqs)@[dest_id as int]
        } else {
            0
        }),
        final(seqs)@ == (if dest_id < old(seqs)@.len() {
            old(seqs)@.update(dest_id as int, old(seqs)@[dest_id as int].wrapping_add(1))
        } else {
            old(seqs)@
        }),
{
    if (dest_id as usize) < seqs.len() {
        let seq: u64 = seqs[dest_id as usize];
        seqs.set(dest_id as usize, seq.wrapping_add(1));
        seq
    } else {
        0
    }
}

/// Writes the packet for `offset` to the beginning of a buffer, and says how long
/// it is.
pub fn fill_packet(
    pkt: &mut [u8],
    payload: &[u8],
    offset: usize,
    self_id: u32,
    seq: u64,
) -> (res: usize)
    requires
        old(pkt)@.len() == UDP_PKT,
        offset < payload@.len(),
    ensures
        final(pkt)@.len() == UDP_PKT,
        res == UDP_HDR + chunk_len(payload@.len(), offset as int),
        final(pkt)@.take(res as int) == packet(
            payload@,
            offset as int,
            chunk_len(payload@.len(), offset as int),
            self_id,
            seq,
        ),
{
    let total: usize = payload.len();
    let left: usize = total - offset;
    let n: usize = if left < UDP_CHUNK {
        left
    } else {
        UDP_CHUNK
    };
    write_hdr(pkt, self_id, seq, n as u32);
    let ghost head = header(self_id, seq, n as u32);
    proof {
        lemma_header_len(self_id, seq, n as u32);
    }
    let mut i: usize = 0;
    while i < n
        invariant
            i <= n <= UDP_CHUNK,
            offset + n <= total,
            total == payload@.len(),
            pkt@.len() == UDP_PKT,
            head.len() == UDP_HDR,
            pkt@.take(UDP_HDR + i) == head + payload@.subrange(offset as int, offset + i),
        decreases n - i,
    {
        let ghost before = pkt@.take(UDP_HDR + i);
        pkt[UDP_HDR + i] = payload[offset + i];
        i += 1;
        assert(pkt@.take(UDP_HDR + i) =~= before.push(payload@[offset + i - 1]));
        assert(pkt@.take(UDP_HDR + i) =~= head + payload@.subrange(offset as int, offset + i));
    }
    UDP_HDR + n
}

/// How far a sender has come with its payload.
#[derive(Debug, Clone, Copy, PartialEq, Eq, Structural)]
pub struct SendState {
    pub dest_id: u32,
    pub offset: usize,
}

/// Where a sender stands after a packet was sent or could not be sent, and what
/// is counted then. A payload counts as sent when its last packet was sent; after
/// a failure one packet counts as lost, and the payload begins anew.
pub open spec fn send_step(
    state: SendState,
    counters: CountersView,
    len: nat,
    ok: bool,
) -> (SendState, CountersView) {
    let next = state.offset + chunk_len(len, state.offset as int);
    if !ok {
        (SendState { offset: 0, ..state }, counters.lost(Some(state.dest_id), 1))
    } else if next < len {
        (SendState { offset: next as usize, ..state }, counters)
    } else {
        (
            SendState { offset: 0, ..state },
            counters.sent(Some(state.dest_id), len as u64, packet_count(len) as u64),
        )
    }
}

/// Where a sender stands after the first `k` packets, all of which were sent.
pub open spec fn sent_packets(
    state: SendState,
    counters: CountersView,
    len: nat,
    k: int,
) -> (SendState, CountersView)
    decreases k,
{
    if k <= 0 {
        (state, counters)
    } else {
        let (s, c) = sent_packets(state, counters, len, k - 1);
        send_step(s, c, len, true)
    }
}

impl SendState {
    /// A sender that begins with its payload.
    pub fn new(dest_id: u32) -> (res: SendState)
        ensures
            res == (SendState { dest_id, offset: 0 }),
    {
        SendState { dest_id, offset: 0 }
    }

    /// Notes that a packet was sent, or could not be sent.
    pub fn on_result(&mut self, counters: &mut Counters, len: usize, ok: bool)
        requires
            old(self).offset < len,
        ensures
            (*final(self), final(counters)@) == send_step(
                *old(self),
                old(counters)@,
                len as nat,
                ok,
            ),
            final(self).offset < len,
    {
        if !ok {
            counters.record_drop(Some(self.dest_id), 1);
            self.offset = 0;
            return;
        }
        let left: usize = len - self.offset;
        if left > UDP_CHUNK {
            self.offset = self.offset + UDP_CHUNK;
        } else {
            let whole: usize = len / UDP_CHUNK;
            let pkts: usize = if len % UDP_CHUNK == 0 {
                whole
            } else {
                whole + 1
            };
            assert(pkts == packet_count(len as nat));
            counters.record_sent(Some(self.dest_id), len as u64, pkts as u64);
            self.offset = 0;
        }
    }
}

proof fn lemma_sent_so_far(state: SendState, counters: CountersView, len: nat, k: int)
    requires
        state.offset == 0,
        0 < len <= usize::MAX,
        0 <= k < packet_count(len),
    ensures
        sent_packets(state, counters, len, k) == (
            SendState { offset: (k * UDP_CHUNK) as usize, ..state },
            counters,
        ),
        k * UDP_CHUNK < len,
    decreases k,
{
    if k > 0 {
        lemma_sent_so_far(state, counters, len, k - 1);
    }
}

/// A sender whose packets are all sent makes the packets of its payload, and then
/// counts the payload once, with as many packets as it took.
pub proof fn law_payload_counts_once(state: SendState, counters: CountersView, len: nat)
    requires
        state.offset == 0,
        0 < len <= usize::MAX,
    ensures
        forall|k: int|
            0 <= k < packet_count(len) ==> (#[trigger] sent_packets(
                state,
                counters,
                len,
                k,
            )) == (SendState { offset: (k * UDP_CHUNK) as usize, ..state }, counters),
        sent_packets(state, counters, len, packet_count(len) as int) == (
            state,
            counters.sent(Some(state.dest_id), len as u64, packet_count(len) as u64),
        ),
{
    assert forall|k: int| 0 <= k < packet_count(len) implies (#[trigger] sent_packets(
        state,
        counters,
        len,
        k,
    )) == (SendState { offset: (k * UDP_CHUNK) as usize, ..state }, counters) by {
        lemma_sent_so_far(state, counters, len, k);
    }
    let last = packet_count(len) - 1;
    lemma_sent_so_far(state, counters, len, last);
}

/// What a TCP sender does next.
#[derive(Debug, Clone, Copy, PartialEq, Eq, Structural)]
pub enum TcpStep {
    /// Send the payload again.
    Again,
    /// Stop; the test is over.
    Stop,
    /// Stop, and report the failure.
    Fail,
}

/// What a TCP sender does next, and what is counted, after a payload was written or could
/// not be written.
pub open spec fn tcp_step(
    counters: CountersView,
    dest_id: u32,
    len: nat,
    ok: bool,
    cancelled: bool,
) -> (TcpStep, CountersView) {
    if ok {
        (TcpStep::Again, counters.sent(Some(dest_id), len as u64, 1))
    } else if cancelled {
        (TcpStep::Stop, counters)
    } else {
        (TcpStep::Fail, counters.lost(Some(dest_id), 1))
    }
}

/// Notes that a payload was written to a TCP stream, or could not be written. A
/// failure counts as one lost packet, unless the test is over.
pub fn on_tcp_write(
    counters: &mut Counters,
    dest_id: u32,
    len: usize,
    ok: bool,
    cancelled: bool,
) -> (res: TcpStep)
    ensures
        (res, final(counters)@) == tcp_step(old(counters)@, dest_id, len as nat, ok, cancelled),
        ok ==> res == TcpStep::Again && final(counters)@ == old(counters)@.sent(
            Some(dest_id),
            len as u64,
            1,
        ),
        !ok && cancelled ==> res == TcpStep::Stop && final(counters)@ == old(counters)@,
        !ok && !cancelled ==> res == TcpStep::Fail && final(counters)@ == old(counters)@.lost(
            Some(dest_id),
            1,
        ),
{
    if ok {
        counters.record_sent(Some(dest_id), len as u64, 1);
        TcpStep::Again
    } else if cancelled {
        TcpStep::Stop
    } else {
        counters.record_drop(Some(dest_id), 1);
        TcpStep::Fail
    }
}

/// Which host of the list an address belongs to.
#[derive(Debug, Clone)]
pub struct IpMap {
    pub entries: Vec<(IpAddr, u32)>,
}

/// The addresses of the first `k` entries; a later entry replaces an earlier one.
pub open spec fn entries_map(entries: Seq<(IpAddr, u32)>, k: int) -> Map<IpAddr, u32>
    decreases k,
{
    if k <= 0 {
        Map::empty()
    } else {
        entries_map(entries, k - 1).insert(entries[k - 1].0, entries[k - 1].1)
    }
}

impl View for IpMap {
    type V = Map<IpAddr, u32>;

    open spec fn view(&self) -> Map<IpAddr, u32> {
        entries_map(self.entries@, self.entries@.len() as int)
    }
}

/// The map with the first `k` addresses of a host added, as far as they are of
/// the wanted family.
pub open spec fn with_host(
    map: Map<IpAddr, u32>,
    addrs: Seq<SocketAddr>,
    family: Option<AddrFamily>,
    id: u32,
    k: int,
) -> Map<IpAddr, u32>
    decreases k,
{
    if k <= 0 {
        map
    } else {
        let before = with_host(map, addrs, family, id, k - 1);
        if netutil::wanted(family, addrs[k - 1]) {
            before.insert(addrs[k - 1].ip, id)
        } else {
            before
        }
    }
}

/// The map of the first `k` hosts, of which `resolved` holds the addresses.
pub open spec fn ip_map(
    resolved: Seq<Seq<SocketAddr>>,
    family: Option<AddrFamily>,
    k: int,
) -> Map<IpAddr, u32>
    decreases k,
{
    if k <= 0 {
        Map::empty()
    } else {
        with_host(
            ip_map(resolved, family, k - 1),
            resolved[k - 1],
            family,
            (k - 1) as u32,
            resolved[k - 1].len() as int,
        )
    }
}

impl IpMap {
    proof fn lemma_push(entries: Seq<(IpAddr, u32)>, e: (IpAddr, u32), k: int)
        requires
            0 <= k <= entries.len(),
        ensures
            entries_map(entries.push(e), k) == entries_map(entries, k),
        decreases k,
    {
        if k > 0 {
            Self::lemma_push(entries, e, k - 1);
        }
    }

    /// The host that an address belongs to, if it is known.
    pub fn get(&self, ip: IpAddr) -> (res: Option<u32>)
        ensures
            res == (if self@.dom().contains(ip) {
                Some(self@[ip])
            } else {
                None
            }),
    {
        let mut i: usize = self.entries.len();
        while i > 0
            invariant
                i <= self.entries@.len(),
                self@.dom().contains(ip) == entries_map(self.entries@, i as int).dom().contains(ip),
                self@.dom().contains(ip) ==> self@[ip] == entries_map(self.entries@, i as int)[ip],
            decreases i,
        {
            let (at, id) = self.entries[i - 1];
            if at == ip {
                return Some(id);
            }
            i -= 1;
        }
        None
    }
}

/// The list of lists of addresses.
pub open spec fn address_lists(resolved: Seq<Vec<SocketAddr>>) -> Seq<Seq<SocketAddr>> {
    resolved.map_values(|v: Vec<SocketAddr>| v@)
}

/// The map of the hosts, of which `resolved` holds the addresses; none for a host
/// whose name could not be resolved.
pub fn build_ip_map(resolved: &[Vec<SocketAddr>], family: Option<AddrFamily>) -> (res: IpMap)
    ensures
        res@ == ip_map(address_lists(resolved@), family, resolved@.len() as int),
{
    let ghost lists = address_lists(resolved@);
    let mut entries: Vec<(IpAddr, u32)> = Vec::new();
    let n: usize = resolved.len();
    let mut id: usize = 0;
    while id < n
        invariant
            n == resolved@.len(),
            id <= n,
            lists == address_lists(resolved@),
            entries_map(entries@, entries@.len() as int) == ip_map(lists, family, id as int),
        decreases n - id,
    {
        let ghost before = ip_map(lists, family, id as int);
        let addrs = &resolved[id];
        let m: usize = addrs.len();
        let mut j: usize = 0;
        assert(lists[id as int] == addrs@);
        while j < m
            invariant
                m == addrs@.len(),
                j <= m,
                entries_map(entries@, entries@.len() as int) == with_host(
                    before,
                    addrs@,
                    family,
                    id as u32,
                    j as int,
                ),
            decreases m - j,
        {
            let addr = addrs[j];
            let fits = match family {
                Some(f) => f.matches(addr),
                None => true,
            };
            if fits {
                proof {
                    IpMap::lemma_push(
                        entries@,
                        (addr.ip, id as u32),
                        entries@.len() as int,
                    );
                }
                entries.push((addr.ip, id as u32));
            }
            j += 1;
        }
        id += 1;
    }
    IpMap { entries }
}

proof fn lemma_with_host(
    map: Map<IpAddr, u32>,
    addrs: Seq<SocketAddr>,
    family: Option<AddrFamily>,
    id: u32,
    k: int,
    ip: IpAddr,
)
    requires
        0 <= k <= addrs.len(),
    ensures
        ({
            let found = exists|j: int|
                0 <= j < k && (#[trigger] addrs[j]).ip == ip && netutil::wanted(family, addrs[j]);
            let all = with_host(map, addrs, family, id, k);
            &&& found ==> all.dom().contains(ip) && all[ip] == id
            &&& !found ==> all.dom().contains(ip) == map.dom().contains(ip) && all[ip] == map[ip]
        }),
    decreases k,
{
    if k > 0 {
        lemma_with_host(map, addrs, family, id, k - 1, ip);
    }
}

/// The host has the address, in the wanted family.
pub open spec fn owns(addrs: Seq<SocketAddr>, family: Option<AddrFamily>, ip: IpAddr) -> bool {
    exists|j: int|
        0 <= j < addrs.len() && (#[trigger] addrs[j]).ip == ip && netutil::wanted(family, addrs[j])
}

/// An address belongs to the last host of the list that has it, and to none if
/// no host has it.
pub proof fn law_last_owner_wins(
    resolved: Seq<Seq<SocketAddr>>,
    family: Option<AddrFamily>,
    k: int,
    ip: IpAddr,
)
    requires
        0 <= k <= resolved.len(),
    ensures
        ({
            let map = ip_map(resolved, family, k);
            &&& map.dom().contains(ip) <==> exists|i: int|
                0 <= i < k && owns(#[trigger] resolved[i], family, ip)
            &&& map.dom().contains(ip) ==> exists|i: int|
                0 <= i < k && owns(#[trigger] resolved[i], family, ip) && map[ip] == i as u32
                    && forall|j: int| i < j < k ==> !owns(#[trigger] resolved[j], family, ip)
        }),
    decreases k,
{
    if k > 0 {
        law_last_owner_wins(resolved, family, k - 1, ip);
        let addrs = resolved[k - 1];
        let before = ip_map(resolved, family, k - 1);
        lemma_with_host(before, addrs, family, (k - 1) as u32, addrs.len() as int, ip);
        let map = ip_map(resolved, family, k);
        if owns(addrs, family, ip) {
            assert(owns(resolved[k - 1], family, ip));
            assert(map[ip] == (k - 1) as u32);
        } else if before.dom().contains(ip) {
            let i = choose|i: int|
                0 <= i < k - 1 && owns(#[trigger] resolved[i], family, ip) && before[ip] == i as u32
                    && forall|j: int| i < j < k - 1 ==> !owns(#[trigger] resolved[j], family, ip);
            assert(owns(resolved[i], family, ip));
            assert(map[ip] == i as u32);
            assert(forall|j: int| i < j < k ==> !owns(#[trigger] resolved[j], family, ip));
        }
    }
}

/// The resolved address of the server itself can be bound: it is not loopback,
/// or the server's name asks for loopback.
pub open spec fn bindable(resolved: Option<SocketAddr>, self_name: Seq<char>) -> bool {
    match resolved {
        Some(a) => !a.ip.loopback() || netutil::loopback_host(self_name),
        None => false,
    }
}

/// The local addresses with a port.
pub open spec fn with_port(ips: Seq<IpAddr>, port: u16) -> Seq<SocketAddr> {
    ips.map_values(|ip: IpAddr| SocketAddr { ip, port, flowinfo: 0, scope_id: 0 })
}

/// Picks the address to bind: the server's own name resolved, if that can be
/// bound, else one of the machine's addresses.
pub fn choose_bind(
    resolved: Option<SocketAddr>,
    self_name: &str,
    locals: &[IpAddr],
    port: u16,
    family: Option<AddrFamily>,
) -> (res: Result<SocketAddr, NoAddress>)
    ensures
        bindable(resolved, self_name@) ==> res is Ok && resolved == Some(res->Ok_0),
        !bindable(resolved, self_name@) ==> match res {
            Ok(addr) => exists|i: int| #[trigger]
                netutil::is_pick(with_port(locals@, port), family, i) && with_port(
                    locals@,
                    port,
                )[i] == addr,
            Err(_) => forall|j: int|
                0 <= j < locals@.len() ==> !netutil::wanted(
                    family,
                    #[trigger] with_port(locals@, port)[j],
                ),
        },
{
    if let Some(a) = resolved {
        if !a.ip.is_loopback() || netutil::is_loopback_host(self_name) {
            return Ok(a);
        }
    }
    let n: usize = locals.len();
    let mut addrs: Vec<SocketAddr> = Vec::new();
    let mut i: usize = 0;
    while i < n
        invariant
            n == locals@.len(),
            i <= n,
            addrs@ == with_port(locals@, port).take(i as int),
        decreases n - i,
    {
        addrs.push(SocketAddr::new(locals[i], port));
        i += 1;
        assert(addrs@ =~= with_port(locals@, port).take(i as int));
    }
    assert(addrs@ =~= with_port(locals@, port));
    netutil::pick_addr(addrs.as_slice(), family)
}

/// The number that four bytes from place `at` on spell, the most significant first.
pub open spec fn four(s: Seq<u8>, at: int) -> int {
    s[at] * 0x100_0000 + s[at + 1] * 0x1_0000 + s[at + 2] * 0x100 + s[at + 3]
}

/// Where a header has what: `TFP1` in its first four bytes, then the sender in four,
/// the number of the packet in eight, and the length of the payload in four.
pub proof fn law_header_layout(sender: u32, seq: u64, len: u32)
    ensures
        ({
            let h = header(sender, seq, len);
            &&& h.len() == 20
            &&& h[0] == 0x54 && h[1] == 0x46 && h[2] == 0x50 && h[3] == 0x31
            &&& four(h, 4) == sender
            &&& four(h, 8) == seq as int / 0x1_0000_0000
            &&& four(h, 12) == seq as int % 0x1_0000_0000
            &&& four(h, 16) == len
        }),
{
    let h = header(sender, seq, len);
    bytes::law_bytes_are_base_256(UDP_MAGIC as nat, seq as nat);
    bytes::law_bytes_are_base_256(sender as nat, seq as nat);
    bytes::law_bytes_are_base_256(len as nat, seq as nat);
    let m = bytes::be_bytes(UDP_MAGIC as nat, 4);
    let a = bytes::be_bytes(sender as nat, 4);
    let b = bytes::be_bytes(seq as nat, 8);
    let c = bytes::be_bytes(len as nat, 4);
    assert(forall|i: int| 0 <= i < 4 ==> h[i] == m[i] && h[i + 4] == a[i] && h[i + 16] == c[i]);
    assert(forall|i: int| 0 <= i < 8 ==> h[i + 8] == b[i]);
    assert(h[4] == a[0] && h[5] == a[1] && h[6] == a[2] && h[7] == a[3]);
    assert(h[8] == b[0] && h[9] == b[1] && h[10] == b[2] && h[11] == b[3]);
    assert(h[12] == b[4] && h[13] == b[5] && h[14] == b[6] && h[15] == b[7]);
    assert(h[16] == c[0] && h[17] == c[1] && h[18] == c[2] && h[19] == c[3]);
    assert(m[0] * 0x100_0000 + m[1] * 0x1_0000 + m[2] * 0x100 + m[3] == 0x5446_5031);
}

/// What is read from a packet: nothing from one of less than 20 bytes or with another
/// beginning than `TFP1`; else the numbers that stand at their places.
pub proof fn law_header_is_read_in_place(p: Seq<u8>)
    ensures
        header_of(p) is Some <==> p.len() >= 20 && p[0] == 0x54 && p[1] == 0x46 && p[2] == 0x50
            && p[3] == 0x31,
        match header_of(p) {
            Some((sender, seq, len)) => sender == four(p, 4) && seq == four(p, 8) * 0x1_0000_0000
                + four(p, 12) && len == four(p, 16),
            None => true,
        },
{
    if p.len() >= 20 {
        bytes::law_value_of_bytes(p.subrange(0, 4));
        bytes::law_value_of_bytes(p.subrange(4, 8));
        bytes::law_value_of_bytes(p.subrange(8, 16));
        bytes::law_value_of_bytes(p.subrange(16, 20));
    }
}

/// The payload begins with the byte 0xA5, and each byte is 131 more than the one before
/// it, without the carry.
pub proof fn law_payload_bytes(n: nat, i: int)
    requires
        0 <= i < n,
    ensures
        payload_of(n).len() == n,
        payload_of(n)[0] == 0xA5,
        i > 0 ==> payload_of(n)[i] == (payload_of(n)[i - 1] + 131) % 256,
{
    if i > 0 {
        lemma_next_byte(i - 1);
    }
}

/// The packets of a payload: packet `i` carries the bytes from 8172 times `i` on, as
/// many as are left but 8172 at most, behind a header with the sender, a number one
/// higher than that of the packet before it, and the length of what it carries.
pub proof fn law_each_packet(payload: Seq<u8>, offset: int, sender: u32, seq: int, i: int)
    requires
        0 <= offset <= payload.len(),
        0 <= seq,
        seq + i <= u64::MAX,
        0 <= i < packets(payload, offset, sender, seq).len(),
    ensures
        ({
            let p = packets(payload, offset, sender, seq)[i];
            let from = offset + 8172 * i;
            let n = if payload.len() - from < 8172 {
                payload.len() - from
            } else {
                8172
            };
            &&& 0 < n
            &&& p.len() == 20 + n
            &&& header_of(p) == Some((sender, (seq + i) as u64, n as u32))
            &&& p.skip(20) == payload.subrange(from, from + n)
        }),
    decreases payload.len() - offset,
{
    if offset < payload.len() {
        let n = chunk_len(payload.len(), offset);
        let rest = packets(payload, offset + n, sender, seq + 1);
        let all = packets(payload, offset, sender, seq);
        lemma_header_len(sender, seq as u64, n as u32);
        law_packets_are_accepted(payload, offset, sender, seq as u64);
        if i == 0 {
            assert(all[0].skip(20) =~= payload.subrange(offset, offset + n));
        } else {
            assert(all[i] == rest[i - 1]);
            law_each_packet(payload, offset + n, sender, seq + 1, i - 1);
        }
    }
}

/// A payload takes as few packets as can hold it, 8172 bytes in each.
pub proof fn law_packet_count(n: nat)
    ensures
        packet_count(n) * 8172 >= n,
        n > 0 ==> (packet_count(n) - 1) * 8172 < n,
        n == 0 ==> packet_count(n) == 0,
{
}

/// How a datagram with a right header is counted: as one packet of that many bytes,
/// from the sender if it is another host of the list, with the packets lost that its
/// number shows to be missing; else in the total only. One without a header, or with
/// another length than its header says, changes nothing.
pub proof fn law_datagram_is_counted(r: ReceiverView, d: Seq<u8>, q: int)
    requires
        r.wf(),
        0 <= q < r.counters.peers.len(),
    ensures
        ({
            let after = r.after(d);
            let (t, u) = (r.counters.total, after.counters.total);
            let (a, b) = (r.counters.peers[q], after.counters.peers[q]);
            &&& after.wf()
            &&& after.self_id == r.self_id
            &&& after.counters.names == r.counters.names
            &&& header_of(d) is None ==> after == r
            &&& match header_of(d) {
                Some((sender, seq, len)) => {
                    let known = sender < r.expected.len() && sender != r.self_id;
                    let next = r.expected[sender as int];
                    let gap: int = if known && next is Some && seq > next->0 {
                        seq - next->0
                    } else {
                        0
                    };
                    &&& d.len() != 20 + len ==> after == r
                    &&& d.len() == 20 + len ==> {
                        &&& metrics::is_more(t.bytes_recv, len as u64, u.bytes_recv)
                        &&& metrics::is_more(t.packets_recv, 1, u.packets_recv)
                        &&& metrics::is_more(t.packets_dropped, gap as u64, u.packets_dropped)
                        &&& u.bytes_sent == t.bytes_sent
                        &&& u.packets_sent == t.packets_sent
                        &&& known && q == sender ==> {
                            &&& metrics::is_more(a.bytes_recv, len as u64, b.bytes_recv)
                            &&& metrics::is_more(a.packets_recv, 1, b.packets_recv)
                            &&& metrics::is_more(a.packets_dropped, gap as u64, b.packets_dropped)
                            &&& b.bytes_sent == a.bytes_sent
                            &&& b.packets_sent == a.packets_sent
                            &&& next is None && seq < u64::MAX ==> after.expected[q] == Some(
                                (seq + 1) as u64,
                            )
                            &&& next is Some && next->0 <= seq < u64::MAX ==> after.expected[q]
                                == Some((seq + 1) as u64)
                            &&& next is Some && seq < next->0 ==> after.expected[q] == next
                        }
                        &&& !known || q != sender ==> b == a && after.expected[q] == r.expected[q]
                    }
                },
                None => true,
            }
        }),
{
}

/// How sending is counted: a payload counts when its last packet was sent, once, with
/// all of its bytes and packets; a packet that could not be sent counts as one that was
/// dropped, and the payload begins anew. Before that nothing is counted, and the next
/// packet begins where the last one ended.
pub proof fn law_sending_is_counted(s: SendState, c: CountersView, len: nat)
    requires
        s.offset < len <= usize::MAX,
    ensures
        ({
            let (after, counted) = send_step(s, c, len, false);
            &&& after == (SendState { dest_id: s.dest_id, offset: 0 })
            &&& counted == c.lost(Some(s.dest_id), 1)
        }),
        ({
            let (after, counted) = send_step(s, c, len, true);
            &&& after.dest_id == s.dest_id
            &&& s.offset + 8172 < len ==> after.offset == s.offset + 8172 && counted == c
            &&& s.offset + 8172 >= len ==> after.offset == 0 && counted == c.sent(
                Some(s.dest_id),
                len as u64,
                packet_count(len) as u64,
            )
        }),
{
}

/// A loopback address is bound only by a server whose own name is that of the machine
/// itself; any other address that the name stands for is bound as it is.
pub proof fn law_when_loopback_is_bound(resolved: Option<SocketAddr>, name: Seq<char>)
    ensures
        bindable(resolved, name) <==> resolved is Some && (netutil::loopback_host(name)
            || match resolved->0.ip {
            IpAddr::V4(n) => !(0x7f00_0000 <= n <= 0x7fff_ffff),
            IpAddr::V6(n) => n != 1,
        }),
{
}

/// The addresses of the machine, each with the port, in order.
pub proof fn law_local_addresses_with_port(ips: Seq<IpAddr>, port: u16, i: int)
    requires
        0 <= i < ips.len(),
    ensures
        with_port(ips, port).len() == ips.len(),
        with_port(ips, port)[i].ip == ips[i],
        with_port(ips, port)[i].port == port,
{
}

/// How TCP is counted. A read counts its bytes, in total and for the peer if it is known,
/// and no packet; one of no bytes counts nothing. A payload that was written counts with
/// all its bytes as one packet to the destination; one that could not be written as one
/// that was dropped, unless the test is over.
pub proof fn law_tcp_is_counted(
    r: ReceiverView,
    peer: u32,
    n: nat,
    c: CountersView,
    dest: u32,
    len: nat,
    cancelled: bool,
)
    requires
        peer < r.counters.peers.len(),
        dest < c.peers.len(),
        n <= u64::MAX,
        len <= u64::MAX,
    ensures
        ({
            let after = r.after_tcp(Some(peer), n);
            let (a, b) = (r.counters.peers[peer as int], after.counters.peers[peer as int]);
            let (t, u) = (r.counters.total, after.counters.total);
            &&& r.after_tcp(Some(peer), 0) == r
            &&& after.expected == r.expected
            &&& metrics::is_more(a.bytes_recv, n as u64, b.bytes_recv)
            &&& metrics::is_more(t.bytes_recv, n as u64, u.bytes_recv)
            &&& b.packets_recv == a.packets_recv && u.packets_recv == t.packets_recv
            &&& b.bytes_sent == a.bytes_sent && u.bytes_sent == t.bytes_sent
            &&& r.after_tcp(None, n).counters.peers == r.counters.peers
            &&& r.after_tcp(None, n).counters.total == u
        }),
        ({
            let (step, after) = tcp_step(c, dest, len, true, cancelled);
            let (a, b) = (c.peers[dest as int], after.peers[dest as int]);
            &&& step == TcpStep::Again
            &&& metrics::is_more(a.bytes_sent, len as u64, b.bytes_sent)
            &&& metrics::is_more(a.packets_sent, 1, b.packets_sent)
            &&& b.packets_dropped == a.packets_dropped
            &&& metrics::is_more(c.total.bytes_sent, len as u64, after.total.bytes_sent)
        }),
        ({
            let (step, after) = tcp_step(c, dest, len, false, cancelled);
            let (a, b) = (c.peers[dest as int], after.peers[dest as int]);
            &&& cancelled ==> step == TcpStep::Stop && after == c
            &&& !cancelled ==> {
                &&& step == TcpStep::Fail
                &&& metrics::is_more(a.packets_dropped, 1, b.packets_dropped)
                &&& b.bytes_sent == a.bytes_sent && b.packets_sent == a.packets_sent
            }
        }),
{
}

/// Packets to a destination are numbered one after the other, each destination by itself.
pub proof fn law_packets_are_numbered(seqs: Seq<u64>, dest: u32, other: int)
    requires
        dest < seqs.len(),
        0 <= other < seqs.len(),
        seqs[dest as int] < u64::MAX,
    ensures
        take_seq(seqs, dest).0 == seqs[dest as int],
        take_seq(take_seq(seqs, dest).1, dest).0 == seqs[dest as int] + 1,
        take_seq(seqs, dest).1.len() == seqs.len(),
        other != dest ==> take_seq(seqs, dest).1[other] == seqs[other],
{
}

} // verus!
