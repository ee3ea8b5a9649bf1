use tperf::address::{IpAddr, SocketAddr};
use tperf::dataplane::{
    build_ip_map, choose_bind, fill_packet, make_payload, next_seq, note_seq, on_tcp_write,
    read_hdr, write_hdr, PayloadError, Receiver, SendState, TcpStep, UDP_CHUNK, UDP_HDR, UDP_PKT,
};
use tperf::metrics::Counters;
use tperf::netutil::AddrFamily;

fn hosts(n: usize) -> Vec<String> {
    (0..n).map(|i| format!("h{i}")).collect()
}

#[test]
fn hdr_roundtrip() {
    let mut buf = [0u8; UDP_HDR];
    write_hdr(&mut buf, 7, 99, 1234);
    let (id, seq, len) = read_hdr(&buf).unwrap();
    assert_eq!(id, 7);
    assert_eq!(seq, 99);
    assert_eq!(len, 1234);
}

#[test]
fn seq_gaps() {
    let mut slot = None;
    assert_eq!(note_seq(&mut slot, 0), 0);
    assert_eq!(note_seq(&mut slot, 1), 0);
    assert_eq!(note_seq(&mut slot, 5), 3);
    assert_eq!(note_seq(&mut slot, 6), 0);
    assert_eq!(note_seq(&mut slot, 3), 0);
}

#[test]
fn seq_edges() {
    let mut slot = None;
    assert_eq!(note_seq(&mut slot, 40), 0);
    assert_eq!(slot, Some(41));
    assert_eq!(note_seq(&mut slot, 2), 0);
    assert_eq!(slot, Some(41));
    assert_eq!(note_seq(&mut slot, u64::MAX), u64::MAX - 41);
    assert_eq!(slot, Some(u64::MAX));
    assert_eq!(note_seq(&mut slot, u64::MAX), 0);
    let seqs: [u64; 5] = [3, 4, 9, 11, 20];
    let mut slot = None;
    let missed: u64 = seqs.iter().map(|s| note_seq(&mut slot, *s)).sum();
    assert_eq!(missed, 20 - 3 + 1 - 5);
}

#[test]
fn header_bytes() {
    let mut buf = [0xEEu8; 22];
    write_hdr(&mut buf, 0x0102_0304, 0x0506_0708_090a_0b0c, 0x0d0e_0f10);
    let want: Vec<u8> = b"TFP1"
        .iter()
        .copied()
        .chain(1..=16)
        .chain([0xEE, 0xEE])
        .collect();
    assert_eq!(buf.to_vec(), want);
    assert_eq!(
        read_hdr(&buf),
        Some((0x0102_0304, 0x0506_0708_090a_0b0c, 0x0d0e_0f10))
    );
    assert_eq!(read_hdr(&buf[..19]), None);
    buf[3] = b'2';
    assert_eq!(read_hdr(&buf), None);
}

#[test]
fn payload_pattern() {
    let p = make_payload(1000).unwrap();
    assert_eq!(p.len(), 1000);
    for (i, b) in p.iter().enumerate() {
        assert_eq!(*b, (i.wrapping_mul(131) as u8).wrapping_add(0xA5));
    }
    assert_eq!(make_payload(0).unwrap_err(), PayloadError::Zero);
    assert_eq!(PayloadError::Zero.message(), "payload_size must be >= 1");
    assert_eq!(PayloadError::TooLarge.message(), "payload_size too large");
}

fn send_all(payload: &[u8], self_id: u32, seqs: &mut Vec<u64>, dest: u32) -> Vec<Vec<u8>> {
    let mut counters = Counters::new(&hosts(4));
    let mut state = SendState::new(dest);
    let mut pkt = vec![0u8; UDP_PKT];
    let mut out = Vec::new();
    loop {
        let seq = next_seq(seqs, dest);
        let n = fill_packet(&mut pkt, payload, state.offset, self_id, seq);
        out.push(pkt[..n].to_vec());
        state.on_result(&mut counters, payload.len(), true);
        if state.offset == 0 {
            break;
        }
    }
    assert_eq!(counters.total.bytes_sent, payload.len() as u64);
    assert_eq!(counters.total.packets_sent, out.len() as u64);
    assert_eq!(counters.peer(dest), Some(counters.total));
    out
}

#[test]
fn packets_carry_the_payload_to_the_receiver() {
    for size in [1usize, 100, UDP_CHUNK - 1, UDP_CHUNK, UDP_CHUNK + 1, 3 * UDP_CHUNK, 50_000] {
        let payload = make_payload(size as u64).unwrap();
        let mut seqs = vec![5u64; 4];
        let packets = send_all(&payload, 1, &mut seqs, 2);
        assert_eq!(packets.len(), size.div_ceil(UDP_CHUNK));
        assert_eq!(seqs, vec![5, 5, 5 + packets.len() as u64, 5]);
        let body: Vec<u8> = packets.iter().flat_map(|p| p[UDP_HDR..].to_vec()).collect();
        assert_eq!(body, payload);
        let mut r = Receiver::new(&hosts(4), 2);
        for p in &packets {
            assert!(p.len() <= UDP_PKT);
            r.on_datagram(p);
        }
        assert_eq!(r.counters.total.bytes_recv, size as u64);
        assert_eq!(r.counters.total.packets_recv, packets.len() as u64);
        assert_eq!(r.counters.total.packets_dropped, 0);
        assert_eq!(r.counters.peer(1), Some(r.counters.total));
    }
    assert_eq!(next_seq(&mut vec![], 0), 0);
    let mut last = vec![u64::MAX];
    assert_eq!(next_seq(&mut last, 0), u64::MAX);
    assert_eq!(last, vec![0]);
}

#[test]
fn receiver_counts_losses_and_strangers() {
    let payload = make_payload(10 * UDP_CHUNK as u64).unwrap();
    let packets = send_all(&payload, 1, &mut vec![0; 4], 2);
    let mut r = Receiver::new(&hosts(4), 2);
    for i in [0usize, 1, 4, 3, 9, 9] {
        r.on_datagram(&packets[i]);
    }
    assert_eq!(r.counters.total.packets_recv, 6);
    assert_eq!(r.counters.total.packets_dropped, 2 + 4);
    assert_eq!(r.counters.peer(1).unwrap().packets_dropped, 6);
    let before = r.counters.total;
    r.on_datagram(&packets[2][..100]);
    r.on_datagram(&packets[2][..10]);
    r.on_datagram(b"");
    assert_eq!(r.counters.total, before);
    for stranger in [2u32, 4, u32::MAX] {
        let p = send_all(&payload[..5], stranger, &mut vec![100; 4], 0);
        r.on_datagram(&p[0]);
    }
    assert_eq!(r.counters.total.packets_recv, 9);
    assert_eq!(r.counters.total.bytes_recv, before.bytes_recv + 15);
    assert_eq!(r.counters.total.packets_dropped, 6);
    assert_eq!(r.counters.peer(2).unwrap().packets_recv, 0);
    assert_eq!(r.counters.peer(4), None);
}

#[test]
fn tcp_reads_are_counted() {
    let mut r = Receiver::new(&hosts(2), 0);
    assert!(r.on_tcp_read(Some(1), 10));
    assert!(r.on_tcp_read(None, 5));
    assert!(r.on_tcp_read(Some(9), 1));
    assert!(!r.on_tcp_read(Some(1), 0));
    assert_eq!(r.counters.total.bytes_recv, 16);
    assert_eq!(r.counters.total.packets_recv, 0);
    assert_eq!(r.counters.peer(1).unwrap().bytes_recv, 10);
}

#[test]
fn tcp_writes_are_counted() {
    let mut c = Counters::new(&hosts(2));
    assert_eq!(on_tcp_write(&mut c, 1, 100, true, true), TcpStep::Again);
    assert_eq!(on_tcp_write(&mut c, 1, 100, false, true), TcpStep::Stop);
    assert_eq!(c.total.packets_dropped, 0);
    assert_eq!(on_tcp_write(&mut c, 1, 100, false, false), TcpStep::Fail);
    assert_eq!((c.total.bytes_sent, c.total.packets_sent), (100, 1));
    assert_eq!(c.total.packets_dropped, 1);
    assert_eq!(c.peer(1), Some(c.total));
    assert_eq!(c.peer(0).unwrap().bytes_sent, 0);
}

#[test]
fn failed_packets_begin_the_payload_anew() {
    let mut c = Counters::new(&hosts(2));
    let mut s = SendState::new(1);
    let len = 3 * UDP_CHUNK;
    s.on_result(&mut c, len, true);
    assert_eq!(s.offset, UDP_CHUNK);
    s.on_result(&mut c, len, false);
    assert_eq!(s.offset, 0);
    assert_eq!(c.total.packets_dropped, 1);
    assert_eq!(c.total.packets_sent, 0);
    for _ in 0..3 {
        s.on_result(&mut c, len, true);
    }
    assert_eq!(c.total.packets_sent, 3);
    assert_eq!(c.total.bytes_sent, len as u64);
}

#[test]
fn addresses_belong_to_the_last_host_that_has_them() {
    let a = SocketAddr::new(IpAddr::V4(1), 9);
    let b = SocketAddr::new(IpAddr::V4(2), 9);
    let six = SocketAddr::new(IpAddr::V6(1), 9);
    let map = build_ip_map(&[vec![a, b], vec![], vec![b, six]], None);
    assert_eq!(map.get(IpAddr::V4(1)), Some(0));
    assert_eq!(map.get(IpAddr::V4(2)), Some(2));
    assert_eq!(map.get(IpAddr::V6(1)), Some(2));
    assert_eq!(map.get(IpAddr::V4(3)), None);
    let map = build_ip_map(&[vec![a], vec![six]], Some(AddrFamily::V4));
    assert_eq!(map.get(IpAddr::V6(1)), None);
    assert_eq!(map.get(IpAddr::V4(1)), Some(0));
}

#[test]
fn servers_bind_an_address_that_others_reach() {
    let real = SocketAddr::new(IpAddr::V4(0x0a00_0001), 9);
    let loopback = SocketAddr::new(IpAddr::V4(0x7f00_0001), 9);
    let locals = [IpAddr::V6(0xfd00 << 112), IpAddr::V4(0x0a00_0002)];
    let chosen = SocketAddr::new(IpAddr::V4(0x0a00_0002), 7);
    assert_eq!(choose_bind(Some(real), "srv1", &locals, 7, None), Ok(real));
    assert_eq!(
        choose_bind(Some(loopback), "localhost", &locals, 7, None),
        Ok(loopback)
    );
    assert_eq!(
        choose_bind(Some(loopback), "srv1", &locals, 7, None),
        Ok(chosen)
    );
    assert_eq!(choose_bind(None, "srv1", &locals, 7, None), Ok(chosen));
    assert_eq!(
        choose_bind(None, "srv1", &locals, 7, Some(AddrFamily::V6)),
        Ok(SocketAddr::new(IpAddr::V6(0xfd00 << 112), 7))
    );
    assert!(choose_bind(None, "srv1", &[], 7, None).is_err());
}
