use tperf::bytes::{be_bytes_u32, be_u32_at};
use tperf::metrics::{
    build_window, clk_tck, clock_ns, cpu_ns, fmt_bytes, format_window, page_size, parse_stat_cpu,
    parse_statm_pages, sample_proc, AtomStats, Counters, ProcSample, Snap, WindowText,
};
use tperf::number::{decimal_text, push_padded};

fn bps(bytes: u64, duration_ns: u64) -> f64 {
    (bytes as f64) * 8.0 * 1_000_000_000.0 / (duration_ns as f64)
}

#[test]
fn delta_and_bps() {
    let a = Snap {
        bytes_sent: 100,
        bytes_recv: 50,
        ..Default::default()
    };
    let b = Snap {
        bytes_sent: 1100,
        bytes_recv: 50,
        ..Default::default()
    };
    let d = a.delta(b);
    assert_eq!(d.bytes_sent, 1000);
    assert_eq!(d.bytes_recv, 0);
    assert!((bps(125_000_000, 1_000_000_000) - 1e9).abs() < 1.0);
}

#[test]
fn parse_stat_sample() {
    let line = "1234 (foo bar) S 1 1 1 0 -1 0 0 0 0 0 10 20 0 0 20 0 1 0 0 0 0 0 0 0 0 0 0 0 0 0 0 0 0 0 0 0 0 0 0";
    let (u, s) = parse_stat_cpu(line).unwrap();
    assert_eq!(u, 10);
    assert_eq!(s, 20);
}

#[test]
fn parse_stat_edges() {
    let tail = "S 1 1 1 0 -1 0 0 0 0 0 10 20";
    assert_eq!(parse_stat_cpu(&format!("1 (a) b) c) {tail}")), Some((10, 20)));
    assert_eq!(parse_stat_cpu(&format!("1 (a)X{tail}")), Some((10, 20)));
    assert_eq!(parse_stat_cpu(&format!("1 (a)é{tail}")), None);
    assert_eq!(parse_stat_cpu("1 (a)"), None);
    assert_eq!(parse_stat_cpu("no parenthesis"), None);
    assert_eq!(parse_stat_cpu("1 (a) S 1 1 1 0 -1 0 0 0 0 0 10"), None);
    assert_eq!(parse_stat_cpu("1 (a) S 1 1 1 0 -1 0 0 0 0 0 -1 20"), None);
    assert_eq!(parse_stat_cpu("1 (a) S 1 1 1 0 -1 0 0 0 0 0 1 x"), None);
}

#[test]
fn process_samples() {
    let stat = "1 (a) S 1 1 1 0 -1 0 0 0 0 0 10 20";
    assert_eq!(parse_statm_pages("5 7 3"), 7);
    assert_eq!(parse_statm_pages("5"), 0);
    assert_eq!(parse_statm_pages("5 x"), 0);
    let s = sample_proc(stat, " 5\t7\n", 4096).unwrap();
    assert_eq!((s.utime_ticks, s.stime_ticks, s.rss_bytes), (10, 20, 7 * 4096));
    let s = sample_proc(stat, "1 18446744073709551615", 4096).unwrap();
    assert_eq!(s.rss_bytes, u64::MAX);
    assert_eq!(sample_proc("", "5 7", 4096), None);
}

#[test]
fn system_values() {
    assert_eq!(clk_tck(250), 250);
    assert_eq!(clk_tck(0), 100);
    assert_eq!(clk_tck(-1), 100);
    assert_eq!(page_size(16384), 16384);
    assert_eq!(page_size(-1), 4096);
    assert_eq!(clock_ns(0, 2, 5), 2_000_000_005);
    assert_eq!(clock_ns(-1, 2, 5), 0);
    assert_eq!(clock_ns(0, u64::MAX, 5), u64::MAX);
    assert_eq!(clock_ns(0, 18_446_744_073, 999_999_999), u64::MAX);
}

#[test]
fn processor_time() {
    let sample = |u: u64, s: u64| ProcSample {
        utime_ticks: u,
        stime_ticks: s,
        rss_bytes: 0,
    };
    assert_eq!(cpu_ns(sample(10, 20), sample(15, 27), 100), 12 * 10_000_000);
    assert_eq!(cpu_ns(sample(10, 20), sample(5, 21), 100), 10_000_000);
    assert_eq!(cpu_ns(sample(0, 0), sample(u64::MAX, 9), 100), u64::MAX);
    assert_eq!(cpu_ns(sample(0, 0), sample(7, 0), 2_000_000_000), 0);
}

#[test]
fn counts_wrap_around() {
    let mut s = AtomStats::default();
    s.add_sent(u64::MAX, 1);
    s.add_sent(2, 0);
    s.add_recv(3, 4);
    s.add_drop(0);
    s.add_drop(6);
    let snap = s.snapshot();
    assert_eq!((snap.bytes_sent, snap.packets_sent), (1, 1));
    assert_eq!((snap.bytes_recv, snap.packets_recv), (3, 4));
    assert_eq!(snap.packets_dropped, 6);
}

#[test]
fn windows_add_up() {
    let mut c = Counters::new(&["a".to_string(), "b".to_string()]);
    let mut moments = vec![c.snapshot_all().0];
    for i in 0..10u64 {
        c.record_sent(Some(1), i, 1);
        c.record_recv(Some(0), 2 * i, 1);
        c.record_drop(None, i % 2);
        moments.push(c.snapshot_all().0);
    }
    let sent: u64 = moments.windows(2).map(|w| w[0].delta(w[1]).bytes_sent).sum();
    assert_eq!(sent, 45);
    let lost: u64 = moments
        .windows(2)
        .map(|w| w[0].delta(w[1]).packets_dropped)
        .sum();
    assert_eq!(lost, 5);
    let (total, peers) = c.snapshot_all();
    assert_eq!(total.bytes_recv, 90);
    assert_eq!(peers[0].bytes_recv, 90);
    assert_eq!(peers[1].bytes_sent, 45);
    assert_eq!(peers[1].packets_dropped, 0);
    assert_eq!(c.peer(2), None);
    assert_eq!(moments[3].delta(moments[1]), Snap::default());
}

#[test]
fn windows_leave_out_idle_peers() {
    let names: Vec<String> = ["a", "b", "c"].iter().map(|s| s.to_string()).collect();
    let idle = Snap::default();
    let busy = Snap {
        packets_dropped: 1,
        ..idle
    };
    let total = Snap {
        bytes_sent: 9,
        packets_recv: 2,
        ..idle
    };
    let w = build_window("s", (1, 2), 3, total, &[idle, busy, idle], &names, 4, 5);
    assert_eq!(w.server, "s");
    assert_eq!((w.wall_start_ns, w.wall_end_ns, w.duration_ns), (1, 2, 3));
    assert_eq!((w.bytes_sent, w.packets_recv), (9, 2));
    assert_eq!((w.cpu_ns, w.memory_bytes), (4, 5));
    assert_eq!(w.peers.len(), 1);
    assert_eq!(w.peers[0].peer, "b");
    assert_eq!(w.peers[0].packets_dropped, 1);
    let w = build_window("s", (1, 2), 3, total, &[busy, busy], &names[..1], 4, 5);
    assert_eq!(w.peers.len(), 1);
}

fn reference_bytes(n: u64) -> String {
    let kib = 1024.0;
    let v = n as f64;
    if v >= kib * kib * kib {
        format!("{:.2} GiB", v / (kib * kib * kib))
    } else if v >= kib * kib {
        format!("{:.2} MiB", v / (kib * kib))
    } else if v >= kib {
        format!("{:.2} KiB", v / kib)
    } else {
        format!("{n} B")
    }
}

#[test]
fn bytes_for_people() {
    assert_eq!(fmt_bytes(0), "0 B");
    assert_eq!(fmt_bytes(1023), "1023 B");
    assert_eq!(fmt_bytes(1024), "1.00 KiB");
    assert_eq!(fmt_bytes(1536), "1.50 KiB");
    assert_eq!(fmt_bytes(5 << 30), "5.00 GiB");
    let mut x: u64 = 88172645463325252;
    for _ in 0..20000 {
        x ^= x << 13;
        x ^= x >> 7;
        x ^= x << 17;
        let n = x >> (x % 64);
        assert_eq!(fmt_bytes(n), reference_bytes(n), "{n}");
    }
    for shift in 0..64 {
        for near in 0..40u64 {
            let n = (1u64 << shift).wrapping_add(near).wrapping_sub(20);
            assert_eq!(fmt_bytes(n), reference_bytes(n), "{n}");
        }
    }
    for n in (0..3_000_000u64).step_by(7) {
        assert_eq!(fmt_bytes(n), reference_bytes(n), "{n}");
    }
    for k in 0..4000u64 {
        let n = 1024 + k * 128;
        assert_eq!(fmt_bytes(n), reference_bytes(n), "{n}");
    }
}

fn trunc_decimals(v: f64, n: u32) -> f64 {
    let f = 10f64.powi(n as i32);
    (v * f).trunc() / f
}

#[test]
fn format_window_one_line_truncates_duration() {
    let duration_ns: u64 = 97_927_043;
    let gbps = |v: f64| format!("{:>7.3} Gbps", v / 1e9);
    let w = WindowText {
        server: "srv1".into(),
        seconds: format!("{:.4}", trunc_decimals(duration_ns as f64 / 1e9, 4)),
        send: gbps(41.134e9),
        recv: gbps(49.197e9),
        packets_dropped: 4,
        packets_sent: 7683,
        packets_recv: 0,
        cpu: format!("{:>5.1}", 275.7),
        memory_bytes: (5.43 * 1024.0 * 1024.0) as u64,
    };
    let s = format_window(&w);
    assert!(!s.contains('\n'), "printout must be a single line: {s}");
    assert!(s.contains("window=0.0979s"), "truncated window, got {s}");
    assert!(
        !s.contains("0.09792"),
        "must not show extra window digits: {s}"
    );
    assert!(!s.contains("srv2"), "no per-peer breakdown: {s}");
    assert!(s.contains("send="));
    assert!(s.contains("recv="));
    assert!(s.contains("drop=4"));
    assert!(s.contains("pkts=7683/0"));
    assert!(s.contains("cpu=275.7%"));
    let name = format!("[{}]", w.server);
    let want = format!(
        "{name:<12} window={}s   send={}   recv={}   drop={:<6} pkts={:<18} cpu={}%   rss={}",
        w.seconds,
        w.send,
        w.recv,
        w.packets_dropped,
        format!("{}/{}", w.packets_sent, w.packets_recv),
        w.cpu,
        reference_bytes(w.memory_bytes),
    );
    assert_eq!(s, want);
}

#[test]
fn numbers_as_text_and_bytes() {
    assert_eq!(decimal_text(0), "0");
    assert_eq!(decimal_text(u64::MAX), "18446744073709551615");
    let mut s = "x".to_string();
    push_padded(&mut s, 7, 3);
    push_padded(&mut s, 1234, 3);
    assert_eq!(s, "x0071234");
    for n in [0u32, 1, 0x0102_0304, u32::MAX] {
        assert_eq!(be_bytes_u32(n), n.to_be_bytes());
        assert_eq!(be_u32_at(&n.to_be_bytes(), 0), n);
    }
}
