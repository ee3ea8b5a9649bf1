use tperf::address::{parse_ip, parse_socket_addr, IpAddr, SocketAddr};
use tperf::netutil::{
    is_loopback_host, is_unspecified_host, join_host_port, local_unicast_ips, parse_host_port,
    pick_addr, wants_dual_stack, AddrErrorOf, AddrFamily, Backoff, RetryStep,
};
use tperf::text::{chars_of, lower, string_of, trim, white_space};

const V4_LOCALHOST: IpAddr = IpAddr::V4(0x7f00_0001);
const V6_LOCALHOST: IpAddr = IpAddr::V6(1);

fn v4(a: u8, b: u8, c: u8, d: u8) -> IpAddr {
    IpAddr::V4(u32::from_be_bytes([a, b, c, d]))
}

#[test]
fn parse_v4() {
    let (h, p) = parse_host_port("10.1.2.3:9100").unwrap();
    assert_eq!(h, "10.1.2.3");
    assert_eq!(p, 9100);
}

#[test]
fn parse_v6() {
    let (h, p) = parse_host_port("[2001:db8::1]:9100").unwrap();
    assert_eq!(h, "2001:db8::1");
    assert_eq!(p, 9100);
}

#[test]
fn parse_hostname() {
    let (h, p) = parse_host_port("srv1.lab:7777").unwrap();
    assert_eq!(h, "srv1.lab");
    assert_eq!(p, 7777);
}

#[test]
fn parse_rejects_bare_v6() {
    assert!(parse_host_port("2001:db8::1:9100").is_err());
}

#[test]
fn parse_host_port_errors() {
    let e = parse_host_port(" \n").unwrap_err();
    assert!(matches!(e, AddrErrorOf::Empty));
    assert_eq!(e.message(), "empty address");
    let e = parse_host_port("[::1:80").unwrap_err();
    assert!(matches!(e, AddrErrorOf::NoBracket(_)));
    assert_eq!(e.message(), "missing ']' in IPv6 address \"[::1:80\"");
    let e = parse_host_port("[::1]80").unwrap_err();
    assert!(matches!(e, AddrErrorOf::NoPort(_)));
    assert_eq!(e.message(), "missing port in \"[::1]80\"");
    let e = parse_host_port("[::1]:").unwrap_err();
    assert!(matches!(e, AddrErrorOf::Port(..)));
    assert_eq!(
        e.message(),
        "invalid port in \"[::1]:\": cannot parse integer from empty string"
    );
    let e = parse_host_port("[]:x").unwrap_err();
    assert_eq!(
        e.message(),
        "invalid port in \"[]:x\": invalid digit found in string"
    );
    let e = parse_host_port("[]:1").unwrap_err();
    assert!(matches!(e, AddrErrorOf::EmptyHost(_)));
    assert_eq!(e.message(), "empty host in \"[]:1\"");
    for s in ["host", ":80", "host:", "a:b:80", ":"] {
        let e = parse_host_port(s).unwrap_err();
        assert!(matches!(e, AddrErrorOf::Malformed(_)));
        assert_eq!(
            e.message(),
            format!("address {s:?} must be host:port or [ipv6]:port")
        );
    }
    let e = parse_host_port("h:65536").unwrap_err();
    assert!(matches!(e, AddrErrorOf::Port(..)));
    assert_eq!(parse_host_port(" h:65535 ").unwrap(), ("h".to_string(), 65535));
    assert_eq!(parse_host_port("h:+80").unwrap(), ("h".to_string(), 80));
}

#[test]
fn unspecified_detection() {
    assert!(is_unspecified_host("0.0.0.0"));
    assert!(is_unspecified_host("::"));
    assert!(is_unspecified_host("::0"));
    assert!(!is_unspecified_host("127.0.0.1"));
    assert!(!is_unspecified_host("::1"));
    assert!(!is_unspecified_host("srv1"));
}

#[test]
fn unspecified_names() {
    assert!(is_unspecified_host("*"));
    assert!(is_unspecified_host("UnSpecified"));
    assert!(!is_unspecified_host("**"));
    assert!(!is_unspecified_host(""));
}

#[test]
fn join_v6() {
    assert_eq!(join_host_port("2001:db8::1", 9), "[2001:db8::1]:9");
    assert_eq!(join_host_port("srv1", 9), "srv1:9");
}

#[test]
fn joined_addresses_are_split_again() {
    for host in ["2001:db8::1", "srv1", "10.0.0.1", "::", "é", "a]b"] {
        for port in [0u16, 1, 80, 65535] {
            let s = join_host_port(host, port);
            assert_eq!(parse_host_port(&s).unwrap(), (host.to_string(), port));
        }
    }
    assert_eq!(join_host_port("[::1]", 9), "[::1]:9");
}

#[test]
fn pick_prefers_v4_when_unspecified_family() {
    let addrs = [SocketAddr::new(V6_LOCALHOST, 9), SocketAddr::new(V4_LOCALHOST, 9)];
    let a = pick_addr(&addrs, None).unwrap();
    assert!(a.is_ipv4());
    let a = pick_addr(&addrs, Some(AddrFamily::V6)).unwrap();
    assert!(a.is_ipv6());
}

#[test]
fn pick_skips_loopback_when_real_v4_exists() {
    let addrs = [
        SocketAddr::new(V4_LOCALHOST, 9),
        SocketAddr::new(v4(10, 0, 0, 5), 9),
        SocketAddr::new(V6_LOCALHOST, 9),
    ];
    let a = pick_addr(&addrs, None).unwrap();
    assert_eq!(a.ip, v4(10, 0, 0, 5));
}

#[test]
fn pick_takes_the_first_of_the_best() {
    let far6 = SocketAddr::new(IpAddr::V6(0x2001_0db8 << 96), 1);
    let near4 = SocketAddr::new(v4(127, 9, 9, 9), 2);
    let one4 = SocketAddr::new(v4(10, 0, 0, 1), 3);
    let two4 = SocketAddr::new(v4(10, 0, 0, 2), 4);
    assert_eq!(pick_addr(&[near4, far6], None).unwrap(), far6);
    assert_eq!(pick_addr(&[far6, two4, one4], None).unwrap(), two4);
    assert_eq!(pick_addr(&[near4, far6], Some(AddrFamily::V4)).unwrap(), near4);
    let e = pick_addr(&[far6], Some(AddrFamily::V4)).unwrap_err();
    assert_eq!(e.message(), "no matching addresses");
    assert!(pick_addr(&[], None).is_err());
}

#[test]
fn loopback_host_detection() {
    assert!(is_loopback_host("localhost"));
    assert!(is_loopback_host("127.0.0.1"));
    assert!(is_loopback_host("::1"));
    assert!(!is_loopback_host("srv1"));
}

#[test]
fn loopback_names() {
    assert!(is_loopback_host("LocalHost"));
    assert!(is_loopback_host("127.255.0.9"));
    assert!(!is_loopback_host("128.0.0.1"));
    assert!(!is_loopback_host("localhost."));
}

#[test]
fn ip_addresses() {
    assert_eq!(parse_ip("10.1.2.3"), Some(v4(10, 1, 2, 3)));
    assert_eq!(parse_ip("255.255.255.255"), Some(IpAddr::V4(u32::MAX)));
    assert_eq!(parse_ip("::"), Some(IpAddr::V6(0)));
    assert_eq!(parse_ip("::1"), Some(IpAddr::V6(1)));
    assert_eq!(parse_ip("1::"), Some(IpAddr::V6(1 << 112)));
    assert_eq!(
        parse_ip("2001:DB8::ff00:42:8329"),
        Some(IpAddr::V6(0x2001_0db8_0000_0000_0000_ff00_0042_8329))
    );
    assert_eq!(
        parse_ip("1:2:3:4:5:6:7:8"),
        Some(IpAddr::V6(0x0001_0002_0003_0004_0005_0006_0007_0008))
    );
    assert_eq!(
        parse_ip("::ffff:1.2.3.4"),
        Some(IpAddr::V6(0xffff_0102_0304))
    );
    assert_eq!(
        parse_ip("1:2:3:4:5:6:1.2.3.4"),
        Some(IpAddr::V6(0x0001_0002_0003_0004_0005_0006_0102_0304))
    );
    for bad in [
        "", "1", "1.2.3", "1.2.3.4.5", "256.1.1.1", "01.2.3.4", "1.2.3.4 ", " 1.2.3.4", "1..2.3",
        "1:2:3:4:5:6:7", "1:2:3:4:5:6:7:8:9", "1::2::3", ":::", ":1", "1:", "12345::", "g::",
        "::1%1", "[::1]", "1:2:3:4:5:6:7:1.2.3.4", "1.2.3.4::", "::1.2.3.4:5", "host", "+1.2.3.4",
        "1:2:3:4:5:6:7::8:9", "1.2.3.+4",
    ] {
        assert_eq!(parse_ip(bad), None, "{bad}");
    }
    assert_eq!(
        parse_ip("1:2:3:4:5:6:7::"),
        Some(IpAddr::V6(0x0001_0002_0003_0004_0005_0006_0007_0000))
    );
    assert_eq!(AddrFamily::from_host("1.2.3.4"), Some(AddrFamily::V4));
    assert_eq!(AddrFamily::from_host("::"), Some(AddrFamily::V6));
    assert_eq!(AddrFamily::from_host("srv1"), None);
}

#[test]
fn socket_addresses() {
    assert_eq!(
        parse_socket_addr("10.0.0.1:80"),
        Some(SocketAddr::new(v4(10, 0, 0, 1), 80))
    );
    assert_eq!(
        parse_socket_addr("[::1]:0080"),
        Some(SocketAddr::new(V6_LOCALHOST, 80))
    );
    assert_eq!(
        parse_socket_addr("[fe80::1%7]:9"),
        Some(SocketAddr {
            ip: IpAddr::V6((0xfe80u128 << 112) + 1),
            port: 9,
            flowinfo: 0,
            scope_id: 7
        })
    );
    for bad in [
        "", "10.0.0.1", "10.0.0.1:", "10.0.0.1:+80", "10.0.0.1:65536", "::1:80", "[::1]", "[::1]:",
        "[::1]80", "[::1%]:80", "[::1%x]:80", "[10.0.0.1]:80", "srv1:80", "[::1%4294967296]:80",
        " 10.0.0.1:80", "[::1", ":80",
    ] {
        assert_eq!(parse_socket_addr(bad), None, "{bad}");
    }
    assert!(wants_dual_stack(SocketAddr::new(IpAddr::V6(0), 1)));
    assert!(!wants_dual_stack(SocketAddr::new(IpAddr::V6(1), 1)));
    assert!(!wants_dual_stack(SocketAddr::new(IpAddr::V4(0), 1)));
}

#[test]
fn local_addresses_leave_out_what_others_cannot_reach() {
    let all = [
        V4_LOCALHOST,
        v4(169, 254, 1, 1),
        v4(10, 0, 0, 1),
        IpAddr::V6(0xfe80 << 112),
        IpAddr::V6(0xfebf << 112),
        IpAddr::V6(0xfec0 << 112),
        IpAddr::V6(0xfd00 << 112),
        V6_LOCALHOST,
        IpAddr::V4(0),
        IpAddr::V6(0),
    ];
    assert_eq!(
        local_unicast_ips(&all),
        vec![
            v4(10, 0, 0, 1),
            IpAddr::V6(0xfec0 << 112),
            IpAddr::V6(0xfd00 << 112)
        ]
    );
}

#[test]
fn waits_double_up_to_the_longest() {
    let mut b = Backoff::new();
    let mut waits = Vec::new();
    for _ in 0..7 {
        match b.on_failure(5, 10) {
            RetryStep::Wait(ms) => waits.push(ms),
            RetryStep::GiveUp => panic!("gave up"),
        }
    }
    assert_eq!(waits, vec![20, 40, 80, 160, 320, 400, 400]);
    assert_eq!(b.on_failure(10, 10), RetryStep::GiveUp);
}

#[test]
fn white_space_is_that_of_unicode() {
    for n in 0..=0x10ffffu32 {
        if let Some(c) = char::from_u32(n) {
            assert_eq!(white_space(c), c.is_whitespace(), "{n:x}");
        }
    }
}

#[test]
fn text_is_trimmed_and_lowered() {
    let s = chars_of("\u{2003} Ab\tÀ \n");
    assert_eq!(string_of(trim(&s)), "Ab\tÀ");
    assert_eq!(string_of(&lower(&s)), "\u{2003} ab\tÀ \n");
}
