use std::collections::BTreeMap;
use std::path::{Path, PathBuf};
use tperf::analyze::{
    format_pair_line, parse_args, report_lines, require_db_file, summarize, worst_pairs,
    ArgsErrorOf, DbFileErrorOf, PairLine, PathFacts, RateStats, Report, Row,
};
use tperf::cli::{parse_command, server_addr, server_config, unknown_command, Command};
use tperf::db::{count, db_files, keep, keep_hosts, kept_hosts, require_db_path, sidecar};
use tperf::json::{list_or_empty, read_list, write_list};
use tperf::order::{relate_pairs, relate_texts, Relation};
use tperf::proto::PeerMetrics;

fn strings(list: &[&str]) -> Vec<String> {
    list.iter().map(|s| s.to_string()).collect()
}

fn facts(path: &str) -> PathFacts {
    let p = Path::new(path);
    PathFacts {
        is_dir: p.is_dir(),
        exists: p.exists(),
        is_file: p.is_file(),
    }
}

#[test]
fn parse_db_flag() {
    let p = parse_args(&strings(&["--db", "/tmp/run1.db"])).unwrap();
    assert_eq!(PathBuf::from(p), PathBuf::from("/tmp/run1.db"));
    let p = parse_args(&strings(&["--db=./out/mesh-tcp.db"])).unwrap();
    assert_eq!(PathBuf::from(p), PathBuf::from("./out/mesh-tcp.db"));
    assert!(parse_args(&strings(&["--db"])).is_err());
    assert!(parse_args(&[]).is_err());
    assert!(parse_args(&strings(&["live"])).is_err());
}

#[test]
fn parse_args_errors() {
    let e = parse_args(&strings(&["--db"])).unwrap_err();
    assert!(matches!(e, ArgsErrorOf::NoPath));
    assert_eq!(e.message(), "--db requires a path");
    assert!(matches!(
        parse_args(&strings(&["--db="])),
        Err(ArgsErrorOf::NoPath)
    ));
    for help in ["-h", "--help"] {
        let e = parse_args(&strings(&["--db", "x", help])).unwrap_err();
        assert!(matches!(e, ArgsErrorOf::Help));
        assert_eq!(e.message(), "usage: tperf analyze --db <file>");
    }
    let e = parse_args(&strings(&["li\"ve"])).unwrap_err();
    assert!(matches!(e, ArgsErrorOf::Unexpected(_)));
    assert_eq!(
        e.message(),
        "unexpected argument \"li\\\"ve\"; usage: tperf analyze --db <file>"
    );
    let e = parse_args(&[]).unwrap_err();
    assert!(matches!(e, ArgsErrorOf::Missing));
    assert_eq!(e.message(), "missing --db; usage: tperf analyze --db <file>");
    assert_eq!(
        parse_args(&strings(&["--db", "a", "--db=b", "--db", "--db"])).unwrap(),
        "--db"
    );
}

#[test]
fn require_db_file_rejects_directory() {
    let dir = "/tmp";
    let err = require_db_file(dir, facts(dir)).unwrap_err().message();
    assert!(err.contains("not a directory"), "{err}");
}

#[test]
fn require_db_file_rejects_missing() {
    let path = "/no/such/tperf-analyze.db";
    let err = require_db_file(path, facts(path)).unwrap_err().message();
    assert!(err.contains("not found"), "{err}");
}

#[test]
fn require_db_file_takes_files_only() {
    let all = |is_dir: bool, exists: bool, is_file: bool| PathFacts {
        is_dir,
        exists,
        is_file,
    };
    assert!(require_db_file("x.db", all(false, true, true)).is_ok());
    let e = require_db_file("", all(false, true, true)).unwrap_err();
    assert!(matches!(e, DbFileErrorOf::Empty));
    assert_eq!(e.message(), "--db requires a path to a sqlite database file");
    let e = require_db_file("d", all(true, true, false)).unwrap_err();
    assert_eq!(
        e.message(),
        "--db must be a sqlite database file, not a directory: d"
    );
    let e = require_db_file("n", all(false, false, false)).unwrap_err();
    assert_eq!(e.message(), "database file not found: n");
    let e = require_db_file("p", all(false, true, false)).unwrap_err();
    assert!(matches!(e, DbFileErrorOf::NotFile(_)));
    assert_eq!(e.message(), "--db must be a sqlite database file: p");
}

fn bps(bytes: u64, duration_ns: u64) -> f64 {
    if duration_ns == 0 {
        return 0.0;
    }
    (bytes as f64) * 8.0 * 1_000_000_000.0 / (duration_ns as f64)
}

struct Rates {
    min_bps: f64,
    max_bps: f64,
    avg_bps: f64,
    windows: usize,
}

fn from_samples(samples: &[(u64, u64)]) -> Option<Rates> {
    let rates: Vec<u64> = samples.iter().map(|(b, d)| bps(*b, *d).to_bits()).collect();
    RateStats::from_samples(samples, &rates).map(|s| Rates {
        min_bps: f64::from_bits(s.min_bps),
        max_bps: f64::from_bits(s.max_bps),
        avg_bps: (s.bytes as f64) * 8.0 * 1_000_000_000.0 / (s.duration_ns as f64),
        windows: s.windows,
    })
}

#[test]
fn weighted_avg_and_minmax() {
    // 1s @ 10 Gbps (1.25e9 bytes), 1s @ 30 Gbps (3.75e9 bytes)
    let ten_gbps_bytes = 1_250_000_000u64;
    let thirty_gbps_bytes = 3_750_000_000u64;
    let s = from_samples(&[
        (ten_gbps_bytes, 1_000_000_000),
        (thirty_gbps_bytes, 1_000_000_000),
    ])
    .unwrap();
    assert_eq!(s.windows, 2);
    assert!((s.min_bps - 10e9).abs() < 1.0);
    assert!((s.max_bps - 30e9).abs() < 1.0);
    assert!((s.avg_bps - 20e9).abs() < 1.0);

    // longer window at 30 Gbps pulls the average up
    let s = from_samples(&[
        (ten_gbps_bytes, 1_000_000_000),
        (thirty_gbps_bytes * 3, 3_000_000_000),
    ])
    .unwrap();
    assert!((s.avg_bps - 25e9).abs() < 1.0);
}

#[test]
fn rates_of_many_windows() {
    assert_eq!(RateStats::from_samples(&[], &[]), None);
    let s = RateStats::from_samples(&[(u64::MAX, u64::MAX), (2, u64::MAX)], &[5, 3]).unwrap();
    assert_eq!((s.min_bps, s.max_bps), (3, 5));
    assert_eq!(s.bytes, u64::MAX);
    assert_eq!(s.duration_ns, 2 * (u64::MAX as u128));
}

#[test]
fn worst_five_are_lowest_avg() {
    let mk = |src: &str, dst: &str, avg: f64| (src.to_string(), dst.to_string(), avg);
    let pairs = vec![
        mk("a", "b", 50e9),
        mk("a", "c", 10e9),
        mk("b", "a", 40e9),
        mk("b", "c", 11e9),
        mk("c", "a", 9e9),
        mk("c", "b", 30e9),
    ];
    let rates: Vec<(u64, u64)> = pairs
        .iter()
        .map(|(_, _, avg)| (avg.to_bits(), (avg / 2.0).to_bits()))
        .collect();
    let names: Vec<_> = worst_pairs(&rates)
        .iter()
        .map(|i| format!("{}→{}", pairs[*i].0, pairs[*i].1))
        .collect();
    assert_eq!(names, vec!["c→a", "a→c", "b→c", "c→b", "b→a"]);
}

#[test]
fn worst_pairs_are_a_stable_sort() {
    assert!(worst_pairs(&[]).is_empty());
    assert_eq!(worst_pairs(&[(1, 1), (1, 1), (1, 0)]), vec![2, 0, 1]);
    let mut x: u64 = 88172645463325252;
    for _ in 0..500 {
        let mut rates: Vec<(u64, u64)> = Vec::new();
        x ^= x << 13;
        x ^= x >> 7;
        x ^= x << 17;
        for i in 0..(x % 17) {
            rates.push(((x >> i) % 4, (x >> (i + 20)) % 3));
        }
        let mut want: Vec<usize> = (0..rates.len()).collect();
        want.sort_by_key(|i| rates[*i]);
        want.truncate(5);
        assert_eq!(worst_pairs(&rates), want);
    }
}

fn row(server: &str, wall: u64, duration: u64, sent: u64, peers: &[(&str, u64)]) -> Row {
    Row {
        server: server.to_string(),
        wall_start_ns: wall,
        duration_ns: duration,
        bytes_sent: sent,
        peers: peers
            .iter()
            .map(|(p, b)| PeerMetrics {
                peer: p.to_string(),
                bytes_sent: *b,
                bytes_recv: 0,
                packets_sent: 0,
                packets_recv: 0,
                packets_dropped: 0,
            })
            .collect(),
    }
}

#[test]
fn rows_are_grouped() {
    let rows = [
        row("b", 2_999_999_999, 10, 5, &[("a", 1), ("b", 9)]),
        row("a", 1_000_000_000, 11, 6, &[("é", 2), ("b", 3)]),
        row("b", 2_000_000_000, 12, 7, &[("a", 4), ("Z", 5)]),
    ];
    let s = summarize(&rows);
    let pairs: Vec<_> = s
        .pairs
        .iter()
        .map(|p| (p.src.as_str(), p.dst.as_str(), p.samples.clone()))
        .collect();
    assert_eq!(
        pairs,
        vec![
            ("a", "b", vec![(3, 11)]),
            ("a", "é", vec![(2, 11)]),
            ("b", "Z", vec![(5, 12)]),
            ("b", "a", vec![(1, 10), (4, 12)]),
        ]
    );
    let buckets: Vec<_> = s.buckets.iter().map(|b| (b.second, b.rows.clone())).collect();
    assert_eq!(buckets, vec![(1, vec![1]), (2, vec![0, 2])]);
    assert_eq!(s.totals, vec![(5, 10), (6, 11), (7, 12)]);
    assert!(summarize(&[]).pairs.is_empty());
}

#[test]
fn groups_are_those_of_an_ordered_map() {
    let mut x: u64 = 88172645463325252;
    let mut rows = Vec::new();
    let names = ["", "a", "aa", "b", "ä", "\u{ffff}", "\u{10000}", "zz"];
    for _ in 0..200 {
        x ^= x << 13;
        x ^= x >> 7;
        x ^= x << 17;
        rows.push(row(
            names[(x % 8) as usize],
            (x >> 8) % 9_000_000_000,
            x % 100,
            x % 1000,
            &[
                (names[((x >> 16) % 8) as usize], x % 11),
                (names[((x >> 24) % 8) as usize], x % 13),
            ],
        ));
    }
    let mut pairs: BTreeMap<(String, String), Vec<(u64, u64)>> = BTreeMap::new();
    let mut buckets: BTreeMap<u64, Vec<usize>> = BTreeMap::new();
    for (i, r) in rows.iter().enumerate() {
        for p in &r.peers {
            if p.peer != r.server {
                pairs
                    .entry((r.server.clone(), p.peer.clone()))
                    .or_default()
                    .push((p.bytes_sent, r.duration_ns));
            }
        }
        buckets
            .entry(r.wall_start_ns / 1_000_000_000)
            .or_default()
            .push(i);
    }
    let s = summarize(&rows);
    let got: Vec<_> = s
        .pairs
        .into_iter()
        .map(|p| ((p.src, p.dst), p.samples))
        .collect();
    assert_eq!(got, pairs.into_iter().collect::<Vec<_>>());
    let got: Vec<_> = s.buckets.into_iter().map(|b| (b.second, b.rows)).collect();
    assert_eq!(got, buckets.into_iter().collect::<Vec<_>>());
}

#[test]
fn texts_are_in_byte_order() {
    let names = ["", "a", "aa", "ab", "b", "Z", "ä", "\u{ffff}", "\u{10000}"];
    for a in names {
        for b in names {
            let want = if a < b {
                Relation::Before
            } else if a == b {
                Relation::Same
            } else {
                Relation::After
            };
            assert_eq!(relate_texts(a, b), want);
            assert_eq!(relate_pairs(("x", a), ("x", b)), want);
            assert_eq!(relate_pairs((a, "y"), (b, "y")), want);
        }
    }
}

fn pair_line(src: &str, dst: &str) -> PairLine {
    PairLine {
        src: src.to_string(),
        dst: dst.to_string(),
        min: "1".to_string(),
        avg: "2".to_string(),
        max: "3".to_string(),
    }
}

#[test]
fn reports() {
    let mut r = Report {
        db_path: "/x/run.db".to_string(),
        tag: "run".to_string(),
        hosts: 12,
        pairs: vec![],
        total_min: "4".to_string(),
        total_avg: "5".to_string(),
        total_max: "6".to_string(),
        worst: vec![],
    };
    let want = vec![
        "tperf analyze  db=/x/run.db  tag=run  hosts=12",
        "",
        "pairs (all time)",
        "----------------",
        "(no pair samples)",
        "",
        "total throughput (all time)",
        "---------------------------",
        "[all]         min=4   avg=5   max=6",
        "",
        "worst pairs",
        "-----------",
        "(no pair samples)",
    ];
    assert_eq!(report_lines(&r), want);
    r.pairs = vec![pair_line("a", "b"), pair_line("longer", "ä")];
    r.worst = vec![1, 0];
    let lines = report_lines(&r);
    let w = "longer".len() + "ä".len() + 4;
    let line = |label: &str| format!("{label:<w$}  min=1   avg=2   max=3");
    assert_eq!(lines[4], line("[a → b]"));
    assert_eq!(lines[5], line("[longer → ä]"));
    assert_eq!(lines[13], format!(" 1. {}", line("[longer → ä]")));
    assert_eq!(lines[14], format!(" 2. {}", line("[a → b]")));
    assert_eq!(lines.len(), 15);
    r.worst = vec![0];
    assert_eq!(
        report_lines(&r)[13],
        " 1. [a → b]  min=1   avg=2   max=3"
    );
    assert_eq!(
        format_pair_line(&pair_line("a", "b"), 9),
        "[a → b]    min=1   avg=2   max=3"
    );
}

#[test]
fn lists_survive_json() {
    let lists = [
        vec![],
        strings(&["a"]),
        strings(&["srv1", "", "q\"\\/", "\u{1}\u{8}\t\n\u{c}\r\u{1f}\u{7f}", "é\u{10ffff}"]),
    ];
    for list in &lists {
        let json = write_list(list);
        assert_eq!(json, serde_json::to_string(list).unwrap());
        assert_eq!(&read_list(&json), list);
        assert_eq!(&kept_hosts(&keep_hosts(list)), list);
    }
    assert_eq!(
        write_list(&lists[2]),
        "[\"srv1\",\"\",\"q\\\"\\\\/\",\"\\u0001\\b\\t\\n\\f\\r\\u001f\u{7f}\",\"é\u{10ffff}\"]"
    );
    assert!(read_list("{}").is_empty());
    assert!(read_list("[1]").is_empty());
    assert!(read_list("[\"a\"] x").is_empty());
    assert_eq!(read_list(" [ \"a\" , \"\\u00e9\" ] "), strings(&["a", "é"]));
    assert!(list_or_empty(None).is_empty());
    assert_eq!(list_or_empty(Some(strings(&["a"]))), strings(&["a"]));
}

#[test]
fn database_files() {
    assert_eq!(sidecar("run.db", "-wal"), "run.db-wal");
    assert_eq!(
        db_files("run.db").to_vec(),
        vec!["run.db", "run.db-wal", "run.db-shm"]
    );
    for name in [
        "run.db", "a.b.db", "..db", "x.db", "", "db", ".db", "..", "run.DB", "run.db.", ".", "/",
        "a/x.db", "a.db/x", "a.db/", "a.db//./", "a.db/..", "./x.db", "./.", "/.", "/x.db", "x.db/.db",
        "./", "..//", "a/./b.db/./.",
    ] {
        let want = Path::new(name).extension().and_then(|e| e.to_str()) == Some("db");
        assert_eq!(require_db_path(name).is_ok(), want, "{name}");
    }
    assert_eq!(
        require_db_path(".db").unwrap_err().message(),
        "database path must end in .db, got .db"
    );
}

#[test]
fn counts_survive_the_database() {
    for n in [0u64, 1, i64::MAX as u64, i64::MAX as u64 + 1, u64::MAX] {
        assert_eq!(keep(n), n as i64);
        assert_eq!(count(keep(n)), n);
        assert_eq!(count(n as i64), n);
    }
}

#[test]
fn commands() {
    let cmd = |list: &[&str]| parse_command(&strings(list));
    assert!(matches!(cmd(&[]), Command::Help));
    assert!(matches!(cmd(&["help", "x"]), Command::Help));
    assert!(matches!(cmd(&[""]), Command::Help));
    assert!(matches!(cmd(&["client"]), Command::Client(p) if p == "tperf.toml"));
    assert!(matches!(cmd(&["client", "a", "b"]), Command::Client(p) if p == "a"));
    assert!(matches!(cmd(&["server"]), Command::Server(None)));
    assert!(matches!(cmd(&["server", "s"]), Command::Server(Some(p)) if p == "s"));
    assert!(matches!(
        cmd(&["analyze", "--db", "x"]),
        Command::Analyze(args) if args == strings(&["--db", "x"])
    ));
    assert!(matches!(cmd(&["Client"]), Command::Unknown(c) if c == "Client"));
    assert_eq!(unknown_command("x\"y"), "unknown command \"x\\\"y\"");
    assert_eq!(
        server_config(Some("s".to_string()), true),
        Some("s".to_string())
    );
    assert_eq!(server_config(None, true), Some("tperf.toml".to_string()));
    assert_eq!(server_config(None, false), None);
    assert_eq!(server_addr(None), "0.0.0.0:7777");
    assert_eq!(server_addr(Some("h:1".to_string())), "h:1");
}

#[test]
fn quoted_texts_are_debug_texts() {
    for s in ["", "a\"b", "tab\t", "é\u{0}", "\u{200b}'", "\\"] {
        assert_eq!(unknown_command(s), format!("unknown command {s:?}"));
    }
}

#[test]
fn order_of_windows_makes_no_difference() {
    let samples = [(10u64, 4u64), (3, 1), (10, 4), (0, 7), (u64::MAX - 100, 2)];
    let rates = [5u64, 6, 5, 0, 90];
    let want = RateStats::from_samples(&samples, &rates).unwrap();
    assert_eq!((want.min_bps, want.max_bps, want.windows), (0, 90, 5));
    for order in [[4, 3, 2, 1, 0], [1, 3, 0, 4, 2]] {
        let s: Vec<(u64, u64)> = order.iter().map(|i: &usize| samples[*i]).collect();
        let r: Vec<u64> = order.iter().map(|i: &usize| rates[*i]).collect();
        assert_eq!(RateStats::from_samples(&s, &r), Some(want));
    }
}

#[test]
fn averages_lie_between() {
    let samples = [(10u64, 4u64), (3, 1), (1, 7)];
    let s = RateStats::from_samples(&samples, &[2, 3, 1]).unwrap();
    assert_eq!((s.bytes, s.duration_ns), (14, 12));
    assert!(1 * s.duration_ns <= s.bytes as u128 * 7);
    assert!(3 * s.duration_ns >= s.bytes as u128);
}
