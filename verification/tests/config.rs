use tperf::config::{
    db_filename, expand_hostlist, expand_pattern, parse_size, payload_from_int, split_all, Config,
    ConfigErrorOf, ConfigFile, Network, TestType, DEFAULT_CLIENT_ADDR, DEFAULT_PAYLOAD_SIZE,
    DEFAULT_WORKERS,
};
use tperf::hostlist::{split_hosts, HostErrorOf};
use tperf::netutil::AddrFamily;
use tperf::size::SizeErrorOf;

fn strings(list: &[&str]) -> Vec<String> {
    list.iter().map(|s| s.to_string()).collect()
}

fn text_of(table: &toml::Table, key: &str) -> Option<String> {
    table.get(key).map(|v| v.as_str().unwrap().to_string())
}

fn from_toml(text: &str) -> Result<Config, String> {
    let table: toml::Table = toml::from_str(text).map_err(|e| e.to_string())?;
    let payload_size = match table.get("payload_size") {
        None => None,
        Some(toml::Value::Integer(v)) => {
            Some(payload_from_int(*v).map_err(|e| e.message().to_string())?)
        }
        Some(v) => Some(parse_size(v.as_str().unwrap()).map_err(|e| e.head())?),
    };
    let hostlist = match table.get("hostlist") {
        Some(toml::Value::String(s)) => split_hosts(s),
        Some(v) => {
            let items: Vec<String> = v
                .as_array()
                .unwrap()
                .iter()
                .map(|x| x.as_str().unwrap().to_string())
                .collect();
            split_all(&items)
        }
        None => return Err("missing field `hostlist`".to_string()),
    };
    let file = ConfigFile {
        client_addr: text_of(&table, "client_addr"),
        test_addr: text_of(&table, "test_addr").unwrap(),
        network: text_of(&table, "network").map(|s| match s.as_str() {
            "tcp" => Network::Tcp,
            "udp" => Network::Udp,
            other => panic!("unknown network {other}"),
        }),
        payload_size,
        workers: table.get("workers").map(|v| v.as_integer().unwrap() as u32),
        test_type: text_of(&table, "type").map(|s| match s.as_str() {
            "pairs" => TestType::Pairs,
            "mesh" => TestType::Mesh,
            other => panic!("unknown type {other}"),
        }),
        hostlist,
        tag: text_of(&table, "tag").unwrap(),
    };
    Config::from_file(file).map_err(|e| e.message())
}

fn valid() -> Config {
    Config {
        client_addr: "0.0.0.0:7777".to_string(),
        test_addr: "srv1:9100".to_string(),
        network: Network::Tcp,
        payload_size: 1,
        workers: 1,
        test_type: TestType::Pairs,
        hostlist: strings(&["a", "b"]),
        hostlist_raw: strings(&["a", "b"]),
        tag: "run1".to_string(),
    }
}

#[test]
fn expand_simple() {
    let got = expand_pattern("srv{1..3}.example.com").unwrap();
    assert_eq!(
        got,
        vec!["srv1.example.com", "srv2.example.com", "srv3.example.com"]
    );
}

#[test]
fn expand_padded() {
    let got = expand_pattern("n{01..03}").unwrap();
    assert_eq!(got, vec!["n01", "n02", "n03"]);
}

#[test]
fn expand_in_middle() {
    let got = expand_pattern("rack-a{8..10}-x").unwrap();
    assert_eq!(got, vec!["rack-a8-x", "rack-a9-x", "rack-a10-x"]);
}

#[test]
fn expand_nested_ranges() {
    let got = expand_pattern("r{1..2}h{1..2}").unwrap();
    assert_eq!(got, vec!["r1h1", "r1h2", "r2h1", "r2h2"]);
}

#[test]
fn expand_reverse() {
    let got = expand_pattern("x{3..1}").unwrap();
    assert_eq!(got, vec!["x3", "x2", "x1"]);
}

#[test]
fn expand_list_dedup() {
    let err = expand_hostlist(&["a{1..2}".into(), "a1".into()]).unwrap_err();
    assert!(err.message().contains("duplicate"));
}

#[test]
fn expand_leaves_other_braces() {
    assert_eq!(expand_pattern("a{b}c").unwrap(), vec!["a{b}c"]);
    assert_eq!(expand_pattern("{..3}").unwrap(), vec!["{..3}"]);
    assert_eq!(expand_pattern("a}b").unwrap(), vec!["a}b"]);
    assert_eq!(expand_pattern("{{1..2}}").unwrap(), vec!["{1}", "{2}"]);
    assert!(expand_pattern("{{1..2}").is_err());
    assert_eq!(expand_pattern("").unwrap(), vec![""]);
    assert_eq!(expand_pattern("é{1..2}ü").unwrap(), vec!["é1ü", "é2ü"]);
}

#[test]
fn expand_padding_keeps_longer_numbers() {
    assert_eq!(
        expand_pattern("h{08..11}").unwrap(),
        vec!["h08", "h09", "h10", "h11"]
    );
    assert_eq!(expand_pattern("h{0..2}").unwrap(), vec!["h0", "h1", "h2"]);
    assert_eq!(expand_pattern("h{00..1}").unwrap(), vec!["h00", "h01"]);
}

#[test]
fn expand_errors() {
    let e = expand_pattern("a{1..2").unwrap_err();
    assert!(matches!(e, HostErrorOf::Unterminated(_)));
    assert_eq!(e.message(), "unterminated '{' in host pattern \"a{1..2\"");
    let e = expand_pattern("a{1..10001}").unwrap_err();
    assert!(matches!(e, HostErrorOf::TooMany(_, _)));
    assert_eq!(
        e.message(),
        "ellipsis in \"a{1..10001}\" expands to too many hosts (10001)"
    );
    assert_eq!(expand_pattern("a{1..10000}").unwrap().len(), 10000);
    let e = expand_pattern("a{9223372036854775808..1}").unwrap_err();
    assert!(matches!(e, HostErrorOf::RangeStart(_, _)));
    assert_eq!(
        e.message(),
        "ellipsis start in \"a{9223372036854775808..1}\": number too large to fit in target type"
    );
    let e = expand_pattern("a{1..9223372036854775808}").unwrap_err();
    assert!(matches!(e, HostErrorOf::RangeEnd(_, _)));
    let e = expand_hostlist(&strings(&["a", "b", "a"])).unwrap_err();
    assert!(matches!(e, HostErrorOf::Duplicate(_)));
    assert_eq!(e.message(), "duplicate host a after expanding hostlist");
}

#[test]
fn expanded_lists_hold_every_host_once() {
    let got = expand_hostlist(&strings(&["a{1..2}", "b", "c{2..1}"])).unwrap();
    assert_eq!(got, vec!["a1", "a2", "b", "c2", "c1"]);
    assert_eq!(expand_hostlist(&[]).unwrap(), Vec::<String>::new());
}

#[test]
fn hosts_are_split_and_trimmed() {
    assert_eq!(
        split_hosts(" a , b,, \t,c\u{3000}"),
        vec!["a", "b", "c"]
    );
    assert_eq!(split_hosts(""), Vec::<String>::new());
    assert_eq!(
        split_all(&strings(&["a,b", " ", "c"])),
        vec!["a", "b", "c"]
    );
}

#[test]
fn parse_sizes() {
    assert_eq!(parse_size("100").unwrap(), 100);
    assert_eq!(parse_size("100MiB").unwrap(), 100 * 1024 * 1024);
    assert_eq!(parse_size("1KiB").unwrap(), 1024);
    assert_eq!(parse_size("1.5KiB").unwrap(), 1536);
    assert_eq!(parse_size("2MB").unwrap(), 2_000_000);
}

#[test]
fn parse_size_units_and_errors() {
    assert_eq!(parse_size(" 3 gib ").unwrap(), 3 << 30);
    assert_eq!(parse_size("7b").unwrap(), 7);
    assert_eq!(parse_size("2g").unwrap(), 2_000_000_000);
    assert_eq!(parse_size("2Gi").unwrap(), 2 << 30);
    assert_eq!(parse_size("5k").unwrap(), 5000);
    assert_eq!(parse_size("18446744073709551615").unwrap(), u64::MAX);
    assert_eq!(parse_size("+5").unwrap(), 5);
    let e = parse_size("  ").unwrap_err();
    assert!(matches!(e, SizeErrorOf::Empty));
    assert_eq!(e.message(), "empty size");
    let e = parse_size("MiB").unwrap_err();
    assert!(matches!(e, SizeErrorOf::Invalid(_)));
    assert_eq!(e.message(), "invalid size \"MiB\"");
    let e = parse_size("1.2.3K").unwrap_err();
    assert!(matches!(e, SizeErrorOf::Number(..)));
    assert_eq!(
        e.message(),
        "invalid size number in \"1.2.3K\": invalid float literal"
    );
    assert_eq!(e.head(), "invalid size number in \"1.2.3K\"");
    let e = parse_size("1 Tb").unwrap_err();
    assert_eq!(e.head(), e.message());
    assert!(matches!(e, SizeErrorOf::Unit(..)));
    assert_eq!(e.message(), "unknown size unit \"tb\" in \"1 Tb\"");
    let e = parse_size("99999999999G").unwrap_err();
    assert!(matches!(e, SizeErrorOf::OutOfRange(_)));
    assert_eq!(e.message(), "size \"99999999999G\" is out of range");
}

fn reference_size(num: &str, mul: f64) -> Option<u64> {
    let num: f64 = num.parse().ok()?;
    let v = num * mul;
    if !v.is_finite() || v > u64::MAX as f64 {
        return None;
    }
    Some(v.round() as u64)
}

#[test]
fn parse_size_agrees_with_double_precision() {
    let units: [(&str, f64); 7] = [
        ("b", 1.0),
        ("k", 1000.0),
        ("kib", 1024.0),
        ("mb", 1000.0 * 1000.0),
        ("mi", 1024.0 * 1024.0),
        ("g", 1000.0 * 1000.0 * 1000.0),
        ("gib", 1024.0 * 1024.0 * 1024.0),
    ];
    let numbers = [
        "0", "0.5", "1.5", "2.5", "0.1", "0.3", "1.1", "3.14159", ".5", "5.", "0.0009765625",
        "0.00048828125", "0.000488281249999999999999999", "123456789.987654321",
        "9007199254740993", "9007199254740992.5", "9007199254740993.00000000000000000001",
        "18446744073709551615", "18446744073709551616", "18446744073709549568.5",
        "18446744073709553664", "18446744073709553665", "1.0000000000000001", "1.0000000000000002",
        "0.4999999999999999722", "0.49999999999999994", "4503599627370496.5",
        "4503599627370497.5", "0.000000000000000000000000000000000000000001",
        "17179869183.999999999", "17179869184", "0.30000000000000004", "16.0000000009313225",
        "340282366920938463463374607431768211456", "0000000000000000000000000000000001.25",
    ];
    for (unit, mul) in units {
        for num in numbers {
            let text = format!("{num}{unit}");
            let got = parse_size(&text).ok();
            assert_eq!(got, reference_size(num, mul), "{text}");
        }
    }
    let mut x: u64 = 88172645463325252;
    for _ in 0..4000 {
        x ^= x << 13;
        x ^= x >> 7;
        x ^= x << 17;
        let whole = x >> (x % 60);
        let places = (x >> 20) % 1_000_000_000;
        let num = format!("{whole}.{places:09}");
        let (unit, mul) = units[(x % 7) as usize];
        let text = format!("{num}{unit}");
        assert_eq!(parse_size(&text).ok(), reference_size(&num, mul), "{text}");
    }
}

#[test]
fn toml_roundtrip_defaults() {
    let t = r#"
test_addr = "10.1.2.3:9100"
hostlist = ["srv{1..2}.lab"]
tag = "run1"
"#;
    let c = from_toml(t).unwrap();
    assert_eq!(c.client_addr, DEFAULT_CLIENT_ADDR);
    assert_eq!(c.network, Network::Tcp);
    assert_eq!(c.payload_size, DEFAULT_PAYLOAD_SIZE);
    assert_eq!(c.workers, DEFAULT_WORKERS);
    assert_eq!(c.test_type, TestType::Pairs);
    assert_eq!(c.hostlist, vec!["srv1.lab", "srv2.lab"]);
    assert_eq!(c.hostlist_raw, vec!["srv{1..2}.lab"]);
    assert_eq!(c.tag, "run1");
    assert_eq!(
        std::path::PathBuf::from(c.db_path()),
        std::path::PathBuf::from("run1.db")
    );
}

#[test]
fn db_filename_adds_db_suffix() {
    assert_eq!(db_filename("live"), "live.db");
    assert_eq!(db_filename("live.db"), "live.db");
    assert_eq!(db_filename("run.sqlite"), "run.sqlite.db");
}

#[test]
fn db_filename_is_stable() {
    for tag in ["live", "live.db", "LIVE.DB", "x.Db", ".db", "db", "a.db.db"] {
        let name = db_filename(tag);
        assert_eq!(db_filename(&name), name);
    }
    assert_eq!(db_filename("LIVE.DB"), "LIVE.db");
    assert_eq!(db_filename("x.Db"), "x.Db.db");
    assert_eq!(db_filename(".db"), ".db");
}

#[test]
fn toml_rejects_unspecified_test_addr() {
    let t = r#"
test_addr = "0.0.0.0:9100"
hostlist = ["a", "b"]
tag = "x"
"#;
    let err = from_toml(t).unwrap_err();
    assert!(err.contains("unspecified"));
}

#[test]
fn toml_rejects_v6_unspecified_test_addr() {
    let t = r#"
test_addr = "[::]:9100"
hostlist = ["a", "b"]
tag = "x"
"#;
    let err = from_toml(t).unwrap_err();
    assert!(err.contains("unspecified"));
}

#[test]
fn toml_payload_string_and_type() {
    let t = r#"
test_addr = "host:9100"
network = "udp"
payload_size = "64KiB"
workers = 4
type = "mesh"
hostlist = "n{1..3},edge"
tag = "t"
"#;
    let c = from_toml(t).unwrap();
    assert_eq!(c.network, Network::Udp);
    assert_eq!(c.payload_size, 64 * 1024);
    assert_eq!(c.test_type, TestType::Mesh);
    assert_eq!(c.hostlist, vec!["n1", "n2", "n3", "edge"]);
}

#[test]
fn invalid_tag() {
    let t = r#"
test_addr = "h:1"
hostlist = ["a", "b"]
tag = "foo/bar"
"#;
    assert!(from_toml(t).is_err());
}

#[test]
fn config_errors_come_in_order() {
    assert!(valid().validate().is_ok());
    let mut c = valid();
    c.tag = "a\\b".to_string();
    c.workers = 0;
    let e = c.validate().unwrap_err();
    assert!(matches!(e, ConfigErrorOf::Tag(_)));
    assert_eq!(
        e.message(),
        "invalid tag \"a\\\\b\": used as sqlite filename, must be a plain name"
    );
    for tag in ["", ".", "..", "a/b", "a\0b"] {
        let mut c = valid();
        c.tag = tag.to_string();
        assert!(matches!(c.validate(), Err(ConfigErrorOf::Tag(_))));
    }
    let mut c = valid();
    c.workers = 0;
    c.payload_size = 0;
    assert_eq!(c.validate().unwrap_err().message(), "workers must be >= 1");
    let mut c = valid();
    c.payload_size = 0;
    c.hostlist = vec![];
    assert_eq!(
        c.validate().unwrap_err().message(),
        "payload_size must be >= 1"
    );
    let mut c = valid();
    c.hostlist = vec![];
    assert_eq!(
        c.validate().unwrap_err().message(),
        "hostlist is empty after expansion"
    );
    c.hostlist = strings(&["a"]);
    c.client_addr = "".to_string();
    assert_eq!(
        c.validate().unwrap_err().message(),
        "hostlist must contain at least 2 hosts, got 1"
    );
    let mut c = valid();
    c.client_addr = "nowhere".to_string();
    c.test_addr = "".to_string();
    assert_eq!(
        c.validate().unwrap_err().message(),
        "client_addr \"nowhere\": address \"nowhere\" must be host:port or [ipv6]:port"
    );
    c.client_addr = "h:0".to_string();
    assert_eq!(
        c.validate().unwrap_err().message(),
        "client_addr port must be non-zero"
    );
    c.client_addr = "h:1".to_string();
    assert_eq!(
        c.validate().unwrap_err().message(),
        "test_addr \"\": empty address"
    );
    c.test_addr = "0.0.0.0:0".to_string();
    assert_eq!(
        c.validate().unwrap_err().message(),
        "test_addr port must be non-zero"
    );
    c.test_addr = "*:1".to_string();
    assert_eq!(
        c.validate().unwrap_err().message(),
        "test_addr must not use an unspecified address (0.0.0.0 / ::)"
    );
}

#[test]
fn config_from_file_reports_hosts_first() {
    let file = ConfigFile {
        client_addr: None,
        test_addr: "".to_string(),
        network: None,
        payload_size: Some(0),
        workers: None,
        test_type: None,
        hostlist: strings(&["a", "a"]),
        tag: "".to_string(),
    };
    let e = Config::from_file(file).unwrap_err();
    assert!(matches!(e, ConfigErrorOf::Hosts(_)));
    assert_eq!(e.message(), "duplicate host a after expanding hostlist");
}

#[test]
fn config_ports_and_family() {
    let mut c = valid();
    assert_eq!(c.control_port().unwrap(), 7777);
    assert_eq!(c.test_port().unwrap(), 9100);
    assert_eq!(c.test_family().unwrap(), None);
    c.test_addr = "[2001:db8::1]:80".to_string();
    assert_eq!(c.test_family().unwrap(), Some(AddrFamily::V6));
    c.test_addr = "10.0.0.1:80".to_string();
    assert_eq!(c.test_family().unwrap(), Some(AddrFamily::V4));
    c.test_addr = "10.0.0.1".to_string();
    assert!(c.test_family().is_err());
    assert!(c.test_port().is_err());
    c.client_addr = "x:99999".to_string();
    assert_eq!(
        c.control_port().unwrap_err().message(),
        "invalid port in \"x:99999\": number too large to fit in target type"
    );
}

#[test]
fn config_names_and_payload_numbers() {
    assert_eq!(Network::Tcp.name(), "tcp");
    assert_eq!(Network::Udp.name(), "udp");
    assert_eq!(TestType::Pairs.name(), "pairs");
    assert_eq!(TestType::Mesh.name(), "mesh");
    assert_eq!(Network::default(), Network::Tcp);
    assert_eq!(TestType::default(), TestType::Pairs);
    assert_eq!(payload_from_int(5).unwrap(), 5);
    assert_eq!(
        payload_from_int(-1).unwrap_err().message(),
        "payload_size must be >= 0"
    );
}

#[test]
fn expanded_lists_expand_to_themselves() {
    let hosts = expand_hostlist(&strings(&["a{1..3}b{1..2}", "c{x}", "d"])).unwrap();
    assert_eq!(hosts.len(), 8);
    assert_eq!(expand_hostlist(&hosts).unwrap(), hosts);
}

#[test]
fn open_braces_never_expand() {
    for pat in ["{", "a{1..2}{", "{1..2}b{3..4", "}{", "{1..2}{{1..2}{", "{a}{1..99999}{"] {
        assert!(expand_pattern(pat).is_err(), "{pat}");
    }
}
