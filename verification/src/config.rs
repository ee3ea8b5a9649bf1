//! The configuration of a run: its defaults and what makes it valid.
use vstd::prelude::*;

pub use crate::hostlist::{expand_hostlist, expand_pattern};
pub use crate::size::parse_size;

use crate::hostlist;
use crate::hostlist::HostErrorOf;
use crate::netutil;
use crate::netutil::{AddrError, AddrErrorOf, AddrFamily};
use crate::number;
use crate::text;

verus! {

/// Where the client's control socket is unless the file says otherwise.
pub const DEFAULT_CLIENT_ADDR: &'static str = "0.0.0.0:7777";

/// How many bytes a payload has unless the file says otherwise.
pub const DEFAULT_PAYLOAD_SIZE: u64 = 104_857_600;

/// How many workers send to a target unless the file says otherwise.
pub const DEFAULT_WORKERS: u32 = 10;

/// The protocol of the data plane.
#[derive(Debug, Clone, Copy, PartialEq, Eq, Structural)]
pub enum Network {
    Tcp,
    Udp,
}

impl Network {
    /// The name of the protocol.
    pub fn name(self) -> (res: &'static str)
        ensures
            res@ == (match self {
                Network::Tcp => "tcp"@,
                Network::Udp => "udp"@,
            }),
    {
        match self {
            Network::Tcp => "tcp",
            Network::Udp => "udp",
        }
    }
}

impl Default for Network {
    fn default() -> (res: Network)
        ensures
            res == Network::Tcp,
    {
        Network::Tcp
    }
}

/// Who talks to whom.
#[derive(Debug, Clone, Copy, PartialEq, Eq, Structural)]
pub enum TestType {
    Pairs,
    Mesh,
}

impl TestType {
    /// The name of the test type.
    pub fn name(self) -> (res: &'static str)
        ensures
            res@ == (match self {
                TestType::Pairs => "pairs"@,
                TestType::Mesh => "mesh"@,
            }),
    {
        match self {
            TestType::Pairs => "pairs",
            TestType::Mesh => "mesh",
        }
    }
}

impl Default for TestType {
    fn default() -> (res: TestType)
        ensures
            res == TestType::Pairs,
    {
        TestType::Pairs
    }
}

/// The configuration of a run, as client and servers exchange it.
///
/// `hostlist` is the expanded list of hosts. `hostlist_raw` keeps the values
/// as written in the file, ranges included.
#[derive(Debug, Clone)]
pub struct Config {
    pub client_addr: String,
    pub test_addr: String,
    pub network: Network,
    pub payload_size: u64,
    pub workers: u32,
    pub test_type: TestType,
    pub hostlist: Vec<String>,
    pub hostlist_raw: Vec<String>,
    pub tag: String,
}

/// What a configuration file says. `None` stands for a key that it lacks.
#[derive(Debug, Clone)]
pub struct ConfigFile {
    pub client_addr: Option<String>,
    pub test_addr: String,
    pub network: Option<Network>,
    pub payload_size: Option<u64>,
    pub workers: Option<u32>,
    pub test_type: Option<TestType>,
    /// The host patterns, separated.
    pub hostlist: Vec<String>,
    pub tag: String,
}

/// The content of a [`Config`].
pub struct ConfigView {
    pub client_addr: Seq<char>,
    pub test_addr: Seq<char>,
    pub network: Network,
    pub payload_size: u64,
    pub workers: u32,
    pub test_type: TestType,
    pub hostlist: Seq<Seq<char>>,
    pub hostlist_raw: Seq<Seq<char>>,
    pub tag: Seq<char>,
}

/// The content of a [`ConfigFile`].
pub struct ConfigFileView {
    pub client_addr: Option<Seq<char>>,
    pub test_addr: Seq<char>,
    pub network: Option<Network>,
    pub payload_size: Option<u64>,
    pub workers: Option<u32>,
    pub test_type: Option<TestType>,
    pub hostlist: Seq<Seq<char>>,
    pub tag: Seq<char>,
}

impl View for Config {
    type V = ConfigView;

    open spec fn view(&self) -> ConfigView {
        ConfigView {
            client_addr: self.client_addr@,
            test_addr: self.test_addr@,
            network: self.network,
            payload_size: self.payload_size,
            workers: self.workers,
            test_type: self.test_type,
            hostlist: text::texts(self.hostlist@),
            hostlist_raw: text::texts(self.hostlist_raw@),
            tag: self.tag@,
        }
    }
}

impl View for ConfigFile {
    type V = ConfigFileView;

    open spec fn view(&self) -> ConfigFileView {
        ConfigFileView {
            client_addr: match self.client_addr {
                Some(s) => Some(s@),
                None => None,
            },
            test_addr: self.test_addr@,
            network: self.network,
            payload_size: self.payload_size,
            workers: self.workers,
            test_type: self.test_type,
            hostlist: text::texts(self.hostlist@),
            tag: self.tag@,
        }
    }
}

/// Why a configuration is not valid. `S` is the type of the texts in it.
#[derive(Debug, Clone)]
pub enum ConfigErrorOf<S> {
    /// The host list cannot be expanded.
    Hosts(HostErrorOf<S>),
    /// The tag cannot name a file.
    Tag(S),
    /// No workers.
    Workers,
    /// An empty payload.
    Payload,
    /// No hosts.
    NoHosts,
    /// One host only.
    OneHost,
    /// The client address is no `host:port`.
    ClientAddr(S, AddrErrorOf<S>),
    /// The port of the client address is 0.
    ClientPort,
    /// The test address is no `host:port`.
    TestAddr(S, AddrErrorOf<S>),
    /// The port of the test address is 0.
    TestPort,
    /// The host of the test address stands for no particular address.
    TestUnspecified,
}

pub type ConfigError = ConfigErrorOf<String>;

pub type ConfigErrorView = ConfigErrorOf<Seq<char>>;

impl View for ConfigErrorOf<String> {
    type V = ConfigErrorOf<Seq<char>>;

    open spec fn view(&self) -> ConfigErrorOf<Seq<char>> {
        match self {
            ConfigErrorOf::Hosts(e) => ConfigErrorOf::Hosts(e@),
            ConfigErrorOf::Tag(s) => ConfigErrorOf::Tag(s@),
            ConfigErrorOf::Workers => ConfigErrorOf::Workers,
            ConfigErrorOf::Payload => ConfigErrorOf::Payload,
            ConfigErrorOf::NoHosts => ConfigErrorOf::NoHosts,
            ConfigErrorOf::OneHost => ConfigErrorOf::OneHost,
            ConfigErrorOf::ClientAddr(s, e) => ConfigErrorOf::ClientAddr(s@, e@),
            ConfigErrorOf::ClientPort => ConfigErrorOf::ClientPort,
            ConfigErrorOf::TestAddr(s, e) => ConfigErrorOf::TestAddr(s@, e@),
            ConfigErrorOf::TestPort => ConfigErrorOf::TestPort,
            ConfigErrorOf::TestUnspecified => ConfigErrorOf::TestUnspecified,
        }
    }
}

/// The message of a configuration error.
pub open spec fn config_error_text(e: ConfigErrorView) -> Seq<char> {
    match e {
        ConfigErrorOf::Hosts(h) => hostlist::host_error_text(h),
        ConfigErrorOf::Tag(s) => "invalid tag "@ + text::quoted(s)
            + ": used as sqlite filename, must be a plain name"@,
        ConfigErrorOf::Workers => "workers must be >= 1"@,
        ConfigErrorOf::Payload => "payload_size must be >= 1"@,
        ConfigErrorOf::NoHosts => "hostlist is empty after expansion"@,
        ConfigErrorOf::OneHost => "hostlist must contain at least 2 hosts, got 1"@,
        ConfigErrorOf::ClientAddr(s, a) => "client_addr "@ + text::quoted(s) + ": "@
            + netutil::addr_error_text(a),
        ConfigErrorOf::ClientPort => "client_addr port must be non-zero"@,
        ConfigErrorOf::TestAddr(s, a) => "test_addr "@ + text::quoted(s) + ": "@
            + netutil::addr_error_text(a),
        ConfigErrorOf::TestPort => "test_addr port must be non-zero"@,
        ConfigErrorOf::TestUnspecified =>
            "test_addr must not use an unspecified address (0.0.0.0 / ::)"@,
    }
}

impl ConfigErrorOf<String> {
    /// The message of the error.
    pub fn message(&self) -> (res: String)
        ensures
            res@ == config_error_text(self@),
    {
        let mut out = String::new();
        match self {
            ConfigErrorOf::Hosts(e) => {
                out.append(e.message().as_str());
            },
            ConfigErrorOf::Tag(s) => {
                out.append("invalid tag ");
                out.append(text::quote(s.as_str()).as_str());
                out.append(": used as sqlite filename, must be a plain name");
            },
            ConfigErrorOf::Workers => {
                out.append("workers must be >= 1");
            },
            ConfigErrorOf::Payload => {
                out.append("payload_size must be >= 1");
            },
            ConfigErrorOf::NoHosts => {
                out.append("hostlist is empty after expansion");
            },
            ConfigErrorOf::OneHost => {
                out.append("hostlist must contain at least 2 hosts, got 1");
            },
            ConfigErrorOf::ClientAddr(s, e) => {
                out.append("client_addr ");
                out.append(text::quote(s.as_str()).as_str());
                out.append(": ");
                out.append(e.message().as_str());
            },
            ConfigErrorOf::ClientPort => {
                out.append("client_addr port must be non-zero");
            },
            ConfigErrorOf::TestAddr(s, e) => {
                out.append("test_addr ");
                out.append(text::quote(s.as_str()).as_str());
                out.append(": ");
                out.append(e.message().as_str());
            },
            ConfigErrorOf::TestPort => {
                out.append("test_addr port must be non-zero");
            },
            ConfigErrorOf::TestUnspecified => {
                out.append("test_addr must not use an unspecified address (0.0.0.0 / ::)");
            },
        }
        assert(out@ =~= config_error_text(self@));
        out
    }
}

/// The tag can name a file in the working directory.
pub open spec fn plain_name(tag: Seq<char>) -> bool {
    &&& tag.len() > 0
    &&& !tag.contains('/')
    &&& !tag.contains('\\')
    &&& !tag.contains('\0')
    &&& tag != "."@
    &&& tag != ".."@
}

/// The first thing that is wrong with a configuration, if there is one.
pub open spec fn config_error(c: ConfigView) -> Option<ConfigErrorView> {
    if !plain_name(c.tag) {
        Some(ConfigErrorOf::Tag(c.tag))
    } else if c.workers == 0 {
        Some(ConfigErrorOf::Workers)
    } else if c.payload_size == 0 {
        Some(ConfigErrorOf::Payload)
    } else if c.hostlist.len() == 0 {
        Some(ConfigErrorOf::NoHosts)
    } else if c.hostlist.len() == 1 {
        Some(ConfigErrorOf::OneHost)
    } else {
        match (netutil::host_port(c.client_addr), netutil::host_port(c.test_addr)) {
            (Err(e), _) => Some(ConfigErrorOf::ClientAddr(c.client_addr, e)),
            (Ok((_, 0)), _) => Some(ConfigErrorOf::ClientPort),
            (Ok(_), Err(e)) => Some(ConfigErrorOf::TestAddr(c.test_addr, e)),
            (Ok(_), Ok((_, 0))) => Some(ConfigErrorOf::TestPort),
            (Ok(_), Ok((host, _))) => if netutil::unspecified_host(host) {
                Some(ConfigErrorOf::TestUnspecified)
            } else {
                None
            },
        }
    }
}

/// The configuration that a file describes: defaults for what it lacks, and the
/// host list expanded.
pub open spec fn from_file_spec(f: ConfigFileView) -> Result<ConfigView, ConfigErrorView> {
    match hostlist::list_expansion(f.hostlist, f.hostlist.len() as int) {
        Err(e) => Err(ConfigErrorOf::Hosts(e)),
        Ok(hosts) => {
            let c = ConfigView {
                client_addr: match f.client_addr {
                    Some(s) => s,
                    None => DEFAULT_CLIENT_ADDR@,
                },
                test_addr: f.test_addr,
                network: match f.network {
                    Some(n) => n,
                    None => Network::Tcp,
                },
                payload_size: match f.payload_size {
                    Some(n) => n,
                    None => DEFAULT_PAYLOAD_SIZE,
                },
                workers: match f.workers {
                    Some(n) => n,
                    None => DEFAULT_WORKERS,
                },
                test_type: match f.test_type {
                    Some(t) => t,
                    None => TestType::Pairs,
                },
                hostlist: hosts,
                hostlist_raw: f.hostlist,
                tag: f.tag,
            };
            match config_error(c) {
                Some(e) => Err(e),
                None => Ok(c),
            }
        },
    }
}

/// The port of an address.
pub open spec fn port_of(addr: Seq<char>) -> Result<u16, netutil::AddrErrorView> {
    match netutil::host_port(addr) {
        Ok((_, port)) => Ok(port),
        Err(e) => Err(e),
    }
}

/// The port of the control socket.
pub open spec fn control_port_of(c: ConfigView) -> Result<u16, netutil::AddrErrorView> {
    port_of(c.client_addr)
}

/// The port of the data plane.
pub open spec fn test_port_of(c: ConfigView) -> Result<u16, netutil::AddrErrorView> {
    port_of(c.test_addr)
}

/// The control socket has the port of the client address, the data plane that of the test
/// address: the number behind the colon.
pub proof fn law_ports(c: ConfigView, host: Seq<char>, digits: Seq<char>)
    requires
        host.len() > 0,
        !host.contains(':'),
        host[0] != '[',
        !text::is_space(host[0]),
        digits.len() > 0,
        number::all_digits(digits),
        number::decimal_value(digits) <= 65535,
    ensures
        c.client_addr == host + seq![':'] + digits ==> control_port_of(c) == Ok::<
            u16,
            netutil::AddrErrorView,
        >(number::decimal_value(digits) as u16),
        c.test_addr == host + seq![':'] + digits ==> test_port_of(c) == Ok::<
            u16,
            netutil::AddrErrorView,
        >(number::decimal_value(digits) as u16),
{
    let none = Seq::<char>::empty();
    let s = host + seq![':'] + digits;
    netutil::law_host_and_port(none, host, digits, none);
    assert(none + s + none =~= s);
}

fn default_client_addr() -> (res: String)
    ensures
        res@ == DEFAULT_CLIENT_ADDR@,
{
    let mut out = String::new();
    out.append(DEFAULT_CLIENT_ADDR);
    assert(out@ =~= DEFAULT_CLIENT_ADDR@);
    out
}

impl Config {
    /// The configuration that a file describes, if it is valid.
    pub fn from_file(f: ConfigFile) -> (res: Result<Config, ConfigError>)
        ensures
            match res {
                Ok(c) => from_file_spec(f@) == Ok::<ConfigView, ConfigErrorView>(c@),
                Err(e) => from_file_spec(f@) == Err::<ConfigView, ConfigErrorView>(e@),
            },
    {
        let hosts = match hostlist::expand_hostlist(f.hostlist.as_slice()) {
            Ok(hosts) => hosts,
            Err(e) => {
                return Err(ConfigErrorOf::Hosts(e));
            },
        };
        let cfg = Config {
            client_addr: match f.client_addr {
                Some(s) => s,
                None => default_client_addr(),
            },
            test_addr: f.test_addr,
            network: match f.network {
                Some(n) => n,
                None => Network::default(),
            },
            payload_size: match f.payload_size {
                Some(n) => n,
                None => DEFAULT_PAYLOAD_SIZE,
            },
            workers: match f.workers {
                Some(n) => n,
                None => DEFAULT_WORKERS,
            },
            test_type: match f.test_type {
                Some(t) => t,
                None => TestType::default(),
            },
            hostlist: hosts,
            hostlist_raw: f.hostlist,
            tag: f.tag,
        };
        match cfg.validate() {
            Ok(_) => Ok(cfg),
            Err(e) => Err(e),
        }
    }

    /// Whether a run can start with this configuration; if not, the first thing
    /// that is wrong with it.
    pub fn validate(&self) -> (res: Result<(), ConfigError>)
        ensures
            match res {
                Ok(_) => config_error(self@) is None,
                Err(e) => config_error(self@) == Some(e@),
            },
    {
        let chars = text::chars_of(self.tag.as_str());
        let tag = chars.as_slice();
        if tag.len() == 0 || text::has(tag, '/') || text::has(tag, '\\') || text::has(tag, '\0')
            || text::spells(tag, ".") || text::spells(tag, "..") {
            return Err(ConfigErrorOf::Tag(self.tag.clone()));
        }
        if self.workers == 0 {
            return Err(ConfigErrorOf::Workers);
        }
        if self.payload_size == 0 {
            return Err(ConfigErrorOf::Payload);
        }
        if self.hostlist.len() == 0 {
            return Err(ConfigErrorOf::NoHosts);
        }
        if self.hostlist.len() < 2 {
            return Err(ConfigErrorOf::OneHost);
        }
        match netutil::parse_host_port(self.client_addr.as_str()) {
            Err(e) => {
                return Err(ConfigErrorOf::ClientAddr(self.client_addr.clone(), e));
            },
            Ok((_, port)) => {
                if port == 0 {
                    return Err(ConfigErrorOf::ClientPort);
                }
            },
        }
        match netutil::parse_host_port(self.test_addr.as_str()) {
            Err(e) => Err(ConfigErrorOf::TestAddr(self.test_addr.clone(), e)),
            Ok((host, port)) => {
                if port == 0 {
                    Err(ConfigErrorOf::TestPort)
                } else if netutil::is_unspecified_host(host.as_str()) {
                    Err(ConfigErrorOf::TestUnspecified)
                } else {
                    Ok(())
                }
            },
        }
    }

    /// The port of the control socket.
    pub fn control_port(&self) -> (res: Result<u16, AddrError>)
        ensures
            match res {
                Ok(port) => control_port_of(self@) == Ok::<u16, netutil::AddrErrorView>(port),
                Err(e) => control_port_of(self@) == Err::<u16, netutil::AddrErrorView>(e@),
            },
            match (res, netutil::host_port(self@.client_addr)) {
                (Ok(port), Ok((_, p))) => port == p,
                (Err(e), Err(a)) => e@ == a,
                _ => false,
            },
    {
        match netutil::parse_host_port(self.client_addr.as_str()) {
            Ok((_, port)) => Ok(port),
            Err(e) => Err(e),
        }
    }

    /// The port of the data plane.
    pub fn test_port(&self) -> (res: Result<u16, AddrError>)
        ensures
            match res {
                Ok(port) => test_port_of(self@) == Ok::<u16, netutil::AddrErrorView>(port),
                Err(e) => test_port_of(self@) == Err::<u16, netutil::AddrErrorView>(e@),
            },
            match (res, netutil::host_port(self@.test_addr)) {
                (Ok(port), Ok((_, p))) => port == p,
                (Err(e), Err(a)) => e@ == a,
                _ => false,
            },
    {
        match netutil::parse_host_port(self.test_addr.as_str()) {
            Ok((_, port)) => Ok(port),
            Err(e) => Err(e),
        }
    }

    /// The address family of the data plane, where the test address fixes it.
    pub fn test_family(&self) -> (res: Result<Option<AddrFamily>, AddrError>)
        ensures
            match (res, netutil::host_port(self@.test_addr)) {
                (Ok(family), Ok((host, _))) => family == AddrFamily::of_host(host),
                (Err(e), Err(a)) => e@ == a,
                _ => false,
            },
    {
        match netutil::parse_host_port(self.test_addr.as_str()) {
            Ok((host, _)) => Ok(AddrFamily::from_host(host.as_str())),
            Err(e) => Err(e),
        }
    }

    /// The database file of the run, in the client's working directory.
    pub fn db_path(&self) -> (res: String)
        ensures
            res@ == db_name(self@.tag),
    {
        db_filename(self.tag.as_str())
    }
}

/// The tag without `.db` or `.DB` at its end.
pub open spec fn stem(tag: Seq<char>) -> Seq<char> {
    let n = tag.len() as int;
    if n >= 3 && (tag.skip(n - 3) == ".db"@ || tag.skip(n - 3) == ".DB"@) {
        tag.take(n - 3)
    } else {
        tag
    }
}

/// The name of the database file for a tag.
pub open spec fn db_name(tag: Seq<char>) -> Seq<char> {
    stem(tag) + ".db"@
}

/// Always `<tag>.db`; a `.db` or `.DB` at the end of the tag is not doubled.
pub fn db_filename(tag: &str) -> (res: String)
    ensures
        res@ == db_name(tag@),
{
    let chars = text::chars_of(tag);
    let s = chars.as_slice();
    let n: usize = s.len();
    let mut end: usize = n;
    if n >= 3 {
        let tail = text::part(s, n - 3, n);
        assert(tail@ =~= s@.skip(n - 3));
        if text::spells(tail, ".db") || text::spells(tail, ".DB") {
            end = n - 3;
        }
    }
    let kept = text::part(s, 0, end);
    assert(kept@ =~= stem(tag@));
    let mut out = text::string_of(kept);
    out.append(".db");
    out
}

/// The name of a database file, taken as a tag, names the same file.
pub proof fn law_db_name_is_stable(tag: Seq<char>)
    ensures
        db_name(db_name(tag)) == db_name(tag),
{
    reveal_strlit(".db");
    let name = db_name(tag);
    assert(name.skip(name.len() - 3) =~= ".db"@);
    assert(stem(name) =~= stem(tag));
}

/// The database file of a valid configuration lies in the working directory:
/// its name holds no path separator.
pub proof fn law_db_file_stays_here(c: ConfigView)
    requires
        config_error(c) is None,
    ensures
        !db_name(c.tag).contains('/'),
        !db_name(c.tag).contains('\\'),
        !db_name(c.tag).contains('\0'),
{
    reveal_strlit(".db");
    let name = db_name(c.tag);
    let n = stem(c.tag).len() as int;
    assert forall|i: int| 0 <= i < name.len() implies name[i] != '/' && name[i] != '\\' && name[i]
        != '\0' by {
        if i < n {
            assert(name[i] == c.tag[i]);
            assert(c.tag.contains(c.tag[i]));
        } else {
            assert(name[i] == ".db"@[i - n]);
        }
    }
}

/// A configuration that was accepted from a file is valid, and its ports can be
/// read.
pub proof fn law_accepted_is_valid(f: ConfigFileView)
    ensures
        match from_file_spec(f) {
            Ok(c) => config_error(c) is None && netutil::host_port(c.client_addr) is Ok
                && netutil::host_port(c.test_addr) is Ok && c.hostlist.len() >= 2
                && c.hostlist.no_duplicates() && c.hostlist_raw == f.hostlist,
            Err(_) => true,
        },
{
    hostlist::law_expanded_list(f.hostlist, f.hostlist.len() as int);
}

/// A payload size given as an integer that is below 0.
#[derive(Debug, Clone, Copy, PartialEq, Eq, Structural)]
pub struct NegativePayload;

impl NegativePayload {
    /// The message of the error.
    pub fn message(&self) -> (res: &'static str)
        ensures
            res@ == "payload_size must be >= 0"@,
    {
        "payload_size must be >= 0"
    }
}

/// A payload size given as an integer.
pub fn payload_from_int(v: i64) -> (res: Result<u64, NegativePayload>)
    ensures
        match res {
            Ok(n) => v >= 0 && n == v,
            Err(_) => v < 0,
        },
{
    if v < 0 {
        Err(NegativePayload)
    } else {
        Ok(v as u64)
    }
}

/// The hosts of the first `k` items, each a list separated by commas.
pub open spec fn separated(items: Seq<Seq<char>>, k: int) -> Seq<Seq<char>>
    decreases k,
{
    if k <= 0 {
        Seq::empty()
    } else {
        separated(items, k - 1) + hostlist::hosts_in(items[k - 1])
    }
}

/// The host patterns of a list whose items may themselves be lists separated by
/// commas.
pub fn split_all(items: &[String]) -> (res: Vec<String>)
    ensures
        text::texts(res@) == separated(text::texts(items@), items@.len() as int),
{
    let ghost all = text::texts(items@);
    let n: usize = items.len();
    let mut out: Vec<String> = Vec::new();
    let mut i: usize = 0;
    assert(text::texts(out@) =~= separated(all, 0));
    while i < n
        invariant
            n == items@.len(),
            i <= n,
            all == text::texts(items@),
            text::texts(out@) == separated(all, i as int),
        decreases n - i,
    {
        let mut more = hostlist::split_hosts(items[i].as_str());
        let ghost before = text::texts(out@);
        let ghost added = text::texts(more@);
        out.append(&mut more);
        assert(text::texts(out@) =~= before + added);
        i += 1;
    }
    out
}

/// A configuration is valid exactly if its tag can name a file, there is a worker, a
/// byte of payload and a second host, both addresses can be split and have a port, and
/// the test address is a particular one.
pub proof fn law_what_makes_it_valid(c: ConfigView)
    ensures
        config_error(c) is None <==> {
            &&& c.tag.len() > 0
            &&& forall|i: int|
                0 <= i < c.tag.len() ==> #[trigger] c.tag[i] != '/' && c.tag[i] != '\\' && c.tag[i]
                    != '\0'
            &&& c.tag != seq!['.']
            &&& c.tag != seq!['.', '.']
            &&& c.workers >= 1
            &&& c.payload_size >= 1
            &&& c.hostlist.len() >= 2
            &&& netutil::host_port(c.client_addr) is Ok
            &&& netutil::host_port(c.client_addr)->Ok_0.1 != 0
            &&& netutil::host_port(c.test_addr) is Ok
            &&& netutil::host_port(c.test_addr)->Ok_0.1 != 0
            &&& !netutil::unspecified_host(netutil::host_port(c.test_addr)->Ok_0.0)
        },
{
    reveal_strlit(".");
    reveal_strlit("..");
    assert("."@ =~= seq!['.']);
    assert(".."@ =~= seq!['.', '.']);
    if plain_name(c.tag) {
        assert forall|i: int| 0 <= i < c.tag.len() implies #[trigger] c.tag[i] != '/' && c.tag[i]
            != '\\' && c.tag[i] != '\0' by {
            assert(c.tag.contains(c.tag[i]));
        }
    }
}

/// The first thing that is wrong is what is reported: the tag, then the workers, the
/// payload, the hosts, the client address and its port, the test address, its port and
/// its host.
pub proof fn law_what_is_reported(c: ConfigView)
    requires
        plain_name(c.tag),
    ensures
        c.workers == 0 ==> config_error(c) == Some(ConfigErrorOf::<Seq<char>>::Workers),
        c.workers > 0 && c.payload_size == 0 ==> config_error(c) == Some(
            ConfigErrorOf::<Seq<char>>::Payload,
        ),
        c.workers > 0 && c.payload_size > 0 && c.hostlist.len() == 0 ==> config_error(c) == Some(
            ConfigErrorOf::<Seq<char>>::NoHosts,
        ),
        c.workers > 0 && c.payload_size > 0 && c.hostlist.len() == 1 ==> config_error(c) == Some(
            ConfigErrorOf::<Seq<char>>::OneHost,
        ),
        c.workers > 0 && c.payload_size > 0 && c.hostlist.len() >= 2 ==> match netutil::host_port(
            c.client_addr,
        ) {
            Err(e) => config_error(c) == Some(ConfigErrorOf::ClientAddr(c.client_addr, e)),
            Ok((_, p)) => {
                &&& p == 0 ==> config_error(c) == Some(ConfigErrorOf::<Seq<char>>::ClientPort)
                &&& p != 0 ==> match netutil::host_port(c.test_addr) {
                    Err(e) => config_error(c) == Some(ConfigErrorOf::TestAddr(c.test_addr, e)),
                    Ok((host, q)) => {
                        &&& q == 0 ==> config_error(c) == Some(ConfigErrorOf::<Seq<char>>::TestPort)
                        &&& q != 0 && netutil::unspecified_host(host) ==> config_error(c) == Some(
                            ConfigErrorOf::<Seq<char>>::TestUnspecified,
                        )
                    },
                }
            },
        },
{
}

/// What a file says is in the configuration as the file says it, and what it does not
/// say has its default: `0.0.0.0:7777`, TCP, 100 times 1024 times 1024 bytes, 10
/// workers, and pairs. The hosts are those that the patterns stand for.
pub proof fn law_files_and_defaults(f: ConfigFileView)
    ensures
        match from_file_spec(f) {
            Ok(c) => {
                &&& config_error(c) is None
                &&& c.client_addr == (match f.client_addr {
                    Some(s) => s,
                    None => seq!['0', '.', '0', '.', '0', '.', '0', ':', '7', '7', '7', '7'],
                })
                &&& c.test_addr == f.test_addr
                &&& c.network == (match f.network {
                    Some(n) => n,
                    None => Network::Tcp,
                })
                &&& c.payload_size == (match f.payload_size {
                    Some(n) => n as nat,
                    None => 100 * 1024 * 1024,
                })
                &&& c.workers == (match f.workers {
                    Some(n) => n,
                    None => 10,
                })
                &&& c.test_type == (match f.test_type {
                    Some(t) => t,
                    None => TestType::Pairs,
                })
                &&& hostlist::list_expansion(f.hostlist, f.hostlist.len() as int) == Ok::<
                    Seq<Seq<char>>,
                    hostlist::HostErrorView,
                >(c.hostlist)
                &&& c.hostlist_raw == f.hostlist
                &&& c.tag == f.tag
            },
            Err(ConfigErrorOf::Hosts(e)) => hostlist::list_expansion(
                f.hostlist,
                f.hostlist.len() as int,
            ) == Err::<Seq<Seq<char>>, hostlist::HostErrorView>(e),
            Err(_) => hostlist::list_expansion(f.hostlist, f.hostlist.len() as int) is Ok,
        },
{
    reveal_strlit("0.0.0.0:7777");
    assert("0.0.0.0:7777"@ =~= seq!['0', '.', '0', '.', '0', '.', '0', ':', '7', '7', '7', '7']);
}

/// The database file of a tag is the tag and `.db`; a `.db` that the tag ends with, in
/// small or in capital letters, is not doubled.
pub proof fn law_name_of_the_database(tag: Seq<char>)
    ensures
        db_name(tag + seq!['.', 'd', 'b']) == tag + seq!['.', 'd', 'b'],
        db_name(tag + seq!['.', 'D', 'B']) == tag + seq!['.', 'd', 'b'],
        tag.len() < 3 || (tag.skip(tag.len() - 3) != seq!['.', 'd', 'b'] && tag.skip(tag.len() - 3)
            != seq!['.', 'D', 'B']) ==> db_name(tag) == tag + seq!['.', 'd', 'b'],
{
    reveal_strlit(".db");
    reveal_strlit(".DB");
    assert(".db"@ =~= seq!['.', 'd', 'b']);
    assert(".DB"@ =~= seq!['.', 'D', 'B']);
    let a = tag + seq!['.', 'd', 'b'];
    let b = tag + seq!['.', 'D', 'B'];
    let n = tag.len() as int;
    assert(a.skip(n) =~= seq!['.', 'd', 'b']);
    assert(b.skip(n) =~= seq!['.', 'D', 'B']);
    assert(a.take(n) =~= tag);
    assert(b.take(n) =~= tag);
}

/// Items of a list that are themselves lists are split each by itself, in order.
pub proof fn law_lists_in_lists(items: Seq<Seq<char>>, k: int)
    requires
        0 <= k < items.len(),
    ensures
        separated(items, 0).len() == 0,
        separated(items, k + 1) == separated(items, k) + hostlist::hosts_in(items[k]),
{
}

/// What is said of a configuration, or of a file, is said of its fields.
pub proof fn law_content_of_a_configuration(c: Config, f: ConfigFile, k: int)
    requires
        0 <= k,
    ensures
        c@.client_addr == c.client_addr@,
        c@.test_addr == c.test_addr@,
        c@.tag == c.tag@,
        c@.network == c.network,
        c@.payload_size == c.payload_size,
        c@.workers == c.workers,
        c@.test_type == c.test_type,
        c@.hostlist.len() == c.hostlist@.len(),
        c@.hostlist_raw.len() == c.hostlist_raw@.len(),
        k < c.hostlist@.len() ==> c@.hostlist[k] == c.hostlist@[k]@,
        k < c.hostlist_raw@.len() ==> c@.hostlist_raw[k] == c.hostlist_raw@[k]@,
        f@.client_addr is Some <==> f.client_addr is Some,
        f.client_addr is Some ==> f@.client_addr->0 == f.client_addr->0@,
        f@.test_addr == f.test_addr@,
        f@.tag == f.tag@,
        f@.network == f.network,
        f@.payload_size == f.payload_size,
        f@.workers == f.workers,
        f@.test_type == f.test_type,
        f@.hostlist.len() == f.hostlist@.len(),
        k < f.hostlist@.len() ==> f@.hostlist[k] == f.hostlist@[k]@,
{
}

} // verus!
