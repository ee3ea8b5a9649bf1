//! Addresses as they appear in the configuration, and the choice among the
//! addresses of a host.
use vstd::prelude::*;

use crate::address;
use crate::address::{IpAddr, SocketAddr};
use crate::number;
use crate::number::NumberError;
use crate::text;

verus! {

/// An address family.
#[derive(Debug, Clone, Copy, PartialEq, Eq, Structural)]
pub enum AddrFamily {
    V4,
    V6,
}

impl AddrFamily {
    /// The family of the address that a host name spells, if it is one.
    pub open spec fn of_host(host: Seq<char>) -> Option<AddrFamily> {
        match address::ip_of(host) {
            Some(IpAddr::V4(_)) => Some(AddrFamily::V4),
            Some(IpAddr::V6(_)) => Some(AddrFamily::V6),
            None => None,
        }
    }

    /// The address is of this family.
    pub open spec fn covers(self, addr: SocketAddr) -> bool {
        match self {
            AddrFamily::V4 => addr.ip is V4,
            AddrFamily::V6 => addr.ip is V6,
        }
    }

    /// The family of a host that is an IP address; `None` for a name.
    pub fn from_host(host: &str) -> (res: Option<AddrFamily>)
        ensures
            res == AddrFamily::of_host(host@),
    {
        match address::parse_ip(host) {
            Some(IpAddr::V4(_)) => Some(AddrFamily::V4),
            Some(IpAddr::V6(_)) => Some(AddrFamily::V6),
            None => None,
        }
    }

    /// Whether the address is of this family.
    pub fn matches(self, addr: SocketAddr) -> (res: bool)
        ensures
            res == self.covers(addr),
    {
        match self {
            AddrFamily::V4 => addr.is_ipv4(),
            AddrFamily::V6 => addr.is_ipv6(),
        }
    }
}

/// Why a text is no `host:port`. `S` is the type of the texts in it, each the
/// address without surrounding white space.
#[derive(Debug, Clone)]
pub enum AddrErrorOf<S> {
    Empty,
    /// A `[` without a `]`.
    NoBracket(S),
    /// Nothing like `:port` after the `]`.
    NoPort(S),
    /// The port is no number up to 65535.
    Port(S, NumberError),
    /// Nothing between `[` and `]`.
    EmptyHost(S),
    /// Neither `host:port` nor `[ipv6]:port`.
    Malformed(S),
}

pub type AddrError = AddrErrorOf<String>;

pub type AddrErrorView = AddrErrorOf<Seq<char>>;

impl View for AddrErrorOf<String> {
    type V = AddrErrorOf<Seq<char>>;

    open spec fn view(&self) -> AddrErrorOf<Seq<char>> {
        match self {
            AddrErrorOf::Empty => AddrErrorOf::Empty,
            AddrErrorOf::NoBracket(s) => AddrErrorOf::NoBracket(s@),
            AddrErrorOf::NoPort(s) => AddrErrorOf::NoPort(s@),
            AddrErrorOf::Port(s, e) => AddrErrorOf::Port(s@, *e),
            AddrErrorOf::EmptyHost(s) => AddrErrorOf::EmptyHost(s@),
            AddrErrorOf::Malformed(s) => AddrErrorOf::Malformed(s@),
        }
    }
}

/// The message of an address error.
pub open spec fn addr_error_text(e: AddrErrorView) -> Seq<char> {
    match e {
        AddrErrorOf::Empty => "empty address"@,
        AddrErrorOf::NoBracket(s) => "missing ']' in IPv6 address "@ + text::quoted(s),
        AddrErrorOf::NoPort(s) => "missing port in "@ + text::quoted(s),
        AddrErrorOf::Port(s, n) => "invalid port in "@ + text::quoted(s) + ": "@
            + number::number_error_text(n),
        AddrErrorOf::EmptyHost(s) => "empty host in "@ + text::quoted(s),
        AddrErrorOf::Malformed(s) => "address "@ + text::quoted(s)
            + " must be host:port or [ipv6]:port"@,
    }
}

impl AddrErrorOf<String> {
    /// The message of the error.
    pub fn message(&self) -> (res: String)
        ensures
            res@ == addr_error_text(self@),
    {
        let mut out = String::new();
        match self {
            AddrErrorOf::Empty => {
                out.append("empty address");
            },
            AddrErrorOf::NoBracket(s) => {
                out.append("missing ']' in IPv6 address ");
                out.append(text::quote(s.as_str()).as_str());
            },
            AddrErrorOf::NoPort(s) => {
                out.append("missing port in ");
                out.append(text::quote(s.as_str()).as_str());
            },
            AddrErrorOf::Port(s, n) => {
                out.append("invalid port in ");
                out.append(text::quote(s.as_str()).as_str());
                out.append(": ");
                out.append(n.message());
            },
            AddrErrorOf::EmptyHost(s) => {
                out.append("empty host in ");
                out.append(text::quote(s.as_str()).as_str());
            },
            AddrErrorOf::Malformed(s) => {
                out.append("address ");
                out.append(text::quote(s.as_str()).as_str());
                out.append(" must be host:port or [ipv6]:port");
            },
        }
        assert(out@ =~= addr_error_text(self@));
        out
    }
}

/// The port that a text spells, in an address `s`.
pub open spec fn port_in(s: Seq<char>, port: Seq<char>) -> Result<u16, AddrErrorView> {
    match number::unsigned(port, 65535) {
        Ok(n) => Ok(n as u16),
        Err(e) => Err(AddrErrorOf::Port(s, e)),
    }
}

/// Host and port of `[host]:port`; `s` begins with `[`.
pub open spec fn bracketed(s: Seq<char>) -> Result<(Seq<char>, u16), AddrErrorView> {
    let close = text::first_from(s, ']', 1);
    if close >= s.len() {
        Err(AddrErrorOf::NoBracket(s))
    } else if close + 1 >= s.len() || s[close + 1] != ':' {
        Err(AddrErrorOf::NoPort(s))
    } else {
        match port_in(s, s.skip(close + 2)) {
            Err(e) => Err(e),
            Ok(port) => if close == 1 {
                Err(AddrErrorOf::EmptyHost(s))
            } else {
                Ok((s.subrange(1, close), port))
            },
        }
    }
}

/// Host and port of `host:port`, where the host holds no colon.
pub open spec fn plain(s: Seq<char>) -> Result<(Seq<char>, u16), AddrErrorView> {
    let port = text::after_last(s, ':', s.len() as int);
    if port < 2 || port == s.len() || s.take(port - 1).contains(':') {
        Err(AddrErrorOf::Malformed(s))
    } else {
        match port_in(s, s.skip(port)) {
            Err(e) => Err(e),
            Ok(n) => Ok((s.take(port - 1), n)),
        }
    }
}

/// Host and port of an address.
pub open spec fn host_port(addr: Seq<char>) -> Result<(Seq<char>, u16), AddrErrorView> {
    let s = text::trimmed(addr);
    if s.len() == 0 {
        Err(AddrErrorOf::Empty)
    } else if s[0] == '[' {
        bracketed(s)
    } else {
        plain(s)
    }
}

/// Reads the port of the address `s`.
fn parse_port(s: &[char], port: &[char]) -> (res: Result<u16, AddrError>)
    ensures
        match res {
            Ok(n) => port_in(s@, port@) == Ok::<u16, AddrErrorView>(n),
            Err(e) => port_in(s@, port@) == Err::<u16, AddrErrorView>(e@),
        },
{
    match number::parse_unsigned(port, 65535) {
        Ok(n) => {
            assert(n <= 65535) by {
                lemma_unsigned_bound(port@, 65535);
            }
            Ok(n as u16)
        },
        Err(e) => Err(AddrErrorOf::Port(text::string_of(s), e)),
    }
}

proof fn lemma_unsigned_bound(s: Seq<char>, max: nat)
    ensures
        match number::unsigned(s, max) {
            Ok(n) => n <= max,
            Err(_) => true,
        },
{
    let d = if s.len() > 0 && s[0] == '+' {
        s.skip(1)
    } else {
        s
    };
    number::lemma_digits_end(d, 0);
    assert(d.take(d.len() as int) =~= d);
}

/// Splits `host:port`, also `[ipv6]:port`.
pub fn parse_host_port(addr: &str) -> (res: Result<(String, u16), AddrError>)
    ensures
        match res {
            Ok((host, port)) => host_port(addr@) == Ok::<(Seq<char>, u16), AddrErrorView>(
                (host@, port),
            ),
            Err(e) => host_port(addr@) == Err::<(Seq<char>, u16), AddrErrorView>(e@),
        },
{
    let chars = text::chars_of(addr);
    let s = text::trim(chars.as_slice());
    let n: usize = s.len();
    if n == 0 {
        return Err(AddrErrorOf::Empty);
    }
    if s[0] == '[' {
        let close: usize = text::find_from(s, ']', 1);
        if close >= n {
            return Err(AddrErrorOf::NoBracket(text::string_of(s)));
        }
        if n - close <= 1 || s[close + 1] != ':' {
            return Err(AddrErrorOf::NoPort(text::string_of(s)));
        }
        let port_text = text::part(s, close + 2, n);
        assert(port_text@ =~= s@.skip(close + 2));
        let port: u16 = parse_port(s, port_text)?;
        if close == 1 {
            return Err(AddrErrorOf::EmptyHost(text::string_of(s)));
        }
        return Ok((text::string_of(text::part(s, 1, close)), port));
    }
    let start: usize = text::find_after_last(s, ':');
    if start < 2 || start == n {
        return Err(AddrErrorOf::Malformed(text::string_of(s)));
    }
    let host = text::part(s, 0, start - 1);
    assert(host@ =~= s@.take(start - 1));
    if text::has(host, ':') {
        return Err(AddrErrorOf::Malformed(text::string_of(s)));
    }
    let port_text = text::part(s, start, n);
    assert(port_text@ =~= s@.skip(start as int));
    let port: u16 = parse_port(s, port_text)?;
    Ok((text::string_of(host), port))
}

/// The address of a port on a host; an IPv6 address goes between brackets.
pub open spec fn joined(host: Seq<char>, port: u16) -> Seq<char> {
    if host.contains(':') && host[0] != '[' {
        seq!['['] + host + seq![']', ':'] + number::decimal(port as nat)
    } else {
        host + seq![':'] + number::decimal(port as nat)
    }
}

/// Writes `host:port`, with an IPv6 address between brackets.
pub fn join_host_port(host: &str, port: u16) -> (res: String)
    ensures
        res@ == joined(host@, port),
{
    let chars = text::chars_of(host);
    let s = chars.as_slice();
    let mut out = String::new();
    if text::has(s, ':') && s[0] != '[' {
        out.push('[');
        text::push_chars(&mut out, s);
        out.push(']');
    } else {
        text::push_chars(&mut out, s);
    }
    out.push(':');
    number::push_decimal(&mut out, port as u64);
    assert(out@ =~= joined(host@, port));
    out
}

/// The host stands for no particular address.
pub open spec fn unspecified_host(host: Seq<char>) -> bool {
    match address::ip_of(host) {
        Some(ip) => ip.unspecified(),
        None => host == "*"@ || text::lowered(host) == "unspecified"@,
    }
}

/// Whether the host stands for no particular address: `0.0.0.0`, `::`, `*`.
pub fn is_unspecified_host(host: &str) -> (res: bool)
    ensures
        res == unspecified_host(host@),
{
    match address::parse_ip(host) {
        Some(ip) => ip.is_unspecified(),
        None => {
            let chars = text::chars_of(host);
            let small = text::lower(chars.as_slice());
            text::spells(chars.as_slice(), "*") || text::spells(small.as_slice(), "unspecified")
        },
    }
}

/// The host is the machine itself.
pub open spec fn loopback_host(host: Seq<char>) -> bool {
    text::lowered(host) == "localhost"@ || match address::ip_of(host) {
        Some(ip) => ip.loopback(),
        None => false,
    }
}

/// Whether the host is the machine itself: `localhost` or a loopback address.
pub fn is_loopback_host(host: &str) -> (res: bool)
    ensures
        res == loopback_host(host@),
{
    let chars = text::chars_of(host);
    let small = text::lower(chars.as_slice());
    if text::spells(small.as_slice(), "localhost") {
        return true;
    }
    match address::parse_ip(host) {
        Some(ip) => ip.is_loopback(),
        None => false,
    }
}

/// An address that other machines may reach: not unspecified, not loopback,
/// not link-local.
pub open spec fn reachable(ip: IpAddr) -> bool {
    !ip.loopback() && !ip.unspecified() && !ip.link_local()
}

/// Of the addresses of the machine's interfaces, in order, those that other
/// machines may reach.
pub fn local_unicast_ips(interfaces: &[IpAddr]) -> (res: Vec<IpAddr>)
    ensures
        res@ == interfaces@.filter(|ip: IpAddr| reachable(ip)),
{
    let keep = Ghost(|ip: IpAddr| reachable(ip));
    let n: usize = interfaces.len();
    let mut out: Vec<IpAddr> = Vec::new();
    let mut i: usize = 0;
    proof {
        reveal_with_fuel(Seq::filter, 1);
        assert(interfaces@.take(0) =~= Seq::<IpAddr>::empty());
    }
    while i < n
        invariant
            n == interfaces@.len(),
            i <= n,
            keep@ == (|ip: IpAddr| reachable(ip)),
            out@ == interfaces@.take(i as int).filter(keep@),
        decreases n - i,
    {
        let ip = interfaces[i];
        proof {
            reveal_with_fuel(Seq::filter, 1);
            assert(interfaces@.take(i + 1).drop_last() =~= interfaces@.take(i as int));
        }
        if !ip.is_loopback() && !ip.is_unspecified() && !ip.is_link_local() {
            out.push(ip);
        }
        i += 1;
    }
    assert(interfaces@.take(n as int) =~= interfaces@);
    out
}

/// The address is of the wanted family, if one is wanted.
pub open spec fn wanted(family: Option<AddrFamily>, addr: SocketAddr) -> bool {
    match family {
        Some(f) => f.covers(addr),
        None => true,
    }
}

/// Which of two addresses is preferred: the one with the lower number. IPv4
/// comes before IPv6, and both before loopback.
pub open spec fn preference(addr: SocketAddr) -> int {
    match (addr.ip, addr.ip.loopback()) {
        (IpAddr::V4(_), false) => 0,
        (IpAddr::V6(_), false) => 1,
        (IpAddr::V4(_), true) => 2,
        (IpAddr::V6(_), true) => 3,
    }
}

/// Place `i` holds the first of the most preferred among the wanted addresses.
pub open spec fn is_pick(addrs: Seq<SocketAddr>, family: Option<AddrFamily>, i: int) -> bool {
    &&& 0 <= i < addrs.len()
    &&& wanted(family, addrs[i])
    &&& forall|j: int|
        0 <= j < addrs.len() && wanted(family, #[trigger] addrs[j]) ==> preference(addrs[i])
            <= preference(addrs[j])
    &&& forall|j: int|
        0 <= j < i && wanted(family, #[trigger] addrs[j]) ==> preference(addrs[i]) < preference(
            addrs[j],
        )
}

/// There is no address of the wanted family.
#[derive(Debug, Clone, Copy, PartialEq, Eq, Structural)]
pub struct NoAddress;

impl NoAddress {
    /// The message of the error.
    pub fn message(&self) -> (res: &'static str)
        ensures
            res@ == "no matching addresses"@,
    {
        "no matching addresses"
    }
}

fn rank(addr: &SocketAddr) -> (res: u8)
    ensures
        res == preference(*addr),
{
    match (addr.is_ipv4(), addr.ip.is_loopback()) {
        (true, false) => 0,
        (false, false) => 1,
        (true, true) => 2,
        (false, true) => 3,
    }
}

/// Picks an address of the wanted family: IPv4 before IPv6, and loopback only
/// if there is nothing else; the first of several.
pub fn pick_addr(addrs: &[SocketAddr], family: Option<AddrFamily>) -> (res: Result<
    SocketAddr,
    NoAddress,
>)
    ensures
        match res {
            Ok(addr) => exists|i: int|
                #[trigger] is_pick(addrs@, family, i) && addrs@[i] == addr,
            Err(_) => forall|j: int| 0 <= j < addrs@.len() ==> !wanted(family, #[trigger] addrs@[j]),
        },
{
    let n: usize = addrs.len();
    let mut best: Option<usize> = None;
    let mut i: usize = 0;
    while i < n
        invariant
            n == addrs@.len(),
            i <= n,
            match best {
                Some(b) => b < i && is_pick(addrs@.take(i as int), family, b as int),
                None => forall|j: int| 0 <= j < i ==> !wanted(family, #[trigger] addrs@[j]),
            },
        decreases n - i,
    {
        let ghost seen = addrs@.take(i as int);
        let ghost now = addrs@.take(i + 1);
        proof {
            assert(forall|j: int| 0 <= j < i ==> #[trigger] now[j] == seen[j]);
            assert(now[i as int] == addrs@[i as int]);
        }
        let fits = match family {
            Some(f) => f.matches(addrs[i]),
            None => true,
        };
        if fits {
            let better = match best {
                Some(b) => rank(&addrs[i]) < rank(&addrs[b]),
                None => true,
            };
            if better {
                best = Some(i);
            }
        }
        i += 1;
    }
    assert(addrs@.take(n as int) =~= addrs@);
    match best {
        Some(b) => Ok(addrs[b]),
        None => Err(NoAddress),
    }
}

/// At most one place can be the pick.
pub proof fn law_pick_is_unique(
    addrs: Seq<SocketAddr>,
    family: Option<AddrFamily>,
    i: int,
    j: int,
)
    requires
        is_pick(addrs, family, i),
        is_pick(addrs, family, j),
    ensures
        i == j,
{
}

/// An address that can be split has a host.
pub proof fn law_host_is_never_empty(addr: Seq<char>)
    ensures
        match host_port(addr) {
            Ok((host, _)) => host.len() > 0,
            Err(_) => true,
        },
{
    let s = text::trimmed(addr);
    if s.len() > 0 {
        text::lemma_first_from(s, ']', 1);
        text::lemma_after_last(s, ':', s.len() as int);
    }
}

/// Splitting a joined address gives host and port back, for hosts that are
/// names or IPv6 addresses.
pub proof fn law_join_then_parse(host: Seq<char>, port: u16)
    requires
        host.len() > 0,
        host[0] != '[',
        if host.contains(':') {
            !host.contains(']')
        } else {
            !text::is_space(host[0])
        },
    ensures
        host_port(joined(host, port)) == Ok::<(Seq<char>, u16), AddrErrorView>((host, port)),
{
    let digits = number::decimal(port as nat);
    let s = joined(host, port);
    number::lemma_decimal(port as nat);
    number::law_unsigned_of_decimal(port as nat, 65535);
    assert(s.last() == digits.last());
    assert(number::is_digit(digits[digits.len() - 1]));
    text::lemma_trimmed_fixed(s);
    if host.contains(':') {
        let close = host.len() as int + 1;
        assert forall|i: int| 1 <= i < close implies s[i] != ']' by {
            assert(s[i] == host[i - 1]);
            assert(host.contains(host[i - 1]));
        }
        text::lemma_first_is(s, ']', 1, close);
        assert(s.skip(close + 2) =~= digits);
        assert(s.subrange(1, close) =~= host);
    } else {
        let start = host.len() + 1;
        text::lemma_after_last(s, ':', s.len() as int);
        let at = text::after_last(s, ':', s.len() as int);
        assert(s[start - 1] == ':');
        assert forall|i: int| start <= i < s.len() implies s[i] != ':' by {
            assert(number::is_digit(digits[i - start]));
        }
        assert(at == start);
        assert(s.take(start - 1) =~= host);
        assert(s.skip(start as int) =~= digits);
    }
}

/// The first wait between two attempts, in milliseconds.
pub const FIRST_WAIT_MS: u64 = 20;

/// The longest wait between two attempts, in milliseconds.
pub const LONGEST_WAIT_MS: u64 = 400;

/// How long to wait before the next attempt.
#[derive(Debug, Clone, Copy, PartialEq, Eq, Structural)]
pub struct Backoff {
    pub wait_ms: u64,
}

/// What to do after an attempt that failed.
#[derive(Debug, Clone, Copy, PartialEq, Eq, Structural)]
pub enum RetryStep {
    /// Give up, with the error of this attempt.
    GiveUp,
    /// Wait that many milliseconds, and try again.
    Wait(u64),
}

impl Backoff {
    /// Waits grow from the first to the longest.
    pub open spec fn wf(self) -> bool {
        self.wait_ms <= LONGEST_WAIT_MS
    }

    /// The wait after this one: twice as long, up to the longest.
    pub open spec fn longer(self) -> Backoff {
        Backoff {
            wait_ms: if 2 * self.wait_ms < LONGEST_WAIT_MS {
                (2 * self.wait_ms) as u64
            } else {
                LONGEST_WAIT_MS
            },
        }
    }

    /// What to do after an attempt failed, and the wait after that.
    pub open spec fn after_failure(self, elapsed_ns: u128, deadline_ns: u128) -> (
        Backoff,
        RetryStep,
    ) {
        if elapsed_ns >= deadline_ns {
            (self, RetryStep::GiveUp)
        } else {
            (self.longer(), RetryStep::Wait(self.wait_ms))
        }
    }

    /// Before the first attempt.
    pub fn new() -> (res: Backoff)
        ensures
            res.wf(),
            res.wait_ms == FIRST_WAIT_MS,
    {
        Backoff { wait_ms: FIRST_WAIT_MS }
    }

    /// What to do after an attempt failed, so much time after the first began:
    /// give up when the deadline has passed, else wait and try again.
    pub fn on_failure(&mut self, elapsed_ns: u128, deadline_ns: u128) -> (res: RetryStep)
        requires
            old(self).wf(),
        ensures
            final(self).wf(),
            (*final(self), res) == old(self).after_failure(elapsed_ns, deadline_ns),
            elapsed_ns >= deadline_ns ==> res == RetryStep::GiveUp && *final(self) == *old(self),
            elapsed_ns < deadline_ns ==> res == RetryStep::Wait(old(self).wait_ms) && *final(self)
                == old(self).longer(),
    {
        if elapsed_ns >= deadline_ns {
            return RetryStep::GiveUp;
        }
        let wait: u64 = self.wait_ms;
        self.wait_ms = if 2 * wait < LONGEST_WAIT_MS {
            2 * wait
        } else {
            LONGEST_WAIT_MS
        };
        RetryStep::Wait(wait)
    }
}

/// The wait after `k` failures.
pub open spec fn wait_after(k: nat) -> Backoff
    decreases k,
{
    if k == 0 {
        Backoff { wait_ms: FIRST_WAIT_MS }
    } else {
        wait_after((k - 1) as nat).longer()
    }
}

/// The waits double from the first, and are never longer than the longest.
pub proof fn law_waits_double(k: nat)
    ensures
        wait_after(k).wait_ms == if FIRST_WAIT_MS * vstd::arithmetic::power2::pow2(k)
            < LONGEST_WAIT_MS {
            FIRST_WAIT_MS * vstd::arithmetic::power2::pow2(k)
        } else {
            LONGEST_WAIT_MS as int
        },
    decreases k,
{
    if k == 0 {
        vstd::arithmetic::power2::lemma2_to64();
    } else {
        law_waits_double((k - 1) as nat);
        vstd::arithmetic::power2::lemma_pow2_unfold(k);
    }
}

/// A listening socket takes IPv4 connections too: it is bound to all IPv6
/// addresses.
pub fn wants_dual_stack(addr: SocketAddr) -> (res: bool)
    ensures
        res == (addr.ip is V6 && addr.ip.unspecified()),
{
    addr.is_ipv6() && addr.ip.is_unspecified()
}

/// Host and port of `host:port`, with or without white space around it, for a host
/// without a colon: the host as it is, and the number behind the colon, which is
/// refused above 65535.
pub proof fn law_host_and_port(
    before: Seq<char>,
    host: Seq<char>,
    digits: Seq<char>,
    after: Seq<char>,
)
    requires
        forall|i: int| 0 <= i < before.len() ==> text::is_space(#[trigger] before[i]),
        forall|i: int| 0 <= i < after.len() ==> text::is_space(#[trigger] after[i]),
        host.len() > 0,
        !host.contains(':'),
        host[0] != '[',
        !text::is_space(host[0]),
        digits.len() > 0,
        number::all_digits(digits),
    ensures
        ({
            let s = host + seq![':'] + digits;
            host_port(before + s + after) == if number::decimal_value(digits) <= 65535 {
                Ok::<(Seq<char>, u16), AddrErrorView>(
                    (host, number::decimal_value(digits) as u16),
                )
            } else {
                Err(AddrErrorOf::Port(s, NumberError::TooLarge))
            }
        }),
{
    let s = host + seq![':'] + digits;
    let at = host.len() + 1;
    assert(s[0] == host[0]);
    assert(s.last() == digits.last());
    assert(number::is_digit(digits[digits.len() - 1]));
    text::law_trimming(before, s, after);
    assert(s[at - 1] == ':');
    assert forall|i: int| at <= i < s.len() implies s[i] != ':' by {
        assert(s[i] == digits[i - at]);
        assert(number::is_digit(digits[i - at]));
    }
    text::lemma_after_last(s, ':', s.len() as int);
    assert(text::after_last(s, ':', s.len() as int) == at);
    assert(s.take(at - 1) =~= host);
    assert(s.skip(at as int) =~= digits);
    number::lemma_unsigned_digits(digits, 65535);
}

/// Host and port of `[host]:port`: what stands between the brackets, colons and all, and
/// the number behind the colon.
pub proof fn law_bracketed_host_and_port(
    before: Seq<char>,
    host: Seq<char>,
    digits: Seq<char>,
    after: Seq<char>,
)
    requires
        forall|i: int| 0 <= i < before.len() ==> text::is_space(#[trigger] before[i]),
        forall|i: int| 0 <= i < after.len() ==> text::is_space(#[trigger] after[i]),
        host.len() > 0,
        !host.contains(']'),
        digits.len() > 0,
        number::all_digits(digits),
        number::decimal_value(digits) <= 65535,
    ensures
        host_port(before + (seq!['['] + host + seq![']', ':'] + digits) + after) == Ok::<
            (Seq<char>, u16),
            AddrErrorView,
        >((host, number::decimal_value(digits) as u16)),
{
    let s = seq!['['] + host + seq![']', ':'] + digits;
    let close = host.len() as int + 1;
    assert(s[0] == '[');
    assert(s.last() == digits.last());
    assert(number::is_digit(digits[digits.len() - 1]));
    text::law_trimming(before, s, after);
    assert forall|i: int| 1 <= i < close implies s[i] != ']' by {
        assert(s[i] == host[i - 1]);
        assert(host.contains(host[i - 1]));
    }
    assert(s[close] == ']' && s[close + 1] == ':');
    text::lemma_first_is(s, ']', 1, close);
    assert(s.skip(close + 2) =~= digits);
    assert(s.subrange(1, close) =~= host);
    number::lemma_unsigned_digits(digits, 65535);
}

proof fn lemma_split_bracketed(s: Seq<char>, host: Seq<char>, port: u16)
    requires
        s.len() > 0,
        s[0] == '[',
        bracketed(s) == Ok::<(Seq<char>, u16), AddrErrorView>((host, port)),
    ensures
        host.len() > 0,
        !host.contains(']'),
        s.len() >= host.len() + 3,
        s.take(host.len() as int + 3) == seq!['['] + host + seq![']', ':'],
        number::unsigned(s.skip(host.len() as int + 3), 65535) == Ok::<nat, NumberError>(
            port as nat,
        ),
        s.contains(':'),
{
    text::lemma_first_from(s, ']', 1);
    let close = text::first_from(s, ']', 1);
    lemma_unsigned_bound(s.skip(close + 2), 65535);
    assert(host == s.subrange(1, close));
    assert(s[close + 1] == ':');
    assert(s.take(close + 2) =~= seq!['['] + host + seq![']', ':']);
    if host.contains(']') {
        let i = choose|i: int| 0 <= i < host.len() && host[i] == ']';
        assert(s[i + 1] == ']');
    }
}

proof fn lemma_split_plain(s: Seq<char>, host: Seq<char>, port: u16)
    requires
        plain(s) == Ok::<(Seq<char>, u16), AddrErrorView>((host, port)),
    ensures
        host.len() > 0,
        !host.contains(':'),
        s.len() > host.len() + 1,
        s.take(host.len() as int + 1) == host.push(':'),
        number::unsigned(s.skip(host.len() as int + 1), 65535) == Ok::<nat, NumberError>(
            port as nat,
        ),
        s.contains(':'),
{
    let n = s.len() as int;
    text::lemma_after_last(s, ':', n);
    let at = text::after_last(s, ':', n);
    lemma_unsigned_bound(s.skip(at), 65535);
    assert(host == s.take(at - 1));
    assert(s[at - 1] == ':');
    assert(s.take(at) =~= host.push(':'));
}

/// An address that can be split names its host and its port: outside of brackets the
/// host holds no colon, and a colon and the port follow it. One without a colon cannot be
/// split.
pub proof fn law_split_addresses(s: Seq<char>, host: Seq<char>, port: u16)
    requires
        s.len() > 0,
        !text::is_space(s[0]),
        !text::is_space(s.last()),
        host_port(s) == Ok::<(Seq<char>, u16), AddrErrorView>((host, port)),
    ensures
        host.len() > 0,
        s.contains(':'),
        s[0] != '[' ==> {
            &&& !host.contains(':')
            &&& s.len() > host.len() + 1
            &&& s.take(host.len() as int + 1) == host.push(':')
            &&& number::unsigned(s.skip(host.len() as int + 1), 65535) == Ok::<nat, NumberError>(
                port as nat,
            )
        },
        s[0] == '[' ==> {
            &&& !host.contains(']')
            &&& s.len() >= host.len() + 3
            &&& s.take(host.len() as int + 3) == seq!['['] + host + seq![']', ':']
            &&& number::unsigned(s.skip(host.len() as int + 3), 65535) == Ok::<nat, NumberError>(
                port as nat,
            )
        },
{
    text::lemma_trimmed_fixed(s);
    if s[0] == '[' {
        lemma_split_bracketed(s, host, port);
    } else {
        lemma_split_plain(s, host, port);
    }
}

/// A host and a port are joined by a colon; a host with colons in it goes between
/// brackets, unless it has them already.
pub proof fn law_how_addresses_are_joined(host: Seq<char>, port: u16)
    ensures
        !host.contains(':') || host[0] == '[' ==> joined(host, port) == host + seq![':']
            + number::decimal(port as nat),
        host.contains(':') && host[0] != '[' ==> joined(host, port) == seq!['['] + host + seq![
            ']',
            ':',
        ] + number::decimal(port as nat),
{
}

/// The address is that of the machine itself: `127.*.*.*` or `::1`.
pub open spec fn is_self(ip: IpAddr) -> bool {
    match ip {
        IpAddr::V4(n) => 0x7f00_0000 <= n <= 0x7fff_ffff,
        IpAddr::V6(n) => n == 1,
    }
}

/// The address is of the family, if one is asked for.
pub open spec fn of_family(family: Option<AddrFamily>, addr: SocketAddr) -> bool {
    match (family, addr.ip) {
        (Some(AddrFamily::V4), IpAddr::V6(_)) => false,
        (Some(AddrFamily::V6), IpAddr::V4(_)) => false,
        _ => true,
    }
}

/// Which address is picked: one of the family that is asked for; one of the machine
/// itself only if there is no other; of IPv4 if there is one, the rest being equal; and
/// the first of several such.
pub proof fn law_which_address_is_picked(
    addrs: Seq<SocketAddr>,
    family: Option<AddrFamily>,
    i: int,
    j: int,
)
    requires
        is_pick(addrs, family, i),
        0 <= j < addrs.len(),
        of_family(family, addrs[j]),
    ensures
        0 <= i < addrs.len(),
        of_family(family, addrs[i]),
        is_self(addrs[i].ip) ==> is_self(addrs[j].ip),
        is_self(addrs[i].ip) == is_self(addrs[j].ip) && addrs[i].ip is V6 ==> addrs[j].ip is V6,
        is_self(addrs[i].ip) == is_self(addrs[j].ip) && (addrs[i].ip is V6 <==> addrs[j].ip is V6)
            ==> i <= j,
{
    assert(wanted(family, addrs[j]));
    if j < i {
        assert(preference(addrs[i]) < preference(addrs[j]));
    }
    assert(preference(addrs[i]) <= preference(addrs[j]));
}

/// An address is wanted exactly if it is of the family that is asked for.
pub proof fn law_wanted_addresses(family: Option<AddrFamily>, addr: SocketAddr)
    ensures
        wanted(family, addr) <==> of_family(family, addr),
        reachable(addr.ip) <==> !is_self(addr.ip) && match addr.ip {
            IpAddr::V4(n) => n != 0 && !(0xa9fe_0000 <= n <= 0xa9fe_ffff),
            IpAddr::V6(n) => n != 0 && !(0xfe80_0000_0000_0000_0000_0000_0000_0000 <= n
                <= 0xfebf_ffff_ffff_ffff_ffff_ffff_ffff_ffff),
        },
{
}

/// Which hosts stand for no particular address, and which for the machine itself: the
/// addresses that do, `*` and `unspecified`, and `localhost`, in small or capital
/// letters.
pub proof fn law_special_hosts(host: Seq<char>)
    ensures
        unspecified_host(host) <==> match address::ip_of(host) {
            Some(IpAddr::V4(n)) => n == 0,
            Some(IpAddr::V6(n)) => n == 0,
            None => host == seq!['*'] || text::lowered(host) == seq![
                'u',
                'n',
                's',
                'p',
                'e',
                'c',
                'i',
                'f',
                'i',
                'e',
                'd',
            ],
        },
        loopback_host(host) <==> text::lowered(host) == seq![
            'l',
            'o',
            'c',
            'a',
            'l',
            'h',
            'o',
            's',
            't',
        ] || match address::ip_of(host) {
            Some(ip) => is_self(ip),
            None => false,
        },
        AddrFamily::of_host(host) == match address::ip_of(host) {
            Some(IpAddr::V4(_)) => Some(AddrFamily::V4),
            Some(IpAddr::V6(_)) => Some(AddrFamily::V6),
            None => None,
        },
{
    reveal_strlit("*");
    reveal_strlit("unspecified");
    reveal_strlit("localhost");
    assert("*"@ =~= seq!['*']);
    assert("unspecified"@ =~= seq!['u', 'n', 's', 'p', 'e', 'c', 'i', 'f', 'i', 'e', 'd']);
    assert("localhost"@ =~= seq!['l', 'o', 'c', 'a', 'l', 'h', 'o', 's', 't']);
}

/// The first wait is 20 milliseconds, and each is twice as long as the one before it, up
/// to 400.
pub proof fn law_waits_grow(k: nat)
    ensures
        wait_after(0).wait_ms == 20,
        wait_after(k + 1).wait_ms == if 2 * wait_after(k).wait_ms <= 400 {
            2 * wait_after(k).wait_ms
        } else {
            400
        },
{
}

/// An attempt is repeated exactly as long as the deadline has not passed, after the wait
/// that is due: failure number `k`, counted from 0, is followed by 20 milliseconds times 2
/// to the power `k`, or by 400 if that is more.
pub proof fn law_attempts_are_repeated(k: nat, elapsed_ns: u128, deadline_ns: u128)
    ensures
        elapsed_ns >= deadline_ns ==> wait_after(k).after_failure(elapsed_ns, deadline_ns).1
            == RetryStep::GiveUp,
        elapsed_ns < deadline_ns ==> {
            let (next, step) = wait_after(k).after_failure(elapsed_ns, deadline_ns);
            let due = 20 * vstd::arithmetic::power2::pow2(k);
            &&& next == wait_after(k + 1)
            &&& step == RetryStep::Wait(if due < 400 {
                due as u64
            } else {
                400
            })
        },
{
    law_waits_double(k);
}

} // verus!
