//! IP addresses and their text forms.
use vstd::prelude::*;

use crate::number;
use crate::text;

verus! {

/// An IP address as a number in network order.
#[derive(Debug, Clone, Copy, PartialEq, Eq, Structural)]
pub enum IpAddr {
    V4(u32),
    V6(u128),
}

/// A socket address. The flow information and the scope of an IPv4 address
/// are zero.
#[derive(Debug, Clone, Copy, PartialEq, Eq, Structural)]
pub struct SocketAddr {
    pub ip: IpAddr,
    pub port: u16,
    pub flowinfo: u32,
    pub scope_id: u32,
}

impl IpAddr {
    /// `0.0.0.0` or `::`.
    pub open spec fn unspecified(self) -> bool {
        match self {
            IpAddr::V4(n) => n == 0,
            IpAddr::V6(n) => n == 0,
        }
    }

    /// In `127.0.0.0/8`, or `::1`.
    pub open spec fn loopback(self) -> bool {
        match self {
            IpAddr::V4(n) => n / 0x100_0000 == 127,
            IpAddr::V6(n) => n == 1,
        }
    }

    /// In `169.254.0.0/16` or `fe80::/10`.
    pub open spec fn link_local(self) -> bool {
        match self {
            IpAddr::V4(n) => n / 0x1_0000 == 0xa9fe,
            IpAddr::V6(n) => n / 0x40_0000_0000_0000_0000_0000_0000_0000 == 0x3fa,
        }
    }

    /// Whether this is `0.0.0.0` or `::`.
    pub fn is_unspecified(&self) -> (res: bool)
        ensures
            res == self.unspecified(),
    {
        match self {
            IpAddr::V4(n) => *n == 0,
            IpAddr::V6(n) => *n == 0,
        }
    }

    /// Whether this is a loopback address.
    pub fn is_loopback(&self) -> (res: bool)
        ensures
            res == self.loopback(),
    {
        match self {
            IpAddr::V4(n) => *n / 0x100_0000 == 127,
            IpAddr::V6(n) => *n == 1,
        }
    }

    /// Whether this is a link-local address.
    pub fn is_link_local(&self) -> (res: bool)
        ensures
            res == self.link_local(),
    {
        match self {
            IpAddr::V4(n) => *n / 0x1_0000 == 0xa9fe,
            IpAddr::V6(n) => *n / 0x40_0000_0000_0000_0000_0000_0000_0000 == 0x3fa,
        }
    }
}

impl SocketAddr {
    /// The socket address of a port on an IP address.
    pub fn new(ip: IpAddr, port: u16) -> (res: SocketAddr)
        ensures
            res == (SocketAddr { ip, port, flowinfo: 0, scope_id: 0 }),
    {
        SocketAddr { ip, port, flowinfo: 0, scope_id: 0 }
    }

    /// Whether this is an IPv4 address.
    pub fn is_ipv4(&self) -> (res: bool)
        ensures
            res == self.ip is V4,
    {
        match self.ip {
            IpAddr::V4(_) => true,
            IpAddr::V6(_) => false,
        }
    }

    /// Whether this is an IPv6 address.
    pub fn is_ipv6(&self) -> (res: bool)
        ensures
            res == self.ip is V6,
    {
        match self.ip {
            IpAddr::V4(_) => false,
            IpAddr::V6(_) => true,
        }
    }
}

/// One decimal part of an IPv4 address: up to three digits without leading
/// zeros, at most 255.
pub open spec fn octet(s: Seq<char>) -> Option<nat> {
    if 1 <= s.len() <= 3 && number::all_digits(s) && !(s.len() > 1 && s[0] == '0')
        && number::decimal_value(s) <= 255 {
        Some(number::decimal_value(s))
    } else {
        None
    }
}

/// The IPv4 address that `s` spells: four decimal parts with points between
/// them.
pub open spec fn ipv4_of(s: Seq<char>) -> Option<nat> {
    let a = text::first(s, '.');
    let b = text::first_from(s, '.', a + 1);
    let c = text::first_from(s, '.', b + 1);
    if a >= s.len() || b >= s.len() || c >= s.len() {
        None
    } else {
        match (
            octet(s.take(a)),
            octet(s.subrange(a + 1, b)),
            octet(s.subrange(b + 1, c)),
            octet(s.skip(c + 1)),
        ) {
            (Some(w), Some(x), Some(y), Some(z)) => Some(
                w * 0x100_0000 + x * 0x1_0000 + y * 0x100 + z,
            ),
            _ => None,
        }
    }
}

/// The value of a hexadecimal digit.
pub open spec fn hex_value(c: char) -> Option<nat> {
    if '0' <= c <= '9' {
        Some((c as int - '0' as int) as nat)
    } else if 'a' <= c <= 'f' {
        Some((c as int - 'a' as int + 10) as nat)
    } else if 'A' <= c <= 'F' {
        Some((c as int - 'A' as int + 10) as nat)
    } else {
        None
    }
}

/// The number that hexadecimal digits spell.
pub open spec fn hex_number(s: Seq<char>) -> Option<nat>
    decreases s.len(),
{
    if s.len() == 0 {
        Some(0)
    } else {
        match (hex_number(s.drop_last()), hex_value(s.last())) {
            (Some(n), Some(d)) => Some(n * 16 + d),
            _ => None,
        }
    }
}

/// One group of an IPv6 address: one to four hexadecimal digits.
pub open spec fn hex_group(s: Seq<char>) -> Option<nat> {
    if 1 <= s.len() <= 4 {
        hex_number(s)
    } else {
        None
    }
}

/// Groups of an IPv6 address with colons between them. With `tail` the last
/// may be an IPv4 address, which makes two groups.
pub open spec fn hex_groups(s: Seq<char>, tail: bool) -> Option<Seq<nat>>
    decreases s.len(),
    via hex_groups_decreases
{
    let colon = text::first(s, ':');
    if colon >= s.len() {
        match hex_group(s) {
            Some(g) => Some(seq![g]),
            None => match ipv4_of(s) {
                Some(v) if tail => Some(seq![v / 0x1_0000, v % 0x1_0000]),
                _ => None,
            },
        }
    } else {
        match (hex_group(s.take(colon)), hex_groups(s.skip(colon + 1), tail)) {
            (Some(g), Some(rest)) => Some(seq![g] + rest),
            _ => None,
        }
    }
}

#[via_fn]
proof fn hex_groups_decreases(s: Seq<char>, tail: bool) {
    text::lemma_first_from(s, ':', 0);
}

/// Groups, or none for the empty text.
pub open spec fn side(s: Seq<char>, tail: bool) -> Option<Seq<nat>> {
    if s.len() == 0 {
        Some(Seq::empty())
    } else {
        hex_groups(s, tail)
    }
}

/// The first place at or after `from` of two colons in a row; the length if
/// there is none.
pub open spec fn double_colon(s: Seq<char>, from: int) -> int
    decreases s.len() - from,
{
    if from + 1 >= s.len() {
        s.len() as int
    } else if s[from] == ':' && s[from + 1] == ':' {
        from
    } else {
        double_colon(s, from + 1)
    }
}

/// The number that the first `k` groups make.
pub open spec fn join_groups(groups: Seq<nat>, k: int) -> nat
    decreases k,
{
    if k <= 0 {
        0
    } else {
        join_groups(groups, k - 1) * 0x1_0000 + groups[k - 1]
    }
}

/// The groups of the IPv6 address that `s` spells: eight of them, or fewer
/// with `::` for one or more groups of zeros.
pub open spec fn ipv6_groups(s: Seq<char>) -> Option<Seq<nat>> {
    let gap = double_colon(s, 0);
    if gap >= s.len() {
        match hex_groups(s, true) {
            Some(g) if g.len() == 8 => Some(g),
            _ => None,
        }
    } else {
        match (side(s.take(gap), false), side(s.skip(gap + 2), true)) {
            (Some(head), Some(tail)) if head.len() + tail.len() <= 7 => Some(
                head + Seq::new((8 - head.len() - tail.len()) as nat, |i: int| 0nat) + tail,
            ),
            _ => None,
        }
    }
}

/// The IP address that `s` spells.
pub open spec fn ip_of(s: Seq<char>) -> Option<IpAddr> {
    match ipv4_of(s) {
        Some(v) => Some(IpAddr::V4(v as u32)),
        None => match ipv6_groups(s) {
            Some(g) => Some(IpAddr::V6(join_groups(g, 8) as u128)),
            None => None,
        },
    }
}

/// Reads one decimal part of an IPv4 address.
fn parse_octet(s: &[char]) -> (res: Option<u32>)
    ensures
        match res {
            Some(n) => octet(s@) == Some(n as nat) && n <= 255,
            None => octet(s@) is None,
        },
{
    let n: usize = s.len();
    if n == 0 || n > 3 || (n > 1 && s[0] == '0') {
        return None;
    }
    if number::skip_digits(s, 0) < n {
        proof {
            number::lemma_digits_end(s@, 0);
            assert(!number::is_digit(s@[number::digits_end(s@, 0)]));
        }
        return None;
    }
    proof {
        number::lemma_digits_end(s@, 0);
        number::lemma_unsigned_digits(s@, 255);
    }
    match number::parse_unsigned(s, 255) {
        Ok(v) => Some(v as u32),
        Err(_) => None,
    }
}

/// Reads an IPv4 address.
fn parse_ipv4(s: &[char]) -> (res: Option<u32>)
    ensures
        match res {
            Some(n) => ipv4_of(s@) == Some(n as nat),
            None => ipv4_of(s@) is None,
        },
{
    let n: usize = s.len();
    let a: usize = text::find_from(s, '.', 0);
    if a >= n {
        return None;
    }
    let b: usize = text::find_from(s, '.', a + 1);
    if b >= n {
        return None;
    }
    let c: usize = text::find_from(s, '.', b + 1);
    if c >= n {
        return None;
    }
    assert(s@.take(a as int) =~= s@.subrange(0, a as int));
    assert(s@.skip(c + 1) =~= s@.subrange(c + 1, n as int));
    let w: u32 = match parse_octet(text::part(s, 0, a)) {
        Some(v) => v,
        None => return None,
    };
    let x: u32 = match parse_octet(text::part(s, a + 1, b)) {
        Some(v) => v,
        None => return None,
    };
    let y: u32 = match parse_octet(text::part(s, b + 1, c)) {
        Some(v) => v,
        None => return None,
    };
    let z: u32 = match parse_octet(text::part(s, c + 1, n)) {
        Some(v) => v,
        None => return None,
    };
    Some(w * 0x100_0000 + x * 0x1_0000 + y * 0x100 + z)
}

/// The value of a hexadecimal digit.
fn hex_digit(c: char) -> (res: Option<u32>)
    ensures
        match res {
            Some(d) => hex_value(c) == Some(d as nat) && d < 16,
            None => hex_value(c) is None,
        },
{
    if '0' <= c && c <= '9' {
        Some(c as u32 - '0' as u32)
    } else if 'a' <= c && c <= 'f' {
        Some(c as u32 - 'a' as u32 + 10)
    } else if 'A' <= c && c <= 'F' {
        Some(c as u32 - 'A' as u32 + 10)
    } else {
        None
    }
}

proof fn lemma_hex_none(s: Seq<char>, i: int)
    requires
        0 <= i <= s.len(),
        hex_number(s.take(i)) is None,
    ensures
        hex_number(s) is None,
    decreases s.len() - i,
{
    if i < s.len() {
        assert(s.take(i + 1).drop_last() =~= s.take(i));
        lemma_hex_none(s, i + 1);
    } else {
        assert(s.take(i) =~= s);
    }
}

/// Reads one group of an IPv6 address.
fn parse_hex_group(s: &[char]) -> (res: Option<u16>)
    ensures
        match res {
            Some(n) => hex_group(s@) == Some(n as nat),
            None => hex_group(s@) is None,
        },
{
    let n: usize = s.len();
    if n == 0 || n > 4 {
        return None;
    }
    let mut value: u32 = 0;
    let mut i: usize = 0;
    let ghost mut bound: nat = 1;
    assert(s@.take(0) =~= Seq::<char>::empty());
    while i < n
        invariant
            n == s@.len(),
            1 <= n <= 4,
            i <= n,
            hex_number(s@.take(i as int)) == Some(value as nat),
            i == 0 ==> bound == 1,
            i == 1 ==> bound == 16,
            i == 2 ==> bound == 256,
            i == 3 ==> bound == 4096,
            i == 4 ==> bound == 65536,
            value < bound,
        decreases n - i,
    {
        assert(s@.take(i + 1).drop_last() =~= s@.take(i as int));
        match hex_digit(s[i]) {
            None => {
                proof {
                    lemma_hex_none(s@, i + 1);
                }
                return None;
            },
            Some(d) => {
                value = value * 16 + d;
                proof {
                    bound = bound * 16;
                }
            },
        }
        i += 1;
    }
    assert(s@.take(n as int) =~= s@);
    Some(value as u16)
}

/// Numbers of a list of groups.
pub open spec fn group_values(v: Seq<u16>) -> Seq<nat> {
    v.map_values(|g: u16| g as nat)
}

/// Reads groups of an IPv6 address with colons between them.
fn parse_groups(s: &[char], tail: bool) -> (res: Option<Vec<u16>>)
    ensures
        match res {
            Some(v) => hex_groups(s@, tail) == Some(group_values(v@)),
            None => hex_groups(s@, tail) is None,
        },
{
    let n: usize = s.len();
    let mut out: Vec<u16> = Vec::new();
    let mut from: usize = 0;
    assert(s@.skip(0) =~= s@);
    proof {
        if let Some(g) = hex_groups(s@, tail) {
            assert(group_values(out@) + g =~= g);
        }
    }
    loop
        invariant
            n == s@.len(),
            from <= n,
            hex_groups(s@, tail) == match hex_groups(s@.skip(from as int), tail) {
                Some(g) => Some(group_values(out@) + g),
                None => None,
            },
        decreases n - from,
    {
        let ghost rest = s@.skip(from as int);
        let colon: usize = text::find_from(s, ':', from);
        let word = text::part(s, from, colon);
        let ghost before = group_values(out@);
        proof {
            text::lemma_first_is(rest, ':', 0, colon - from);
            assert(rest.take(colon - from) =~= word@);
        }
        let group = parse_hex_group(word);
        if colon >= n {
            assert(word@ =~= rest);
            match group {
                Some(g) => {
                    out.push(g);
                    assert(group_values(out@) =~= before + seq![g as nat]);
                    return Some(out);
                },
                None => {
                    if !tail {
                        return None;
                    }
                    match parse_ipv4(word) {
                        Some(v) => {
                            out.push((v / 0x1_0000) as u16);
                            out.push((v % 0x1_0000) as u16);
                            assert(group_values(out@) =~= before + seq![
                                v as nat / 0x1_0000,
                                v as nat % 0x1_0000,
                            ]);
                            return Some(out);
                        },
                        None => return None,
                    }
                },
            }
        }
        match group {
            None => return None,
            Some(g) => {
                out.push(g);
                proof {
                    assert(rest.skip(colon - from + 1) =~= s@.skip(colon + 1));
                    assert(group_values(out@) =~= before + seq![g as nat]);
                    if let Some(more) = hex_groups(s@.skip(colon + 1), tail) {
                        assert(before + (seq![g as nat] + more) =~= group_values(out@) + more);
                    }
                }
                from = colon + 1;
            },
        }
    }
}

/// Reads groups, or none from the empty text.
fn parse_side(s: &[char], tail: bool) -> (res: Option<Vec<u16>>)
    ensures
        match res {
            Some(v) => side(s@, tail) == Some(group_values(v@)),
            None => side(s@, tail) is None,
        },
{
    if s.len() == 0 {
        let none: Vec<u16> = Vec::new();
        assert(group_values(none@) =~= Seq::<nat>::empty());
        return Some(none);
    }
    parse_groups(s, tail)
}

/// The first place of two colons in a row; the length if there is none.
fn find_double_colon(s: &[char]) -> (res: usize)
    ensures
        res == double_colon(s@, 0),
        res < s@.len() ==> res + 2 <= s@.len(),
        res <= s@.len(),
{
    let n: usize = s.len();
    let mut i: usize = 0;
    while i < n && n - i > 1
        invariant
            n == s@.len(),
            i <= n,
            double_colon(s@, 0) == double_colon(s@, i as int),
        decreases n - i,
    {
        if s[i] == ':' && s[i + 1] == ':' {
            return i;
        }
        i += 1;
    }
    n
}

proof fn lemma_join_bound(groups: Seq<nat>, k: int)
    requires
        0 <= k <= groups.len(),
        k <= 8,
        forall|i: int| 0 <= i < groups.len() ==> #[trigger] groups[i] < 0x1_0000,
    ensures
        k == 0 ==> join_groups(groups, k) < 1,
        k == 1 ==> join_groups(groups, k) < 0x1_0000,
        k == 2 ==> join_groups(groups, k) < 0x1_0000_0000,
        k == 3 ==> join_groups(groups, k) < 0x1_0000_0000_0000,
        k == 4 ==> join_groups(groups, k) < 0x1_0000_0000_0000_0000,
        k == 5 ==> join_groups(groups, k) < 0x1_0000_0000_0000_0000_0000,
        k == 6 ==> join_groups(groups, k) < 0x1_0000_0000_0000_0000_0000_0000,
        k == 7 ==> join_groups(groups, k) < 0x1_0000_0000_0000_0000_0000_0000_0000,
        k == 8 ==> join_groups(groups, k) < 0x1_0000_0000_0000_0000_0000_0000_0000_0000,
    decreases k,
{
    if k > 0 {
        lemma_join_bound(groups, k - 1);
    }
}

/// Reads an IPv6 address.
fn parse_ipv6(s: &[char]) -> (res: Option<u128>)
    ensures
        match res {
            Some(n) => ipv6_groups(s@) is Some && join_groups(ipv6_groups(s@)->0, 8) == n,
            None => ipv6_groups(s@) is None,
        },
{
    let n: usize = s.len();
    let gap: usize = find_double_colon(s);
    let groups: Vec<u16> = if gap >= n {
        match parse_groups(s, true) {
            Some(g) => {
                if g.len() != 8 {
                    return None;
                }
                g
            },
            None => return None,
        }
    } else {
        let head_text = text::part(s, 0, gap);
        let tail_text = text::part(s, gap + 2, n);
        assert(head_text@ =~= s@.take(gap as int));
        assert(tail_text@ =~= s@.skip(gap + 2));
        let head = match parse_side(head_text, false) {
            Some(g) => g,
            None => return None,
        };
        let tail = match parse_side(tail_text, true) {
            Some(g) => g,
            None => return None,
        };
        if head.len() > 7 || tail.len() > 7 - head.len() {
            return None;
        }
        let mut all: Vec<u16> = Vec::new();
        let ghost zeros = (8 - head@.len() - tail@.len()) as nat;
        let mut i: usize = 0;
        while i < 8
            invariant
                i <= 8,
                head@.len() + tail@.len() <= 7,
                all@.len() == i,
                forall|k: int|
                    0 <= k < i ==> #[trigger] all@[k] == if k < head@.len() {
                        head@[k]
                    } else if k < 8 - tail@.len() {
                        0u16
                    } else {
                        tail@[k - 8 + tail@.len()]
                    },
            decreases 8 - i,
        {
            let g: u16 = if i < head.len() {
                head[i]
            } else if i < 8 - tail.len() {
                0
            } else {
                tail[i + tail.len() - 8]
            };
            all.push(g);
            i += 1;
        }
        assert(group_values(all@) =~= group_values(head@) + Seq::new(zeros, |i: int| 0nat)
            + group_values(tail@));
        all
    };
    let ghost values = group_values(groups@);
    let mut value: u128 = 0;
    let mut k: usize = 0;
    while k < 8
        invariant
            k <= 8,
            groups@.len() == 8,
            values == group_values(groups@),
            value == join_groups(values, k as int),
        decreases 8 - k,
    {
        proof {
            lemma_join_bound(values, k as int);
            lemma_join_bound(values, k + 1);
        }
        value = value * 0x1_0000 + groups[k] as u128;
        k += 1;
    }
    Some(value)
}

/// Reads an IP address: four decimal parts, or IPv6 groups.
pub fn parse_ip(host: &str) -> (res: Option<IpAddr>)
    ensures
        res == ip_of(host@),
{
    let chars = text::chars_of(host);
    let s = chars.as_slice();
    match parse_ipv4(s) {
        Some(v) => Some(IpAddr::V4(v)),
        None => match parse_ipv6(s) {
            Some(v) => Some(IpAddr::V6(v)),
            None => None,
        },
    }
}

/// The zone of an IPv6 address in brackets: `%` and a number, or nothing.
pub open spec fn scope_of(s: Seq<char>) -> Option<nat> {
    if s.len() == 0 {
        Some(0)
    } else {
        number::digits_up_to(s.skip(1), u32::MAX as nat)
    }
}

/// The socket address that `s` spells: an IPv4 address, or an IPv6 address in
/// brackets, then a colon and a port.
pub open spec fn socket_addr_of(s: Seq<char>) -> Option<SocketAddr> {
    if s.len() > 0 && s[0] == '[' {
        let close = text::first_from(s, ']', 1);
        if close + 1 >= s.len() || s[close + 1] != ':' {
            None
        } else {
            let inner = s.subrange(1, close);
            let zone = text::first(inner, '%');
            match (
                ipv6_groups(inner.take(zone)),
                scope_of(inner.skip(zone)),
                number::digits_up_to(s.skip(close + 2), 65535),
            ) {
                (Some(g), Some(scope), Some(port)) => Some(
                    SocketAddr {
                        ip: IpAddr::V6(join_groups(g, 8) as u128),
                        port: port as u16,
                        flowinfo: 0,
                        scope_id: scope as u32,
                    },
                ),
                _ => None,
            }
        }
    } else {
        let at = text::after_last(s, ':', s.len() as int);
        if at == 0 {
            None
        } else {
            match (ipv4_of(s.take(at - 1)), number::digits_up_to(s.skip(at), 65535)) {
                (Some(v), Some(port)) => Some(
                    SocketAddr {
                        ip: IpAddr::V4(v as u32),
                        port: port as u16,
                        flowinfo: 0,
                        scope_id: 0,
                    },
                ),
                _ => None,
            }
        }
    }
}

/// Reads a socket address.
pub fn parse_socket_addr(addr: &str) -> (res: Option<SocketAddr>)
    ensures
        res == socket_addr_of(addr@),
{
    let chars = text::chars_of(addr);
    let s = chars.as_slice();
    let n: usize = s.len();
    if n > 0 && s[0] == '[' {
        let close: usize = text::find_from(s, ']', 1);
        if close >= n || n - close <= 1 || s[close + 1] != ':' {
            return None;
        }
        let inner = text::part(s, 1, close);
        let zone: usize = text::find_from(inner, '%', 0);
        let ip_text = text::part(inner, 0, zone);
        assert(ip_text@ =~= inner@.take(zone as int));
        let ip: u128 = match parse_ipv6(ip_text) {
            Some(v) => v,
            None => return None,
        };
        let scope: u64 = if zone == inner.len() {
            0
        } else {
            let digits = text::part(inner, zone + 1, inner.len());
            assert(digits@ =~= inner@.skip(zone as int).skip(1));
            match number::parse_digits(digits, u32::MAX as u64) {
                Some(v) => v,
                None => return None,
            }
        };
        let port_text = text::part(s, close + 2, n);
        assert(port_text@ =~= s@.skip(close + 2));
        match number::parse_digits(port_text, 65535) {
            Some(port) => Some(
                SocketAddr {
                    ip: IpAddr::V6(ip),
                    port: port as u16,
                    flowinfo: 0,
                    scope_id: scope as u32,
                },
            ),
            None => None,
        }
    } else {
        let at: usize = text::find_after_last(s, ':');
        if at == 0 {
            return None;
        }
        let ip_text = text::part(s, 0, at - 1);
        assert(ip_text@ =~= s@.take(at - 1));
        let port_text = text::part(s, at, n);
        assert(port_text@ =~= s@.skip(at as int));
        match (parse_ipv4(ip_text), number::parse_digits(port_text, 65535)) {
            (Some(v), Some(port)) => Some(SocketAddr::new(IpAddr::V4(v), port as u16)),
            _ => None,
        }
    }
}

/// Which addresses are special: `0.0.0.0` and `::` stand for no particular one,
/// `127.*.*.*` and `::1` for the machine itself, `169.254.*.*` and those that begin with
/// the ten bits of `fe80` are good on one link only.
pub proof fn law_special_addresses(a: int, b: int, c: int, d: int, n: u128)
    requires
        0 <= a < 256,
        0 <= b < 256,
        0 <= c < 256,
        0 <= d < 256,
    ensures
        ({
            let v4 = IpAddr::V4((a * 0x100_0000 + b * 0x1_0000 + c * 0x100 + d) as u32);
            &&& v4.unspecified() <==> a == 0 && b == 0 && c == 0 && d == 0
            &&& v4.loopback() <==> a == 127
            &&& v4.link_local() <==> a == 169 && b == 254
        }),
        IpAddr::V6(n).unspecified() <==> n == 0,
        IpAddr::V6(n).loopback() <==> n == 1,
        IpAddr::V6(n).link_local() <==> 0xfe80_0000_0000_0000_0000_0000_0000_0000 <= n
            <= 0xfebf_ffff_ffff_ffff_ffff_ffff_ffff_ffff,
{
}

proof fn lemma_octet(n: nat)
    requires
        n < 256,
    ensures
        octet(number::decimal(n)) == Some(n),
        !number::decimal(n).contains('.'),
        !number::decimal(n).contains(':'),
{
    number::lemma_decimal(n);
    let s = number::decimal(n);
    assert(s.len() <= 3) by {
        reveal_with_fuel(number::decimal, 4);
    }
    if s.len() > 1 {
        assert(n > 0) by {
            if n == 0 {
                assert(s.len() == 1);
            }
        }
    }
    if s.contains('.') {
        let i = choose|i: int| 0 <= i < s.len() && s[i] == '.';
        assert(number::is_digit(s[i]));
    }
    if s.contains(':') {
        let i = choose|i: int| 0 <= i < s.len() && s[i] == ':';
        assert(number::is_digit(s[i]));
    }
}

/// Four numbers below 256 with points between them are the IPv4 address with these
/// bytes, the most significant first.
pub proof fn law_ipv4_text(a: nat, b: nat, c: nat, d: nat)
    requires
        a < 256,
        b < 256,
        c < 256,
        d < 256,
    ensures
        ip_of(
            number::decimal(a) + seq!['.'] + number::decimal(b) + seq!['.'] + number::decimal(c)
                + seq!['.'] + number::decimal(d),
        ) == Some(IpAddr::V4((a * 0x100_0000 + b * 0x1_0000 + c * 0x100 + d) as u32)),
        ipv4_of(
            number::decimal(a) + seq!['.'] + number::decimal(b) + seq!['.'] + number::decimal(c)
                + seq!['.'] + number::decimal(d),
        ) == Some(a * 0x100_0000 + b * 0x1_0000 + c * 0x100 + d),
{
    let (w, x, y, z) = (
        number::decimal(a),
        number::decimal(b),
        number::decimal(c),
        number::decimal(d),
    );
    let s = w + seq!['.'] + x + seq!['.'] + y + seq!['.'] + z;
    lemma_octet(a);
    lemma_octet(b);
    lemma_octet(c);
    lemma_octet(d);
    let i = w.len() as int;
    let j = i + 1 + x.len();
    let k = j + 1 + y.len();
    assert(s[i] == '.' && s[j] == '.' && s[k] == '.');
    assert forall|p: int| 0 <= p < i implies s[p] != '.' by {
        assert(s[p] == w[p]);
        assert(w.contains(w[p]));
    }
    assert forall|p: int| i < p < j implies s[p] != '.' by {
        assert(s[p] == x[p - i - 1]);
        assert(x.contains(x[p - i - 1]));
    }
    assert forall|p: int| j < p < k implies s[p] != '.' by {
        assert(s[p] == y[p - j - 1]);
        assert(y.contains(y[p - j - 1]));
    }
    text::lemma_first_is(s, '.', 0, i);
    text::lemma_first_is(s, '.', i + 1, j);
    text::lemma_first_is(s, '.', j + 1, k);
    assert(s.take(i) =~= w);
    assert(s.subrange(i + 1, j) =~= x);
    assert(s.subrange(j + 1, k) =~= y);
    assert(s.skip(k + 1) =~= z);
}

/// A digit of base 16 more at the end makes the number sixteen times as large, and adds
/// the digit: `0` to `9`, then `a` to `f` in small or capital letters.
pub proof fn law_hex_digits(s: Seq<char>, n: nat, d: nat)
    requires
        hex_number(s) == Some(n),
        d < 16,
    ensures
        hex_number(Seq::<char>::empty()) == Some(0nat),
        d < 10 ==> hex_number(s.push(('0' as int + d) as char)) == Some(16 * n + d),
        d >= 10 ==> hex_number(s.push(('a' as int + d - 10) as char)) == Some(16 * n + d),
        d >= 10 ==> hex_number(s.push(('A' as int + d - 10) as char)) == Some(16 * n + d),
{
    assert(s.push(('0' as int + d) as char).drop_last() =~= s);
    assert(s.push(('a' as int + d - 10) as char).drop_last() =~= s);
    assert(s.push(('A' as int + d - 10) as char).drop_last() =~= s);
}

/// The groups of an IPv6 address stand between colons: a group of up to four digits of
/// base 16, a colon, and more groups are that number and then the others.
pub proof fn law_groups_between_colons(group: Seq<char>, rest: Seq<char>, tail: bool, n: nat)
    requires
        1 <= group.len() <= 4,
        !group.contains(':'),
        hex_number(group) == Some(n),
    ensures
        hex_groups(group, tail) == Some(seq![n]),
        hex_groups(group + seq![':'] + rest, tail) == match hex_groups(rest, tail) {
            Some(more) => Some(seq![n] + more),
            None => None,
        },
{
    let s = group + seq![':'] + rest;
    let at = group.len() as int;
    assert forall|i: int| 0 <= i < at implies group[i] != ':' by {
        assert(group.contains(group[i]));
    }
    text::lemma_first_is(group, ':', 0, at);
    assert forall|i: int| 0 <= i < at implies s[i] != ':' by {
        assert(s[i] == group[i]);
    }
    assert(s[at] == ':');
    text::lemma_first_is(s, ':', 0, at);
    assert(s.take(at) =~= group);
    assert(s.skip(at + 1) =~= rest);
}

proof fn lemma_double_colon(s: Seq<char>, from: int, at: int)
    requires
        0 <= from <= at <= s.len(),
        forall|i: int|
            from <= i < at && i + 1 < s.len() ==> !(#[trigger] s[i] == ':' && s[i + 1] == ':'),
        at < s.len() ==> at + 1 < s.len() && s[at] == ':' && s[at + 1] == ':',
    ensures
        double_colon(s, from) == at,
    decreases at - from,
{
    if from < at && from + 1 < s.len() {
        assert(!(s[from] == ':' && s[from + 1] == ':'));
        lemma_double_colon(s, from + 1, at);
    }
}

proof fn lemma_no_ipv4(s: Seq<char>, at: int)
    requires
        0 <= at < s.len(),
        s[at] == ':',
    ensures
        ipv4_of(s) is None,
{
    text::lemma_first_from(s, '.', 0);
    let a = text::first(s, '.');
    if a < s.len() {
        text::lemma_first_from(s, '.', a + 1);
        let b = text::first_from(s, '.', a + 1);
        if b < s.len() {
            text::lemma_first_from(s, '.', b + 1);
            let c = text::first_from(s, '.', b + 1);
            if c < s.len() {
                if at < a {
                    assert(!number::is_digit(s.take(a)[at]));
                } else if at < b {
                    assert(!number::is_digit(s.subrange(a + 1, b)[at - a - 1]));
                } else if at < c {
                    assert(!number::is_digit(s.subrange(b + 1, c)[at - b - 1]));
                } else {
                    assert(!number::is_digit(s.skip(c + 1)[at - c - 1]));
                }
            }
        }
    }
}

/// The number that eight groups of 16 bits make, the most significant first.
pub open spec fn eight(g: Seq<nat>) -> nat {
    g[0] * 0x1_0000_0000_0000_0000_0000_0000_0000 + g[1] * 0x1_0000_0000_0000_0000_0000_0000 + g[2]
        * 0x1_0000_0000_0000_0000_0000 + g[3] * 0x1_0000_0000_0000_0000 + g[4] * 0x1_0000_0000_0000
        + g[5] * 0x1_0000_0000 + g[6] * 0x1_0000 + g[7]
}

proof fn lemma_join_eight(g: Seq<nat>)
    ensures
        join_groups(g, 8) == eight(g),
{
    reveal_with_fuel(join_groups, 9);
}

/// An IPv6 address is eight groups, the most significant first.
pub proof fn law_ipv6_of_eight_groups(s: Seq<char>, g: Seq<nat>)
    requires
        s.contains(':'),
        forall|i: int| 0 <= i && i + 1 < s.len() ==> !(#[trigger] s[i] == ':' && s[i + 1] == ':'),
        hex_groups(s, true) == Some(g),
        g.len() == 8,
    ensures
        ip_of(s) == Some(IpAddr::V6(eight(g) as u128)),
{
    let at = choose|i: int| 0 <= i < s.len() && s[i] == ':';
    lemma_no_ipv4(s, at);
    lemma_double_colon(s, 0, s.len() as int);
    lemma_join_eight(g);
}

/// With `::` for the rest, an IPv6 address has fewer groups: those before it are the
/// first, those after it the last, and the ones between are 0.
pub proof fn law_ipv6_with_a_gap(
    head: Seq<char>,
    tail: Seq<char>,
    g: Seq<nat>,
    h: Seq<nat>,
)
    requires
        forall|i: int|
            0 <= i && i + 1 < head.len() ==> !(#[trigger] head[i] == ':' && head[i + 1] == ':'),
        head.len() > 0 ==> head.last() != ':',
        if head.len() == 0 {
            g.len() == 0
        } else {
            hex_groups(head, false) == Some(g)
        },
        if tail.len() == 0 {
            h.len() == 0
        } else {
            hex_groups(tail, true) == Some(h)
        },
        g.len() + h.len() < 8,
    ensures
        ip_of(head + seq![':', ':'] + tail) == Some(
            IpAddr::V6(
                eight(
                    Seq::new(
                        8,
                        |i: int|
                            if i < g.len() {
                                g[i]
                            } else if i >= 8 - h.len() {
                                h[i - 8 + h.len()]
                            } else {
                                0nat
                            },
                    ),
                ) as u128,
            ),
        ),
{
    let s = head + seq![':', ':'] + tail;
    let n = head.len() as int;
    let want = Seq::new(
        8,
        |i: int|
            if i < g.len() {
                g[i]
            } else if i >= 8 - h.len() {
                h[i - 8 + h.len()]
            } else {
                0nat
            },
    );
    lemma_no_ipv4(s, n);
    assert(s[n] == ':' && s[n + 1] == ':');
    assert forall|i: int| 0 <= i < n && i + 1 < s.len() implies !(#[trigger] s[i] == ':' && s[i + 1]
        == ':') by {
        assert(s[i] == head[i]);
        if i + 1 < n {
            assert(s[i + 1] == head[i + 1]);
        }
    }
    lemma_double_colon(s, 0, n);
    assert(s.take(n) =~= head);
    assert(s.skip(n + 2) =~= tail);
    assert(head.len() == 0 ==> g =~= Seq::empty());
    assert(tail.len() == 0 ==> h =~= Seq::empty());
    let got = g + Seq::new((8 - g.len() - h.len()) as nat, |i: int| 0nat) + h;
    assert(ipv6_groups(s) == Some(got));
    assert(got =~= want);
    lemma_join_eight(want);
}

/// Address and port of `a.b.c.d:port`; a port above 65535 is refused.
pub proof fn law_socket_addr_v4(ip: Seq<char>, digits: Seq<char>, v: nat)
    requires
        ipv4_of(ip) == Some(v),
        v <= u32::MAX,
        digits.len() > 0,
        number::all_digits(digits),
    ensures
        socket_addr_of(ip + seq![':'] + digits) == if number::decimal_value(digits) <= 65535 {
            Some(
                SocketAddr {
                    ip: IpAddr::V4(v as u32),
                    port: number::decimal_value(digits) as u16,
                    flowinfo: 0,
                    scope_id: 0,
                },
            )
        } else {
            None
        },
{
    let s = ip + seq![':'] + digits;
    let at = ip.len() + 1;
    text::lemma_first_from(ip, '.', 0);
    let a = text::first(ip, '.');
    assert(s[0] == ip[0]);
    assert(number::is_digit(ip[0])) by {
        let w = ip.take(a);
        assert(octet(w) is Some);
        assert(number::is_digit(w[0]));
    }
    assert(s[at - 1] == ':');
    assert forall|i: int| at <= i < s.len() implies s[i] != ':' by {
        assert(s[i] == digits[i - at]);
        assert(number::is_digit(digits[i - at]));
    }
    text::lemma_after_last(s, ':', s.len() as int);
    assert(text::after_last(s, ':', s.len() as int) == at);
    assert(s.take(at - 1) =~= ip);
    assert(s.skip(at as int) =~= digits);
}

/// Address and port of `[ipv6]:port`.
pub proof fn law_socket_addr_v6(ip: Seq<char>, digits: Seq<char>, g: Seq<nat>)
    requires
        ipv6_groups(ip) == Some(g),
        !ip.contains(']'),
        !ip.contains('%'),
        digits.len() > 0,
        number::all_digits(digits),
        number::decimal_value(digits) <= 65535,
    ensures
        socket_addr_of(seq!['['] + ip + seq![']', ':'] + digits) == Some(
            SocketAddr {
                ip: IpAddr::V6(eight(g) as u128),
                port: number::decimal_value(digits) as u16,
                flowinfo: 0,
                scope_id: 0,
            },
        ),
{
    let s = seq!['['] + ip + seq![']', ':'] + digits;
    let close = ip.len() as int + 1;
    assert forall|i: int| 1 <= i < close implies s[i] != ']' by {
        assert(s[i] == ip[i - 1]);
        assert(ip.contains(ip[i - 1]));
    }
    assert(s[close] == ']' && s[close + 1] == ':');
    text::lemma_first_is(s, ']', 1, close);
    assert(s.subrange(1, close) =~= ip);
    assert forall|i: int| 0 <= i < ip.len() implies ip[i] != '%' by {
        assert(ip.contains(ip[i]));
    }
    text::lemma_first_is(ip, '%', 0, ip.len() as int);
    assert(ip.take(ip.len() as int) =~= ip);
    assert(ip.skip(ip.len() as int) =~= Seq::<char>::empty());
    assert(s.skip(close + 2) =~= digits);
    lemma_join_eight(g);
}

/// What is a part of an IPv4 address: up to three digits, without a zero before others,
/// of a number up to 255. An address needs four of them.
pub proof fn law_parts_of_ipv4(s: Seq<char>)
    ensures
        octet(s) is Some <==> 1 <= s.len() <= 3 && number::all_digits(s) && (s.len() == 1 || s[0]
            != '0') && number::decimal_value(s) <= 255,
        !s.contains('.') ==> ipv4_of(s) is None,
{
    text::lemma_first_from(s, '.', 0);
    let a = text::first(s, '.');
    if a < s.len() {
        assert(s[a] == '.');
        assert(s.contains('.'));
    }
}

/// The last part of an IPv6 address may be an IPv4 address, which is two groups.
pub proof fn law_ipv4_in_ipv6(s: Seq<char>, v: nat)
    requires
        ipv4_of(s) == Some(v),
    ensures
        hex_groups(s, true) == Some(seq![v / 0x1_0000, v % 0x1_0000]),
        hex_groups(s, false) is None,
{
    text::lemma_first_from(s, ':', 0);
    let colon = text::first(s, ':');
    if colon < s.len() {
        lemma_no_ipv4(s, colon);
    }
    text::lemma_first_from(s, '.', 0);
    let a = text::first(s, '.');
    assert(s[a] == '.');
    lemma_hex_stops(s, a);
}

/// A text with a character that is no digit of base 16 is no number of that base.
proof fn lemma_hex_stops(s: Seq<char>, i: int)
    requires
        0 <= i < s.len(),
        hex_value(s[i]) is None,
    ensures
        hex_number(s) is None,
    decreases s.len(),
{
    if i < s.len() - 1 {
        assert(s.drop_last()[i] == s[i]);
        lemma_hex_stops(s.drop_last(), i);
    }
}

/// The scope of `[ipv6%scope]:port` is the number behind the percent sign.
pub proof fn law_scope_of_ipv6(
    ip: Seq<char>,
    scope: Seq<char>,
    digits: Seq<char>,
    g: Seq<nat>,
)
    requires
        ipv6_groups(ip) == Some(g),
        !ip.contains(']'),
        !ip.contains('%'),
        scope.len() > 0,
        number::all_digits(scope),
        number::decimal_value(scope) <= u32::MAX,
        digits.len() > 0,
        number::all_digits(digits),
        number::decimal_value(digits) <= 65535,
    ensures
        socket_addr_of(seq!['['] + ip + seq!['%'] + scope + seq![']', ':'] + digits) == Some(
            SocketAddr {
                ip: IpAddr::V6(eight(g) as u128),
                port: number::decimal_value(digits) as u16,
                flowinfo: 0,
                scope_id: number::decimal_value(scope) as u32,
            },
        ),
{
    let s = seq!['['] + ip + seq!['%'] + scope + seq![']', ':'] + digits;
    let inner = ip + seq!['%'] + scope;
    let close = inner.len() as int + 1;
    let zone = ip.len() as int;
    assert forall|i: int| 1 <= i < close implies s[i] != ']' by {
        assert(s[i] == inner[i - 1]);
        if i - 1 < zone {
            assert(ip.contains(ip[i - 1]));
        } else if i - 1 > zone {
            assert(inner[i - 1] == scope[i - 2 - zone]);
            assert(number::is_digit(scope[i - 2 - zone]));
        }
    }
    assert(s[close] == ']' && s[close + 1] == ':');
    text::lemma_first_is(s, ']', 1, close);
    assert(s.subrange(1, close) =~= inner);
    assert forall|i: int| 0 <= i < zone implies inner[i] != '%' by {
        assert(inner[i] == ip[i]);
        assert(ip.contains(ip[i]));
    }
    assert(inner[zone] == '%');
    text::lemma_first_is(inner, '%', 0, zone);
    assert(inner.take(zone) =~= ip);
    assert(inner.skip(zone).skip(1) =~= scope);
    assert(s.skip(close + 2) =~= digits);
    lemma_join_eight(g);
}

} // verus!
