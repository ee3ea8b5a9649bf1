//! Host lists: comma-separated hosts and `{start..end}` patterns.
use vstd::hash_set::StringHashSet;
use vstd::prelude::*;

use crate::number;
use crate::number::NumberError;
use crate::text;

verus! {

/// The greatest number of hosts that one ellipsis may stand for.
pub const MAX_RANGE: u64 = 10_000;

/// Why a host list cannot be expanded. `S` is the type of the texts in it.
#[derive(Debug, Clone)]
pub enum HostErrorOf<S> {
    /// A `{` without a `}` after it, in this pattern.
    Unterminated(S),
    /// The start of an ellipsis in this pattern is no number that fits.
    RangeStart(S, NumberError),
    /// The end of an ellipsis in this pattern is no number that fits.
    RangeEnd(S, NumberError),
    /// An ellipsis in this pattern stands for this many hosts, which is too many.
    TooMany(S, u64),
    /// This host comes up more than once.
    Duplicate(S),
}

pub type HostError = HostErrorOf<String>;

pub type HostErrorView = HostErrorOf<Seq<char>>;

impl View for HostErrorOf<String> {
    type V = HostErrorOf<Seq<char>>;

    open spec fn view(&self) -> HostErrorOf<Seq<char>> {
        match self {
            HostErrorOf::Unterminated(s) => HostErrorOf::Unterminated(s@),
            HostErrorOf::RangeStart(s, e) => HostErrorOf::RangeStart(s@, *e),
            HostErrorOf::RangeEnd(s, e) => HostErrorOf::RangeEnd(s@, *e),
            HostErrorOf::TooMany(s, n) => HostErrorOf::TooMany(s@, *n),
            HostErrorOf::Duplicate(s) => HostErrorOf::Duplicate(s@),
        }
    }
}

/// The message of a host list error.
pub open spec fn host_error_text(e: HostErrorView) -> Seq<char> {
    match e {
        HostErrorOf::Unterminated(s) => "unterminated '{' in host pattern "@ + text::quoted(s),
        HostErrorOf::RangeStart(s, n) => "ellipsis start in "@ + text::quoted(s) + ": "@
            + number::number_error_text(n),
        HostErrorOf::RangeEnd(s, n) => "ellipsis end in "@ + text::quoted(s) + ": "@
            + number::number_error_text(n),
        HostErrorOf::TooMany(s, n) => "ellipsis in "@ + text::quoted(s)
            + " expands to too many hosts ("@ + number::decimal(n as nat) + ")"@,
        HostErrorOf::Duplicate(s) => "duplicate host "@ + s + " after expanding hostlist"@,
    }
}

impl HostErrorOf<String> {
    /// The message of the error.
    pub fn message(&self) -> (res: String)
        ensures
            res@ == host_error_text(self@),
    {
        let mut out = String::new();
        match self {
            HostErrorOf::Unterminated(s) => {
                out.append("unterminated '{' in host pattern ");
                out.append(text::quote(s.as_str()).as_str());
            },
            HostErrorOf::RangeStart(s, n) => {
                out.append("ellipsis start in ");
                out.append(text::quote(s.as_str()).as_str());
                out.append(": ");
                out.append(n.message());
            },
            HostErrorOf::RangeEnd(s, n) => {
                out.append("ellipsis end in ");
                out.append(text::quote(s.as_str()).as_str());
                out.append(": ");
                out.append(n.message());
            },
            HostErrorOf::TooMany(s, n) => {
                out.append("ellipsis in ");
                out.append(text::quote(s.as_str()).as_str());
                out.append(" expands to too many hosts (");
                number::push_decimal(&mut out, *n);
                out.append(")");
            },
            HostErrorOf::Duplicate(s) => {
                out.append("duplicate host ");
                out.append(s.as_str());
                out.append(" after expanding hostlist");
            },
        }
        assert(out@ =~= host_error_text(self@));
        out
    }
}

/// The hosts between the commas of `s`, without surrounding white space and
/// without empty ones.
pub open spec fn hosts_in(s: Seq<char>) -> Seq<Seq<char>>
    decreases s.len(),
    via hosts_in_decreases
{
    let comma = text::first(s, ',');
    let host = text::trimmed(s.take(comma));
    let head = if host.len() > 0 {
        seq![host]
    } else {
        Seq::empty()
    };
    if comma < s.len() {
        head + hosts_in(s.skip(comma + 1))
    } else {
        head
    }
}

#[via_fn]
proof fn hosts_in_decreases(s: Seq<char>) {
    text::lemma_first_from(s, ',', 0);
}

/// `inner` is `start..end` with digits on both sides.
pub open spec fn is_range(inner: Seq<char>) -> bool {
    let k = number::digits_end(inner, 0);
    &&& 0 < k
    &&& k + 2 < inner.len()
    &&& inner[k] == '.'
    &&& inner[k + 1] == '.'
    &&& number::digits_end(inner, k + 2) == inner.len()
}

/// What a search for a range finds.
pub enum Found {
    /// The range between a `{` and a `}` at these places.
    Range(int, int),
    /// No range.
    Nothing,
    /// A `{` without a `}` after it.
    Unterminated,
}

/// The first range at or after place `i`.
pub open spec fn range_from(s: Seq<char>, i: int) -> Found
    decreases s.len() - i,
{
    if i >= s.len() {
        Found::Nothing
    } else if s[i] != '{' {
        range_from(s, i + 1)
    } else {
        let close = text::first_from(s, '}', i + 1);
        if close >= s.len() {
            Found::Unterminated
        } else if is_range(s.subrange(i + 1, close)) {
            Found::Range(i, close)
        } else {
            range_from(s, i + 1)
        }
    }
}

/// How often `{` occurs.
pub open spec fn opens(s: Seq<char>) -> nat
    decreases s.len(),
{
    if s.len() == 0 {
        0
    } else {
        opens(s.drop_last()) + if s.last() == '{' {
            1nat
        } else {
            0nat
        }
    }
}

/// The number of numbers from `a` to `b`, in either direction.
pub open spec fn range_count(a: nat, b: nat) -> nat {
    if a <= b {
        (b - a + 1) as nat
    } else {
        (a - b + 1) as nat
    }
}

/// The number at place `k` of the way from `a` to `b`.
pub open spec fn range_item(a: nat, b: nat, k: int) -> nat {
    if a <= b {
        (a + k) as nat
    } else {
        (a - k) as nat
    }
}

/// To how many digits the numbers of a range are filled up: to those of its
/// start, if that has leading zeros.
pub open spec fn pad_width(start: Seq<char>) -> nat {
    if start.len() > 1 && start[0] == '0' {
        start.len()
    } else {
        0
    }
}

/// The hosts that a pattern stands for.
pub open spec fn expansion(pat: Seq<char>) -> Result<Seq<Seq<char>>, HostErrorView>
    decreases opens(pat), 0nat,
    via expansion_decreases
{
    match range_from(pat, 0) {
        Found::Unterminated => Err(HostErrorOf::Unterminated(pat)),
        Found::Nothing => Ok(seq![pat]),
        Found::Range(open, close) => {
            let inner = pat.subrange(open + 1, close);
            let k = number::digits_end(inner, 0);
            let a = number::decimal_value(inner.take(k));
            let b = number::decimal_value(inner.skip(k + 2));
            if a > i64::MAX {
                Err(HostErrorOf::RangeStart(pat, NumberError::TooLarge))
            } else if b > i64::MAX {
                Err(HostErrorOf::RangeEnd(pat, NumberError::TooLarge))
            } else if range_count(a, b) > MAX_RANGE {
                Err(HostErrorOf::TooMany(pat, range_count(a, b) as u64))
            } else {
                expansion_range(
                    pat.take(open),
                    pat.skip(close + 1),
                    a,
                    b,
                    pad_width(inner.take(k)),
                    range_count(a, b),
                )
            }
        },
    }
}

/// The hosts for the first `k` numbers from `a` to `b`, each put between
/// `pre` and `post` and expanded further.
pub open spec fn expansion_range(
    pre: Seq<char>,
    post: Seq<char>,
    a: nat,
    b: nat,
    width: nat,
    k: nat,
) -> Result<Seq<Seq<char>>, HostErrorView>
    decreases opens(pre) + opens(post), k,
    via expansion_range_decreases
{
    if k == 0 {
        Ok(Seq::empty())
    } else {
        match expansion_range(pre, post, a, b, width, (k - 1) as nat) {
            Err(e) => Err(e),
            Ok(before) => {
                let item = range_item(a, b, k - 1);
                match expansion(pre + number::padded(item, width) + post) {
                    Err(e) => Err(e),
                    Ok(more) => Ok(before + more),
                }
            },
        }
    }
}

proof fn lemma_opens_add(s: Seq<char>, t: Seq<char>)
    ensures
        opens(s + t) == opens(s) + opens(t),
    decreases t.len(),
{
    if t.len() == 0 {
        assert(s + t =~= s);
    } else {
        lemma_opens_add(s, t.drop_last());
        assert((s + t).drop_last() =~= s + t.drop_last());
    }
}

proof fn lemma_opens_digits(s: Seq<char>)
    requires
        number::all_digits(s),
    ensures
        opens(s) == 0,
    decreases s.len(),
{
    if s.len() > 0 {
        assert(number::is_digit(s.last()));
        assert forall|i: int| 0 <= i < s.drop_last().len() implies number::is_digit(
            #[trigger] s.drop_last()[i],
        ) by {
            assert(s[i] == s.drop_last()[i]);
        }
        lemma_opens_digits(s.drop_last());
    }
}

/// A number between the two parts of a pattern opens no brace.
proof fn lemma_opens_item(pre: Seq<char>, post: Seq<char>, n: nat, width: nat)
    ensures
        opens(pre + number::padded(n, width) + post) == opens(pre) + opens(post),
{
    number::lemma_decimal(n);
    let mid = number::padded(n, width);
    assert(number::all_digits(mid));
    lemma_opens_digits(mid);
    lemma_opens_add(pre, mid);
    lemma_opens_add(pre + mid, post);
}

/// Where a range is found.
proof fn lemma_range_from(s: Seq<char>, i: int)
    requires
        0 <= i <= s.len(),
    ensures
        match range_from(s, i) {
            Found::Range(open, close) => {
                &&& i <= open < close < s.len()
                &&& s[open] == '{'
                &&& is_range(s.subrange(open + 1, close))
            },
            _ => true,
        },
    decreases s.len() - i,
{
    if i < s.len() {
        text::lemma_first_from(s, '}', i + 1);
        lemma_range_from(s, i + 1);
    }
}

/// A pattern has one `{` more than what is left of it without its range.
proof fn lemma_opens_cut(s: Seq<char>, open: int, close: int)
    requires
        0 <= open < close < s.len(),
        s[open] == '{',
    ensures
        opens(s.take(open)) + opens(s.skip(close + 1)) < opens(s),
{
    let one = s.subrange(open, open + 1);
    let rest = s.subrange(open + 1, close + 1);
    assert(one.drop_last() =~= Seq::<char>::empty());
    assert(opens(one) == 1) by {
        assert(opens(one.drop_last()) == 0);
    }
    lemma_opens_add(s.take(open), one);
    lemma_opens_add(s.take(open) + one, rest);
    lemma_opens_add(s.take(open) + one + rest, s.skip(close + 1));
    assert(s.take(open) + one + rest + s.skip(close + 1) =~= s);
}

#[via_fn]
proof fn expansion_decreases(pat: Seq<char>) {
    lemma_range_from(pat, 0);
    match range_from(pat, 0) {
        Found::Range(open, close) => {
            lemma_opens_cut(pat, open, close);
        },
        _ => {},
    }
}

#[via_fn]
proof fn expansion_range_decreases(
    pre: Seq<char>,
    post: Seq<char>,
    a: nat,
    b: nat,
    width: nat,
    k: nat,
) {
    lemma_opens_item(pre, post, range_item(a, b, k - 1), width);
}

/// An error among the first numbers of a range is the error of the whole.
proof fn lemma_range_error_stays(
    pre: Seq<char>,
    post: Seq<char>,
    a: nat,
    b: nat,
    width: nat,
    k: nat,
    n: nat,
)
    requires
        k <= n,
        expansion_range(pre, post, a, b, width, k) is Err,
    ensures
        expansion_range(pre, post, a, b, width, n) == expansion_range(pre, post, a, b, width, k),
    decreases n,
{
    if k < n {
        lemma_range_error_stays(pre, post, a, b, width, k, (n - 1) as nat);
    }
}

/// Splits a comma-separated list of hosts.
pub fn split_hosts(s: &str) -> (res: Vec<String>)
    ensures
        text::texts(res@) == hosts_in(s@),
{
    let chars = text::chars_of(s);
    let c = chars.as_slice();
    let n: usize = c.len();
    let mut out: Vec<String> = Vec::new();
    let mut from: usize = 0;
    assert(c@.skip(0) =~= c@);
    assert(text::texts(out@) + hosts_in(c@) =~= hosts_in(c@));
    loop
        invariant
            n == c@.len(),
            c@ == s@,
            from <= n,
            text::texts(out@) + hosts_in(c@.skip(from as int)) == hosts_in(s@),
        decreases n - from,
    {
        let ghost rest = c@.skip(from as int);
        let comma: usize = text::find_from(c, ',', from);
        let host = text::trim(text::part(c, from, comma));
        proof {
            text::lemma_first_is(rest, ',', 0, comma - from);
            assert(rest.take(comma - from) =~= c@.subrange(from as int, comma as int));
        }
        let ghost before = text::texts(out@);
        let ghost head = if host@.len() > 0 {
            seq![host@]
        } else {
            Seq::<Seq<char>>::empty()
        };
        if host.len() > 0 {
            out.push(text::string_of(host));
        }
        assert(text::texts(out@) =~= before + head);
        if comma >= n {
            assert(hosts_in(rest) == head);
            return out;
        }
        proof {
            assert(rest.skip(comma - from + 1) =~= c@.skip(comma + 1));
            assert(before + head + hosts_in(c@.skip(comma + 1)) =~= before + hosts_in(rest));
        }
        from = comma + 1;
    }
}

/// Whether `inner` is `start..end` with digits on both sides.
fn is_range_inner(inner: &[char]) -> (res: bool)
    ensures
        res == is_range(inner@),
{
    let n: usize = inner.len();
    let k: usize = number::skip_digits(inner, 0);
    if k == 0 || n - k <= 2 {
        return false;
    }
    inner[k] == '.' && inner[k + 1] == '.' && number::skip_digits(inner, k + 2) == n
}

/// The places of the braces around the first range of a pattern.
fn find_range(s: &[char]) -> (res: Result<Option<(usize, usize)>, HostError>)
    ensures
        match res {
            Ok(Some((open, close))) => range_from(s@, 0) == Found::Range(
                open as int,
                close as int,
            ),
            Ok(None) => range_from(s@, 0) == Found::Nothing,
            Err(e) => range_from(s@, 0) == Found::Unterminated && e@ == HostErrorOf::Unterminated(
                s@,
            ),
        },
{
    let n: usize = s.len();
    let mut i: usize = 0;
    while i < n
        invariant
            n == s@.len(),
            i <= n,
            range_from(s@, 0) == range_from(s@, i as int),
        decreases n - i,
    {
        if s[i] == '{' {
            let close: usize = text::find_from(s, '}', i + 1);
            if close >= n {
                return Err(HostErrorOf::Unterminated(text::string_of(s)));
            }
            if is_range_inner(text::part(s, i + 1, close)) {
                return Ok(Some((i, close)));
            }
        }
        i += 1;
    }
    Ok(None)
}

/// Expands a pattern given as characters.
fn expand_chars(pat: &[char]) -> (res: Result<Vec<String>, HostError>)
    ensures
        match res {
            Ok(hosts) => expansion(pat@) == Ok::<Seq<Seq<char>>, HostErrorView>(
                text::texts(hosts@),
            ),
            Err(e) => expansion(pat@) == Err::<Seq<Seq<char>>, HostErrorView>(e@),
        },
    decreases opens(pat@),
{
    let (open, close) = match find_range(pat)? {
        None => {
            let mut out: Vec<String> = Vec::new();
            out.push(text::string_of(pat));
            assert(text::texts(out@) =~= seq![pat@]);
            return Ok(out);
        },
        Some(at) => at,
    };
    proof {
        lemma_range_from(pat@, 0);
        lemma_opens_cut(pat@, open as int, close as int);
    }
    let inner = text::part(pat, open + 1, close);
    let k: usize = number::skip_digits(inner, 0);
    let start = text::part(inner, 0, k);
    let end = text::part(inner, k + 2, inner.len());
    proof {
        number::lemma_digits_end(inner@, 0);
        number::lemma_digits_end(inner@, k + 2);
        assert(start@ =~= inner@.take(k as int));
        assert(end@ =~= inner@.skip(k + 2));
        assert forall|i: int| 0 <= i < start@.len() implies number::is_digit(
            #[trigger] start@[i],
        ) by {
            assert(number::is_digit(inner@[i]));
        }
        assert forall|i: int| 0 <= i < end@.len() implies number::is_digit(#[trigger] end@[i]) by {
            assert(number::is_digit(inner@[i + k + 2]));
        }
        number::lemma_unsigned_digits(start@, i64::MAX as nat);
        number::lemma_unsigned_digits(end@, i64::MAX as nat);
    }
    let a: u64 = match number::parse_unsigned(start, i64::MAX as u64) {
        Ok(v) => v,
        Err(e) => return Err(HostErrorOf::RangeStart(text::string_of(pat), e)),
    };
    let b: u64 = match number::parse_unsigned(end, i64::MAX as u64) {
        Ok(v) => v,
        Err(e) => return Err(HostErrorOf::RangeEnd(text::string_of(pat), e)),
    };
    let width: usize = if start.len() > 1 && start[0] == '0' {
        start.len()
    } else {
        0
    };
    let count: u64 = if a <= b {
        b - a + 1
    } else {
        a - b + 1
    };
    if count > MAX_RANGE {
        return Err(HostErrorOf::TooMany(text::string_of(pat), count));
    }
    let n: usize = pat.len();
    let pre = text::part(pat, 0, open);
    let post = text::part(pat, close + 1, n);
    let ghost width_n = width as nat;
    assert(pre@ =~= pat@.take(open as int));
    assert(post@ =~= pat@.skip(close + 1));
    assert(expansion(pat@) == expansion_range(
        pre@,
        post@,
        a as nat,
        b as nat,
        width_n,
        count as nat,
    ));
    let mut out: Vec<String> = Vec::new();
    let mut i: u64 = 0;
    assert(text::texts(out@) =~= Seq::<Seq<char>>::empty());
    while i < count
        invariant
            i <= count,
            count == range_count(a as nat, b as nat),
            width_n == width,
            opens(pre@) + opens(post@) < opens(pat@),
            expansion(pat@) == expansion_range(
                pre@,
                post@,
                a as nat,
                b as nat,
                width_n,
                count as nat,
            ),
            expansion_range(pre@, post@, a as nat, b as nat, width_n, i as nat) == Ok::<
                Seq<Seq<char>>,
                HostErrorView,
            >(text::texts(out@)),
        decreases count - i,
    {
        let item: u64 = if a <= b {
            a + i
        } else {
            a - i
        };
        let mut host = String::new();
        text::push_chars(&mut host, pre);
        number::push_padded(&mut host, item, width);
        text::push_chars(&mut host, post);
        let replaced = text::chars_of(host.as_str());
        proof {
            assert(replaced@ =~= pre@ + number::padded(item as nat, width_n) + post@);
            lemma_opens_item(pre@, post@, item as nat, width_n);
            assert(item as nat == range_item(a as nat, b as nat, i as int));
        }
        let ghost before = text::texts(out@);
        match expand_chars(replaced.as_slice()) {
            Ok(more) => {
                let ghost added = text::texts(more@);
                let mut more = more;
                out.append(&mut more);
                assert(text::texts(out@) =~= before + added);
            },
            Err(e) => {
                proof {
                    assert(expansion_range(
                        pre@,
                        post@,
                        a as nat,
                        b as nat,
                        width_n,
                        (i + 1) as nat,
                    ) == Err::<Seq<Seq<char>>, HostErrorView>(e@));
                    lemma_range_error_stays(
                        pre@,
                        post@,
                        a as nat,
                        b as nat,
                        width_n,
                        (i + 1) as nat,
                        count as nat,
                    );
                }
                return Err(e);
            },
        }
        i += 1;
    }
    Ok(out)
}

/// Expands a host pattern: `{start..end}` ranges anywhere in it stand for the
/// numbers from start to end, filled up with zeros if the start has leading
/// zeros.
pub fn expand_pattern(pat: &str) -> (res: Result<Vec<String>, HostError>)
    ensures
        match res {
            Ok(hosts) => expansion(pat@) == Ok::<Seq<Seq<char>>, HostErrorView>(
                text::texts(hosts@),
            ),
            Err(e) => expansion(pat@) == Err::<Seq<Seq<char>>, HostErrorView>(e@),
        },
{
    let chars = text::chars_of(pat);
    expand_chars(chars.as_slice())
}

/// The list with the first `k` of these hosts added, unless one is there
/// already.
pub open spec fn add_hosts(list: Seq<Seq<char>>, hosts: Seq<Seq<char>>, k: int) -> Result<
    Seq<Seq<char>>,
    HostErrorView,
>
    decreases k,
{
    if k <= 0 {
        Ok(list)
    } else {
        match add_hosts(list, hosts, k - 1) {
            Err(e) => Err(e),
            Ok(before) => if before.contains(hosts[k - 1]) {
                Err(HostErrorOf::Duplicate(hosts[k - 1]))
            } else {
                Ok(before.push(hosts[k - 1]))
            },
        }
    }
}

/// The hosts that the first `k` patterns stand for.
pub open spec fn list_expansion(items: Seq<Seq<char>>, k: int) -> Result<
    Seq<Seq<char>>,
    HostErrorView,
>
    decreases k,
{
    if k <= 0 {
        Ok(Seq::empty())
    } else {
        match list_expansion(items, k - 1) {
            Err(e) => Err(e),
            Ok(before) => match expansion(items[k - 1]) {
                Err(e) => Err(e),
                Ok(hosts) => add_hosts(before, hosts, hosts.len() as int),
            },
        }
    }
}

proof fn lemma_add_error_stays(list: Seq<Seq<char>>, hosts: Seq<Seq<char>>, k: int, n: int)
    requires
        0 <= k <= n,
        add_hosts(list, hosts, k) is Err,
    ensures
        add_hosts(list, hosts, n) == add_hosts(list, hosts, k),
    decreases n,
{
    if k < n {
        lemma_add_error_stays(list, hosts, k, n - 1);
    }
}

proof fn lemma_list_error_stays(items: Seq<Seq<char>>, k: int, n: int)
    requires
        0 <= k <= n,
        list_expansion(items, k) is Err,
    ensures
        list_expansion(items, n) == list_expansion(items, k),
    decreases n,
{
    if k < n {
        lemma_list_error_stays(items, k, n - 1);
    }
}

/// `seen` holds exactly the hosts of `list`.
spec fn tracks(seen: Set<Seq<char>>, list: Seq<Seq<char>>) -> bool {
    forall|h: Seq<char>| seen.contains(h) <==> #[trigger] list.contains(h)
}

proof fn lemma_tracks_push(seen: Set<Seq<char>>, list: Seq<Seq<char>>, h: Seq<char>)
    requires
        tracks(seen, list),
    ensures
        tracks(seen.insert(h), list.push(h)),
{
    assert forall|g: Seq<char>| seen.insert(h).contains(g) <==> #[trigger] list.push(h).contains(
        g,
    ) by {
        if list.contains(g) {
            let i = choose|i: int| 0 <= i < list.len() && list[i] == g;
            assert(list.push(h)[i] == g);
        }
        if g == h {
            assert(list.push(h)[list.len() as int] == g);
        }
        if list.push(h).contains(g) {
            let i = choose|i: int| 0 <= i < list.push(h).len() && list.push(h)[i] == g;
            if i < list.len() {
                assert(list[i] == g);
            }
        }
    }
}

/// Expands a list of host patterns. A host that comes up twice is an error.
pub fn expand_hostlist(items: &[String]) -> (res: Result<Vec<String>, HostError>)
    ensures
        match res {
            Ok(hosts) => list_expansion(text::texts(items@), items@.len() as int) == Ok::<
                Seq<Seq<char>>,
                HostErrorView,
            >(text::texts(hosts@)),
            Err(e) => list_expansion(text::texts(items@), items@.len() as int) == Err::<
                Seq<Seq<char>>,
                HostErrorView,
            >(e@),
        },
{
    let ghost pats = text::texts(items@);
    let n: usize = items.len();
    let mut out: Vec<String> = Vec::new();
    let mut seen = StringHashSet::new();
    let mut i: usize = 0;
    assert(text::texts(out@) =~= Seq::<Seq<char>>::empty());
    while i < n
        invariant
            n == items@.len(),
            pats == text::texts(items@),
            i <= n,
            tracks(seen@, text::texts(out@)),
            list_expansion(pats, i as int) == Ok::<Seq<Seq<char>>, HostErrorView>(
                text::texts(out@),
            ),
        decreases n - i,
    {
        let ghost before = text::texts(out@);
        let hosts = match expand_pattern(items[i].as_str()) {
            Ok(hosts) => hosts,
            Err(e) => {
                proof {
                    assert(list_expansion(pats, i + 1) == Err::<Seq<Seq<char>>, HostErrorView>(
                        e@,
                    ));
                    lemma_list_error_stays(pats, i + 1, n as int);
                }
                return Err(e);
            },
        };
        let ghost names = text::texts(hosts@);
        let m: usize = hosts.len();
        let mut j: usize = 0;
        while j < m
            invariant
                n == items@.len(),
                pats == text::texts(items@),
                i < n,
                m == hosts@.len(),
                names == text::texts(hosts@),
                j <= m,
                tracks(seen@, text::texts(out@)),
                list_expansion(pats, i as int) == Ok::<Seq<Seq<char>>, HostErrorView>(before),
                expansion(pats[i as int]) == Ok::<Seq<Seq<char>>, HostErrorView>(names),
                add_hosts(before, names, j as int) == Ok::<Seq<Seq<char>>, HostErrorView>(
                    text::texts(out@),
                ),
            decreases m - j,
        {
            let h = hosts[j].clone();
            let ghost list = text::texts(out@);
            let ghost seen_before = seen@;
            if !seen.insert(hosts[j].clone()) {
                proof {
                    assert(list.contains(h@));
                    assert(add_hosts(before, names, j + 1) == Err::<
                        Seq<Seq<char>>,
                        HostErrorView,
                    >(HostErrorOf::Duplicate(h@)));
                    lemma_add_error_stays(before, names, j + 1, m as int);
                    lemma_list_error_stays(pats, i + 1, n as int);
                }
                return Err(HostErrorOf::Duplicate(h));
            }
            proof {
                lemma_tracks_push(seen_before, list, h@);
            }
            out.push(h);
            assert(text::texts(out@) =~= list.push(h@));
            j += 1;
        }
        i += 1;
    }
    Ok(out)
}

/// Every host that a pattern stands for is free of ranges, and there is at
/// least one.
pub proof fn law_hosts_are_plain(pat: Seq<char>)
    ensures
        match expansion(pat) {
            Ok(hosts) => hosts.len() > 0 && forall|i: int|
                0 <= i < hosts.len() ==> range_from(#[trigger] hosts[i], 0) is Nothing,
            Err(_) => true,
        },
    decreases opens(pat), 0nat,
{
    lemma_range_from(pat, 0);
    match range_from(pat, 0) {
        Found::Range(open, close) => {
            lemma_opens_cut(pat, open, close);
            let inner = pat.subrange(open + 1, close);
            let k = number::digits_end(inner, 0);
            let a = number::decimal_value(inner.take(k));
            let b = number::decimal_value(inner.skip(k + 2));
            if range_count(a, b) <= MAX_RANGE {
                lemma_range_plain(
                    pat.take(open),
                    pat.skip(close + 1),
                    a,
                    b,
                    pad_width(inner.take(k)),
                    range_count(a, b),
                );
            }
        },
        _ => {},
    }
}

proof fn lemma_range_plain(
    pre: Seq<char>,
    post: Seq<char>,
    a: nat,
    b: nat,
    width: nat,
    k: nat,
)
    ensures
        match expansion_range(pre, post, a, b, width, k) {
            Ok(hosts) => (k > 0 ==> hosts.len() > 0) && forall|i: int|
                0 <= i < hosts.len() ==> range_from(#[trigger] hosts[i], 0) is Nothing,
            Err(_) => true,
        },
    decreases opens(pre) + opens(post), k,
{
    if k > 0 {
        let item = range_item(a, b, k - 1);
        lemma_opens_item(pre, post, item, width);
        lemma_range_plain(pre, post, a, b, width, (k - 1) as nat);
        law_hosts_are_plain(pre + number::padded(item, width) + post);
    }
}

/// The hosts of all patterns, one after the other.
pub open spec fn all_hosts(items: Seq<Seq<char>>, k: int) -> Seq<Seq<char>>
    decreases k,
{
    if k <= 0 {
        Seq::empty()
    } else {
        all_hosts(items, k - 1) + match expansion(items[k - 1]) {
            Ok(hosts) => hosts,
            Err(_) => Seq::empty(),
        }
    }
}

proof fn lemma_add_hosts(list: Seq<Seq<char>>, hosts: Seq<Seq<char>>, k: int)
    requires
        list.no_duplicates(),
        0 <= k <= hosts.len(),
    ensures
        match add_hosts(list, hosts, k) {
            Ok(out) => out.no_duplicates() && out == list + hosts.take(k),
            Err(e) => !(list + hosts).no_duplicates(),
        },
    decreases k,
{
    if k > 0 {
        lemma_add_hosts(list, hosts, k - 1);
        if let Ok(before) = add_hosts(list, hosts, k - 1) {
            assert(before.push(hosts[k - 1]) =~= list + hosts.take(k));
            if before.contains(hosts[k - 1]) {
                let i = choose|i: int| 0 <= i < before.len() && before[i] == hosts[k - 1];
                let all = list + hosts;
                assert(all[i] == before[i]);
                assert(all[list.len() + k - 1] == hosts[k - 1]);
            }
        }
    } else {
        assert(list + hosts.take(0) =~= list);
    }
}

/// A host list expands exactly if each of its patterns does and no host comes
/// up twice. It then holds the hosts of its patterns in order.
pub proof fn law_expanded_list(items: Seq<Seq<char>>, k: int)
    requires
        0 <= k <= items.len(),
    ensures
        match list_expansion(items, k) {
            Ok(hosts) => {
                &&& hosts == all_hosts(items, k)
                &&& hosts.no_duplicates()
                &&& forall|i: int| 0 <= i < k ==> expansion(#[trigger] items[i]) is Ok
            },
            Err(_) => {
                ||| !all_hosts(items, k).no_duplicates()
                ||| exists|i: int| 0 <= i < k && expansion(#[trigger] items[i]) is Err
            },
        },
    decreases k,
{
    if k > 0 {
        law_expanded_list(items, k - 1);
        let all = all_hosts(items, k);
        let fewer = all_hosts(items, k - 1);
        if !fewer.no_duplicates() {
            let (i, j) = choose|i: int, j: int|
                0 <= i < fewer.len() && 0 <= j < fewer.len() && i != j && fewer[i] == fewer[j];
            assert(all[i] == fewer[i] && all[j] == fewer[j]);
        }
        if let Ok(before) = list_expansion(items, k - 1) {
            if let Ok(hosts) = expansion(items[k - 1]) {
                lemma_add_hosts(before, hosts, hosts.len() as int);
                assert(hosts.take(hosts.len() as int) =~= hosts);
            }
        }
    }
}

/// A list that was expanded expands to itself.
pub proof fn law_expanded_list_is_stable(items: Seq<Seq<char>>)
    ensures
        match list_expansion(items, items.len() as int) {
            Ok(hosts) => list_expansion(hosts, hosts.len() as int) == Ok::<
                Seq<Seq<char>>,
                HostErrorView,
            >(hosts),
            Err(_) => true,
        },
{
    let n = items.len() as int;
    law_expanded_list(items, n);
    if let Ok(hosts) = list_expansion(items, n) {
        lemma_all_plain(items, n);
        lemma_plain_list(hosts, hosts.len() as int);
        assert(hosts.take(hosts.len() as int) =~= hosts);
        law_expanded_list(hosts, hosts.len() as int);
    }
}

proof fn lemma_all_plain(items: Seq<Seq<char>>, k: int)
    requires
        0 <= k <= items.len(),
    ensures
        forall|i: int|
            0 <= i < all_hosts(items, k).len() ==> range_from(
                #[trigger] all_hosts(items, k)[i],
                0,
            ) is Nothing,
    decreases k,
{
    if k > 0 {
        lemma_all_plain(items, k - 1);
        law_hosts_are_plain(items[k - 1]);
        let before = all_hosts(items, k - 1);
        let all = all_hosts(items, k);
        assert forall|i: int| 0 <= i < all.len() implies range_from(
            #[trigger] all[i],
            0,
        ) is Nothing by {
            if i < before.len() {
                assert(all[i] == before[i]);
            } else if let Ok(hosts) = expansion(items[k - 1]) {
                assert(all[i] == hosts[i - before.len()]);
            }
        }
    }
}

proof fn lemma_plain_list(hosts: Seq<Seq<char>>, k: int)
    requires
        0 <= k <= hosts.len(),
        forall|i: int| 0 <= i < hosts.len() ==> range_from(#[trigger] hosts[i], 0) is Nothing,
    ensures
        all_hosts(hosts, k) == hosts.take(k),
        forall|i: int| 0 <= i < k ==> expansion(#[trigger] hosts[i]) is Ok,
    decreases k,
{
    if k > 0 {
        lemma_plain_list(hosts, k - 1);
        assert(expansion(hosts[k - 1]) == Ok::<Seq<Seq<char>>, HostErrorView>(
            seq![hosts[k - 1]],
        ));
    }
    assert(all_hosts(hosts, k) =~= hosts.take(k));
}

/// Place `p` holds a `{` that no `}` follows.
pub open spec fn unclosed(s: Seq<char>, p: int) -> bool {
    0 <= p < s.len() && s[p] == '{' && forall|i: int| p < i < s.len() ==> s[i] != '}'
}

/// A `{` that no `}` follows is found, or a range that ends before it.
proof fn lemma_unclosed_found(s: Seq<char>, p: int, i: int)
    requires
        unclosed(s, p),
        0 <= i <= p,
    ensures
        match range_from(s, i) {
            Found::Range(_, close) => close < p,
            Found::Unterminated => true,
            Found::Nothing => false,
        },
    decreases s.len() - i,
{
    text::lemma_first_from(s, '}', i + 1);
    if i < p {
        lemma_unclosed_found(s, p, i + 1);
    }
}

/// A pattern with a `{` that no `}` follows never expands.
pub proof fn law_open_brace_fails(pat: Seq<char>, p: int)
    requires
        unclosed(pat, p),
    ensures
        expansion(pat) is Err,
    decreases opens(pat), 0nat,
{
    lemma_range_from(pat, 0);
    lemma_unclosed_found(pat, p, 0);
    match range_from(pat, 0) {
        Found::Range(open, close) => {
            lemma_opens_cut(pat, open, close);
            let pre = pat.take(open);
            let post = pat.skip(close + 1);
            let inner = pat.subrange(open + 1, close);
            let k = number::digits_end(inner, 0);
            let a = number::decimal_value(inner.take(k));
            let b = number::decimal_value(inner.skip(k + 2));
            let width = pad_width(inner.take(k));
            let first = number::padded(range_item(a, b, 0), width);
            let one = pre + first + post;
            lemma_opens_item(pre, post, range_item(a, b, 0), width);
            let q = pre.len() + first.len() + p - close - 1;
            assert(one[q] == pat[p]);
            assert forall|i: int| q < i < one.len() implies one[i] != '}' by {
                assert(one[i] == pat[i - q + p]);
            }
            law_open_brace_fails(one, q);
            assert(expansion_range(pre, post, a, b, width, 0) is Ok);
            assert(expansion_range(pre, post, a, b, width, 1) is Err);
            lemma_range_error_stays(pre, post, a, b, width, 1, range_count(a, b));
        },
        _ => {},
    }
}

proof fn lemma_no_opens(s: Seq<char>, i: int)
    requires
        opens(s) == 0,
        0 <= i < s.len(),
    ensures
        s[i] != '{',
    decreases s.len(),
{
    if i < s.len() - 1 {
        lemma_no_opens(s.drop_last(), i);
        assert(s.drop_last()[i] == s[i]);
    }
}

proof fn lemma_nothing_before(s: Seq<char>, i: int, j: int)
    requires
        0 <= i <= j <= s.len(),
        forall|k: int| i <= k < j ==> s[k] != '{',
    ensures
        range_from(s, i) == range_from(s, j),
    decreases j - i,
{
    if i < j {
        lemma_nothing_before(s, i + 1, j);
    }
}

/// The pattern `pre{start..end}post`.
pub open spec fn range_pattern(
    pre: Seq<char>,
    start: Seq<char>,
    end: Seq<char>,
    post: Seq<char>,
) -> Seq<char> {
    pre + seq!['{'] + start + seq!['.', '.'] + end + seq!['}'] + post
}

/// One range in a pattern stands for its numbers in order, each put in the
/// place of the range.
pub proof fn law_single_range(
    pre: Seq<char>,
    start: Seq<char>,
    end: Seq<char>,
    post: Seq<char>,
)
    requires
        opens(pre) == 0,
        opens(post) == 0,
        start.len() > 0,
        end.len() > 0,
        number::all_digits(start),
        number::all_digits(end),
        number::decimal_value(start) <= i64::MAX,
        number::decimal_value(end) <= i64::MAX,
        range_count(number::decimal_value(start), number::decimal_value(end)) <= MAX_RANGE,
    ensures
        ({
            let a = number::decimal_value(start);
            let b = number::decimal_value(end);
            expansion(range_pattern(pre, start, end, post)) == Ok::<
                Seq<Seq<char>>,
                HostErrorView,
            >(
                Seq::new(
                    range_count(a, b),
                    |k: int|
                        pre + number::padded(range_item(a, b, k), pad_width(start)) + post,
                ),
            )
        }),
{
    let a = number::decimal_value(start);
    let b = number::decimal_value(end);
    assert forall|i: int| 0 <= i < pre.len() implies pre[i] != '{' by {
        lemma_no_opens(pre, i);
    }
    lemma_first_range(pre, start, end, post);
    lemma_single_items(pre, post, a, b, pad_width(start), range_count(a, b));
}

/// Where the first range of a pattern is, and what the pattern stands for then.
proof fn lemma_first_range(pre: Seq<char>, start: Seq<char>, end: Seq<char>, post: Seq<char>)
    requires
        !pre.contains('{'),
        start.len() > 0,
        end.len() > 0,
        number::all_digits(start),
        number::all_digits(end),
    ensures
        ({
            let a = number::decimal_value(start);
            let b = number::decimal_value(end);
            let pat = range_pattern(pre, start, end, post);
            expansion(pat) == if a > i64::MAX {
                Err::<Seq<Seq<char>>, HostErrorView>(
                    HostErrorOf::RangeStart(pat, NumberError::TooLarge),
                )
            } else if b > i64::MAX {
                Err(HostErrorOf::RangeEnd(pat, NumberError::TooLarge))
            } else if range_count(a, b) > MAX_RANGE {
                Err(HostErrorOf::TooMany(pat, range_count(a, b) as u64))
            } else {
                expansion_range(pre, post, a, b, pad_width(start), range_count(a, b))
            }
        }),
{
    let pat = range_pattern(pre, start, end, post);
    let open = pre.len() as int;
    let close = open + start.len() + end.len() + 3;
    let inner = pat.subrange(open + 1, close);
    let k = start.len() as int;
    assert(inner =~= start + seq!['.', '.'] + end);
    assert(pat[close] == '}');
    assert forall|i: int| open + 1 <= i < close implies pat[i] != '}' by {
        assert(pat[i] == inner[i - open - 1]);
        let j = i - open - 1;
        if j < k {
            assert(number::is_digit(start[j]));
        } else if j >= k + 2 {
            assert(number::is_digit(end[j - k - 2]));
        }
    }
    text::lemma_first_is(pat, '}', open + 1, close);
    assert forall|i: int| 0 <= i < open implies pat[i] != '{' by {
        assert(pat[i] == pre[i]);
        assert(pre.contains(pre[i]));
    }
    lemma_nothing_before(pat, 0, open);
    assert(number::digits_end(inner, 0) == k) by {
        number::lemma_digits_end(inner, 0);
        let d = number::digits_end(inner, 0);
        if d < k {
            assert(number::is_digit(start[d]));
        } else if d > k {
            assert(number::is_digit(inner[k]));
        }
    }
    assert(number::digits_end(inner, k + 2) == inner.len()) by {
        number::lemma_digits_end(inner, k + 2);
        let d = number::digits_end(inner, k + 2);
        if d < inner.len() {
            assert(number::is_digit(end[d - k - 2]));
        }
    }
    assert(inner.take(k) =~= start);
    assert(inner.skip(k + 2) =~= end);
    assert(pat.take(open) =~= pre);
    assert(pat.skip(close + 1) =~= post);
    assert(range_from(pat, 0) == Found::Range(open, close));
}

proof fn lemma_single_items(
    pre: Seq<char>,
    post: Seq<char>,
    a: nat,
    b: nat,
    width: nat,
    k: nat,
)
    requires
        opens(pre) == 0,
        opens(post) == 0,
    ensures
        expansion_range(pre, post, a, b, width, k) == Ok::<Seq<Seq<char>>, HostErrorView>(
            Seq::new(k, |i: int| pre + number::padded(range_item(a, b, i), width) + post),
        ),
    decreases k,
{
    let all = Seq::new(k, |i: int| pre + number::padded(range_item(a, b, i), width) + post);
    if k == 0 {
        assert(all =~= Seq::empty());
    } else {
        lemma_single_items(pre, post, a, b, width, (k - 1) as nat);
        let host = pre + number::padded(range_item(a, b, k - 1), width) + post;
        lemma_opens_item(pre, post, range_item(a, b, k - 1), width);
        assert forall|i: int| 0 <= i < host.len() implies host[i] != '{' by {
            lemma_no_opens(host, i);
        }
        lemma_nothing_before(host, 0, host.len() as int);
        assert(expansion(host) == Ok::<Seq<Seq<char>>, HostErrorView>(seq![host]));
        assert(all =~= Seq::new(
            (k - 1) as nat,
            |i: int| pre + number::padded(range_item(a, b, i), width) + post,
        ) + seq![host]);
    }
}

proof fn lemma_opens_none(s: Seq<char>)
    requires
        !s.contains('{'),
    ensures
        opens(s) == 0,
    decreases s.len(),
{
    if s.len() > 0 {
        assert(s.contains(s.last()));
        assert forall|i: int| 0 <= i < s.drop_last().len() implies s.drop_last()[i] != '{' by {
            assert(s.drop_last()[i] == s[i]);
            assert(s.contains(s[i]));
        }
        lemma_opens_none(s.drop_last());
    }
}

/// The text between the two others in `host`, which begins with the one and ends
/// with the other.
pub open spec fn middle(pre: Seq<char>, host: Seq<char>, post: Seq<char>) -> Seq<char> {
    host.subrange(pre.len() as int, host.len() - post.len())
}

/// `pre{start..end}post` stands for one host per number from the start to the end,
/// up or down, in order. The first host has the start exactly as it is written. Each
/// has its number between `pre` and `post`: with at least as many digits as the
/// start if that begins with a zero, and otherwise without zeros before it. Of more
/// than 10000 numbers, or of one above the greatest of 63 bits, there are none.
pub proof fn law_range_hosts(pre: Seq<char>, start: Seq<char>, end: Seq<char>, post: Seq<char>)
    requires
        !pre.contains('{'),
        !post.contains('{'),
        start.len() > 0,
        end.len() > 0,
        number::all_digits(start),
        number::all_digits(end),
    ensures
        ({
            let a = number::decimal_value(start) as int;
            let b = number::decimal_value(end) as int;
            let far = if a <= b {
                b - a
            } else {
                a - b
            };
            let fits = a < 0x8000_0000_0000_0000 && b < 0x8000_0000_0000_0000 && far < 10_000;
            let pat = pre + seq!['{'] + start + seq!['.', '.'] + end + seq!['}'] + post;
            match expansion(pat) {
                Err(e) => {
                    &&& !fits
                    &&& e == (if a >= 0x8000_0000_0000_0000 {
                        HostErrorOf::RangeStart(pat, NumberError::TooLarge)
                    } else if b >= 0x8000_0000_0000_0000 {
                        HostErrorOf::RangeEnd(pat, NumberError::TooLarge)
                    } else {
                        HostErrorOf::TooMany(pat, (far + 1) as u64)
                    })
                },
                Ok(hosts) => {
                    &&& fits
                    &&& hosts.len() == far + 1
                    &&& hosts[0] == pre + start + post
                    &&& forall|k: int|
                        0 <= k < hosts.len() ==> {
                            let number = middle(pre, #[trigger] hosts[k], post);
                            &&& hosts[k] == pre + number + post
                            &&& number.len() > 0
                            &&& number::all_digits(number)
                            &&& number::decimal_value(number) == (if a <= b {
                                a + k
                            } else {
                                a - k
                            })
                            &&& start.len() > 1 && start[0] == '0' ==> number.len() >= start.len()
                                && (number.len() > start.len() ==> number[0] != '0')
                            &&& start.len() == 1 || start[0] != '0' ==> number.len() == 1
                                || number[0] != '0'
                        }
                },
            }
        }),
{
    let a = number::decimal_value(start);
    let b = number::decimal_value(end);
    let width = pad_width(start);
    lemma_opens_none(pre);
    lemma_opens_none(post);
    lemma_first_range(pre, start, end, post);
    if let Ok(hosts) = expansion(range_pattern(pre, start, end, post)) {
        law_single_range(pre, start, end, post);
        number::law_digits_come_back(start);
        assert(hosts[0] == pre + number::padded(a, width) + post);
        assert forall|k: int| 0 <= k < hosts.len() implies {
            let number = middle(pre, #[trigger] hosts[k], post);
            &&& hosts[k] == pre + number + post
            &&& number.len() > 0
            &&& number::all_digits(number)
            &&& number::decimal_value(number) == (if a <= b {
                a + k
            } else {
                a - k
            })
            &&& start.len() > 1 && start[0] == '0' ==> number.len() >= start.len() && (number.len()
                > start.len() ==> number[0] != '0')
            &&& start.len() == 1 || start[0] != '0' ==> number.len() == 1 || number[0] != '0'
        } by {
            let item = range_item(a, b, k);
            let text = number::padded(item, width);
            number::law_padded_digits(item, width);
            assert(hosts[k] == pre + text + post);
            assert(middle(pre, hosts[k], post) =~= text);
        }
    } else {
        lemma_single_items(pre, post, a, b, width, range_count(a, b));
    }
}

/// Blocks of `m` hosts each, one after the other: block `i` is `parts[i]`.
proof fn lemma_blocks(
    pre: Seq<char>,
    post: Seq<char>,
    a: nat,
    b: nat,
    width: nat,
    k: nat,
    heads: Seq<Seq<char>>,
    tails: Seq<Seq<char>>,
)
    requires
        k <= heads.len(),
        forall|i: int|
            0 <= i < k ==> expansion(
                pre + number::padded(#[trigger] range_item(a, b, i), width) + post,
            ) == Ok::<Seq<Seq<char>>, HostErrorView>(
                Seq::new(tails.len(), |j: int| heads[i] + tails[j]),
            ),
    ensures
        match expansion_range(pre, post, a, b, width, k) {
            Ok(all) => all.len() == k * tails.len() && forall|i: int, j: int|
                0 <= i < k && 0 <= j < tails.len() ==> #[trigger] all[i * tails.len() + j]
                    == heads[i] + tails[j],
            Err(_) => false,
        },
    decreases k,
{
    let m = tails.len() as int;
    if k == 0 {
        assert(0 * m == 0) by (nonlinear_arith);
    } else {
        let last = k - 1;
        lemma_blocks(pre, post, a, b, width, (k - 1) as nat, heads, tails);
        let before = expansion_range(pre, post, a, b, width, (k - 1) as nat)->Ok_0;
        let item = range_item(a, b, last);
        let more = Seq::new(tails.len(), |j: int| heads[last] + tails[j]);
        let all = expansion_range(pre, post, a, b, width, k)->Ok_0;
        assert(all == before + more);
        assert(k * m == last * m + m) by (nonlinear_arith)
            requires
                last == k - 1,
        ;
        assert forall|i: int, j: int| 0 <= i < k && 0 <= j < m implies #[trigger] all[i * m + j]
            == heads[i] + tails[j] by {
            if i < last {
                assert(0 <= i * m + j < last * m) by (nonlinear_arith)
                    requires
                        0 <= i < last,
                        0 <= j < m,
                ;
                assert(all[i * m + j] == before[i * m + j]);
            } else {
                assert(all[last * m + j] == more[j]);
            }
        }
    }
}

/// Two ranges in a pattern stand for every combination, the first one varying
/// slowest: what is before the cut between them expands by itself, and so does what
/// is after it.
pub proof fn law_ranges_combine(
    pre: Seq<char>,
    start: Seq<char>,
    end: Seq<char>,
    mid: Seq<char>,
    start2: Seq<char>,
    end2: Seq<char>,
    post: Seq<char>,
)
    requires
        !pre.contains('{'),
        !mid.contains('{'),
        !post.contains('{'),
        start.len() > 0,
        end.len() > 0,
        start2.len() > 0,
        end2.len() > 0,
        number::all_digits(start),
        number::all_digits(end),
        number::all_digits(start2),
        number::all_digits(end2),
    ensures
        ({
            let first = pre + seq!['{'] + start + seq!['.', '.'] + end + seq!['}'];
            let second = mid + seq!['{'] + start2 + seq!['.', '.'] + end2 + seq!['}'] + post;
            match (expansion(first), expansion(second)) {
                (Ok(heads), Ok(tails)) => match expansion(first + second) {
                    Ok(all) => all.len() == heads.len() * tails.len() && forall|i: int, j: int|
                        0 <= i < heads.len() && 0 <= j < tails.len() ==> #[trigger] all[i
                            * tails.len() + j] == heads[i] + tails[j],
                    Err(_) => false,
                },
                _ => expansion(first + second) is Err,
            }
        }),
{
    let none = Seq::<char>::empty();
    let a = number::decimal_value(start);
    let b = number::decimal_value(end);
    let width = pad_width(start);
    let n = range_count(a, b);
    let first = pre + seq!['{'] + start + seq!['.', '.'] + end + seq!['}'];
    let second = range_pattern(mid, start2, end2, post);
    lemma_opens_none(pre);
    lemma_opens_none(mid);
    lemma_opens_none(post);
    lemma_opens_none(none);
    assert(range_pattern(pre, start, end, none) =~= first);
    assert(range_pattern(pre, start, end, second) =~= first + second);
    lemma_first_range(pre, start, end, none);
    lemma_first_range(pre, start, end, second);
    lemma_first_range(mid, start2, end2, post);
    let a2 = number::decimal_value(start2);
    let b2 = number::decimal_value(end2);
    lemma_single_items(mid, post, a2, b2, pad_width(start2), range_count(a2, b2));
    if a <= i64::MAX && b <= i64::MAX && n <= MAX_RANGE {
        lemma_single_items(pre, none, a, b, width, n);
        let heads = expansion(first)->Ok_0;
        if expansion(second) is Ok {
            let tails = expansion(second)->Ok_0;
            assert forall|i: int| 0 <= i < n implies expansion(
                pre + number::padded(#[trigger] range_item(a, b, i), width) + second,
            ) == Ok::<Seq<Seq<char>>, HostErrorView>(
                Seq::new(tails.len(), |j: int| heads[i] + tails[j]),
            ) by {
                lemma_rest_expands(pre, range_item(a, b, i), width, mid, start2, end2, post);
                let head = pre + number::padded(range_item(a, b, i), width);
                assert(heads[i] =~= head);
                let got = expansion(head + second)->Ok_0;
                assert(got =~= Seq::new(tails.len(), |j: int| heads[i] + tails[j]));
            }
            lemma_blocks(pre, second, a, b, width, n, heads, tails);
        } else {
            lemma_rest_expands(pre, range_item(a, b, 0), width, mid, start2, end2, post);
            assert(expansion_range(pre, second, a, b, width, 0) is Ok);
            assert(expansion_range(pre, second, a, b, width, 1) is Err);
            lemma_range_error_stays(pre, second, a, b, width, 1, n);
        }
    }
}

/// What is left of a pattern when its first range was replaced by a number.
proof fn lemma_rest_expands(
    pre: Seq<char>,
    item: nat,
    width: nat,
    mid: Seq<char>,
    start: Seq<char>,
    end: Seq<char>,
    post: Seq<char>,
)
    requires
        !pre.contains('{'),
        !mid.contains('{'),
        !post.contains('{'),
        start.len() > 0,
        end.len() > 0,
        number::all_digits(start),
        number::all_digits(end),
    ensures
        ({
            let head = pre + number::padded(item, width);
            let second = range_pattern(mid, start, end, post);
            match (expansion(second), expansion(head + second)) {
                (Ok(tails), Ok(all)) => all.len() == tails.len() && forall|j: int|
                    0 <= j < tails.len() ==> #[trigger] all[j] == head + tails[j],
                (Err(_), Err(_)) => true,
                _ => false,
            }
        }),
{
    let digits = number::padded(item, width);
    let head = pre + digits;
    let front = head + mid;
    let second = range_pattern(mid, start, end, post);
    number::law_padded_digits(item, width);
    assert forall|i: int| 0 <= i < front.len() implies front[i] != '{' by {
        if i < pre.len() {
            assert(front[i] == pre[i]);
            assert(pre.contains(pre[i]));
        } else if i < head.len() {
            assert(front[i] == digits[i - pre.len()]);
            assert(number::is_digit(digits[i - pre.len()]));
        } else {
            assert(front[i] == mid[i - head.len()]);
            assert(mid.contains(mid[i - head.len()]));
        }
    }
    lemma_opens_none(front);
    lemma_opens_none(mid);
    lemma_opens_none(post);
    assert(range_pattern(front, start, end, post) =~= head + second);
    lemma_first_range(front, start, end, post);
    lemma_first_range(mid, start, end, post);
    let a = number::decimal_value(start);
    let b = number::decimal_value(end);
    let n = range_count(a, b);
    lemma_single_items(front, post, a, b, pad_width(start), n);
    lemma_single_items(mid, post, a, b, pad_width(start), n);
    if let (Ok(tails), Ok(all)) = (expansion(second), expansion(head + second)) {
        assert forall|j: int| 0 <= j < tails.len() implies #[trigger] all[j] == head + tails[j] by {
            let text = number::padded(range_item(a, b, j), pad_width(start));
            assert(all[j] == front + text + post);
            assert(tails[j] == mid + text + post);
            assert(front + text + post =~= head + (mid + text + post));
        }
    }
}

/// A host without a brace stands for itself, and so does one whose braces hold
/// something else than two numbers with `..` between them.
pub proof fn law_other_braces_stay(pre: Seq<char>, inner: Seq<char>, post: Seq<char>)
    requires
        !pre.contains('{'),
        !inner.contains('{'),
        !inner.contains('}'),
        !post.contains('{'),
        forall|start: Seq<char>, end: Seq<char>|
            start.len() > 0 && end.len() > 0 && #[trigger] number::all_digits(start)
                && #[trigger] number::all_digits(end) ==> inner != start + seq!['.', '.'] + end,
    ensures
        expansion(pre) == Ok::<Seq<Seq<char>>, HostErrorView>(seq![pre]),
        expansion(pre + seq!['{'] + inner + seq!['}'] + post) == Ok::<
            Seq<Seq<char>>,
            HostErrorView,
        >(seq![pre + seq!['{'] + inner + seq!['}'] + post]),
{
    let pat = pre + seq!['{'] + inner + seq!['}'] + post;
    let open = pre.len() as int;
    let close = open + inner.len() + 1;
    assert forall|i: int| 0 <= i < pre.len() implies pre[i] != '{' by {
        assert(pre.contains(pre[i]));
    }
    lemma_nothing_before(pre, 0, open);
    assert forall|i: int| 0 <= i < open implies pat[i] != '{' by {
        assert(pat[i] == pre[i]);
    }
    lemma_nothing_before(pat, 0, open);
    assert(pat[open] == '{');
    assert forall|i: int| open < i < close implies pat[i] != '}' && pat[i] != '{' by {
        assert(pat[i] == inner[i - open - 1]);
        assert(inner.contains(inner[i - open - 1]));
    }
    assert(pat[close] == '}');
    text::lemma_first_is(pat, '}', open + 1, close);
    assert(pat.subrange(open + 1, close) =~= inner);
    lemma_not_a_range(inner);
    assert forall|i: int| open + 1 <= i < pat.len() implies pat[i] != '{' by {
        if i > close {
            assert(pat[i] == post[i - close - 1]);
            assert(post.contains(post[i - close - 1]));
        }
    }
    lemma_nothing_before(pat, open + 1, pat.len() as int);
    assert(range_from(pat, open) == range_from(pat, open + 1));
    assert(range_from(pat, pat.len() as int) == Found::Nothing);
    assert(range_from(pre, open) == Found::Nothing);
}

/// What a comma separates is split, and nothing else: the hosts of two lists with a
/// comma between them are the hosts of the one and then those of the other. A list
/// without a comma is one host, without the white space around it, or none if it is
/// nothing but that.
pub proof fn law_commas_separate_hosts(a: Seq<char>, b: Seq<char>)
    ensures
        hosts_in(a + seq![','] + b) == hosts_in(a) + hosts_in(b),
        !a.contains(',') && text::trimmed(a).len() > 0 ==> hosts_in(a) == seq![text::trimmed(a)],
        !a.contains(',') && text::trimmed(a).len() == 0 ==> hosts_in(a).len() == 0,
    decreases a.len(),
{
    let s = a + seq![','] + b;
    let comma = text::first(a, ',');
    text::lemma_first_from(a, ',', 0);
    assert forall|i: int| 0 <= i < comma implies s[i] != ',' by {
        assert(s[i] == a[i]);
    }
    if comma < a.len() {
        assert(s[comma] == ',');
        text::lemma_first_is(s, ',', 0, comma);
        assert(s.take(comma) =~= a.take(comma));
        let rest = a.skip(comma + 1);
        assert(s.skip(comma + 1) =~= rest + seq![','] + b);
        law_commas_separate_hosts(rest, b);
        let host = text::trimmed(a.take(comma));
        let head = if host.len() > 0 {
            seq![host]
        } else {
            Seq::empty()
        };
        assert(head + (hosts_in(rest) + hosts_in(b)) =~= (head + hosts_in(rest)) + hosts_in(b));
        assert(a.contains(','));
    } else {
        assert(s[comma] == ',');
        text::lemma_first_is(s, ',', 0, comma);
        assert(s.take(comma) =~= a);
        assert(a.take(comma) =~= a);
        assert(s.skip(comma + 1) =~= b);
    }
}

/// Host `h` stands at two places of the list.
pub open spec fn comes_twice(list: Seq<Seq<char>>, h: Seq<char>) -> bool {
    exists|i: int, j: int|
        0 <= i < j < list.len() && #[trigger] list[i] == h && #[trigger] list[j] == h
}

proof fn lemma_added_twice(list: Seq<Seq<char>>, hosts: Seq<Seq<char>>, k: int)
    requires
        0 <= k <= hosts.len(),
    ensures
        match add_hosts(list, hosts, k) {
            Ok(out) => out == list + hosts.take(k),
            Err(HostErrorOf::Duplicate(h)) => comes_twice(list + hosts, h),
            Err(_) => false,
        },
    decreases k,
{
    let all = list + hosts;
    if k > 0 {
        lemma_added_twice(list, hosts, k - 1);
        if let Ok(before) = add_hosts(list, hosts, k - 1) {
            let h = hosts[k - 1];
            assert(before.push(h) =~= list + hosts.take(k));
            if before.contains(h) {
                let i = choose|i: int| 0 <= i < before.len() && before[i] == h;
                assert(all[i] == before[i]);
                assert(all[list.len() + k - 1] == h);
            }
        }
    } else {
        assert(list + hosts.take(0) =~= list);
    }
}

/// What is wrong with a host list: a host that comes up twice, which is named, or what is
/// wrong with the first pattern that cannot be expanded.
pub proof fn law_errors_of_a_list(items: Seq<Seq<char>>, k: int)
    requires
        0 <= k <= items.len(),
    ensures
        match list_expansion(items, k) {
            Ok(hosts) => hosts == all_hosts(items, k),
            Err(HostErrorOf::Duplicate(h)) => comes_twice(all_hosts(items, k), h),
            Err(e) => exists|i: int|
                0 <= i < k && #[trigger] expansion(items[i]) == Err::<
                    Seq<Seq<char>>,
                    HostErrorView,
                >(e) && forall|j: int| 0 <= j < i ==> #[trigger] expansion(items[j]) is Ok,
        },
    decreases k,
{
    if k > 0 {
        law_errors_of_a_list(items, k - 1);
        law_expanded_list(items, k - 1);
        let all = all_hosts(items, k);
        let fewer = all_hosts(items, k - 1);
        assert forall|h: Seq<char>| comes_twice(fewer, h) implies comes_twice(all, h) by {
            let (i, j) = choose|i: int, j: int|
                0 <= i < j < fewer.len() && #[trigger] fewer[i] == h && #[trigger] fewer[j] == h;
            assert(all[i] == h && all[j] == h);
        }
        match list_expansion(items, k - 1) {
            Ok(before) => {
                match expansion(items[k - 1]) {
                    Ok(hosts) => {
                        lemma_added_twice(before, hosts, hosts.len() as int);
                        assert(hosts.take(hosts.len() as int) =~= hosts);
                        assert(all == before + hosts);
                    },
                    Err(e) => {
                        lemma_expansion_error(items[k - 1]);
                        assert forall|j: int| 0 <= j < k - 1 implies #[trigger] expansion(
                            items[j],
                        ) is Ok by {
                            assert(expansion(items[j]) is Ok);
                        }
                    },
                }
            },
            Err(HostErrorOf::Duplicate(h)) => {
                assert(comes_twice(all, h));
            },
            Err(e) => {
                let i = choose|i: int|
                    0 <= i < k - 1 && #[trigger] expansion(items[i]) == Err::<
                        Seq<Seq<char>>,
                        HostErrorView,
                    >(e) && forall|j: int| 0 <= j < i ==> #[trigger] expansion(items[j]) is Ok;
                assert(expansion(items[i]) is Err);
            },
        }
    }
}

/// A pattern by itself has no host twice as its error.
proof fn lemma_expansion_error(pat: Seq<char>)
    ensures
        match expansion(pat) {
            Err(HostErrorOf::Duplicate(_)) => false,
            _ => true,
        },
    decreases opens(pat), 0nat,
{
    lemma_range_from(pat, 0);
    match range_from(pat, 0) {
        Found::Range(open, close) => {
            lemma_opens_cut(pat, open, close);
            let inner = pat.subrange(open + 1, close);
            let k = number::digits_end(inner, 0);
            let a = number::decimal_value(inner.take(k));
            let b = number::decimal_value(inner.skip(k + 2));
            lemma_expansion_range_error(
                pat.take(open),
                pat.skip(close + 1),
                a,
                b,
                pad_width(inner.take(k)),
                range_count(a, b),
            );
        },
        _ => {},
    }
}

proof fn lemma_expansion_range_error(
    pre: Seq<char>,
    post: Seq<char>,
    a: nat,
    b: nat,
    width: nat,
    k: nat,
)
    ensures
        match expansion_range(pre, post, a, b, width, k) {
            Err(HostErrorOf::Duplicate(_)) => false,
            _ => true,
        },
    decreases opens(pre) + opens(post), k,
{
    if k > 0 {
        let item = range_item(a, b, k - 1);
        lemma_opens_item(pre, post, item, width);
        lemma_expansion_range_error(pre, post, a, b, width, (k - 1) as nat);
        lemma_expansion_error(pre + number::padded(item, width) + post);
    }
}

/// What a search finds, further on in the text.
spec fn shifted(f: Found, by: int) -> Found {
    match f {
        Found::Range(open, close) => Found::Range(open + by, close + by),
        other => other,
    }
}

/// What a search finds in the second part of a text.
proof fn lemma_range_shift(front: Seq<char>, s: Seq<char>, i: int)
    requires
        0 <= i <= s.len(),
    ensures
        range_from(front + s, front.len() + i) == shifted(range_from(s, i), front.len() as int),
    decreases s.len() - i,
{
    let all = front + s;
    let n = front.len() as int;
    if i < s.len() {
        assert(all[n + i] == s[i]);
        lemma_range_shift(front, s, i + 1);
        text::lemma_first_from(s, '}', i + 1);
        let close = text::first_from(s, '}', i + 1);
        assert forall|j: int| n + i + 1 <= j < n + close implies all[j] != '}' by {
            assert(all[j] == s[j - n]);
        }
        if close < s.len() {
            assert(all[n + close] == '}');
        }
        text::lemma_first_is(all, '}', n + i + 1, n + close);
        if close < s.len() {
            assert(all.subrange(n + i + 1, n + close) =~= s.subrange(i + 1, close));
        }
    }
}

/// Nothing in this text is, or becomes, part of a range: it holds no `{`, or one whose
/// braces hold something else than two numbers with `..` between them.
pub open spec fn no_range(pre: Seq<char>, inner: Option<Seq<char>>) -> bool {
    &&& !pre.contains('{')
    &&& inner is Some ==> {
        &&& !inner->0.contains('{')
        &&& !inner->0.contains('}')
        &&& forall|start: Seq<char>, end: Seq<char>|
            start.len() > 0 && end.len() > 0 && #[trigger] number::all_digits(start)
                && #[trigger] number::all_digits(end) ==> inner->0 != start + seq!['.', '.'] + end
    }
}

/// The text, with what is between its braces, if it has any.
pub open spec fn with_braces(pre: Seq<char>, inner: Option<Seq<char>>) -> Seq<char> {
    match inner {
        Some(s) => pre + seq!['{'] + s + seq!['}'],
        None => pre,
    }
}

proof fn lemma_front_is_passed(pre: Seq<char>, inner: Option<Seq<char>>, rest: Seq<char>)
    requires
        no_range(pre, inner),
    ensures
        range_from(with_braces(pre, inner) + rest, 0) == shifted(
            range_from(rest, 0),
            with_braces(pre, inner).len() as int,
        ),
{
    let front = with_braces(pre, inner);
    let pat = front + rest;
    let open = pre.len() as int;
    lemma_range_shift(front, rest, 0);
    assert forall|i: int| 0 <= i < open implies pat[i] != '{' by {
        assert(pat[i] == pre[i]);
        assert(pre.contains(pre[i]));
    }
    lemma_nothing_before(pat, 0, open);
    if let Some(s) = inner {
        let close = open + s.len() + 1;
        assert(pat[open] == '{');
        assert forall|i: int| open < i < close implies pat[i] != '}' && pat[i] != '{' by {
            assert(pat[i] == s[i - open - 1]);
            assert(s.contains(s[i - open - 1]));
        }
        assert(pat[close] == '}');
        text::lemma_first_is(pat, '}', open + 1, close);
        assert(pat.subrange(open + 1, close) =~= s);
        lemma_not_a_range(s);
        lemma_nothing_before(pat, open + 1, close + 1);
    }
}

/// What is not two numbers with `..` between them is no range.
proof fn lemma_not_a_range(inner: Seq<char>)
    requires
        forall|start: Seq<char>, end: Seq<char>|
            start.len() > 0 && end.len() > 0 && #[trigger] number::all_digits(start)
                && #[trigger] number::all_digits(end) ==> inner != start + seq!['.', '.'] + end,
    ensures
        !is_range(inner),
{
    if is_range(inner) {
        let k = number::digits_end(inner, 0);
        number::lemma_digits_end(inner, 0);
        number::lemma_digits_end(inner, k + 2);
        let start = inner.take(k);
        let end = inner.skip(k + 2);
        assert forall|i: int| 0 <= i < start.len() implies number::is_digit(#[trigger] start[i]) by {
            assert(number::is_digit(inner[i]));
        }
        assert forall|i: int| 0 <= i < end.len() implies number::is_digit(#[trigger] end[i]) by {
            assert(number::is_digit(inner[i + k + 2]));
        }
        assert(number::all_digits(start) && number::all_digits(end));
        assert(inner =~= start + seq!['.', '.'] + end);
    }
}

/// What is before the ranges of a pattern stays before each of its hosts, be it plain or
/// with braces that are no range: the rest of the pattern expands as it would alone.
pub proof fn law_front_of_a_pattern_stays(
    pre: Seq<char>,
    inner: Option<Seq<char>>,
    rest: Seq<char>,
)
    requires
        no_range(pre, inner),
    ensures
        match (expansion(rest), expansion(with_braces(pre, inner) + rest)) {
            (Ok(hosts), Ok(all)) => all.len() == hosts.len() && forall|i: int|
                0 <= i < hosts.len() ==> #[trigger] all[i] == with_braces(pre, inner) + hosts[i],
            (Err(_), Err(_)) => true,
            _ => false,
        },
    decreases opens(rest), 0nat,
{
    let front = with_braces(pre, inner);
    let n = front.len() as int;
    let pat = front + rest;
    lemma_front_is_passed(pre, inner, rest);
    lemma_range_from(rest, 0);
    if let Found::Range(open, close) = range_from(rest, 0) {
        lemma_opens_cut(rest, open, close);
        let part = rest.subrange(open + 1, close);
        assert(pat.subrange(n + open + 1, n + close) =~= part);
        assert(pat.take(n + open) =~= front + rest.take(open));
        assert(pat.skip(n + close + 1) =~= rest.skip(close + 1));
        let k = number::digits_end(part, 0);
        let a = number::decimal_value(part.take(k));
        let b = number::decimal_value(part.skip(k + 2));
        lemma_front_of_items(
            pre,
            inner,
            rest.take(open),
            rest.skip(close + 1),
            a,
            b,
            pad_width(part.take(k)),
            range_count(a, b),
        );
    }
}

proof fn lemma_front_of_items(
    pre: Seq<char>,
    inner: Option<Seq<char>>,
    head: Seq<char>,
    post: Seq<char>,
    a: nat,
    b: nat,
    width: nat,
    k: nat,
)
    requires
        no_range(pre, inner),
    ensures
        match (
            expansion_range(head, post, a, b, width, k),
            expansion_range(with_braces(pre, inner) + head, post, a, b, width, k),
        ) {
            (Ok(hosts), Ok(all)) => all.len() == hosts.len() && forall|i: int|
                0 <= i < hosts.len() ==> #[trigger] all[i] == with_braces(pre, inner) + hosts[i],
            (Err(_), Err(_)) => true,
            _ => false,
        },
    decreases opens(head) + opens(post), k,
{
    let front = with_braces(pre, inner);
    if k > 0 {
        let item = range_item(a, b, k - 1);
        let one = head + number::padded(item, width) + post;
        lemma_opens_item(head, post, item, width);
        lemma_front_of_items(pre, inner, head, post, a, b, width, (k - 1) as nat);
        law_front_of_a_pattern_stays(pre, inner, one);
        assert(front + head + number::padded(item, width) + post =~= front + one);
        let x = expansion_range(head, post, a, b, width, (k - 1) as nat);
        let y = expansion_range(front + head, post, a, b, width, (k - 1) as nat);
        if x is Ok && expansion(one) is Ok {
            let (before, more) = (x->Ok_0, expansion(one)->Ok_0);
            let (first, next) = (y->Ok_0, expansion(front + one)->Ok_0);
            let hosts = before + more;
            let all = first + next;
            assert forall|i: int| 0 <= i < hosts.len() implies #[trigger] all[i] == front
                + hosts[i] by {
                if i < before.len() {
                    assert(all[i] == first[i] && hosts[i] == before[i]);
                } else {
                    assert(all[i] == next[i - before.len()]);
                    assert(hosts[i] == more[i - before.len()]);
                }
            }
        }
    }
}

} // verus!
