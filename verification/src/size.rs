//! Sizes in bytes as text: `100MiB`, `64KiB`, `1GB`, or a plain number.
use vstd::prelude::*;

use crate::number;
use crate::rounding;
use crate::text;

verus! {

/// Why a text is no size. `S` is the type of the texts in it.
#[derive(Debug, Clone)]
pub enum SizeErrorOf<S> {
    /// There is nothing but white space.
    Empty,
    /// This text does not begin with a number.
    Invalid(S),
    /// The number that this text begins with is malformed.
    Number(S),
    /// The first text is no unit; the second is the size it was found in.
    Unit(S, S),
    /// This size is too large.
    OutOfRange(S),
}

pub type SizeError = SizeErrorOf<String>;

pub type SizeErrorView = SizeErrorOf<Seq<char>>;

impl View for SizeErrorOf<String> {
    type V = SizeErrorOf<Seq<char>>;

    open spec fn view(&self) -> SizeErrorOf<Seq<char>> {
        match self {
            SizeErrorOf::Empty => SizeErrorOf::Empty,
            SizeErrorOf::Invalid(s) => SizeErrorOf::Invalid(s@),
            SizeErrorOf::Number(s) => SizeErrorOf::Number(s@),
            SizeErrorOf::Unit(u, s) => SizeErrorOf::Unit(u@, s@),
            SizeErrorOf::OutOfRange(s) => SizeErrorOf::OutOfRange(s@),
        }
    }
}

/// The message of a size error, without its cause.
pub open spec fn size_error_head(e: SizeErrorView) -> Seq<char> {
    match e {
        SizeErrorOf::Empty => "empty size"@,
        SizeErrorOf::Invalid(s) => "invalid size "@ + text::quoted(s),
        SizeErrorOf::Number(s) => "invalid size number in "@ + text::quoted(s),
        SizeErrorOf::Unit(u, s) => "unknown size unit "@ + text::quoted(u) + " in "@ + text::quoted(
            s,
        ),
        SizeErrorOf::OutOfRange(s) => "size "@ + text::quoted(s) + " is out of range"@,
    }
}

/// The message of a size error, with its cause.
pub open spec fn size_error_text(e: SizeErrorView) -> Seq<char> {
    match e {
        SizeErrorOf::Number(_) => size_error_head(e) + ": invalid float literal"@,
        _ => size_error_head(e),
    }
}

impl SizeErrorOf<String> {
    /// The message of the error, with its cause.
    pub fn message(&self) -> (res: String)
        ensures
            res@ == size_error_text(self@),
    {
        let mut out = self.head();
        if let SizeErrorOf::Number(_) = self {
            out.append(": invalid float literal");
        }
        out
    }

    /// The message of the error, without its cause.
    pub fn head(&self) -> (res: String)
        ensures
            res@ == size_error_head(self@),
    {
        let mut out = String::new();
        match self {
            SizeErrorOf::Empty => {
                out.append("empty size");
            },
            SizeErrorOf::Invalid(s) => {
                out.append("invalid size ");
                out.append(text::quote(s.as_str()).as_str());
            },
            SizeErrorOf::Number(s) => {
                out.append("invalid size number in ");
                out.append(text::quote(s.as_str()).as_str());
            },
            SizeErrorOf::Unit(u, s) => {
                out.append("unknown size unit ");
                out.append(text::quote(u.as_str()).as_str());
                out.append(" in ");
                out.append(text::quote(s.as_str()).as_str());
            },
            SizeErrorOf::OutOfRange(s) => {
                out.append("size ");
                out.append(text::quote(s.as_str()).as_str());
                out.append(" is out of range");
            },
        }
        assert(out@ =~= size_error_head(self@));
        out
    }
}

/// How many bytes a unit stands for; the unit is in small letters.
pub open spec fn unit_bytes(unit: Seq<char>) -> Option<nat> {
    if unit == ""@ || unit == "b"@ {
        Some(1)
    } else if unit == "k"@ || unit == "kb"@ {
        Some(1000)
    } else if unit == "ki"@ || unit == "kib"@ {
        Some(1024)
    } else if unit == "m"@ || unit == "mb"@ {
        Some(1_000_000)
    } else if unit == "mi"@ || unit == "mib"@ {
        Some(1_048_576)
    } else if unit == "g"@ || unit == "gb"@ {
        Some(1_000_000_000)
    } else if unit == "gi"@ || unit == "gib"@ {
        Some(1_073_741_824)
    } else {
        None
    }
}

/// `p / q` times `factor` in double precision, rounded to a whole number, half
/// up. `None` above 2^64; the greatest `u64` where the result is 2^64.
pub open spec fn times(p: nat, q: nat, factor: nat) -> Option<u64> {
    let (a, b) = rounding::nearest(p, q);
    let (c, d) = rounding::nearest(a * factor, b);
    if c > 0x1_0000_0000_0000_0000 * d {
        None
    } else if (2 * c + d) / (2 * d) > u64::MAX {
        Some(u64::MAX)
    } else {
        Some(((2 * c + d) / (2 * d)) as u64)
    }
}

/// Where the digits and points at the start of `s` end.
pub open spec fn number_end(s: Seq<char>, from: int) -> int
    decreases s.len() - from,
{
    if from < s.len() && (number::is_digit(s[from]) || s[from] == '.') {
        number_end(s, from + 1)
    } else {
        from
    }
}

/// The size that a number and a unit give. `s` is the text they stand in.
pub open spec fn size_with_unit(s: Seq<char>, number: Seq<char>, unit: Seq<char>) -> Result<
    u64,
    SizeErrorView,
> {
    let point = text::first(number, '.');
    let whole = number.take(point);
    let places = if point < number.len() {
        number.skip(point + 1)
    } else {
        Seq::empty()
    };
    if places.contains('.') || whole.len() + places.len() == 0 {
        Err(SizeErrorOf::Number(s))
    } else {
        match unit_bytes(unit) {
            None => Err(SizeErrorOf::Unit(unit, s)),
            Some(factor) => match times(
                number::decimal_value(whole + places),
                rounding::ten_to(places.len()),
                factor,
            ) {
                None => Err(SizeErrorOf::OutOfRange(s)),
                Some(n) => Ok(n),
            },
        }
    }
}

/// The size that a text spells: a whole number of bytes, or a number with an
/// optional unit.
pub open spec fn size_of_text(whole_text: Seq<char>) -> Result<u64, SizeErrorView> {
    let s = text::trimmed(whole_text);
    if s.len() == 0 {
        Err(SizeErrorOf::Empty)
    } else {
        match number::unsigned(s, u64::MAX as nat) {
            Ok(n) => Ok(n as u64),
            Err(_) => {
                let end = number_end(s, 0);
                if end == 0 {
                    Err(SizeErrorOf::Invalid(s))
                } else {
                    size_with_unit(s, s.take(end), text::lowered(text::trimmed(s.skip(end))))
                }
            },
        }
    }
}

proof fn lemma_value_add(s: Seq<char>, t: Seq<char>)
    ensures
        number::decimal_value(s + t) == number::decimal_value(s) * rounding::ten_to(t.len())
            + number::decimal_value(t),
    decreases t.len(),
{
    let v = number::decimal_value(s);
    if t.len() == 0 {
        assert(s + t =~= s);
        assert(v * 1 == v);
    } else {
        lemma_value_add(s, t.drop_last());
        assert((s + t).drop_last() =~= s + t.drop_last());
        let k = rounding::ten_to((t.len() - 1) as nat);
        assert((v * k) * 10 == v * (10 * k)) by (nonlinear_arith);
    }
}

/// The digits of a text as numbers.
pub open spec fn digit_values(s: Seq<char>) -> Seq<u8> {
    Seq::new(s.len(), |i: int| number::digit_value(s[i]) as u8)
}

proof fn lemma_suffix_value(s: Seq<char>, i: int)
    requires
        number::all_digits(s),
        0 <= i <= s.len(),
    ensures
        rounding::digits_from(digit_values(s), i) == number::decimal_value(s.skip(i)),
    decreases s.len() - i,
{
    let rest = s.skip(i);
    if i < s.len() {
        lemma_suffix_value(s, i + 1);
        let head = seq![s[i]];
        lemma_value_add(head, s.skip(i + 1));
        assert(head + s.skip(i + 1) =~= rest);
        assert(head.drop_last() =~= Seq::<char>::empty());
        assert(number::decimal_value(head.drop_last()) == 0);
        assert(number::is_digit(s[i]));
        assert(number::decimal_value(head) == number::digit_value(s[i]));
    }
}

/// What the whole computation gives, from the factors that it is done with.
proof fn lemma_times(p: nat, q: nat, factor: nat, den: nat, t: nat, x: nat, n: nat)
    requires
        q > 0,
        rounding::nearest(p, q).1 == den,
        rounding::nearest(p, q).0 * factor == x,
        den == vstd::arithmetic::power2::pow2(t),
        rounding::nearest(x, 1) == (n, 1nat),
    ensures
        den > 0,
        n > 0x1_0000_0000_0000_0000 * den ==> times(p, q, factor) is None,
        n <= 0x1_0000_0000_0000_0000 * den ==> times(p, q, factor) == Some(
            if (2 * n + den) / (2 * den) > u64::MAX {
                u64::MAX
            } else {
                ((2 * n + den) / (2 * den)) as u64
            },
        ),
{
    rounding::lemma_nearest_over(x, t);
    vstd::arithmetic::power2::lemma_pow2_pos(t);
    let (c, d) = rounding::nearest(x, den);
    assert(c * den * 1 == c * den);
    assert(c * den == n * d);
    let limit: nat = 0x1_0000_0000_0000_0000;
    assert((c > limit * d) == (n > limit * den)) by (nonlinear_arith)
        requires
            c * den == n * d,
            d > 0,
            den > 0,
    ;
    let v = (2 * n + den) / (2 * den);
    let r = (2 * n + den) % (2 * den);
    vstd::arithmetic::div_mod::lemma_fundamental_div_mod((2 * n + den) as int, (2 * den) as int);
    assert(2 * n + den == (2 * den) * v + r);
    let low = 2 * c + d;
    assert((2 * d) * v <= low) by (nonlinear_arith)
        requires
            2 * n + den >= (2 * den) * v,
            c * den == n * d,
            low == 2 * c + d,
            den > 0,
    ;
    assert(low < (2 * d) * v + 2 * d) by (nonlinear_arith)
        requires
            2 * n + den < (2 * den) * v + 2 * den,
            c * den == n * d,
            low == 2 * c + d,
            den > 0,
            d > 0,
    ;
    let over = low - v * (2 * d);
    assert((2 * d) * v == v * (2 * d)) by (nonlinear_arith);
    vstd::arithmetic::div_mod::lemma_fundamental_div_mod_converse(
        low as int,
        (2 * d) as int,
        v as int,
        over,
    );
}

/// A value below 2^-48 stays below one half.
proof fn lemma_times_tiny(p: nat, q: nat, factor: nat)
    requires
        q > 0,
        factor <= 1_073_741_824,
        p * rounding::TINY < rounding::TWO_52 * q,
    ensures
        times(p, q, factor) == Some(0u64),
{
    let (a, b) = rounding::nearest(p, q);
    let (c, d) = rounding::nearest(a * factor, b);
    rounding::lemma_nearest_positive(p, q);
    rounding::lemma_nearest_positive(a * factor, b);
    rounding::lemma_nearest_bounds(p, q);
    rounding::lemma_nearest_bounds(a * factor, b);
    let af = a * factor;
    assert(af * q <= 2 * (p * b) * factor) by (nonlinear_arith)
        requires
            af == a * factor,
            a * q <= 2 * (p * b),
    ;
    assert((c * b) * q <= 2 * (af * d) * q) by (nonlinear_arith)
        requires
            c * b <= 2 * (af * d),
    ;
    assert((c * b) * q <= 4 * ((p * b) * factor) * d) by (nonlinear_arith)
        requires
            (c * b) * q <= 2 * (af * d) * q,
            af * q <= 2 * (p * b) * factor,
    ;
    assert(b * (c * q) <= b * (4 * (p * factor) * d)) by (nonlinear_arith)
        requires
            (c * b) * q <= 4 * ((p * b) * factor) * d,
    ;
    assert(c * q <= 4 * (p * factor) * d) by (nonlinear_arith)
        requires
            b * (c * q) <= b * (4 * (p * factor) * d),
            b > 0,
    ;
    assert(16 * (p * factor) < q) by (nonlinear_arith)
        requires
            p * rounding::TINY < rounding::TWO_52 * q,
            factor <= 1_073_741_824,
            rounding::TINY == 0x10_0000_0000_0000_0000_0000_0000,
            rounding::TWO_52 == 0x10_0000_0000_0000,
    ;
    assert(2 * c < d) by (nonlinear_arith)
        requires
            c * q <= 4 * (p * factor) * d,
            16 * (p * factor) < q,
            q > 0,
            d > 0,
    ;
    vstd::arithmetic::div_mod::lemma_basic_div((2 * c + d) as int, (2 * d) as int);
    assert(c <= 0x1_0000_0000_0000_0000 * d);
}

/// A value of 2^67 or more is out of range.
proof fn lemma_times_huge(p: nat, q: nat, factor: nat)
    requires
        q > 0,
        factor >= 1,
        p >= 0x8_0000_0000_0000_0000 * q,
    ensures
        times(p, q, factor) is None,
{
    let (a, b) = rounding::nearest(p, q);
    let (c, d) = rounding::nearest(a * factor, b);
    rounding::lemma_nearest_positive(p, q);
    rounding::lemma_nearest_positive(a * factor, b);
    rounding::lemma_nearest_bounds(p, q);
    rounding::lemma_nearest_bounds(a * factor, b);
    let af = a * factor;
    assert(a >= 0x4_0000_0000_0000_0000 * b) by (nonlinear_arith)
        requires
            p * b <= 2 * (a * q),
            p >= 0x8_0000_0000_0000_0000 * q,
            q > 0,
            b > 0,
    ;
    assert(af >= a) by (nonlinear_arith)
        requires
            af == a * factor,
            factor >= 1,
    ;
    assert(c >= 0x2_0000_0000_0000_0000 * d) by (nonlinear_arith)
        requires
            af * d <= 2 * (c * b),
            af >= 0x4_0000_0000_0000_0000 * b,
            b > 0,
            d > 0,
    ;
}

/// `whole.places` times `factor`, in double precision, as a size.
fn scale(whole: &[char], places: &[char], factor: u64) -> (res: Option<u64>)
    requires
        number::all_digits(whole@),
        number::all_digits(places@),
        1 <= factor <= 1_073_741_824,
    ensures
        res == times(
            number::decimal_value(whole@ + places@),
            rounding::ten_to(places@.len()),
            factor as nat,
        ),
{
    let ghost p = number::decimal_value(whole@ + places@);
    let ghost q = rounding::ten_to(places@.len());
    proof {
        lemma_value_add(whole@, places@);
        lemma_ten_to_positive(places@.len());
    }
    let n: usize = whole.len();
    let mut value: u128 = 0;
    let mut i: usize = 0;
    assert(whole@.take(0) =~= Seq::<char>::empty());
    while i < n
        invariant
            n == whole@.len(),
            i <= n,
            q > 0,
            q == rounding::ten_to(places@.len()),
            factor >= 1,
            p == number::decimal_value(whole@ + places@),
            p == number::decimal_value(whole@) * q + number::decimal_value(places@),
            number::all_digits(whole@),
            value == number::decimal_value(whole@.take(i as int)),
            value < 0x8_0000_0000_0000_0000,
        decreases n - i,
    {
        assert(number::is_digit(whole@[i as int]));
        value = value * 10 + ((whole[i] as u32 - '0' as u32) as u128);
        i += 1;
        assert(whole@.take(i as int).drop_last() =~= whole@.take(i - 1));
        if value >= 0x8_0000_0000_0000_0000 {
            proof {
                number::lemma_value_grows(whole@, i as int, n as int);
                assert(whole@.take(n as int) =~= whole@);
                let w = number::decimal_value(whole@);
                assert(w * q >= 0x8_0000_0000_0000_0000 * q) by (nonlinear_arith)
                    requires
                        w >= 0x8_0000_0000_0000_0000,
                ;
                lemma_times_huge(p, q, factor as nat);
            }
            return None;
        }
    }
    assert(whole@.take(n as int) =~= whole@);
    let m: usize = places.len();
    let mut digits: Vec<u8> = Vec::new();
    let mut j: usize = 0;
    while j < m
        invariant
            m == places@.len(),
            j <= m,
            number::all_digits(places@),
            digits@.len() == j,
            forall|k: int|
                0 <= k < j ==> #[trigger] digits@[k] == number::digit_value(places@[k]) as u8,
        decreases m - j,
    {
        assert(number::is_digit(places@[j as int]));
        digits.push((places[j] as u32 - '0' as u32) as u8);
        j += 1;
    }
    proof {
        assert(digits@ =~= digit_values(places@));
        assert forall|k: int| 0 <= k < digits@.len() implies #[trigger] digits@[k] < 10 by {
            assert(number::is_digit(places@[k]));
        }
        lemma_suffix_value(places@, 0);
        assert(places@.skip(0) =~= places@);
        assert(rounding::numerator(value as nat, digits@) == p);
    }
    let (first, unit, den) = match rounding::nearest_decimal(value, digits) {
        None => {
            proof {
                lemma_times_tiny(p, q, factor as nat);
            }
            return Some(0);
        },
        Some(rounded) => rounded,
    };
    let ghost t = choose|t: nat| den == vstd::arithmetic::power2::pow2(t);
    proof {
        assert(unit < 0x1_0000) by (nonlinear_arith)
            requires
                unit == 1 || unit * rounding::TWO_52 <= value,
                value < 0x8_0000_0000_0000_0000,
                rounding::TWO_52 == 0x10_0000_0000_0000,
        ;
        assert(first as nat * unit as nat <= 0x20_0000_0000_0000 * 0x1_0000) by (nonlinear_arith)
            requires
                first <= 0x20_0000_0000_0000,
                unit < 0x1_0000,
        ;
        assert(first as nat * unit as nat >= rounding::TWO_52) by (nonlinear_arith)
            requires
                first >= rounding::TWO_52,
                unit >= 1,
        ;
    }
    let exact: u128 = first as u128 * unit;
    proof {
        assert(exact * factor <= 0x20_0000_0000_0000 * 0x1_0000 * 1_073_741_824)
            by (nonlinear_arith)
            requires
                exact <= 0x20_0000_0000_0000 * 0x1_0000,
                factor <= 1_073_741_824,
        ;
        assert(exact * factor >= rounding::TWO_52) by (nonlinear_arith)
            requires
                exact >= rounding::TWO_52,
                factor >= 1,
        ;
    }
    let product: u128 = exact * factor as u128;
    let none: Vec<u8> = Vec::new();
    assert(rounding::numerator(product as nat, none@) == product) by {
        let x = product as nat;
        assert(x * 1 == x);
        assert(rounding::digits_from(none@, 0) == 0);
    }
    let (second, up, _) = match rounding::nearest_decimal(product, none) {
        None => {
            assert(false);
            return None;
        },
        Some(rounded) => rounded,
    };
    proof {
        assert(second as nat * up as nat <= 2 * product + rounding::TWO_53) by (nonlinear_arith)
            requires
                second <= rounding::TWO_53,
                up == 1 || up * rounding::TWO_52 <= product,
                rounding::TWO_53 == 2 * rounding::TWO_52,
        ;
    }
    let total: u128 = second as u128 * up;
    proof {
        lemma_times(
            p,
            q,
            factor as nat,
            den as nat,
            t,
            product as nat,
            total as nat,
        );
        let limit: nat = 0x1_0000_0000_0000_0000;
        let k = total as nat / den as nat;
        let r = total as nat % den as nat;
        vstd::arithmetic::div_mod::lemma_fundamental_div_mod(total as int, den as int);
        assert((total as nat > limit * den as nat) == (k > limit || (k == limit && r > 0)))
            by (nonlinear_arith)
            requires
                total as nat == den as nat * k + r,
                r < den,
                den > 0,
        ;
    }
    if total / den > 0x1_0000_0000_0000_0000 || (total / den == 0x1_0000_0000_0000_0000 && total
        % den > 0) {
        return None;
    }
    let rounded: u128 = (2 * total + den) / (2 * den);
    if rounded > u64::MAX as u128 {
        Some(u64::MAX)
    } else {
        Some(rounded as u64)
    }
}

proof fn lemma_ten_to_positive(k: nat)
    ensures
        rounding::ten_to(k) > 0,
    decreases k,
{
    if k > 0 {
        lemma_ten_to_positive((k - 1) as nat);
    }
}

/// How many bytes a unit in small letters stands for.
fn unit_factor(unit: &[char]) -> (res: Option<u64>)
    ensures
        match res {
            Some(n) => unit_bytes(unit@) == Some(n as nat) && 1 <= n <= 1_073_741_824,
            None => unit_bytes(unit@) is None,
        },
{
    if text::spells(unit, "") || text::spells(unit, "b") {
        Some(1)
    } else if text::spells(unit, "k") || text::spells(unit, "kb") {
        Some(1000)
    } else if text::spells(unit, "ki") || text::spells(unit, "kib") {
        Some(1024)
    } else if text::spells(unit, "m") || text::spells(unit, "mb") {
        Some(1_000_000)
    } else if text::spells(unit, "mi") || text::spells(unit, "mib") {
        Some(1_048_576)
    } else if text::spells(unit, "g") || text::spells(unit, "gb") {
        Some(1_000_000_000)
    } else if text::spells(unit, "gi") || text::spells(unit, "gib") {
        Some(1_073_741_824)
    } else {
        None
    }
}

proof fn lemma_number_end(s: Seq<char>, from: int)
    requires
        0 <= from <= s.len(),
    ensures
        from <= number_end(s, from) <= s.len(),
        forall|i: int|
            from <= i < number_end(s, from) ==> number::is_digit(#[trigger] s[i]) || s[i] == '.',
    decreases s.len() - from,
{
    if from < s.len() && (number::is_digit(s[from]) || s[from] == '.') {
        lemma_number_end(s, from + 1);
    }
}

/// Parses sizes like `100MiB`, `64KiB`, `1GB`, or a plain number of bytes.
pub fn parse_size(s: &str) -> (res: Result<u64, SizeError>)
    ensures
        match res {
            Ok(n) => size_of_text(s@) == Ok::<u64, SizeErrorView>(n),
            Err(e) => size_of_text(s@) == Err::<u64, SizeErrorView>(e@),
        },
{
    let chars = text::chars_of(s);
    let t = text::trim(chars.as_slice());
    let n: usize = t.len();
    if n == 0 {
        return Err(SizeErrorOf::Empty);
    }
    if let Ok(v) = number::parse_unsigned(t, u64::MAX) {
        return Ok(v);
    }
    let mut end: usize = 0;
    while end < n && (number::digit(t[end]) || t[end] == '.')
        invariant
            n == t@.len(),
            end <= n,
            number_end(t@, 0) == number_end(t@, end as int),
        decreases n - end,
    {
        end += 1;
    }
    if end == 0 {
        return Err(SizeErrorOf::Invalid(text::string_of(t)));
    }
    let digits = text::part(t, 0, end);
    let point: usize = text::find_from(digits, '.', 0);
    let whole = text::part(digits, 0, point);
    let places = if point < end {
        text::part(digits, point + 1, end)
    } else {
        text::part(digits, end, end)
    };
    proof {
        lemma_number_end(t@, 0);
        assert(digits@ =~= t@.take(end as int));
        assert(whole@ =~= digits@.take(point as int));
        if point < end {
            assert(places@ =~= digits@.skip(point + 1));
        } else {
            assert(places@ =~= Seq::<char>::empty());
        }
        assert forall|i: int| 0 <= i < whole@.len() implies number::is_digit(
            #[trigger] whole@[i],
        ) by {
            assert(digits@[i] != '.');
            assert(number::is_digit(t@[i]) || t@[i] == '.');
        }
    }
    let stray: usize = text::find_from(places, '.', 0);
    assert(places@.contains('.') <==> stray < places@.len()) by {
        if stray < places@.len() {
            assert(places@[stray as int] == '.');
        }
    }
    if stray < places.len() || (whole.len() == 0 && places.len() == 0) {
        return Err(SizeErrorOf::Number(text::string_of(t)));
    }
    assert forall|i: int| 0 <= i < places@.len() implies number::is_digit(
        #[trigger] places@[i],
    ) by {
        assert(places@[i] != '.');
        assert(number::is_digit(t@[i + point + 1]) || t@[i + point + 1] == '.');
    }
    let rest = text::part(t, end, n);
    assert(rest@ =~= t@.skip(end as int));
    let unit = text::lower(text::trim(rest));
    let factor: u64 = match unit_factor(unit.as_slice()) {
        None => {
            return Err(
                SizeErrorOf::Unit(text::string_of(unit.as_slice()), text::string_of(t)),
            );
        },
        Some(factor) => factor,
    };
    match scale(whole, places, factor) {
        None => Err(SizeErrorOf::OutOfRange(text::string_of(t))),
        Some(v) => Ok(v),
    }
}

/// A plain number of bytes is read as it stands.
pub proof fn law_plain_number(n: u64)
    ensures
        size_of_text(number::decimal(n as nat)) == Ok::<u64, SizeErrorView>(n),
{
    let s = number::decimal(n as nat);
    number::lemma_decimal(n as nat);
    assert(number::is_digit(s[0]) && number::is_digit(s.last()));
    text::lemma_trimmed_fixed(s);
    number::law_unsigned_of_decimal(n as nat, u64::MAX as nat);
}

/// Whole numbers are scaled exactly up to 2^53.
proof fn lemma_times_exact(n: nat, factor: nat)
    requires
        factor >= 1,
        n * factor < rounding::TWO_53,
    ensures
        times(n, 1, factor) == Some((n * factor) as u64),
{
    let (a, b) = rounding::nearest(n, 1);
    let (c, d) = rounding::nearest(a * factor, b);
    let v = n * factor;
    assert(n <= v) by (nonlinear_arith)
        requires
            v == n * factor,
            factor >= 1,
    ;
    rounding::lemma_nearest_exact(n, 1);
    rounding::lemma_nearest_positive(n, 1);
    assert(n * 1 == n);
    assert(a * factor == v * b) by (nonlinear_arith)
        requires
            a == n * b,
            v == n * factor,
    ;
    rounding::lemma_nearest_exact(v, b);
    rounding::lemma_nearest_positive(v * b, b);
    assert(c == v * d);
    assert(c <= 0x1_0000_0000_0000_0000 * d) by (nonlinear_arith)
        requires
            c == v * d,
            v <= 0x1_0000_0000_0000_0000,
    ;
    assert(2 * c + d == v * (2 * d) + d) by (nonlinear_arith)
        requires
            c == v * d,
    ;
    vstd::arithmetic::div_mod::lemma_fundamental_div_mod_converse(
        (2 * c + d) as int,
        (2 * d) as int,
        v as int,
        d as int,
    );
}

/// A whole number with a unit, such as `64KiB`, is that many units, exactly
/// up to 2^53 bytes. Capital and small letters in the unit are the same.
pub proof fn law_whole_units(n: nat, unit: Seq<char>, factor: nat)
    requires
        unit_bytes(text::lowered(unit)) == Some(factor),
        unit.len() > 0,
        forall|i: int|
            0 <= i < unit.len() ==> !text::is_space(#[trigger] unit[i]) && !number::is_digit(
                unit[i],
            ) && unit[i] != '.',
        n * factor < rounding::TWO_53,
    ensures
        size_of_text(number::decimal(n) + unit) == Ok::<u64, SizeErrorView>((n * factor) as u64),
{
    let digits = number::decimal(n);
    let s = digits + unit;
    number::lemma_decimal(n);
    assert(number::is_digit(digits[0]));
    assert(s[0] == digits[0]);
    assert(s.last() == unit.last());
    text::lemma_trimmed_fixed(s);
    // The unit is no digit, so this is no plain number.
    number::lemma_digits_end(s, 0);
    let end = number::digits_end(s, 0);
    assert(end <= digits.len()) by {
        if end > digits.len() {
            assert(number::is_digit(s[digits.len() as int]));
            assert(s[digits.len() as int] == unit[0]);
        }
    }
    // The number is the digits.
    lemma_number_end(s, 0);
    let stop = number_end(s, 0);
    assert(stop == digits.len()) by {
        if stop > digits.len() {
            assert(s[digits.len() as int] == unit[0]);
        } else if stop < digits.len() {
            lemma_number_end_stops(s, 0);
            assert(number::is_digit(digits[stop]));
        }
    }
    assert(s.take(stop) =~= digits);
    assert(s.skip(stop) =~= unit);
    text::lemma_trimmed_fixed(unit);
    assert forall|i: int| 0 <= i < digits.len() implies digits[i] != '.' by {
        assert(number::is_digit(digits[i]));
    }
    text::lemma_first_is(digits, '.', 0, digits.len() as int);
    assert(digits.take(digits.len() as int) =~= digits);
    assert(digits + Seq::<char>::empty() =~= digits);
    assert(factor >= 1);
    lemma_times_exact(n, factor);
}

proof fn lemma_number_end_stops(s: Seq<char>, from: int)
    requires
        0 <= from <= s.len(),
    ensures
        number_end(s, from) < s.len() ==> !number::is_digit(s[number_end(s, from)])
            && s[number_end(s, from)] != '.',
    decreases s.len() - from,
{
    if from < s.len() && (number::is_digit(s[from]) || s[from] == '.') {
        lemma_number_end_stops(s, from + 1);
    }
}

/// The text is the word, each of its letters small or capital.
pub open spec fn spelled(text: Seq<char>, small: Seq<char>, capital: Seq<char>) -> bool {
    text.len() == small.len() && forall|i: int|
        0 <= i < text.len() ==> #[trigger] text[i] == small[i] || text[i] == capital[i]
}

spec fn lowered_is(text: Seq<char>, small: Seq<char>) -> bool {
    text::lowered(text) == small
}

/// The capital letters are those of the small ones.
spec fn are_capitals(small: Seq<char>, capital: Seq<char>) -> bool {
    small.len() == capital.len() && forall|i: int|
        0 <= i < small.len() ==> 'a' <= #[trigger] small[i] <= 'z' && capital[i] as int
            == small[i] as int - 32
}

proof fn lemma_capitals(text: Seq<char>, small: Seq<char>, capital: Seq<char>)
    requires
        are_capitals(small, capital),
    ensures
        lowered_is(text, small) <==> spelled(text, small, capital),
        spelled(text, small, capital) ==> forall|i: int|
            0 <= i < text.len() ==> !text::is_space(#[trigger] text[i]) && !number::is_digit(
                text[i],
            ) && text[i] != '.',
{
    let low = text::lowered(text);
    if lowered_is(text, small) {
        assert forall|i: int| 0 <= i < text.len() implies #[trigger] text[i] == small[i] || text[i]
            == capital[i] by {
            assert(low[i] == text::ascii_lower(text[i]));
            assert('a' <= small[i] <= 'z');
        }
    }
    if spelled(text, small, capital) {
        assert forall|i: int| 0 <= i < text.len() implies low[i] == small[i] by {
            assert('a' <= small[i] <= 'z');
            assert(text[i] == small[i] || text[i] == capital[i]);
        }
        assert(low =~= small);
        assert forall|i: int| 0 <= i < text.len() implies !text::is_space(#[trigger] text[i])
            && !number::is_digit(text[i]) && text[i] != '.' by {
            assert('a' <= small[i] <= 'z');
            assert(text[i] == small[i] || text[i] == capital[i]);
        }
    }
}

/// A number and a unit, with or without white space between them, are read as such.
proof fn lemma_number_and_unit(num: Seq<char>, blanks: Seq<char>, unit: Seq<char>)
    requires
        num.len() > 0,
        forall|i: int| 0 <= i < num.len() ==> number::is_digit(#[trigger] num[i]) || num[i] == '.',
        forall|i: int| 0 <= i < blanks.len() ==> text::is_space(#[trigger] blanks[i]),
        unit.len() > 0,
        forall|i: int|
            0 <= i < unit.len() ==> !text::is_space(#[trigger] unit[i]) && !number::is_digit(
                unit[i],
            ) && unit[i] != '.',
    ensures
        size_of_text(num + blanks + unit) == size_with_unit(
            num + blanks + unit,
            num,
            text::lowered(unit),
        ),
{
    let s = num + blanks + unit;
    let n = num.len() as int;
    assert(number::is_digit(num[0]) || num[0] == '.');
    assert(s[0] == num[0]);
    assert(s.last() == unit.last());
    text::lemma_trimmed_fixed(s);
    let next = s[n];
    assert(!number::is_digit(next) && next != '.') by {
        if blanks.len() > 0 {
            assert(next == blanks[0]);
        } else {
            assert(next == unit[0]);
        }
    }
    number::lemma_digits_end(s, 0);
    let end = number::digits_end(s, 0);
    assert(end <= n) by {
        if end > n {
            assert(number::is_digit(s[n]));
        }
    }
    lemma_number_end(s, 0);
    let stop = number_end(s, 0);
    assert(stop == n) by {
        if stop > n {
            assert(number::is_digit(s[n]) || s[n] == '.');
        } else if stop < n {
            lemma_number_end_stops(s, 0);
            assert(s[stop] == num[stop]);
        }
    }
    assert(s.take(stop) =~= num);
    assert(s.skip(stop) =~= blanks + unit + Seq::<char>::empty());
    text::law_trimming(blanks, unit, Seq::empty());
}

/// A whole number and a unit are read as that many units, exactly below 2^53 bytes:
/// `k` is 1000 and `ki` is 1024, `m` and `g` are that to the second and third power,
/// each with or without `b` behind it, in small or capital letters, and with or
/// without white space before it. No other letters are a unit.
pub proof fn law_units(digits: Seq<char>, blanks: Seq<char>, unit: Seq<char>)
    requires
        digits.len() > 0,
        number::all_digits(digits),
        forall|i: int| 0 <= i < blanks.len() ==> text::is_space(#[trigger] blanks[i]),
    ensures
        ({
            let n = number::decimal_value(digits);
            let got = size_of_text(digits + blanks + unit);
            &&& (spelled(unit, "b"@, "B"@))
                && n * 1 < 0x20_0000_0000_0000 ==> got == Ok::<u64, SizeErrorView>(
                (n * 1) as u64,
            )
            &&& (spelled(unit, "k"@, "K"@)
                || spelled(unit, "kb"@, "KB"@))
                && n * 1000 < 0x20_0000_0000_0000 ==> got == Ok::<u64, SizeErrorView>(
                (n * 1000) as u64,
            )
            &&& (spelled(unit, "ki"@, "KI"@)
                || spelled(unit, "kib"@, "KIB"@))
                && n * 1024 < 0x20_0000_0000_0000 ==> got == Ok::<u64, SizeErrorView>(
                (n * 1024) as u64,
            )
            &&& (spelled(unit, "m"@, "M"@)
                || spelled(unit, "mb"@, "MB"@))
                && n * (1000 * 1000) < 0x20_0000_0000_0000 ==> got == Ok::<u64, SizeErrorView>(
                (n * (1000 * 1000)) as u64,
            )
            &&& (spelled(unit, "mi"@, "MI"@)
                || spelled(unit, "mib"@, "MIB"@))
                && n * (1024 * 1024) < 0x20_0000_0000_0000 ==> got == Ok::<u64, SizeErrorView>(
                (n * (1024 * 1024)) as u64,
            )
            &&& (spelled(unit, "g"@, "G"@)
                || spelled(unit, "gb"@, "GB"@))
                && n * (1000 * 1000 * 1000) < 0x20_0000_0000_0000 ==> got == Ok::<u64, SizeErrorView>(
                (n * (1000 * 1000 * 1000)) as u64,
            )
            &&& (spelled(unit, "gi"@, "GI"@)
                || spelled(unit, "gib"@, "GIB"@))
                && n * (1024 * 1024 * 1024) < 0x20_0000_0000_0000 ==> got == Ok::<u64, SizeErrorView>(
                (n * (1024 * 1024 * 1024)) as u64,
            )
        }),
        size_of_text(digits + blanks + unit) is Ok && unit.len() > 0 && (forall|i: int|
            0 <= i < unit.len() ==> !text::is_space(#[trigger] unit[i]) && !number::is_digit(
                unit[i],
            ) && unit[i] != '.') ==> {
            ||| spelled(unit, "b"@, "B"@)
            ||| spelled(unit, "k"@, "K"@)
            ||| spelled(unit, "kb"@, "KB"@)
            ||| spelled(unit, "ki"@, "KI"@)
            ||| spelled(unit, "kib"@, "KIB"@)
            ||| spelled(unit, "m"@, "M"@)
            ||| spelled(unit, "mb"@, "MB"@)
            ||| spelled(unit, "mi"@, "MI"@)
            ||| spelled(unit, "mib"@, "MIB"@)
            ||| spelled(unit, "g"@, "G"@)
            ||| spelled(unit, "gb"@, "GB"@)
            ||| spelled(unit, "gi"@, "GI"@)
            ||| spelled(unit, "gib"@, "GIB"@)
        },
{
    let n = number::decimal_value(digits);
    let s = digits + blanks + unit;
    let low = text::lowered(unit);
    reveal_strlit("");
    reveal_strlit("b");
    reveal_strlit("B");
    reveal_strlit("k");
    reveal_strlit("K");
    reveal_strlit("kb");
    reveal_strlit("KB");
    reveal_strlit("ki");
    reveal_strlit("KI");
    reveal_strlit("kib");
    reveal_strlit("KIB");
    reveal_strlit("m");
    reveal_strlit("M");
    reveal_strlit("mb");
    reveal_strlit("MB");
    reveal_strlit("mi");
    reveal_strlit("MI");
    reveal_strlit("mib");
    reveal_strlit("MIB");
    reveal_strlit("g");
    reveal_strlit("G");
    reveal_strlit("gb");
    reveal_strlit("GB");
    reveal_strlit("gi");
    reveal_strlit("GI");
    reveal_strlit("gib");
    reveal_strlit("GIB");
    assert(are_capitals("b"@, "B"@));
    lemma_capitals(unit, "b"@, "B"@);
    assert(are_capitals("k"@, "K"@));
    lemma_capitals(unit, "k"@, "K"@);
    assert(are_capitals("kb"@, "KB"@));
    lemma_capitals(unit, "kb"@, "KB"@);
    assert(are_capitals("ki"@, "KI"@));
    lemma_capitals(unit, "ki"@, "KI"@);
    assert(are_capitals("kib"@, "KIB"@));
    lemma_capitals(unit, "kib"@, "KIB"@);
    assert(are_capitals("m"@, "M"@));
    lemma_capitals(unit, "m"@, "M"@);
    assert(are_capitals("mb"@, "MB"@));
    lemma_capitals(unit, "mb"@, "MB"@);
    assert(are_capitals("mi"@, "MI"@));
    lemma_capitals(unit, "mi"@, "MI"@);
    assert(are_capitals("mib"@, "MIB"@));
    lemma_capitals(unit, "mib"@, "MIB"@);
    assert(are_capitals("g"@, "G"@));
    lemma_capitals(unit, "g"@, "G"@);
    assert(are_capitals("gb"@, "GB"@));
    lemma_capitals(unit, "gb"@, "GB"@);
    assert(are_capitals("gi"@, "GI"@));
    lemma_capitals(unit, "gi"@, "GI"@);
    assert(are_capitals("gib"@, "GIB"@));
    lemma_capitals(unit, "gib"@, "GIB"@);
    assert("b"@[0] == 'b');
    assert("k"@[0] == 'k');
    assert("kb"@[0] == 'k' && "kb"@[1] == 'b');
    assert("ki"@[0] == 'k' && "ki"@[1] == 'i');
    assert("kib"@[0] == 'k' && "kib"@[1] == 'i' && "kib"@[2] == 'b');
    assert("m"@[0] == 'm');
    assert("mb"@[0] == 'm' && "mb"@[1] == 'b');
    assert("mi"@[0] == 'm' && "mi"@[1] == 'i');
    assert("mib"@[0] == 'm' && "mib"@[1] == 'i' && "mib"@[2] == 'b');
    assert("g"@[0] == 'g');
    assert("gb"@[0] == 'g' && "gb"@[1] == 'b');
    assert("gi"@[0] == 'g' && "gi"@[1] == 'i');
    assert("gib"@[0] == 'g' && "gib"@[1] == 'i' && "gib"@[2] == 'b');
    assert(low.len() == unit.len());
    let known = unit_bytes(low) is Some && unit.len() > 0;
    if known || (unit.len() > 0 && forall|i: int|
        0 <= i < unit.len() ==> !text::is_space(#[trigger] unit[i]) && !number::is_digit(unit[i])
            && unit[i] != '.') {
        lemma_whole_number(digits, blanks, unit);
        if let Some(factor) = unit_bytes(low) {
            if n * factor < rounding::TWO_53 {
                lemma_times_exact(n, factor);
            }
        }
    }
}

/// Two roundings to 53 bits and one to a whole number leave the exact product by half a
/// unit at most, and a tiny part of it.
proof fn lemma_close(p: nat, q: nat, f: nat, a: nat, b: nat, c: nat, d: nat, res: nat)
    requires
        q > 0,
        b > 0,
        d > 0,
        (a * q - p * b) * 0x10_0000_0000_0000 <= p * b,
        (p * b - a * q) * 0x10_0000_0000_0000 <= p * b,
        (c * b - a * f * d) * 0x10_0000_0000_0000 <= a * f * d,
        (a * f * d - c * b) * 0x10_0000_0000_0000 <= a * f * d,
        2 * d * res <= 2 * c + d < 2 * d * res + 2 * d,
    ensures
        (2 * (res * q - p * f) - q) * 0x2_0000_0000_0000 <= p * f,
        (2 * (p * f - res * q) - q) * 0x2_0000_0000_0000 <= p * f,
{
    let m = q * b * d;
    let e: int = 0x10_0000_0000_0000;
    let t1 = (res * d - c) * (q * b);
    let t2 = (c * b - a * f * d) * q;
    let t3 = (a * q - p * b) * (f * d);
    assert(2 * d * res == 2 * (res * d)) by (nonlinear_arith);
    assert(-m <= 2 * t1 <= m) by (nonlinear_arith)
        requires
            t1 == (res * d - c) * (q * b),
            m == q * b * d,
            -d <= 2 * (res * d - c) <= d,
            q > 0,
            b > 0,
    ;
    let whole = p * f * (b * d);
    assert(whole >= 0) by (nonlinear_arith)
        requires
            whole == p * f * (b * d),
            p >= 0,
            f >= 0,
            b > 0,
            d > 0,
    ;
    assert(-whole <= e * t3 <= whole) by (nonlinear_arith)
        requires
            whole == p * f * (b * d),
            t3 == (a * q - p * b) * (f * d),
            (a * q - p * b) * e <= p * b,
            (p * b - a * q) * e <= p * b,
            f >= 0,
            d > 0,
    ;
    let part = a * f * d * q;
    assert(a * q <= 2 * (p * b)) by (nonlinear_arith)
        requires
            (a * q - p * b) * e <= p * b,
            e == 0x10_0000_0000_0000,
            p * b >= 0,
    ;
    assert(part <= 2 * whole) by (nonlinear_arith)
        requires
            part == a * f * d * q,
            whole == p * f * (b * d),
            a * q <= 2 * (p * b),
            f >= 0,
            d > 0,
    ;
    assert(-part <= e * t2 <= part) by (nonlinear_arith)
        requires
            part == a * f * d * q,
            t2 == (c * b - a * f * d) * q,
            (c * b - a * f * d) * e <= a * f * d,
            (a * f * d - c * b) * e <= a * f * d,
            q > 0,
    ;
    let over = res * q - p * f;
    let x = res * q * (b * d);
    let y = c * b * q;
    assert(t1 == x - y) by (nonlinear_arith)
        requires
            t1 == (res * d - c) * (q * b),
            x == res * q * (b * d),
            y == c * b * q,
    ;
    assert(t2 == y - part) by (nonlinear_arith)
        requires
            t2 == (c * b - a * f * d) * q,
            y == c * b * q,
            part == a * f * d * q,
    ;
    assert(t3 == part - whole) by (nonlinear_arith)
        requires
            t3 == (a * q - p * b) * (f * d),
            part == a * f * d * q,
            whole == p * f * (b * d),
    ;
    let all = over * (b * d);
    assert(x - whole == all) by (nonlinear_arith)
        requires
            over == res * q - p * f,
            x == res * q * (b * d),
            whole == p * f * (b * d),
            all == over * (b * d),
    ;
    assert((2 * all - m) * 0x2_0000_0000_0000 <= whole);
    assert((-2 * all - m) * 0x2_0000_0000_0000 <= whole);
    let k: int = 0x2_0000_0000_0000;
    assert((2 * over - q) * k <= p * f && (-2 * over - q) * k <= p * f) by (nonlinear_arith)
        requires
            (2 * all - m) * k <= whole,
            (-2 * all - m) * k <= whole,
            all == over * (b * d),
            m == q * b * d,
            whole == p * f * (b * d),
            b > 0,
            d > 0,
    ;
}

/// `n` is `exact / scale`, rounded to the nearest whole number, up to one part in 2^49 of
/// the whole.
pub open spec fn is_nearly(n: u64, exact: int, scale: int) -> bool {
    &&& (2 * (n * scale - exact) - scale) * 0x2_0000_0000_0000 <= exact
    &&& (2 * (exact - n * scale) - scale) * 0x2_0000_0000_0000 <= exact
}

/// What the product of `p / q` and a factor is read as, below 2^63.
proof fn lemma_times_nearly(p: nat, q: nat, f: nat)
    requires
        q > 0,
        p * f < 0x8000_0000_0000_0000 * q,
    ensures
        times(p, q, f) is Some,
        is_nearly(times(p, q, f)->0, (p * f) as int, q as int),
{
    let (a, b) = rounding::nearest(p, q);
    let (c, d) = rounding::nearest(a * f, b);
    rounding::law_rounding_is_close(p, q);
    rounding::law_rounding_is_close(a * f, b);
    let res = (2 * c + d) / (2 * d);
    vstd::arithmetic::div_mod::lemma_fundamental_div_mod((2 * c + d) as int, (2 * d) as int);
    assert(2 * d * res <= 2 * c + d < 2 * d * res + 2 * d);
    lemma_close(p, q, f, a, b, c, d, res);
    let k: int = 0x2_0000_0000_0000;
    let rq = res * q;
    let pf = p * f;
    assert(rq < 0x9000_0000_0000_0000 * q);
    assert(res < 0x9000_0000_0000_0000) by (nonlinear_arith)
        requires
            res * q < 0x9000_0000_0000_0000 * q,
            q > 0,
    ;
    assert(c <= 0x1_0000_0000_0000_0000 * d) by (nonlinear_arith)
        requires
            2 * c + d < 2 * d * res + 2 * d,
            res < 0x9000_0000_0000_0000,
            d > 0,
    ;
}

/// A number with decimal places times its unit, below 2^63 bytes, is read as the nearest
/// whole number of bytes, as far as 53 bits can tell. `factor` is what one unit is read
/// as.
pub proof fn law_decimal_places(
    whole: Seq<char>,
    places: Seq<char>,
    blanks: Seq<char>,
    unit: Seq<char>,
    factor: nat,
)
    requires
        number::all_digits(whole),
        number::all_digits(places),
        whole.len() + places.len() > 0,
        forall|i: int| 0 <= i < blanks.len() ==> text::is_space(#[trigger] blanks[i]),
        unit.len() > 0,
        forall|i: int|
            0 <= i < unit.len() ==> !text::is_space(#[trigger] unit[i]) && !number::is_digit(
                unit[i],
            ) && unit[i] != '.',
        size_of_text(seq!['1'] + unit) == Ok::<u64, SizeErrorView>(factor as u64),
        factor < 0x8000_0000,
        number::decimal_value(whole + places) * factor < 0x8000_0000_0000_0000
            * vstd::arithmetic::power::pow(10, places.len()),
    ensures
        match size_of_text(whole + seq!['.'] + places + blanks + unit) {
            Ok(n) => is_nearly(
                n,
                (number::decimal_value(whole + places) * factor) as int,
                vstd::arithmetic::power::pow(10, places.len()),
            ),
            Err(_) => false,
        },
{
    lemma_places(whole, places, blanks, unit, factor);
    lemma_ten_to_power(places.len());
    lemma_ten_to_positive(places.len());
    lemma_times_nearly(
        number::decimal_value(whole + places),
        rounding::ten_to(places.len()),
        factor,
    );
}

/// A whole number times its unit, below 2^63 bytes, is read as that many bytes, as far as
/// 53 bits can tell; one of 2^65 bytes or more is out of range. `factor` is what one unit
/// is read as.
pub proof fn law_large_sizes(
    digits: Seq<char>,
    blanks: Seq<char>,
    unit: Seq<char>,
    factor: nat,
)
    requires
        digits.len() > 0,
        number::all_digits(digits),
        forall|i: int| 0 <= i < blanks.len() ==> text::is_space(#[trigger] blanks[i]),
        unit.len() > 0,
        forall|i: int|
            0 <= i < unit.len() ==> !text::is_space(#[trigger] unit[i]) && !number::is_digit(
                unit[i],
            ) && unit[i] != '.',
        size_of_text(seq!['1'] + unit) == Ok::<u64, SizeErrorView>(factor as u64),
        factor < 0x8000_0000,
    ensures
        ({
            let s = digits + blanks + unit;
            let exact = number::decimal_value(digits) * factor;
            &&& exact < 0x8000_0000_0000_0000 ==> match size_of_text(s) {
                Ok(n) => is_nearly(n, exact as int, 1),
                Err(_) => false,
            }
            &&& exact > 0x2_0000_0000_0000_0000 ==> size_of_text(s) == Err::<u64, SizeErrorView>(
                SizeErrorOf::OutOfRange(s),
            )
        }),
{
    let p = number::decimal_value(digits);
    lemma_whole_number(digits, blanks, unit);
    lemma_unit_of_one(unit, factor);
    if p * factor < 0x8000_0000_0000_0000 {
        lemma_times_nearly(p, 1, factor);
    }
    if p * factor > 0x2_0000_0000_0000_0000 {
        lemma_times_range(p, 1, factor);
    }
}

/// Half a byte more than a whole number of bytes is read as the next whole number.
pub proof fn law_halves_go_up(whole: Seq<char>, blanks: Seq<char>)
    requires
        whole.len() > 0,
        number::all_digits(whole),
        number::decimal_value(whole) < 0x4_0000_0000_0000,
        forall|i: int| 0 <= i < blanks.len() ==> text::is_space(#[trigger] blanks[i]),
    ensures
        size_of_text(whole + seq!['.'] + seq!['5'] + blanks + seq!['b']) == Ok::<
            u64,
            SizeErrorView,
        >((number::decimal_value(whole) + 1) as u64),
{
    let places = seq!['5'];
    let unit = seq!['b'];
    let none = Seq::<char>::empty();
    let one = seq!['1'];
    reveal_strlit("b");
    assert("b"@ =~= unit);
    assert(text::lowered(unit) =~= "b"@);
    assert(number::is_digit(one[0]));
    lemma_whole_number(one, none, unit);
    assert(one + none + unit =~= one + unit);
    assert(one.drop_last() =~= none);
    assert(number::decimal_value(one.drop_last()) == 0);
    assert(number::decimal_value(one) == 1);
    lemma_times_exact(1, 1);
    lemma_places(whole, places, blanks, unit, 1);
    assert(places.drop_last() =~= none);
    assert(number::decimal_value(places.drop_last()) == 0);
    let w = number::decimal_value(whole);
    lemma_value_add(whole, places);
    reveal_with_fuel(rounding::ten_to, 2);
    assert(places.len() == 1 && places.last() == '5');
    assert(number::decimal_value(places) == 5);
    assert(rounding::ten_to(1) == 10);
    let m = 2 * w + 1;
    let p = number::decimal_value(whole + places);
    assert(p == m * 5);
    let (a, b) = rounding::nearest(p, 10);
    rounding::lemma_nearest_exact(m, 5);
    rounding::lemma_nearest_halved(p, 5);
    let (x, y) = rounding::nearest(p, 5);
    assert(2 * a == m * b) by (nonlinear_arith)
        requires
            a * 2 * y == x * b,
            x == m * y,
            y > 0,
    ;
    assert(a * 1 == a);
    let (c, d) = rounding::nearest(a, b);
    rounding::lemma_nearest_double_both(a, b);
    rounding::lemma_nearest_exact(m, b);
    rounding::lemma_nearest_halved(m * b, b);
    let (u, v) = rounding::nearest(m * b, b);
    assert(2 * c == m * d) by (nonlinear_arith)
        requires
            c * 2 * v == u * d,
            u == m * v,
            v > 0,
    ;
    assert(2 * c + d == (w + 1) * (2 * d)) by (nonlinear_arith)
        requires
            2 * c == m * d,
            m == 2 * w + 1,
    ;
    vstd::arithmetic::div_mod::lemma_fundamental_div_mod_converse(
        (2 * c + d) as int,
        (2 * d) as int,
        (w + 1) as int,
        0,
    );
    assert(c <= 0x1_0000_0000_0000_0000 * d) by (nonlinear_arith)
        requires
            2 * c == m * d,
            m < 0x10_0000_0000_0000,
    ;
}

/// What digits and a unit are read as.
proof fn lemma_whole_number(digits: Seq<char>, blanks: Seq<char>, unit: Seq<char>)
    requires
        digits.len() > 0,
        number::all_digits(digits),
        forall|i: int| 0 <= i < blanks.len() ==> text::is_space(#[trigger] blanks[i]),
        unit.len() > 0,
        forall|i: int|
            0 <= i < unit.len() ==> !text::is_space(#[trigger] unit[i]) && !number::is_digit(
                unit[i],
            ) && unit[i] != '.',
    ensures
        ({
            let s = digits + blanks + unit;
            let low = text::lowered(unit);
            size_of_text(s) == match unit_bytes(low) {
                None => Err::<u64, SizeErrorView>(SizeErrorOf::Unit(low, s)),
                Some(f) => match times(number::decimal_value(digits), 1, f) {
                    None => Err(SizeErrorOf::OutOfRange(s)),
                    Some(n) => Ok(n),
                },
            }
        }),
{
    lemma_number_and_unit(digits, blanks, unit);
    assert forall|i: int| 0 <= i < digits.len() implies digits[i] != '.' by {
        assert(number::is_digit(digits[i]));
    }
    text::lemma_first_is(digits, '.', 0, digits.len() as int);
    assert(digits.take(digits.len() as int) =~= digits);
    assert(digits + Seq::<char>::empty() =~= digits);
}

/// What one unit is read as is what the unit stands for.
proof fn lemma_unit_of_one(unit: Seq<char>, factor: nat)
    requires
        unit.len() > 0,
        forall|i: int|
            0 <= i < unit.len() ==> !text::is_space(#[trigger] unit[i]) && !number::is_digit(
                unit[i],
            ) && unit[i] != '.',
        size_of_text(seq!['1'] + unit) == Ok::<u64, SizeErrorView>(factor as u64),
        factor < 0x8000_0000,
    ensures
        unit_bytes(text::lowered(unit)) == Some(factor),
        factor > 0,
{
    let one = seq!['1'];
    let none = Seq::<char>::empty();
    assert(number::is_digit(one[0]));
    assert(one + none + unit =~= one + unit);
    lemma_whole_number(one, none, unit);
    assert(one.drop_last() =~= none);
    assert(number::decimal_value(one.drop_last()) == 0);
    assert(number::decimal_value(one) == 1);
    let f = unit_bytes(text::lowered(unit))->0;
    assert(1 * f == f);
    lemma_times_exact(1, f);
}

/// What a number with decimal places and a unit is read as. `factor` is what one
/// unit is read as.
proof fn lemma_places(
    whole: Seq<char>,
    places: Seq<char>,
    blanks: Seq<char>,
    unit: Seq<char>,
    factor: nat,
)
    requires
        number::all_digits(whole),
        number::all_digits(places),
        whole.len() + places.len() > 0,
        forall|i: int| 0 <= i < blanks.len() ==> text::is_space(#[trigger] blanks[i]),
        unit.len() > 0,
        forall|i: int|
            0 <= i < unit.len() ==> !text::is_space(#[trigger] unit[i]) && !number::is_digit(
                unit[i],
            ) && unit[i] != '.',
        size_of_text(seq!['1'] + unit) == Ok::<u64, SizeErrorView>(factor as u64),
        factor < 0x8000_0000,
    ensures
        ({
            let s = whole + seq!['.'] + places + blanks + unit;
            size_of_text(s) == match times(
                number::decimal_value(whole + places),
                rounding::ten_to(places.len()),
                factor,
            ) {
                None => Err::<u64, SizeErrorView>(SizeErrorOf::OutOfRange(s)),
                Some(n) => Ok(n),
            }
        }),
        factor > 0,
{
    lemma_unit_of_one(unit, factor);
    let num = whole + seq!['.'] + places;
    let point = whole.len() as int;
    assert forall|i: int| 0 <= i < num.len() implies number::is_digit(#[trigger] num[i]) || num[i]
        == '.' by {
        if i < point {
            assert(num[i] == whole[i]);
        } else if i > point {
            assert(num[i] == places[i - point - 1]);
        }
    }
    lemma_number_and_unit(num, blanks, unit);
    assert forall|i: int| 0 <= i < point implies num[i] != '.' by {
        assert(num[i] == whole[i]);
        assert(number::is_digit(whole[i]));
    }
    assert(num[point] == '.');
    text::lemma_first_is(num, '.', 0, point);
    assert(num.take(point) =~= whole);
    assert(num.skip(point + 1) =~= places);
    assert(!places.contains('.')) by {
        if places.contains('.') {
            let i = choose|i: int| 0 <= i < places.len() && places[i] == '.';
            assert(number::is_digit(places[i]));
        }
    }
}

/// A size below 2^63 bytes is never out of range, and one of 2^65 bytes or more
/// always is.
pub proof fn law_range_of_sizes(
    whole: Seq<char>,
    places: Seq<char>,
    blanks: Seq<char>,
    unit: Seq<char>,
    factor: nat,
)
    requires
        number::all_digits(whole),
        number::all_digits(places),
        whole.len() + places.len() > 0,
        forall|i: int| 0 <= i < blanks.len() ==> text::is_space(#[trigger] blanks[i]),
        unit.len() > 0,
        forall|i: int|
            0 <= i < unit.len() ==> !text::is_space(#[trigger] unit[i]) && !number::is_digit(
                unit[i],
            ) && unit[i] != '.',
        size_of_text(seq!['1'] + unit) == Ok::<u64, SizeErrorView>(factor as u64),
        factor < 0x8000_0000,
    ensures
        ({
            let s = whole + seq!['.'] + places + blanks + unit;
            let exact = number::decimal_value(whole + places) * factor;
            let scale = vstd::arithmetic::power::pow(10, places.len());
            &&& exact < 0x8000_0000_0000_0000 * scale ==> size_of_text(s) is Ok
            &&& exact > 0x2_0000_0000_0000_0000 * scale ==> size_of_text(s) == Err::<
                u64,
                SizeErrorView,
            >(SizeErrorOf::OutOfRange(s))
        }),
{
    lemma_places(whole, places, blanks, unit, factor);
    let p = number::decimal_value(whole + places);
    let q = rounding::ten_to(places.len());
    lemma_ten_to_power(places.len());
    lemma_ten_to_positive(places.len());
    lemma_times_range(p, q, factor);
}

/// When a product is in range.
proof fn lemma_times_range(p: nat, q: nat, f: nat)
    requires
        q > 0,
    ensures
        p * f < 0x8000_0000_0000_0000 * q ==> times(p, q, f) is Some,
        p * f > 0x2_0000_0000_0000_0000 * q ==> times(p, q, f) is None,
{
    let (a, b) = rounding::nearest(p, q);
    let (c, d) = rounding::nearest(a * f, b);
    let e: int = 0x10_0000_0000_0000;
    rounding::law_rounding_is_close(p, q);
    rounding::law_rounding_is_close(a * f, b);
    // Both roundings together change the value by less than a tenth.
    let whole_part = p * f * (b * d);
    let part = a * f * d * q;
    let last = c * b * q;
    assert(21 * (p * b) >= 20 * (a * q) && 21 * (a * q) >= 20 * (p * b)) by (nonlinear_arith)
        requires
            (a * q - p * b) * e <= p * b,
            (p * b - a * q) * e <= p * b,
            e == 0x10_0000_0000_0000,
    ;
    assert(21 * (a * f * d) >= 20 * (c * b) && 21 * (c * b) >= 20 * (a * f * d))
        by (nonlinear_arith)
        requires
            (c * b - a * f * d) * e <= a * f * d,
            (a * f * d - c * b) * e <= a * f * d,
            e == 0x10_0000_0000_0000,
    ;
    assert(21 * whole_part >= 20 * part && 21 * part >= 20 * whole_part) by (nonlinear_arith)
        requires
            whole_part == p * f * (b * d),
            part == a * f * d * q,
            21 * (p * b) >= 20 * (a * q),
            21 * (a * q) >= 20 * (p * b),
            f >= 0,
            d > 0,
    ;
    assert(21 * part >= 20 * last && 21 * last >= 20 * part) by (nonlinear_arith)
        requires
            part == a * f * d * q,
            last == c * b * q,
            21 * (a * f * d) >= 20 * (c * b),
            21 * (c * b) >= 20 * (a * f * d),
            q > 0,
    ;
    assert(last <= 2 * whole_part && whole_part <= 2 * last);
    if p * f < 0x8000_0000_0000_0000 * q {
        assert(c <= 0x1_0000_0000_0000_0000 * d) by (nonlinear_arith)
            requires
                c * b * q <= 2 * (p * f * (b * d)),
                p * f < 0x8000_0000_0000_0000 * q,
                b > 0,
                d > 0,
                q > 0,
        ;
    }
    if p * f > 0x2_0000_0000_0000_0000 * q {
        assert(c > 0x1_0000_0000_0000_0000 * d) by (nonlinear_arith)
            requires
                p * f * (b * d) <= 2 * (c * b * q),
                p * f > 0x2_0000_0000_0000_0000 * q,
                b > 0,
                d > 0,
                q > 0,
        ;
    }
}

proof fn lemma_ten_to_power(k: nat)
    ensures
        rounding::ten_to(k) == vstd::arithmetic::power::pow(10, k),
    decreases k,
{
    reveal(vstd::arithmetic::power::pow);
    if k > 0 {
        lemma_ten_to_power((k - 1) as nat);
    }
}

/// White space around a size changes nothing, and digits alone are that many bytes.
pub proof fn law_plain_sizes(before: Seq<char>, digits: Seq<char>, after: Seq<char>)
    requires
        forall|i: int| 0 <= i < before.len() ==> text::is_space(#[trigger] before[i]),
        forall|i: int| 0 <= i < after.len() ==> text::is_space(#[trigger] after[i]),
        digits.len() > 0,
        number::all_digits(digits),
        number::decimal_value(digits) <= u64::MAX,
    ensures
        size_of_text(before + digits + after) == Ok::<u64, SizeErrorView>(
            number::decimal_value(digits) as u64,
        ),
{
    assert(number::is_digit(digits[0]));
    assert(number::is_digit(digits[digits.len() - 1]));
    text::law_trimming(before, digits, after);
    number::lemma_unsigned_digits(digits, u64::MAX as nat);
}

/// What is no size: nothing but white space; a text that begins with neither a digit nor
/// a point; and a number with two points, or with a point and no digit.
pub proof fn law_what_is_no_size(
    blanks: Seq<char>,
    c: char,
    rest: Seq<char>,
    num: Seq<char>,
    unit: Seq<char>,
    i: int,
    j: int,
)
    requires
        forall|k: int| 0 <= k < blanks.len() ==> text::is_space(#[trigger] blanks[k]),
        !number::is_digit(c) && c != '.' && c != '+' && !text::is_space(c),
        rest.len() > 0 ==> !text::is_space(rest.last()),
        num.len() > 0,
        forall|k: int| 0 <= k < num.len() ==> number::is_digit(#[trigger] num[k]) || num[k] == '.',
        unit.len() > 0,
        forall|k: int|
            0 <= k < unit.len() ==> !text::is_space(#[trigger] unit[k]) && !number::is_digit(
                unit[k],
            ) && unit[k] != '.',
    ensures
        size_of_text(blanks) == Err::<u64, SizeErrorView>(SizeErrorOf::Empty),
        size_of_text(seq![c] + rest) == Err::<u64, SizeErrorView>(
            SizeErrorOf::Invalid(seq![c] + rest),
        ),
        0 <= i < j < num.len() && num[i] == '.' && num[j] == '.' ==> size_of_text(num + unit)
            == Err::<u64, SizeErrorView>(SizeErrorOf::Number(num + unit)),
        num.len() == 1 && num[0] == '.' ==> size_of_text(num + unit) == Err::<u64, SizeErrorView>(
            SizeErrorOf::Number(num + unit),
        ),
{
    let none = Seq::<char>::empty();
    assert(blanks + none + none =~= blanks);
    text::law_trimming(blanks, none, none);
    let s = seq![c] + rest;
    assert(s[0] == c);
    assert(s.last() == if rest.len() > 0 {
        rest.last()
    } else {
        c
    });
    text::lemma_trimmed_fixed(s);
    assert(number::digits_end(s, 0) == 0);
    assert(s.take(0) =~= none);
    lemma_number_and_unit(num, none, unit);
    assert(num + none + unit =~= num + unit);
    text::lemma_first_from(num, '.', 0);
    let point = text::first(num, '.');
    if 0 <= i < j < num.len() && num[i] == '.' && num[j] == '.' {
        assert(point <= i);
        let places = num.skip(point + 1);
        assert(places[j - point - 1] == '.');
    }
    if num.len() == 1 && num[0] == '.' {
        assert(point == 0);
        assert(num.take(0) =~= none);
        assert(num.skip(1) =~= none);
    }
}

} // verus!
