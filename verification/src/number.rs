//! Decimal numbers as text.
use vstd::prelude::*;

use crate::text;

verus! {

/// `c` is one of `0` to `9`.
pub open spec fn is_digit(c: char) -> bool {
    '0' <= c <= '9'
}

/// The value of a digit.
pub open spec fn digit_value(c: char) -> nat {
    (c as int - '0' as int) as nat
}

/// The digit of a value below ten.
pub open spec fn digit_char(d: nat) -> char {
    ('0' as int + d) as char
}

/// Every character is a digit.
pub open spec fn all_digits(s: Seq<char>) -> bool {
    forall|i: int| 0 <= i < s.len() ==> is_digit(#[trigger] s[i])
}

/// The number that a sequence of digits spells.
pub open spec fn decimal_value(s: Seq<char>) -> nat
    decreases s.len(),
{
    if s.len() == 0 {
        0
    } else {
        decimal_value(s.drop_last()) * 10 + digit_value(s.last())
    }
}

/// The decimal text of a number, without leading zeros.
pub open spec fn decimal(n: nat) -> Seq<char>
    decreases n,
{
    if n < 10 {
        seq![digit_char(n)]
    } else {
        decimal(n / 10).push(digit_char(n % 10))
    }
}

/// The decimal text of a number, filled up with zeros to at least `width`.
pub open spec fn padded(n: nat, width: nat) -> Seq<char> {
    let s = decimal(n);
    if s.len() < width {
        Seq::new((width - s.len()) as nat, |i: int| '0') + s
    } else {
        s
    }
}

/// Why a text is no number.
#[derive(Debug, Clone, Copy, PartialEq, Eq, Structural)]
pub enum NumberError {
    /// There is no character.
    Empty,
    /// There is a character that is no digit, or a sign alone.
    InvalidDigit,
    /// The number is greater than the greatest allowed.
    TooLarge,
}

/// The length of the run of digits at the start of `s` from place `from` on,
/// counted from the start of `s`.
pub open spec fn digits_end(s: Seq<char>, from: int) -> int
    decreases s.len() - from,
{
    if from < s.len() && is_digit(s[from]) {
        digits_end(s, from + 1)
    } else {
        from
    }
}

/// What the digits after an optional sign give: a number up to `max`.
pub open spec fn unsigned_digits(s: Seq<char>, max: nat) -> Result<nat, NumberError> {
    let end = digits_end(s, 0);
    if decimal_value(s.take(end)) > max {
        Err(NumberError::TooLarge)
    } else if end < s.len() || s.len() == 0 {
        Err(NumberError::InvalidDigit)
    } else {
        Ok(decimal_value(s))
    }
}

/// What a text gives when it is read as an unsigned number up to `max`: an
/// optional `+` and then digits. Of a misplaced character and a number that
/// is too large, the one that comes first is reported.
pub open spec fn unsigned(s: Seq<char>, max: nat) -> Result<nat, NumberError> {
    if s.len() == 0 {
        Err(NumberError::Empty)
    } else if s[0] == '+' {
        unsigned_digits(s.skip(1), max)
    } else {
        unsigned_digits(s, max)
    }
}

pub proof fn lemma_digits_end(s: Seq<char>, from: int)
    requires
        0 <= from <= s.len(),
    ensures
        from <= digits_end(s, from) <= s.len(),
        forall|i: int| from <= i < digits_end(s, from) ==> is_digit(#[trigger] s[i]),
        digits_end(s, from) < s.len() ==> !is_digit(s[digits_end(s, from)]),
    decreases s.len() - from,
{
    if from < s.len() && is_digit(s[from]) {
        lemma_digits_end(s, from + 1);
    }
}

/// More digits never make the number smaller.
pub proof fn lemma_value_grows(s: Seq<char>, i: int, j: int)
    requires
        0 <= i <= j <= s.len(),
    ensures
        decimal_value(s.take(i)) <= decimal_value(s.take(j)),
    decreases j,
{
    if i < j {
        lemma_value_grows(s, i, j - 1);
        assert(s.take(j).drop_last() =~= s.take(j - 1));
    }
}

/// Decimal text is made of digits and spells the number it was made from.
pub proof fn lemma_decimal(n: nat)
    ensures
        decimal(n).len() > 0,
        all_digits(decimal(n)),
        decimal_value(decimal(n)) == n,
        n > 0 ==> decimal(n)[0] != '0',
    decreases n,
{
    let s = decimal(n);
    if n < 10 {
        assert(s.drop_last() =~= Seq::<char>::empty());
        assert(decimal_value(s.drop_last()) == 0);
    } else {
        lemma_decimal(n / 10);
        assert(s.drop_last() =~= decimal(n / 10));
    }
}

/// Digits alone are read as their value, unless it is too large.
pub proof fn lemma_unsigned_digits(s: Seq<char>, max: nat)
    requires
        s.len() > 0,
        all_digits(s),
    ensures
        unsigned(s, max) == if decimal_value(s) > max {
            Err::<nat, NumberError>(NumberError::TooLarge)
        } else {
            Ok(decimal_value(s))
        },
{
    lemma_digits_end(s, 0);
    assert(digits_end(s, 0) == s.len());
    assert(s.take(s.len() as int) =~= s);
    assert(is_digit(s[0]));
}

/// Reading the decimal text of a number gives the number back.
pub proof fn law_unsigned_of_decimal(n: nat, max: nat)
    requires
        n <= max,
    ensures
        unsigned(decimal(n), max) == Ok::<nat, NumberError>(n),
{
    lemma_decimal(n);
    lemma_unsigned_digits(decimal(n), max);
}

/// A digit more at the end makes the number ten times as large, and adds the
/// digit: the digits are those of base ten, the most significant first.
pub proof fn law_digits_are_decimal(s: Seq<char>, d: nat)
    requires
        d < 10,
    ensures
        is_digit(('0' as int + d) as char),
        decimal_value(Seq::<char>::empty()) == 0,
        decimal_value(s.push(('0' as int + d) as char)) == 10 * decimal_value(s) + d,
{
    assert(s.push(('0' as int + d) as char).drop_last() =~= s);
}

/// A zero before the digits changes nothing.
pub proof fn lemma_leading_zero(s: Seq<char>)
    requires
        s.len() > 0,
        s[0] == '0',
    ensures
        decimal_value(s) == decimal_value(s.skip(1)),
    decreases s.len(),
{
    if s.len() == 1 {
        assert(s.drop_last() =~= Seq::<char>::empty());
        assert(decimal_value(s.drop_last()) == 0);
        assert(s.skip(1) =~= Seq::<char>::empty());
    } else {
        lemma_leading_zero(s.drop_last());
        assert(s.drop_last().skip(1) =~= s.skip(1).drop_last());
    }
}

/// Digits without leading zeros are the decimal text of their number.
proof fn lemma_text_of_value(s: Seq<char>)
    requires
        s.len() > 0,
        all_digits(s),
        s.len() > 1 ==> s[0] != '0',
    ensures
        decimal(decimal_value(s)) == s,
        s[0] != '0' ==> decimal_value(s) > 0,
    decreases s.len(),
{
    let last = s.last();
    assert(is_digit(last));
    if s.len() == 1 {
        assert(s.drop_last() =~= Seq::<char>::empty());
        assert(decimal_value(s.drop_last()) == 0);
        assert(s =~= seq![digit_char(digit_value(last))]);
    } else {
        let front = s.drop_last();
        assert forall|i: int| 0 <= i < front.len() implies is_digit(#[trigger] front[i]) by {
            assert(front[i] == s[i]);
        }
        lemma_text_of_value(front);
        let v = decimal_value(front);
        let n = decimal_value(s);
        assert(n == 10 * v + digit_value(last));
        assert(n / 10 == v && n % 10 == digit_value(last));
        assert(decimal(n) =~= s);
    }
}

/// Digits are the text of their number, filled up with zeros to their own length.
/// So are digits without leading zeros, not filled up.
pub proof fn law_digits_come_back(s: Seq<char>)
    requires
        s.len() > 0,
        all_digits(s),
    ensures
        padded(decimal_value(s), s.len()) == s,
        s.len() == 1 || s[0] != '0' ==> padded(decimal_value(s), 0) == s,
    decreases s.len(),
{
    let n = decimal_value(s);
    if s.len() == 1 || s[0] != '0' {
        lemma_text_of_value(s);
    } else {
        let rest = s.skip(1);
        assert forall|i: int| 0 <= i < rest.len() implies is_digit(#[trigger] rest[i]) by {
            assert(rest[i] == s[i + 1]);
        }
        lemma_leading_zero(s);
        law_digits_come_back(rest);
        lemma_decimal(n);
        let w = rest.len();
        let have = decimal(n).len();
        assert(have <= w);
        assert(s =~= seq!['0'] + rest);
        assert(padded(n, w + 1) =~= seq!['0'] + padded(n, w));
    }
}

/// What a number filled up with zeros looks like: digits that spell the number, as
/// many as asked for at least, and no zero before them that is not needed.
pub proof fn law_padded_digits(n: nat, width: nat)
    ensures
        all_digits(padded(n, width)),
        decimal_value(padded(n, width)) == n,
        padded(n, width).len() >= width,
        padded(n, width).len() > 0,
        padded(n, width).len() > width && padded(n, width).len() > 1 ==> padded(n, width)[0] != '0',
    decreases width,
{
    lemma_decimal(n);
    let s = decimal(n);
    let p = padded(n, width);
    if s.len() < width {
        law_padded_digits(n, (width - 1) as nat);
        let q = padded(n, (width - 1) as nat);
        assert(p =~= seq!['0'] + q);
        assert(p.skip(1) =~= q);
        lemma_leading_zero(p);
        assert forall|i: int| 0 <= i < p.len() implies is_digit(#[trigger] p[i]) by {
            if i > 0 {
                assert(p[i] == q[i - 1]);
            }
        }
    } else if s.len() > 1 {
        assert(n > 0) by {
            if n == 0 {
                assert(s.len() == 1);
            }
        }
    }
}

/// Whether `c` is one of `0` to `9`.
pub fn digit(c: char) -> (res: bool)
    ensures
        res == is_digit(c),
{
    '0' <= c && c <= '9'
}

/// Where the digits that begin at place `from` end.
pub fn skip_digits(s: &[char], from: usize) -> (res: usize)
    requires
        from <= s@.len(),
    ensures
        res == digits_end(s@, from as int),
        from <= res <= s@.len(),
{
    let n: usize = s.len();
    let mut i: usize = from;
    while i < n && digit(s[i])
        invariant
            n == s@.len(),
            from <= i <= n,
            digits_end(s@, from as int) == digits_end(s@, i as int),
        decreases n - i,
    {
        i += 1;
    }
    i
}

/// Reads an unsigned number up to `max`: an optional `+` and then digits.
pub fn parse_unsigned(s: &[char], max: u64) -> (res: Result<u64, NumberError>)
    ensures
        match res {
            Ok(n) => unsigned(s@, max as nat) == Ok::<nat, NumberError>(n as nat),
            Err(e) => unsigned(s@, max as nat) == Err::<nat, NumberError>(e),
        },
{
    let n: usize = s.len();
    if n == 0 {
        return Err(NumberError::Empty);
    }
    let from: usize = if s[0] == '+' {
        1
    } else {
        0
    };
    let ghost d = if s@[0] == '+' {
        s@.skip(1)
    } else {
        s@
    };
    let mut value: u64 = 0;
    let mut i: usize = from;
    if i == n {
        assert(d.take(0) =~= Seq::<char>::empty());
        return Err(NumberError::InvalidDigit);
    }
    assert(d.take(0) =~= Seq::<char>::empty());
    while i < n && digit(s[i])
        invariant
            n == s@.len(),
            from <= i <= n,
            d.len() == n - from,
            d.len() > 0,
            forall|j: int| 0 <= j < d.len() ==> d[j] == s@[j + from],
            unsigned(s@, max as nat) == unsigned_digits(d, max as nat),
            digits_end(d, 0) == digits_end(d, i - from),
            value == decimal_value(d.take(i - from)),
            value <= max,
        decreases n - i,
    {
        let step: u128 = (value as u128) * 10 + ((s[i] as u32 - '0' as u32) as u128);
        i += 1;
        proof {
            assert(d.take(i - from).drop_last() =~= d.take(i - from - 1));
            assert(step == decimal_value(d.take(i - from)));
            lemma_digits_end(d, i - from);
            lemma_value_grows(d, i - from, digits_end(d, 0));
        }
        if step > max as u128 {
            return Err(NumberError::TooLarge);
        }
        value = step as u64;
    }
    proof {
        lemma_digits_end(d, 0);
        assert(digits_end(d, 0) == i - from);
        assert(d.take(d.len() as int) =~= d);
    }
    if i < n {
        return Err(NumberError::InvalidDigit);
    }
    Ok(value)
}

/// Appends the decimal text of a number.
pub fn push_decimal(out: &mut String, n: u64)
    ensures
        final(out)@ == old(out)@ + decimal(n as nat),
    decreases n,
{
    let ghost start = out@;
    if n >= 10 {
        push_decimal(out, n / 10);
    }
    let d: u8 = (n % 10) as u8;
    out.push((48u8 + d) as char);
    assert(out@ =~= start + decimal(n as nat));
}

/// The decimal text of a number.
pub fn decimal_text(n: u64) -> (res: String)
    ensures
        res@ == decimal(n as nat),
{
    let mut out = String::new();
    push_decimal(&mut out, n);
    assert(out@ =~= decimal(n as nat));
    out
}

/// Appends the decimal text of a number, filled up with zeros to at least
/// `width`.
pub fn push_padded(out: &mut String, n: u64, width: usize)
    ensures
        final(out)@ == old(out)@ + padded(n as nat, width as nat),
{
    let s = decimal_text(n);
    let digits = text::chars_of(s.as_str());
    let ghost start = out@;
    let have: usize = digits.len();
    let mut k: usize = have;
    assert(start + Seq::new(0, |i: int| '0') =~= start);
    while k < width
        invariant
            have == digits@.len(),
            have <= k,
            have <= width ==> k <= width,
            have > width ==> k == have,
            out@ == start + Seq::new((k - have) as nat, |i: int| '0'),
        decreases width - k,
    {
        out.push('0');
        k += 1;
        assert(out@ =~= start + Seq::new((k - have) as nat, |i: int| '0'));
    }
    text::push_chars(out, digits.as_slice());
    assert(out@ =~= start + padded(n as nat, width as nat));
}

/// The message of a number error, as Rust's integer parser words it.
pub open spec fn number_error_text(e: NumberError) -> Seq<char> {
    match e {
        NumberError::Empty => "cannot parse integer from empty string"@,
        NumberError::InvalidDigit => "invalid digit found in string"@,
        NumberError::TooLarge => "number too large to fit in target type"@,
    }
}

impl NumberError {
    /// The message of the error.
    pub fn message(&self) -> (res: &'static str)
        ensures
            res@ == number_error_text(*self),
    {
        match self {
            NumberError::Empty => "cannot parse integer from empty string",
            NumberError::InvalidDigit => "invalid digit found in string",
            NumberError::TooLarge => "number too large to fit in target type",
        }
    }
}

/// The number up to `max` that digits alone spell.
pub open spec fn digits_up_to(s: Seq<char>, max: nat) -> Option<nat> {
    if s.len() > 0 && all_digits(s) && decimal_value(s) <= max {
        Some(decimal_value(s))
    } else {
        None
    }
}

/// Reads a number up to `max` that digits alone spell.
pub fn parse_digits(s: &[char], max: u64) -> (res: Option<u64>)
    ensures
        match res {
            Some(n) => digits_up_to(s@, max as nat) == Some(n as nat) && n <= max,
            None => digits_up_to(s@, max as nat) is None,
        },
{
    let n: usize = s.len();
    if n == 0 {
        return None;
    }
    let end: usize = skip_digits(s, 0);
    proof {
        lemma_digits_end(s@, 0);
    }
    if end < n {
        assert(!is_digit(s@[end as int]));
        return None;
    }
    proof {
        lemma_unsigned_digits(s@, max as nat);
    }
    match parse_unsigned(s, max) {
        Ok(v) => Some(v),
        Err(_) => None,
    }
}

/// How a number is read: digits as their number, with or without a plus before them;
/// too large above the greatest allowed; not at all where there is something else than a
/// digit, no digit, or nothing.
pub proof fn law_how_numbers_are_read(digits: Seq<char>, other: char, rest: Seq<char>, max: nat)
    requires
        digits.len() > 0,
        all_digits(digits),
        !is_digit(other),
    ensures
        unsigned(digits, max) == if decimal_value(digits) <= max {
            Ok::<nat, NumberError>(decimal_value(digits))
        } else {
            Err(NumberError::TooLarge)
        },
        unsigned(seq!['+'] + digits, max) == unsigned(digits, max),
        decimal_value(digits) <= max ==> unsigned(digits + seq![other] + rest, max) == Err::<
            nat,
            NumberError,
        >(NumberError::InvalidDigit),
        other != '+' ==> unsigned(seq![other] + digits, max) == Err::<nat, NumberError>(
            NumberError::InvalidDigit,
        ),
        unsigned(seq!['+'], max) == Err::<nat, NumberError>(NumberError::InvalidDigit),
        unsigned(Seq::empty(), max) == Err::<nat, NumberError>(NumberError::Empty),
{
    let none = Seq::<char>::empty();
    lemma_unsigned_digits(digits, max);
    assert(is_digit(digits[0]));
    let led = seq!['+'] + digits;
    assert(led[0] == '+');
    assert(led.skip(1) =~= digits);
    let s = digits + seq![other] + rest;
    let n = digits.len() as int;
    assert(s[0] == digits[0]);
    assert(s[n] == other);
    lemma_digits_end(s, 0);
    let end = digits_end(s, 0);
    assert(end == n) by {
        if end < n {
            assert(s[end] == digits[end]);
            assert(is_digit(digits[end]));
        } else if end > n {
            assert(is_digit(s[n]));
        }
    }
    assert(s.take(n) =~= digits);
    let bad = seq![other] + digits;
    assert(bad[0] == other);
    assert(digits_end(bad, 0) == 0);
    assert(bad.take(0) =~= none);
    let sign = seq!['+'];
    assert(sign.skip(1) =~= none);
    assert(none.take(0) =~= none);
}

} // verus!
