//! Rounding to 53 significant bits, the precision of double-precision
//! numbers, in integer arithmetic.
use vstd::prelude::*;

verus! {

/// 2 to the 52nd.
pub const TWO_52: u64 = 0x10_0000_0000_0000;

/// 2 to the 53rd.
pub const TWO_53: u64 = 0x20_0000_0000_0000;

/// The integer nearest to `p / q`; the even one of two that are equally near.
pub open spec fn half_even(p: nat, q: nat) -> nat {
    let n = p / q;
    let r = p % q;
    if 2 * r < q || (2 * r == q && n % 2 == 0) {
        n
    } else {
        n + 1
    }
}

/// How far `p / q` is from the range between 2^52 and 2^53.
pub open spec fn distance(p: nat, q: nat) -> int {
    if p >= TWO_53 * q {
        p - TWO_53 * q + 1
    } else if p < TWO_52 * q {
        TWO_52 * q - p
    } else {
        0
    }
}

/// `p / q` rounded to 53 significant bits, to nearest and ties to even, as a
/// fraction: doubled or halved until it is between 2^52 and 2^53, rounded to an
/// integer there, and brought back.
pub open spec fn nearest(p: nat, q: nat) -> (nat, nat)
    decreases distance(p, q),
{
    if p == 0 || q == 0 {
        (0, 1)
    } else if p >= TWO_53 * q {
        let (a, b) = nearest(p, 2 * q);
        (2 * a, b)
    } else if p < TWO_52 * q {
        let (a, b) = nearest(2 * p, q);
        (a, 2 * b)
    } else {
        (half_even(p, q), 1)
    }
}

/// A common factor of two changes nothing.
proof fn lemma_half_even_double(p: nat, q: nat)
    requires
        q > 0,
    ensures
        half_even(2 * p, 2 * q) == half_even(p, q),
{
    let n = p / q;
    let r = p % q;
    assert(p == q * n + r) by (nonlinear_arith)
        requires
            q > 0,
            n == p / q,
            r == p % q,
    ;
    assert(2 * p == (2 * q) * n + 2 * r) by (nonlinear_arith)
        requires
            p == q * n + r,
    ;
    vstd::arithmetic::div_mod::lemma_fundamental_div_mod_converse(
        (2 * p) as int,
        (2 * q) as int,
        n as int,
        (2 * r) as int,
    );
}

/// A common factor of two changes nothing.
pub proof fn lemma_nearest_double_both(p: nat, q: nat)
    ensures
        nearest(2 * p, 2 * q) == nearest(p, q),
    decreases distance(p, q),
{
    if p == 0 || q == 0 {
    } else if p >= TWO_53 * q {
        lemma_nearest_double_both(p, 2 * q);
    } else if p < TWO_52 * q {
        lemma_nearest_double_both(2 * p, q);
    } else {
        lemma_half_even_double(p, q);
    }
}

/// Twice the denominator gives half the value.
pub proof fn lemma_nearest_halved(p: nat, q: nat)
    requires
        q > 0,
    ensures
        ({
            let (a, b) = nearest(p, q);
            let (c, d) = nearest(p, 2 * q);
            c * 2 * b == a * d
        }),
        nearest(p, q).1 > 0,
        nearest(p, 2 * q).1 > 0,
{
    lemma_nearest_positive(p, q);
    lemma_nearest_positive(p, 2 * q);
    let (a, b) = nearest(p, q);
    let (c, d) = nearest(p, 2 * q);
    if p == 0 {
    } else if p >= TWO_53 * q {
        assert(a == 2 * c && b == d);
        assert(c * 2 * b == a * d) by (nonlinear_arith)
            requires
                a == 2 * c,
                b == d,
        ;
    } else {
        lemma_nearest_double_both(p, q);
        assert(c == a && d == 2 * b);
        assert(c * 2 * b == a * d) by (nonlinear_arith)
            requires
                c == a,
                d == 2 * b,
        ;
    }
}

pub proof fn lemma_nearest_positive(p: nat, q: nat)
    ensures
        nearest(p, q).1 > 0,
        p > 0 && q > 0 ==> nearest(p, q).0 > 0,
    decreases distance(p, q),
{
    if p == 0 || q == 0 {
    } else if p >= TWO_53 * q {
        lemma_nearest_positive(p, 2 * q);
    } else if p < TWO_52 * q {
        lemma_nearest_positive(2 * p, q);
    } else {
        assert(p / q >= TWO_52) by (nonlinear_arith)
            requires
                p >= TWO_52 * q,
                q > 0,
                TWO_52 > 0,
        ;
    }
}

/// Ten to the power `k`.
pub open spec fn ten_to(k: nat) -> nat
    decreases k,
{
    if k == 0 {
        1
    } else {
        10 * ten_to((k - 1) as nat)
    }
}

/// The number that the decimal digits from place `i` on spell.
pub open spec fn digits_from(s: Seq<u8>, i: int) -> nat
    decreases s.len() - i,
{
    if i >= s.len() {
        0
    } else {
        s[i] as nat * ten_to((s.len() - 1 - i) as nat) + digits_from(s, i + 1)
    }
}

/// Every entry is a decimal digit.
pub open spec fn are_digits(s: Seq<u8>) -> bool {
    forall|i: int| 0 <= i < s.len() ==> #[trigger] s[i] < 10
}

proof fn lemma_digits_bound(s: Seq<u8>, i: int)
    requires
        are_digits(s),
        0 <= i <= s.len(),
    ensures
        digits_from(s, i) < ten_to((s.len() - i) as nat),
        digits_from(s, i) == 0 <==> forall|j: int| i <= j < s.len() ==> #[trigger] s[j] == 0,
    decreases s.len() - i,
{
    if i < s.len() {
        lemma_digits_bound(s, i + 1);
        let t = ten_to((s.len() - 1 - i) as nat);
        let d = s[i] as nat;
        assert(d < 10);
        assert(d * t <= 9 * t) by (nonlinear_arith)
            requires
                d < 10,
        ;
        assert(t > 0);
        if d > 0 {
            assert(d * t > 0) by (nonlinear_arith)
                requires
                    d > 0,
                    t > 0,
            ;
        } else {
            assert(d * t == 0) by (nonlinear_arith)
                requires
                    d == 0,
            ;
        }
    }
}

proof fn lemma_same_suffix(s: Seq<u8>, t: Seq<u8>, i: int)
    requires
        s.len() == t.len(),
        0 <= i <= s.len(),
        forall|j: int| i <= j < s.len() ==> #[trigger] s[j] == t[j],
    ensures
        digits_from(s, i) == digits_from(t, i),
    decreases s.len() - i,
{
    if i < s.len() {
        lemma_same_suffix(s, t, i + 1);
    }
}

/// Doubles a decimal fraction in place; says whether it went past one.
fn double(frac: &mut Vec<u8>) -> (carry: bool)
    requires
        are_digits(old(frac)@),
    ensures
        final(frac)@.len() == old(frac)@.len(),
        are_digits(final(frac)@),
        digits_from(final(frac)@, 0) + (if carry {
            ten_to(old(frac)@.len())
        } else {
            0
        }) == 2 * digits_from(old(frac)@, 0),
{
    let ghost start = frac@;
    let n: usize = frac.len();
    let mut i: usize = n;
    let mut carry: u8 = 0;
    assert(0 * ten_to(0) == 0);
    while i > 0
        invariant
            n == start.len(),
            frac@.len() == n,
            i <= n,
            carry <= 1,
            are_digits(start),
            are_digits(frac@),
            forall|j: int| 0 <= j < i ==> #[trigger] frac@[j] == start[j],
            digits_from(frac@, i as int) + carry as nat * ten_to((n - i) as nat) == 2 * digits_from(
                start,
                i as int,
            ),
        decreases i,
    {
        let ghost before = frac@;
        i -= 1;
        let old_digit: u8 = frac[i];
        assert(old_digit == start[i as int] && start[i as int] < 10);
        let d: u8 = 2 * old_digit + carry;
        let ghost carry_in = carry as nat;
        frac[i] = d % 10;
        carry = d / 10;
        proof {
            lemma_same_suffix(before, frac@, i + 1);
            let t = ten_to((n - 1 - i) as nat);
            assert(ten_to((n - i) as nat) == 10 * t);
            let low = (d % 10) as nat;
            let high = (d / 10) as nat;
            assert(low * t + high * (10 * t) == (2 * old_digit as nat + carry_in) * t)
                by (nonlinear_arith)
                requires
                    low + 10 * high == 2 * old_digit as nat + carry_in,
            ;
            assert((2 * old_digit as nat + carry_in) * t == 2 * (old_digit as nat * t) + carry_in
                * t) by (nonlinear_arith);
        }
    }
    proof {
        let t = ten_to(n as nat);
        assert(carry as nat * t == if carry == 1 {
            t
        } else {
            0
        }) by (nonlinear_arith)
            requires
                carry <= 1,
        ;
    }
    carry == 1
}

/// Whether a decimal fraction is zero.
fn is_zero(frac: &Vec<u8>) -> (res: bool)
    requires
        are_digits(frac@),
    ensures
        res == (digits_from(frac@, 0) == 0),
{
    let n: usize = frac.len();
    let mut i: usize = 0;
    proof {
        lemma_digits_bound(frac@, 0);
    }
    while i < n
        invariant
            n == frac@.len(),
            i <= n,
            forall|j: int| 0 <= j < i ==> #[trigger] frac@[j] == 0,
            digits_from(frac@, 0) == 0 <==> forall|j: int|
                0 <= j < n ==> #[trigger] frac@[j] == 0,
        decreases n - i,
    {
        if frac[i] != 0 {
            return false;
        }
        i += 1;
    }
    true
}

/// Below this, doubling a value to bring it into range gives up: the value
/// is less than 2^-48.
pub const TINY: u128 = 0x10_0000_0000_0000_0000_0000_0000;

/// The value with integer part `whole` and decimal places `frac`, as the
/// numerator of a fraction over `ten_to(frac.len())`.
pub open spec fn numerator(whole: nat, frac: Seq<u8>) -> nat {
    whole * ten_to(frac.len()) + digits_from(frac, 0)
}

/// The value with integer part `whole` and decimal places `frac` rounded to 53
/// bits: `m * unit / den`. `None` if the value is less than 2^-48.
pub fn nearest_decimal(whole: u128, frac: Vec<u8>) -> (res: Option<(u64, u128, u128)>)
    requires
        are_digits(frac@),
        whole < 0x100_0000_0000_0000_0000_0000_0000,
    ensures
        match res {
            Some((m, unit, den)) => {
                &&& nearest(numerator(whole as nat, frac@), ten_to(frac@.len())) == (
                    m as nat * unit as nat,
                    den as nat,
                )
                &&& TWO_52 <= m <= TWO_53
                &&& 1 <= den < 2 * TINY
                &&& exists|t: nat| den == vstd::arithmetic::power2::pow2(t)
                &&& whole >= TWO_52 ==> den == 1
                &&& unit >= 1
                &&& unit == 1 || (den == 1 && unit * TWO_52 <= whole)
            },
            None => numerator(whole as nat, frac@) * TINY < TWO_52 * ten_to(frac@.len()),
        },
{
    let ghost q = ten_to(frac@.len());
    let ghost p = numerator(whole as nat, frac@);
    let mut frac = frac;
    let mut n: u128 = whole;
    let mut den: u128 = 1;
    let ghost mut t: nat = 0;
    proof {
        lemma_digits_bound(frac@, 0);
        vstd::arithmetic::power2::lemma2_to64();
    }
    while n < TWO_52 as u128 && den < TINY
        invariant
            q == ten_to(frac@.len()),
            are_digits(frac@),
            whole < 0x100_0000_0000_0000_0000_0000_0000,
            1 <= den < 2 * TINY,
            n < 0x100_0000_0000_0000_0000_0000_0000,
            den == vstd::arithmetic::power2::pow2(t),
            den == 1 ==> n == whole,
            den > 1 ==> n < TWO_53 && whole < TWO_52,
            p * den == n as nat * q + digits_from(frac@, 0),
            q > 0,
            p > 0 ==> nearest(p, q).0 == nearest(p * den as nat, q).0,
            p > 0 ==> nearest(p, q).1 == nearest(p * den as nat, q).1 * den,
        decreases 2 * TINY - den,
    {
        let ghost before = frac@;
        let carry = double(&mut frac);
        let bit: u128 = if carry {
            1
        } else {
            0
        };
        proof {
            lemma_digits_bound(before, 0);
            let now = p * den as nat;
            let n0 = n as nat;
            let f0 = digits_from(before, 0);
            assert(n0 * q + f0 < TWO_52 * q) by (nonlinear_arith)
                requires
                    n0 + 1 <= TWO_52,
                    f0 < q,
            ;
            assert((2 * n0 + bit as nat) * q + digits_from(frac@, 0) == 2 * (n0 * q + f0))
                by (nonlinear_arith)
                requires
                    digits_from(frac@, 0) + bit as nat * q == 2 * f0,
            ;
            assert(p * (2 * den as nat) == 2 * now) by (nonlinear_arith)
                requires
                    now == p * den as nat,
            ;
            if p > 0 {
                assert(now > 0) by (nonlinear_arith)
                    requires
                        now == p * den as nat,
                        p > 0,
                        den >= 1,
                ;
                let b = nearest(2 * now, q).1;
                assert(nearest(now, q).1 == 2 * b);
                assert((2 * b) * den as nat == b * (2 * den as nat)) by (nonlinear_arith);
            }
            vstd::arithmetic::power2::lemma_pow2_unfold(t + 1);
            t = t + 1;
        }
        n = 2 * n + bit;
        den = 2 * den;
    }
    let ghost now = p * den as nat;
    let ghost f = digits_from(frac@, 0);
    proof {
        lemma_digits_bound(frac@, 0);
    }
    if n < TWO_52 as u128 {
        proof {
            assert(n as nat * q + f < TWO_52 * q) by (nonlinear_arith)
                requires
                    n + 1 <= TWO_52,
                    f < q,
            ;
            assert(p * TINY <= now) by (nonlinear_arith)
                requires
                    now == p * den as nat,
                    den >= TINY,
            ;
        }
        return None;
    }
    proof {
        assert(p > 0) by (nonlinear_arith)
            requires
                p * den as nat == n as nat * q + f,
                n >= TWO_52,
                TWO_52 > 0,
                q > 0,
        ;
        assert(now > 0) by (nonlinear_arith)
            requires
                now == p * den as nat,
                p > 0,
                den >= 1,
        ;
    }
    let mut unit: u128 = 1;
    let mut top: u128 = n;
    assert(q * 1 == q);
    assert(nearest(now, q).0 * 1 == nearest(now, q).0);
    while top >= TWO_53 as u128
        invariant
            now == n as nat * q + f,
            now > 0,
            f < q,
            n < 0x100_0000_0000_0000_0000_0000_0000,
            unit >= 1,
            unit == 1 || (unit % 2 == 0 && n >= TWO_53),
            top == n / unit,
            top >= TWO_52,
            unit * TWO_52 <= n,
            nearest(now, q).0 == nearest(now, q * unit as nat).0 * unit,
            nearest(now, q).1 == nearest(now, q * unit as nat).1,
        decreases top,
    {
        proof {
            let u = unit as nat;
            let n0 = n as nat;
            assert(u * TWO_53 <= n0) by (nonlinear_arith)
                requires
                    n0 / u >= TWO_53,
                    u > 0,
            ;
            assert(now >= TWO_53 * (q * u)) by (nonlinear_arith)
                requires
                    now >= n0 * q,
                    u * TWO_53 <= n0,
            ;
            assert(2 * (q * u) == q * (2 * u)) by (nonlinear_arith);
            let a = nearest(now, q * (2 * u)).0;
            assert(nearest(now, q * u).0 == 2 * a);
            assert((2 * a) * u == a * (2 * u)) by (nonlinear_arith);
            vstd::arithmetic::div_mod::lemma_div_denominator(n0 as int, u as int, 2);
            assert(u * 2 == 2 * u);
            assert((2 * u) * TWO_52 <= n0) by (nonlinear_arith)
                requires
                    u * TWO_53 <= n0,
                    TWO_53 == 2 * TWO_52,
            ;
        }
        unit = 2 * unit;
        top = n / unit;
    }
    let rest: u128 = n % unit;
    let ghost full = q * unit as nat;
    proof {
        let u = unit as nat;
        let r = rest as nat;
        let n0 = n as nat;
        let k = top as nat;
        assert(n0 == u * k + r) by {
            vstd::arithmetic::div_mod::lemma_fundamental_div_mod(n0 as int, u as int);
        }
        assert(now == full * k + (r * q + f)) by (nonlinear_arith)
            requires
                now == n0 * q + f,
                n0 == u * k + r,
                full == q * u,
        ;
        assert(r * q + f < full) by (nonlinear_arith)
            requires
                r + 1 <= u,
                f < q,
                full == q * u,
        ;
        vstd::arithmetic::div_mod::lemma_fundamental_div_mod_converse(
            now as int,
            full as int,
            k as int,
            (r * q + f) as int,
        );
        assert(now >= TWO_52 * full && now < TWO_53 * full) by (nonlinear_arith)
            requires
                now == full * k + (r * q + f),
                r * q + f < full,
                TWO_52 <= k < TWO_53,
        ;
    }
    let zero = is_zero(&frac);
    let (at_least_half, exactly_half) = if unit == 1 {
        let twice = double(&mut frac);
        proof {
            lemma_digits_bound(frac@, 0);
            assert(0 * q == 0);
        }
        (twice, twice && is_zero(&frac))
    } else {
        proof {
            let u = unit as nat;
            let r = rest as nat;
            if 2 * r >= u {
                assert(2 * (r * q + f) >= full) by (nonlinear_arith)
                    requires
                        2 * r >= u,
                        full == q * u,
                ;
                if 2 * r > u {
                    assert(2 * (r * q + f) > full) by (nonlinear_arith)
                        requires
                            2 * r > u,
                            full == q * u,
                            q > 0,
                    ;
                } else {
                    assert(2 * (r * q + f) == full + 2 * f) by (nonlinear_arith)
                        requires
                            2 * r == u,
                            full == q * u,
                    ;
                }
            } else {
                assert(2 * (r * q + f) < full) by (nonlinear_arith)
                    requires
                        2 * r + 2 <= u,
                        f < q,
                        full == q * u,
                ;
            }
        }
        (2 * rest >= unit, 2 * rest == unit && zero)
    };
    let m: u64 = if !at_least_half || (exactly_half && top % 2 == 0) {
        top as u64
    } else {
        top as u64 + 1
    };
    assert(m == half_even(now, full));
    assert(nearest(now, full) == (m as nat, 1nat));
    assert(nearest(p, q).0 == m as nat * unit as nat);
    assert(nearest(p, q).1 == 1 * den as nat);
    Some((m, unit, den))
}

/// Rounding changes a value by less than a factor of two.
pub proof fn lemma_nearest_bounds(p: nat, q: nat)
    requires
        q > 0,
    ensures
        nearest(p, q).0 * q <= 2 * (p * nearest(p, q).1),
        p * nearest(p, q).1 <= 2 * (nearest(p, q).0 * q),
    decreases distance(p, q),
{
    let (a, b) = nearest(p, q);
    if p == 0 {
        assert(a * q == 0 && p * b == 0) by (nonlinear_arith)
            requires
                a == 0,
                p == 0,
        ;
    } else if p >= TWO_53 * q {
        lemma_nearest_bounds(p, 2 * q);
        let c = nearest(p, 2 * q).0;
        assert(a * q == c * (2 * q)) by (nonlinear_arith)
            requires
                a == 2 * c,
        ;
    } else if p < TWO_52 * q {
        lemma_nearest_bounds(2 * p, q);
        let d = nearest(2 * p, q).1;
        assert(p * b == (2 * p) * d) by (nonlinear_arith)
            requires
                b == 2 * d,
        ;
    } else {
        let n = p / q;
        vstd::arithmetic::div_mod::lemma_fundamental_div_mod(p as int, q as int);
        assert(n >= 1) by (nonlinear_arith)
            requires
                p >= TWO_52 * q,
                TWO_52 >= 1,
                q > 0,
                n == p / q,
        ;
        assert(a * q <= 2 * p) by (nonlinear_arith)
            requires
                a <= n + 1,
                n >= 1,
                p >= q * n,
        ;
        assert(p <= 2 * (a * q)) by (nonlinear_arith)
            requires
                a >= n,
                n >= 1,
                p <= q * n + q,
        ;
        assert(p * 1 == p);
    }
}

/// A denominator that is a power of two only scales the rounded value.
pub proof fn lemma_nearest_over(x: nat, t: nat)
    ensures
        nearest(x, vstd::arithmetic::power2::pow2(t)).1 > 0,
        nearest(x, vstd::arithmetic::power2::pow2(t)).0 * vstd::arithmetic::power2::pow2(t)
            * nearest(x, 1).1 == nearest(x, 1).0 * nearest(
            x,
            vstd::arithmetic::power2::pow2(t),
        ).1,
    decreases t,
{
    let q = vstd::arithmetic::power2::pow2(t);
    vstd::arithmetic::power2::lemma_pow2_pos(t);
    lemma_nearest_positive(x, q);
    vstd::arithmetic::power2::lemma2_to64();
    if t == 0 {
        assert(nearest(x, 1).0 * 1 == nearest(x, 1).0);
    } else {
        let h = vstd::arithmetic::power2::pow2((t - 1) as nat);
        vstd::arithmetic::power2::lemma_pow2_unfold(t);
        vstd::arithmetic::power2::lemma_pow2_pos((t - 1) as nat);
        lemma_nearest_over(x, (t - 1) as nat);
        lemma_nearest_halved(x, h);
        let (a, b) = nearest(x, 1);
        let (e, f) = nearest(x, h);
        let (c, d) = nearest(x, 2 * h);
        assert(q == 2 * h);
        // c / d is half of e / f, and e / f is a / b over h.
        assert((c * q * b) * f == (a * d) * f) by (nonlinear_arith)
            requires
                q == 2 * h,
                c * 2 * f == e * d,
                e * h * b == a * f,
        ;
        assert(c * q * b == a * d) by (nonlinear_arith)
            requires
                (c * q * b) * f == (a * d) * f,
                f > 0,
        ;
    }
}

/// A whole number below 2^53 is not changed by rounding.
pub proof fn lemma_nearest_exact(m: nat, q: nat)
    requires
        m < TWO_53,
        q > 0,
    ensures
        nearest(m * q, q).0 == m * nearest(m * q, q).1,
    decreases TWO_53 - m,
{
    let p = m * q;
    if m == 0 {
        assert(p == 0) by (nonlinear_arith)
            requires
                p == m * q,
                m == 0,
        ;
        assert(0 * nearest(p, q).1 == 0);
    } else {
        assert(0 < p < TWO_53 * q) by (nonlinear_arith)
            requires
                p == m * q,
                0 < m < TWO_53,
                q > 0,
        ;
        if m < TWO_52 {
            assert(p < TWO_52 * q) by (nonlinear_arith)
                requires
                    p == m * q,
                    m < TWO_52,
                    q > 0,
            ;
            lemma_nearest_exact(2 * m, q);
            assert((2 * m) * q == 2 * p) by (nonlinear_arith)
                requires
                    p == m * q,
            ;
            let b = nearest(2 * p, q).1;
            assert((2 * m) * b == m * (2 * b)) by (nonlinear_arith);
        } else {
            assert(p >= TWO_52 * q) by (nonlinear_arith)
                requires
                    p == m * q,
                    m >= TWO_52,
            ;
            vstd::arithmetic::div_mod::lemma_fundamental_div_mod_converse(
                p as int,
                q as int,
                m as int,
                0,
            );
            assert(m * 1 == m);
        }
    }
}

/// Rounding changes a value by less than one part in 2^52.
pub proof fn law_rounding_is_close(p: nat, q: nat)
    requires
        q > 0,
    ensures
        nearest(p, q).1 > 0,
        (nearest(p, q).0 * q - p * nearest(p, q).1) * 0x10_0000_0000_0000 <= p * nearest(p, q).1,
        (p * nearest(p, q).1 - nearest(p, q).0 * q) * 0x10_0000_0000_0000 <= p * nearest(p, q).1,
    decreases distance(p, q),
{
    let (a, b) = nearest(p, q);
    lemma_nearest_positive(p, q);
    if p == 0 {
        assert(a * q == 0 && p * b == 0) by (nonlinear_arith)
            requires
                a == 0,
                p == 0,
        ;
    } else if p >= TWO_53 * q {
        law_rounding_is_close(p, 2 * q);
        let c = nearest(p, 2 * q).0;
        assert(a * q == c * (2 * q)) by (nonlinear_arith)
            requires
                a == 2 * c,
        ;
    } else if p < TWO_52 * q {
        law_rounding_is_close(2 * p, q);
        let d = nearest(2 * p, q).1;
        assert(p * b == (2 * p) * d) by (nonlinear_arith)
            requires
                b == 2 * d,
        ;
    } else {
        let n = p / q;
        vstd::arithmetic::div_mod::lemma_fundamental_div_mod(p as int, q as int);
        assert(a * q <= p + q && p <= a * q + q) by (nonlinear_arith)
            requires
                n <= a <= n + 1,
                q * n <= p <= q * n + q,
        ;
        assert(p * 1 == p);
        assert(q * TWO_52 <= p) by (nonlinear_arith)
            requires
                p >= TWO_52 * q,
        ;
    }
}

/// A whole number of 53 bits or more is rounded to a whole number.
pub proof fn lemma_nearest_whole(n: nat)
    requires
        n >= TWO_52,
    ensures
        nearest(n, 1).1 == 1,
{
    lemma_nearest_large(n, 1);
}

proof fn lemma_nearest_large(p: nat, q: nat)
    requires
        q > 0,
        p >= TWO_52 * q,
    ensures
        nearest(p, q).1 == 1,
    decreases distance(p, q),
{
    if p >= TWO_53 * q {
        lemma_nearest_large(p, 2 * q);
    }
}

} // verus!
