//! Numbers as bytes, the most significant first.
use vstd::prelude::*;

verus! {

/// The number that the bytes spell, the most significant first.
pub open spec fn be_value(s: Seq<u8>) -> nat
    decreases s.len(),
{
    if s.len() == 0 {
        0
    } else {
        be_value(s.drop_last()) * 256 + s.last() as nat
    }
}

/// The last `k` bytes of a number, the most significant first.
pub open spec fn be_bytes(n: nat, k: nat) -> Seq<u8>
    decreases k,
{
    if k == 0 {
        Seq::empty()
    } else {
        be_bytes(n / 256, (k - 1) as nat).push((n % 256) as u8)
    }
}

/// One more than the largest number of `k` bytes.
pub open spec fn be_limit(k: nat) -> nat
    decreases k,
{
    if k == 0 {
        1
    } else {
        256 * be_limit((k - 1) as nat)
    }
}

pub proof fn lemma_be_bytes_len(n: nat, k: nat)
    ensures
        be_bytes(n, k).len() == k,
    decreases k,
{
    if k > 0 {
        lemma_be_bytes_len(n / 256, (k - 1) as nat);
    }
}

/// Bytes spell a number below the limit for their count.
pub proof fn lemma_be_value_bound(s: Seq<u8>)
    ensures
        be_value(s) < be_limit(s.len()),
    decreases s.len(),
{
    if s.len() > 0 {
        lemma_be_value_bound(s.drop_last());
    }
}

/// What four and eight bytes can hold.
pub proof fn lemma_limits()
    ensures
        be_limit(4) == 0x1_0000_0000,
        be_limit(8) == 0x1_0000_0000_0000_0000,
{
    reveal_with_fuel(be_limit, 9);
}

/// A number that fits into `k` bytes is read back as it was written.
pub proof fn law_be_round_trip(n: nat, k: nat)
    requires
        n < be_limit(k),
    ensures
        be_value(be_bytes(n, k)) == n,
    decreases k,
{
    if k > 0 {
        law_be_round_trip(n / 256, (k - 1) as nat);
        assert(be_bytes(n, k).drop_last() =~= be_bytes(n / 256, (k - 1) as nat));
    }
}

/// Four bytes of a 32-bit number.
pub fn be_bytes_u32(n: u32) -> (res: [u8; 4])
    ensures
        res@ == be_bytes(n as nat, 4),
{
    let res = [
        (n / 0x100_0000) as u8,
        (n / 0x1_0000 % 0x100) as u8,
        (n / 0x100 % 0x100) as u8,
        (n % 0x100) as u8,
    ];
    proof {
        reveal_with_fuel(be_bytes, 5);
        assert(res@ =~= be_bytes(n as nat, 4));
    }
    res
}

/// The number of four bytes, starting at `at`.
pub fn be_u32_at(s: &[u8], at: usize) -> (res: u32)
    requires
        at + 4 <= s@.len(),
    ensures
        res == be_value(s@.subrange(at as int, at + 4)),
{
    let ghost four = s@.subrange(at as int, at + 4);
    proof {
        reveal_with_fuel(be_value, 5);
        assert(four.drop_last() =~= s@.subrange(at as int, at + 3));
        assert(four.drop_last().drop_last() =~= s@.subrange(at as int, at + 2));
        assert(four.drop_last().drop_last().drop_last() =~= s@.subrange(at as int, at + 1));
        assert(four.drop_last().drop_last().drop_last().drop_last() =~= Seq::<u8>::empty());
    }
    s[at] as u32 * 0x100_0000 + s[at + 1] as u32 * 0x1_0000 + s[at + 2] as u32 * 0x100 + s[at
        + 3] as u32
}

/// Eight bytes are two times four.
pub proof fn lemma_be_value_halves(s: Seq<u8>)
    requires
        s.len() == 8,
    ensures
        be_value(s) == be_value(s.take(4)) * 0x1_0000_0000 + be_value(s.skip(4)),
{
    reveal_with_fuel(be_value, 9);
    let d1 = s.drop_last();
    let d2 = d1.drop_last();
    let d3 = d2.drop_last();
    let d4 = d3.drop_last();
    assert(d4 =~= s.take(4));
    let t = s.skip(4);
    let t1 = t.drop_last();
    let t2 = t1.drop_last();
    let t3 = t2.drop_last();
    assert(t3.drop_last() =~= Seq::<u8>::empty());
}

/// Eight bytes are two times four.
pub proof fn lemma_be_bytes_halves(n: nat)
    ensures
        be_bytes(n, 8) == be_bytes(n / 0x1_0000_0000, 4) + be_bytes(n % 0x1_0000_0000, 4),
{
    reveal_with_fuel(be_bytes, 9);
    assert(n / 256 / 256 / 256 / 256 == n / 0x1_0000_0000);
    assert(be_bytes(n, 8) =~= be_bytes(n / 0x1_0000_0000, 4) + be_bytes(n % 0x1_0000_0000, 4));
}

/// Four bytes are a number in base 256, the most significant byte first; so are eight,
/// as two times four.
pub proof fn law_bytes_are_base_256(n: nat, m: nat)
    requires
        n < 0x1_0000_0000,
        m < 0x1_0000_0000_0000_0000,
    ensures
        ({
            let b = be_bytes(n, 4);
            &&& b.len() == 4
            &&& n == b[0] * 0x100_0000 + b[1] * 0x1_0000 + b[2] * 0x100 + b[3]
        }),
        ({
            let b = be_bytes(m, 8);
            &&& b.len() == 8
            &&& m / 0x1_0000_0000 == b[0] * 0x100_0000 + b[1] * 0x1_0000 + b[2] * 0x100 + b[3]
            &&& m % 0x1_0000_0000 == b[4] * 0x100_0000 + b[5] * 0x1_0000 + b[6] * 0x100 + b[7]
        }),
{
    reveal_with_fuel(be_bytes, 9);
}

/// Bytes read as a number: in base 256, the most significant byte first.
pub proof fn law_value_of_bytes(s: Seq<u8>)
    ensures
        s.len() == 4 ==> be_value(s) == s[0] * 0x100_0000 + s[1] * 0x1_0000 + s[2] * 0x100 + s[3],
        s.len() == 8 ==> be_value(s) == (s[0] * 0x100_0000 + s[1] * 0x1_0000 + s[2] * 0x100 + s[3])
            * 0x1_0000_0000 + (s[4] * 0x100_0000 + s[5] * 0x1_0000 + s[6] * 0x100 + s[7]),
    decreases s.len(),
{
    reveal_with_fuel(be_value, 9);
    if s.len() == 4 {
        let a = s.drop_last();
        let b = a.drop_last();
        let c = b.drop_last();
        assert(c.drop_last() =~= Seq::<u8>::empty());
    }
    if s.len() == 8 {
        lemma_be_value_halves(s);
        law_value_of_bytes(s.take(4));
        law_value_of_bytes(s.skip(4));
    }
}

} // verus!
