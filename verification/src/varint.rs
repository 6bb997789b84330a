//! Base-128 variable-length integer encoding, used for the key and value
//! sizes inside a log record and for the sequence-number prefix of a
//! sequenced key.
//!
//! A value is stored little-end first, seven bits per byte; the high bit of
//! a byte says that another byte follows.

use vstd::prelude::*;

verus! {

/// The encoding of `n`: low seven bits first, high bit set on every byte
/// but the last.
pub open spec fn spec_varint(n: u64) -> Seq<u8>
    decreases n,
{
    if n < 128 {
        seq![n as u8]
    } else {
        seq![(n % 128 + 128) as u8] + spec_varint(n / 128)
    }
}

/// Reads one varint from the front of `s`: the value (unbounded) and the
/// number of bytes consumed.  `None` when no byte with a clear high bit
/// arrives before `s` runs out.
pub open spec fn spec_varint_parse(s: Seq<u8>) -> Option<(int, int)>
    decreases s.len(),
{
    if s.len() == 0 {
        None
    } else if s[0] < 128 {
        Some((s[0] as int, 1))
    } else {
        match spec_varint_parse(s.skip(1)) {
            Some(p) => Some(((s[0] - 128) + 128 * p.0, p.1 + 1)),
            None => None,
        }
    }
}

pub proof fn lemma_varint_parse_bounds(s: Seq<u8>)
    requires
        spec_varint_parse(s) is Some,
    ensures
        0 <= spec_varint_parse(s)->Some_0.0,
        1 <= spec_varint_parse(s)->Some_0.1 <= s.len(),
    decreases s.len(),
{
    if s.len() != 0 && s[0] >= 128 {
        lemma_varint_parse_bounds(s.skip(1));
    }
}

/// 128 to the `k`.
pub open spec fn pow128(k: nat) -> int
    decreases k,
{
    if k == 0 {
        1
    } else {
        128 * pow128((k - 1) as nat)
    }
}

proof fn lemma_varint_len_bound(n: u64, k: nat)
    requires
        1 <= k,
        n < pow128(k),
    ensures
        1 <= spec_varint(n).len() <= k,
    decreases k,
{
    if n >= 128 {
        assert(pow128(0) == 1);
        assert(pow128(1) == 128 * pow128(0));
        assert(k >= 2);
        assert(pow128(k) == 128 * pow128((k - 1) as nat));
        lemma_pow128_pos((k - 1) as nat);
        assert(n / 128 < pow128((k - 1) as nat)) by (nonlinear_arith)
            requires
                n < 128 * pow128((k - 1) as nat),
                pow128((k - 1) as nat) >= 1,
        ;
        lemma_varint_len_bound(n / 128, (k - 1) as nat);
    }
}

proof fn lemma_pow128_pos(k: nat)
    ensures
        pow128(k) >= 1,
    decreases k,
{
    if k > 0 {
        lemma_pow128_pos((k - 1) as nat);
    }
}

/// An encoding is at least one and at most ten bytes.
pub proof fn lemma_varint_len(n: u64)
    ensures
        1 <= spec_varint(n).len() <= 10,
{
    reveal_with_fuel(pow128, 11);
    assert(pow128(10) > u64::MAX);
    lemma_varint_len_bound(n, 10);
}

/// A value below 2^32 encodes in at most five bytes.
pub proof fn lemma_varint_len_u32(n: u64)
    requires
        n < 0x1_0000_0000,
    ensures
        1 <= spec_varint(n).len() <= 5,
{
    reveal_with_fuel(pow128, 6);
    assert(pow128(5) > 0x1_0000_0000);
    lemma_varint_len_bound(n, 5);
}

/// Parsing an encoding followed by anything recovers the value and the
/// encoding's length.
pub proof fn lemma_varint_round_trip(n: u64, rest: Seq<u8>)
    ensures
        spec_varint_parse(spec_varint(n) + rest) == Some(
            (n as int, spec_varint(n).len() as int),
        ),
    decreases n,
{
    let s = spec_varint(n) + rest;
    if n < 128 {
        assert(s[0] == n as u8);
    } else {
        assert(s[0] == (n % 128 + 128) as u8);
        assert(n % 128 + 128 < 256);
        assert(s[0] >= 128);
        lemma_varint_round_trip(n / 128, rest);
        assert(s.skip(1) =~= spec_varint(n / 128) + rest);
        let p = spec_varint_parse(s.skip(1))->Some_0;
        assert(p.0 == (n / 128) as int);
        assert((s[0] - 128) + 128 * p.0 == n % 128 + 128 * (n / 128));
        assert(n % 128 + 128 * (n / 128) == n) by (nonlinear_arith);
    }
}

/// Appends the encoding of `n` to `buf`.
pub fn encode_varint(n: u64, buf: &mut Vec<u8>)
    ensures
        final(buf)@ == old(buf)@ + spec_varint(n),
{
    let mut x: u64 = n;
    while x >= 128
        invariant
            buf@ + spec_varint(x) == old(buf)@ + spec_varint(n),
        decreases x,
    {
        let ghost prev = buf@;
        let ghost px = x;
        buf.push((x % 128 + 128) as u8);
        x = x / 128;
        assert(spec_varint(px) == seq![(px % 128 + 128) as u8] + spec_varint(px / 128));
        assert(buf@ + spec_varint(x) =~= prev + spec_varint(px));
    }
    let ghost prev = buf@;
    buf.push(x as u8);
    assert(spec_varint(x) =~= seq![x as u8]);
    assert(buf@ =~= prev + spec_varint(x));
    assert(buf@ =~= old(buf)@ + spec_varint(n));
}

/// Reads one varint from `buf` starting at `start`.  `None` when the spec
/// parse fails there or its value does not fit in a `u64`.
pub fn decode_varint(buf: &[u8], start: usize) -> (r: Option<(u64, usize)>)
    requires
        start <= buf@.len(),
    ensures
        ({
            let p = spec_varint_parse(buf@.skip(start as int));
            match r {
                Some(pair) => p == Some((pair.0 as int, pair.1 as int)) && pair.1 >= 1,
                None => p is None || p->Some_0.0 > u64::MAX,
            }
        }),
    decreases buf@.len() - start,
{
    let ghost s = buf@.skip(start as int);
    if start >= buf.len() {
        return None;
    }
    let b = buf[start];
    assert(s[0] == b);
    if b < 128 {
        Some((b as u64, 1))
    } else {
        assert(s.skip(1) =~= buf@.skip(start as int + 1));
        match decode_varint(buf, start + 1) {
            None => {
                None
            },
            Some((v, l)) => {
                proof {
                    lemma_varint_parse_bounds(s.skip(1));
                }
                let low: u64 = (b - 128) as u64;
                if v > (u64::MAX - low) / 128 {
                    proof {
                        lemma_mul_gt(v as int, low as int);
                    }
                    None
                } else {
                    proof {
                        lemma_mul_le(v as int, low as int);
                    }
                    Some((low + 128 * v, l + 1))
                }
            },
        }
    }
}

proof fn lemma_mul_gt(v: int, low: int)
    requires
        0 <= low < 128,
        v > (u64::MAX - low) / 128,
    ensures
        low + 128 * v > u64::MAX,
{
    assert(128 * v >= 128 * ((u64::MAX - low) / 128 + 1)) by (nonlinear_arith)
        requires v >= (u64::MAX - low) / 128 + 1;
    assert(128 * ((u64::MAX - low) / 128) + 128 > u64::MAX - low);
}

proof fn lemma_mul_le(v: int, low: int)
    requires
        0 <= low < 128,
        0 <= v <= (u64::MAX - low) / 128,
    ensures
        low + 128 * v <= u64::MAX,
{
    assert(128 * v <= 128 * ((u64::MAX - low) / 128)) by (nonlinear_arith)
        requires 0 <= v <= (u64::MAX - low) / 128;
    assert(128 * ((u64::MAX - low) / 128) <= u64::MAX - low);
}

} // verus!
