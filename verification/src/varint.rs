use vstd::prelude::*;
use crate::error::BitswapError;

verus! {

/// Unsigned little-endian base-128 encoding of a 64-bit integer: each byte
/// carries seven bits of the value, lowest bits first, and the high bit of a
/// byte says that another byte follows.
pub open spec fn varint_bytes(n: u64) -> Seq<u8>
    decreases n,
{
    if n < 128 {
        seq![n as u8]
    } else {
        seq![(n % 128 + 128) as u8] + varint_bytes(n / 128)
    }
}

/// Result of parsing a varint that starts at `at`: the value and the offset
/// one past its last byte. A byte budget bounds the accepted length; the
/// top-level parser starts it at ten, the longest encoding a 64-bit value can
/// need, so an overlong or overflowing encoding is `InvalidData` and running
/// out of input is `UnexpectedEnd`.
pub open spec fn varint_parse_at(s: Seq<u8>, at: int, budget: nat) -> Result<(u64, int), BitswapError>
    decreases budget,
{
    if !(0 <= at < s.len()) {
        Err(BitswapError::UnexpectedEnd)
    } else if budget == 0 {
        Err(BitswapError::InvalidData)
    } else if s[at] < 128 {
        Ok((s[at] as u64, at + 1))
    } else {
        match varint_parse_at(s, at + 1, (budget - 1) as nat) {
            Ok(r) => {
                if (r.0 as int) * 128 + (s[at] - 128) <= u64::MAX {
                    Ok((((r.0 as int) * 128 + (s[at] - 128)) as u64, r.1))
                } else {
                    Err(BitswapError::InvalidData)
                }
            },
            Err(e) => Err(e),
        }
    }
}

/// Parse of a varint at `at` with the full ten-byte budget.
pub open spec fn varint_parse(s: Seq<u8>, at: int) -> Result<(u64, int), BitswapError> {
    varint_parse_at(s, at, 10)
}

/// Appends the varint encoding of `n` to `out`.
pub fn write_varint(n: u64, out: &mut Vec<u8>)
    ensures
        final(out)@ == old(out)@ + varint_bytes(n),
    decreases n,
{
    if n < 128 {
        out.push(n as u8);
        assert(out@ =~= old(out)@ + varint_bytes(n));
    } else {
        let b: u8 = (n % 128) as u8 + 128;
        out.push(b);
        let ghost mid = out@;
        write_varint(n / 128, out);
        assert(out@ =~= old(out)@ + varint_bytes(n)) by {
            assert(mid == old(out)@ + seq![b]);
            assert(varint_bytes(n) == seq![b] + varint_bytes(n / 128));
        }
    }
}

fn read_varint_budget(s: &[u8], at: usize, budget: u64) -> (r: Result<(u64, usize), BitswapError>)
    ensures
        match r {
            Ok(v) => varint_parse_at(s@, at as int, budget as nat) == Ok::<(u64, int), BitswapError>((v.0, v.1 as int)),
            Err(e) => varint_parse_at(s@, at as int, budget as nat) == Err::<(u64, int), BitswapError>(e),
        },
    decreases budget,
{
    if at >= s.len() {
        Err(BitswapError::UnexpectedEnd)
    } else if budget == 0 {
        Err(BitswapError::InvalidData)
    } else {
        let b = s[at];
        if b < 128 {
            Ok((b as u64, at + 1))
        } else {
            match read_varint_budget(s, at + 1, budget - 1) {
                Ok((hi, end)) => {
                    let low: u64 = (b - 128) as u64;
                    if hi <= (u64::MAX - low) / 128 {
                        assert((hi as int) * 128 + low <= u64::MAX) by (nonlinear_arith)
                            requires hi <= (u64::MAX - low) / 128, low <= 127u64;
                        Ok((hi * 128 + low, end))
                    } else {
                        assert((hi as int) * 128 + low > u64::MAX) by (nonlinear_arith)
                            requires hi > (u64::MAX - low) / 128, low <= 127u64;
                        Err(BitswapError::InvalidData)
                    }
                },
                Err(e) => Err(e),
            }
        }
    }
}

/// Reads a varint from `s` starting at `at`; returns the value and the offset
/// one past its last byte.
pub fn read_varint(s: &[u8], at: usize) -> (r: Result<(u64, usize), BitswapError>)
    ensures
        match r {
            Ok(v) => varint_parse(s@, at as int) == Ok::<(u64, int), BitswapError>((v.0, v.1 as int)),
            Err(e) => varint_parse(s@, at as int) == Err::<(u64, int), BitswapError>(e),
        },
{
    read_varint_budget(s, at, 10)
}

/// On success the parser stays inside the input and moves forward.
pub proof fn lemma_varint_parse_at_bounds(s: Seq<u8>, at: int, budget: nat)
    ensures
        varint_parse_at(s, at, budget) matches Ok(r) ==> at < r.1 <= s.len(),
    decreases budget,
{
    if 0 <= at < s.len() && budget > 0 && s[at] >= 128 {
        lemma_varint_parse_at_bounds(s, at + 1, (budget - 1) as nat);
    }
}

/// Same fact for the ten-byte-budget parser.
pub proof fn lemma_varint_parse_bounds(s: Seq<u8>, at: int)
    ensures
        varint_parse(s, at) matches Ok(r) ==> at < r.1 <= s.len(),
{
    lemma_varint_parse_at_bounds(s, at, 10);
}

spec fn pow128(k: nat) -> int
    decreases k,
{
    if k == 0 {
        1
    } else {
        128 * pow128((k - 1) as nat)
    }
}

proof fn lemma_varint_bytes_len_bound(n: u64, k: nat)
    requires
        k >= 1,
        n < pow128(k),
    ensures
        1 <= varint_bytes(n).len() <= k,
    decreases n,
{
    if n < 128 {
    } else {
        assert(k >= 2) by {
            if k == 1 {
                assert(pow128(1) == 128);
            }
        }
        assert(n / 128 < pow128((k - 1) as nat)) by (nonlinear_arith)
            requires n < 128 * pow128((k - 1) as nat), n >= 128;
        lemma_varint_bytes_len_bound(n / 128, (k - 1) as nat);
    }
}

/// A 64-bit value's varint encoding takes between one and ten bytes.
pub proof fn lemma_varint_bytes_len(n: u64)
    ensures
        1 <= varint_bytes(n).len() <= 10,
{
    assert(pow128(1) == 128 * pow128(0));
    assert(pow128(2) == 128 * pow128(1));
    assert(pow128(3) == 128 * pow128(2));
    assert(pow128(4) == 128 * pow128(3));
    assert(pow128(5) == 128 * pow128(4));
    assert(pow128(6) == 128 * pow128(5));
    assert(pow128(7) == 128 * pow128(6));
    assert(pow128(8) == 128 * pow128(7));
    assert(pow128(9) == 128 * pow128(8));
    assert(pow128(10) == 128 * pow128(9));
    assert(n < pow128(10));
    lemma_varint_bytes_len_bound(n, 10);
}

proof fn lemma_varint_round_trip_at(n: u64, s: Seq<u8>, at: int, budget: nat)
    requires
        0 <= at,
        at + varint_bytes(n).len() <= s.len(),
        s.subrange(at, at + varint_bytes(n).len()) == varint_bytes(n),
        varint_bytes(n).len() <= budget,
    ensures
        varint_parse_at(s, at, budget) == Ok::<(u64, int), BitswapError>((n, at + varint_bytes(n).len())),
    decreases n,
{
    let enc = varint_bytes(n);
    assert(s[at] == enc[0]);
    if n < 128 {
        assert(enc[0] == n as u8);
    } else {
        let rest = varint_bytes(n / 128);
        assert(enc == seq![(n % 128 + 128) as u8] + rest);
        assert(s[at] == (n % 128 + 128) as u8);
        assert(s.subrange(at + 1, at + 1 + rest.len()) == rest) by {
            assert forall|i: int| 0 <= i < rest.len() implies
                s.subrange(at + 1, at + 1 + rest.len())[i] == rest[i] by {
                assert(s.subrange(at, at + enc.len())[i + 1] == enc[i + 1]);
            }
            assert(s.subrange(at + 1, at + 1 + rest.len()) =~= rest);
        }
        lemma_varint_round_trip_at(n / 128, s, at + 1, (budget - 1) as nat);
        let hi = n / 128;
        let low = s[at] - 128;
        assert(low == n % 128);
        assert((hi as int) * 128 + low == n);
    }
}

/// Parsing an encoding it produced gives a varint codec back the value and
/// consumes exactly the encoding, whatever follows it.
pub proof fn lemma_varint_round_trip(n: u64, s: Seq<u8>, at: int)
    requires
        0 <= at,
        at + varint_bytes(n).len() <= s.len(),
        s.subrange(at, at + varint_bytes(n).len()) == varint_bytes(n),
    ensures
        varint_parse(s, at) == Ok::<(u64, int), BitswapError>((n, at + varint_bytes(n).len())),
{
    lemma_varint_bytes_len(n);
    lemma_varint_round_trip_at(n, s, at, 10);
}

} // verus!
