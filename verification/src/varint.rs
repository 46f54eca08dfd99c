//! Variable-length unsigned integers: little-endian 7-bit groups, with the
//! high bit of each byte set while more groups follow.
use vstd::prelude::*;

verus! {

/// The canonical varint encoding of `x`: low 7 bits first, continuation bit
/// set on every byte but the last.
pub open spec fn vu64_enc(x: u64) -> Seq<u8>
    decreases x,
{
    if x < 128 {
        seq![x as u8]
    } else {
        seq![(x % 128 + 128) as u8] + vu64_enc(x / 128)
    }
}

/// What decoding a byte sequence yields: the value and the number of bytes
/// consumed, or `None` when the input starts with no complete varint.
/// Continuation bytes contribute their low 7 bits; a value that would not
/// fit in 64 bits is rejected.
pub open spec fn vu64_dec(b: Seq<u8>) -> Option<(u64, int)>
    decreases b.len(),
{
    if b.len() == 0 {
        None
    } else if b[0] < 128 {
        Some((b[0] as u64, 1))
    } else {
        match vu64_dec(b.drop_first()) {
            None => None,
            Some((v, n)) => {
                if v <= (u64::MAX - (b[0] - 128)) / 128 {
                    Some((((b[0] - 128) + 128 * v) as u64, n + 1))
                } else {
                    None
                }
            },
        }
    }
}

spec fn pow128(k: nat) -> int
    decreases k,
{
    if k == 0 {
        1
    } else {
        128 * pow128((k - 1) as nat)
    }
}

proof fn lemma_vu64_enc_len_bounded(x: u64, k: nat)
    requires
        k >= 1,
        x < pow128(k),
    ensures
        vu64_enc(x).len() <= k,
    decreases x,
{
    if x >= 128 {
        assert(pow128(0) == 1);
        assert(k != 1) by {
            if k == 1 {
                assert(pow128(1) == 128);
            }
        };
        lemma_vu64_enc_len_bounded(x / 128, (k - 1) as nat);
    }
}

/// An encoded varint never exceeds ten bytes.
pub proof fn lemma_vu64_enc_len(x: u64)
    ensures
        1 <= vu64_enc(x).len() <= 10,
{
    assert(pow128(0) == 1);
    assert(pow128(1) == 0x80);
    assert(pow128(2) == 0x4000);
    assert(pow128(3) == 0x20_0000);
    assert(pow128(4) == 0x1000_0000);
    assert(pow128(5) == 0x8_0000_0000);
    assert(pow128(6) == 0x400_0000_0000);
    assert(pow128(7) == 0x2_0000_0000_0000);
    assert(pow128(8) == 0x100_0000_0000_0000);
    assert(pow128(9) == 0x8000_0000_0000_0000);
    assert(pow128(10) == 0x40_0000_0000_0000_0000);
    lemma_vu64_enc_len_bounded(x, 10);
}

/// Decoding an encoding, whatever follows it, gives back the value and
/// consumes exactly the encoding.
pub proof fn lemma_vu64_round_trip(x: u64, rest: Seq<u8>)
    ensures
        vu64_dec(vu64_enc(x) + rest) == Some((x, vu64_enc(x).len() as int)),
    decreases x,
{
    let b = vu64_enc(x) + rest;
    if x < 128 {
        assert(b[0] == x as u8);
    } else {
        lemma_vu64_round_trip(x / 128, rest);
        assert(b.drop_first() =~= vu64_enc(x / 128) + rest);
        assert(b[0] == (x % 128 + 128) as u8);
        assert((b[0] - 128) + 128 * (x / 128) == x);
    }
}

/// Appends the varint encoding of `x` to `out`.
pub fn write_vu64(out: &mut Vec<u8>, x: u64)
    ensures
        final(out)@ == old(out)@ + vu64_enc(x),
    decreases x,
{
    if x < 128 {
        out.push(x as u8);
        assert(out@ =~= old(out)@ + vu64_enc(x));
    } else {
        out.push((x % 128 + 128) as u8);
        write_vu64(out, x / 128);
        assert(out@ =~= old(out)@ + vu64_enc(x));
    }
}

/// The number of bytes the varint encoding of `x` takes.
pub fn vu64_len(x: u64) -> (r: usize)
    ensures
        r == vu64_enc(x).len(),
        1 <= r <= 10,
    decreases x,
{
    proof {
        lemma_vu64_enc_len(x);
    }
    if x < 128 {
        1
    } else {
        1 + vu64_len(x / 128)
    }
}

/// Reads one varint from `b` starting at `pos`. Returns the value and the
/// position just past it, or `UnexpectedEof` when no complete varint starts
/// there.
pub fn read_vu64(b: &[u8], pos: usize) -> (r: crate::GyResult<(u64, usize)>)
    requires
        pos <= b@.len(),
    ensures
        match r {
            Ok((v, end)) => {
                &&& pos < end <= b@.len()
                &&& vu64_dec(b@.subrange(pos as int, b@.len() as int)) == Some(
                    (v, end - pos as int),
                )
            },
            Err(e) => {
                &&& e == crate::GyError::UnexpectedEof
                &&& vu64_dec(b@.subrange(pos as int, b@.len() as int)) is None
            },
        },
    decreases b@.len() - pos,
{
    let ghost tail = b@.subrange(pos as int, b@.len() as int);
    if pos >= b.len() {
        return Err(crate::GyError::UnexpectedEof);
    }
    let byte = b[pos];
    if byte < 128 {
        Ok((byte as u64, pos + 1))
    } else {
        let ghost tail2 = b@.subrange(pos + 1, b@.len() as int);
        proof {
            assert(tail.drop_first() =~= tail2);
        }
        match read_vu64(b, pos + 1) {
            Ok((v, end)) => {
                if v <= (u64::MAX - ((byte - 128) as u64)) / 128 {
                    Ok((((byte - 128) as u64) + 128 * v, end))
                } else {
                    Err(crate::GyError::UnexpectedEof)
                }
            },
            Err(e) => Err(e),
        }
    }
}

} // verus!
