//! Decoding of BER integer contents.
use crate::ber::{be_value, lemma_be_value_bound, lemma_pow256_values, pow256, BerError, BerResult};
use vstd::prelude::*;
use vstd::slice::slice_subrange;

verus! {

/// The two's complement value of big-endian bytes.
pub open spec fn signed_value(s: Seq<u8>) -> int
    decreases s.len(),
{
    if s.len() == 0 {
        0
    } else if s.len() == 1 {
        if s[0] >= 0x80 {
            s[0] - 256
        } else {
            s[0] as int
        }
    } else {
        signed_value(s.drop_last()) * 256 + s.last() as int
    }
}

/// The INTEGER whose content is `s`. Five bytes are taken only where the
/// first is a sign padding byte; the value is then read from the last four.
pub open spec fn spec_decode_integer(s: Seq<u8>) -> BerResult<i32> {
    if s.len() == 0 {
        Err(BerError::IncompleteData)
    } else if s.len() > 5 || (s.len() == 5 && !((s[0] == 0x00 && s[1] >= 0x80) || (s[0] == 0xFF
        && s[1] < 0x80))) {
        Err(BerError::IntegerOverflow)
    } else if s.len() == 5 {
        Ok(signed_value(s.drop_first()) as i32)
    } else {
        Ok(signed_value(s) as i32)
    }
}

/// The unsigned 32-bit quantity whose content is `s`; a fifth byte is taken
/// only as a leading zero.
pub open spec fn spec_decode_unsigned(s: Seq<u8>) -> BerResult<u32> {
    if s.len() == 0 {
        Err(BerError::IncompleteData)
    } else if s.len() > 5 || (s.len() == 5 && s[0] != 0x00) {
        Err(BerError::IntegerOverflow)
    } else {
        Ok(be_value(s) as u32)
    }
}

/// The unsigned 64-bit quantity whose content is `s`; a ninth byte is taken
/// only as a leading zero.
pub open spec fn spec_decode_unsigned64(s: Seq<u8>) -> BerResult<u64> {
    if s.len() == 0 {
        Err(BerError::IncompleteData)
    } else if s.len() > 9 || (s.len() == 9 && s[0] != 0x00) {
        Err(BerError::IntegerOverflow)
    } else {
        Ok(be_value(s) as u64)
    }
}

/// The two's complement value of `k` bytes lies in the signed `8k`-bit range.
pub proof fn lemma_signed_value_bound(s: Seq<u8>)
    requires
        s.len() >= 1,
    ensures
        -128 * pow256((s.len() - 1) as nat) <= signed_value(s) < 128 * pow256((s.len() - 1) as nat),
    decreases s.len(),
{
    if s.len() > 1 {
        lemma_signed_value_bound(s.drop_last());
    }
}

/// A leading zero byte adds nothing to the unsigned value.
pub proof fn lemma_be_value_leading_zero(s: Seq<u8>)
    requires
        s.len() >= 1,
        s[0] == 0,
    ensures
        be_value(s) == be_value(s.drop_first()),
    decreases s.len(),
{
    if s.len() > 1 {
        lemma_be_value_leading_zero(s.drop_last());
        assert(s.drop_last().drop_first() == s.drop_first().drop_last());
        assert(s.drop_first().last() == s.last());
    } else {
        assert(s.drop_first().len() == 0);
        assert(s.drop_last().len() == 0);
        assert(be_value(s) == be_value(s.drop_last()) * 256 + s.last() as nat);
    }
}

/// Reads big-endian bytes as an unsigned value.
fn read_unsigned(bytes: &[u8]) -> (r: u64)
    requires
        bytes@.len() <= 8,
    ensures
        r == be_value(bytes@),
{
    let mut value: u64 = 0;
    let mut i: usize = 0;
    while i < bytes.len()
        invariant
            i <= bytes@.len() <= 8,
            value == be_value(bytes@.subrange(0, i as int)),
        decreases bytes@.len() - i,
    {
        proof {
            let prefix = bytes@.subrange(0, i as int);
            assert(bytes@.subrange(0, i + 1).drop_last() == prefix);
            lemma_be_value_bound(prefix);
            lemma_pow256_values();
            crate::ber::lemma_pow256_monotonic(i as nat, 7);
        }
        value = value * 256 + bytes[i] as u64;
        i += 1;
    }
    assert(bytes@.subrange(0, i as int) == bytes@);
    value
}

pub fn decode_integer(input: &[u8]) -> (r: BerResult<i32>)
    ensures
        r == spec_decode_integer(input@),
{
    if input.len() == 0 {
        return Err(BerError::IncompleteData);
    }
    if input.len() > 4 {
        if input.len() == 5 {
            if input[0] == 0x00 && input[1] >= 0x80 {
            } else if input[0] == 0xFF && input[1] < 0x80 {
            } else {
                return Err(BerError::IntegerOverflow);
            }
        } else {
            return Err(BerError::IntegerOverflow);
        }
    }
    // a five-byte content carries a sign padding byte in front of four bytes
    let bytes = if input.len() == 5 {
        slice_subrange(input, 1, 5)
    } else {
        input
    };
    assert(input@.len() == 5 ==> bytes@ == input@.drop_first());
    let mut value: i64 = if bytes[0] >= 0x80 {
        bytes[0] as i64 - 256
    } else {
        bytes[0] as i64
    };
    let mut i: usize = 1;
    proof {
        assert(bytes@.subrange(0, 1).len() == 1);
        lemma_pow256_values();
    }
    while i < bytes.len()
        invariant
            1 <= i <= bytes@.len() <= 4,
            value == signed_value(bytes@.subrange(0, i as int)),
            pow256(3) == 0x100_0000,
        decreases bytes@.len() - i,
    {
        proof {
            let prefix = bytes@.subrange(0, i as int);
            assert(bytes@.subrange(0, i + 1).drop_last() == prefix);
            lemma_signed_value_bound(prefix);
            crate::ber::lemma_pow256_monotonic((i - 1) as nat, 2);
        }
        value = value * 256 + bytes[i] as i64;
        i += 1;
    }
    proof {
        assert(bytes@.subrange(0, i as int) == bytes@);
        lemma_signed_value_bound(bytes@);
        crate::ber::lemma_pow256_monotonic((bytes@.len() - 1) as nat, 3);
    }
    Ok(value as i32)
}

pub fn decode_unsigned_integer(input: &[u8]) -> (r: BerResult<u32>)
    ensures
        r == spec_decode_unsigned(input@),
{
    if input.len() == 0 {
        return Err(BerError::IncompleteData);
    }
    if input.len() > 5 {
        return Err(BerError::IntegerOverflow);
    }
    if input.len() == 5 && input[0] != 0x00 {
        return Err(BerError::IntegerOverflow);
    }
    let digits = if input.len() == 5 {
        proof {
            lemma_be_value_leading_zero(input@);
        }
        slice_subrange(input, 1, 5)
    } else {
        input
    };
    assert(input@.len() == 5 ==> digits@ == input@.drop_first());
    let value = read_unsigned(digits);
    proof {
        lemma_be_value_bound(digits@);
        lemma_pow256_values();
        crate::ber::lemma_pow256_monotonic(digits@.len(), 4);
    }
    Ok(value as u32)
}

pub fn decode_unsigned_integer64(input: &[u8]) -> (r: BerResult<u64>)
    ensures
        r == spec_decode_unsigned64(input@),
{
    if input.len() == 0 {
        return Err(BerError::IncompleteData);
    }
    if input.len() > 9 {
        return Err(BerError::IntegerOverflow);
    }
    if input.len() == 9 && input[0] != 0x00 {
        return Err(BerError::IntegerOverflow);
    }
    let digits = if input.len() == 9 {
        proof {
            lemma_be_value_leading_zero(input@);
        }
        slice_subrange(input, 1, 9)
    } else {
        input
    };
    assert(input@.len() == 9 ==> digits@ == input@.drop_first());
    let value = read_unsigned(digits);
    Ok(value)
}

} // verus!
