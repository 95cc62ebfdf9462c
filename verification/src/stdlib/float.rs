//! The order-preserving transform for IEEE-754 bit patterns.
//!
//! Verified code does not handle floating-point values themselves, so this
//! module works on the raw 32- and 64-bit patterns; a caller obtains them
//! with `to_bits` and restores values with `from_bits`. The transform
//! canonicalizes the two signed zeros to one pattern, then flips the sign
//! bit of a non-negative pattern and every bit of a negative one. By the
//! IEEE-754 layout, the resulting unsigned key grows exactly as the
//! finite values (and the infinities) grow, so byte order of the four- or
//! eight-byte big-endian key reproduces the value order wherever the value
//! order is defined; NaN patterns land above the infinities with no order
//! claimed among them.

use crate::bytes::{be_bytes, lemma_be_bytes_lt, lemma_pow256_values, pow256};
use crate::codec::reads_from;
use crate::order::lex_lt;
use crate::varint::{read_be, write_be};
use crate::{Error, PrefixRead};
use vstd::prelude::*;

verus! {

/// The canonical form of a 32-bit pattern: negative zero becomes zero.
pub open spec fn f32_canon(bits: u32) -> u32 {
    if bits == 0x80000000 {
        0
    } else {
        bits
    }
}

/// The order key of a canonical 32-bit pattern.
pub open spec fn f32_key(bits: u32) -> int {
    if f32_canon(bits) < 0x80000000 {
        f32_canon(bits) + 0x80000000
    } else {
        0xFFFFFFFF - f32_canon(bits)
    }
}

/// The four-byte encoding of a 32-bit pattern.
pub open spec fn f32_enc(bits: u32) -> Seq<u8> {
    be_bytes(f32_key(bits), 4)
}

/// The pattern a four-byte key decodes to: the inverse of `f32_key`.
pub open spec fn f32_unkey(key: int) -> u32 {
    if key >= 0x80000000 {
        (key - 0x80000000) as u32
    } else {
        (0xFFFFFFFF - key) as u32
    }
}

/// The canonical form of a 64-bit pattern: negative zero becomes zero.
pub open spec fn f64_canon(bits: u64) -> u64 {
    if bits == 0x8000000000000000 {
        0
    } else {
        bits
    }
}

/// The order key of a canonical 64-bit pattern.
pub open spec fn f64_key(bits: u64) -> int {
    if f64_canon(bits) < 0x8000000000000000 {
        f64_canon(bits) + 0x8000000000000000
    } else {
        0xFFFFFFFFFFFFFFFF - f64_canon(bits)
    }
}

/// The eight-byte encoding of a 64-bit pattern.
pub open spec fn f64_enc(bits: u64) -> Seq<u8> {
    be_bytes(f64_key(bits), 8)
}

/// The pattern an eight-byte key decodes to: the inverse of `f64_key`.
pub open spec fn f64_unkey(key: int) -> u64 {
    if key >= 0x8000000000000000 {
        (key - 0x8000000000000000) as u64
    } else {
        (0xFFFFFFFFFFFFFFFF - key) as u64
    }
}

/// Keys in order are bytes in order: two patterns whose keys compare also
/// encode in that order. Together with the IEEE-754 layout, under which
/// the key order of two non-NaN patterns is the order of their values,
/// this is order preservation for 32-bit floating point.
pub proof fn lemma_f32_order(a: u32, b: u32)
    requires
        f32_key(a) < f32_key(b),
    ensures
        lex_lt(f32_enc(a), f32_enc(b)),
{
    lemma_pow256_values();
    lemma_be_bytes_lt(f32_key(a), f32_key(b), 4);
}

/// The 64-bit counterpart of the key-order lemma.
pub proof fn lemma_f64_order(a: u64, b: u64)
    requires
        f64_key(a) < f64_key(b),
    ensures
        lex_lt(f64_enc(a), f64_enc(b)),
{
    lemma_pow256_values();
    lemma_be_bytes_lt(f64_key(a), f64_key(b), 8);
}

/// Write the four-byte encoding of a 32-bit pattern.
pub fn f32_to_write(bits: u32, out: &mut Vec<u8>)
    ensures
        final(out)@ == old(out)@ + f32_enc(bits),
{
    proof {
        lemma_pow256_values();
    }
    let c: u32 = if bits == 0x80000000 {
        0
    } else {
        bits
    };
    let key: u32 = if c < 0x80000000 {
        c + 0x80000000
    } else {
        0xFFFFFFFF - c
    };
    write_be(out, key as u128, 4);
}

/// Write the eight-byte encoding of a 64-bit pattern.
pub fn f64_to_write(bits: u64, out: &mut Vec<u8>)
    ensures
        final(out)@ == old(out)@ + f64_enc(bits),
{
    proof {
        lemma_pow256_values();
    }
    let c: u64 = if bits == 0x8000000000000000 {
        0
    } else {
        bits
    };
    let key: u64 = if c < 0x8000000000000000 {
        c + 0x8000000000000000
    } else {
        0xFFFFFFFFFFFFFFFF - c
    };
    write_be(out, key as u128, 8);
}

/// Read four bytes back into a canonical 32-bit pattern. A stream that
/// starts with the encoding of any pattern yields that pattern's
/// canonical form: the round trip loses only the sign of a signed zero.
pub fn f32_from_read(r: &mut PrefixRead) -> (res: Result<u32, Error>)
    requires
        old(r).wf(),
    ensures
        reads_from(*old(r), *final(r)),
        match res {
            Ok(bits) => old(r).stream().len() >= 4 && final(r).stream() == old(r).stream().skip(4)
                && bits == f32_unkey(crate::bytes::be_val(old(r).stream().take(4))),
            Err(e) => e == Error::Eof && old(r).stream().len() < 4,
        },
        forall|b: u32|
            (#[trigger] f32_enc(b)).is_prefix_of(old(r).stream()) ==> res == Ok::<u32, Error>(
                f32_canon(b),
            ) && final(r).stream() == old(r).stream().skip(4),
{
    proof {
        lemma_pow256_values();
    }
    let acc = match read_be(r, 4, 0) {
        Ok(acc) => acc,
        Err(e) => {
            return Err(e);
        }
    };
    proof {
        crate::bytes::lemma_be_val_bound(old(r).stream().take(4));
    }
    let key: u32 = acc as u32;
    let bits: u32 = if key >= 0x80000000 {
        key - 0x80000000
    } else {
        0xFFFFFFFF - key
    };
    let res: Result<u32, Error> = Ok(bits);
    proof {
        assert forall|b: u32| (#[trigger] f32_enc(b)).is_prefix_of(old(r).stream())
            implies res == Ok::<u32, Error>(f32_canon(b)) && r.stream() == old(r).stream().skip(
            4,
        ) by {
            assert(old(r).stream().take(4) =~= f32_enc(b));
            crate::bytes::lemma_be_val_be_bytes(f32_key(b), 4);
        }
    }
    res
}

/// Read eight bytes back into a canonical 64-bit pattern.
pub fn f64_from_read(r: &mut PrefixRead) -> (res: Result<u64, Error>)
    requires
        old(r).wf(),
    ensures
        reads_from(*old(r), *final(r)),
        match res {
            Ok(bits) => old(r).stream().len() >= 8 && final(r).stream() == old(r).stream().skip(8)
                && bits == f64_unkey(crate::bytes::be_val(old(r).stream().take(8))),
            Err(e) => e == Error::Eof && old(r).stream().len() < 8,
        },
        forall|b: u64|
            (#[trigger] f64_enc(b)).is_prefix_of(old(r).stream()) ==> res == Ok::<u64, Error>(
                f64_canon(b),
            ) && final(r).stream() == old(r).stream().skip(8),
{
    proof {
        lemma_pow256_values();
    }
    let acc = match read_be(r, 8, 0) {
        Ok(acc) => acc,
        Err(e) => {
            return Err(e);
        }
    };
    proof {
        crate::bytes::lemma_be_val_bound(old(r).stream().take(8));
    }
    let key: u64 = acc as u64;
    let bits: u64 = if key >= 0x8000000000000000 {
        key - 0x8000000000000000
    } else {
        0xFFFFFFFFFFFFFFFF - key
    };
    let res: Result<u64, Error> = Ok(bits);
    proof {
        assert forall|b: u64| (#[trigger] f64_enc(b)).is_prefix_of(old(r).stream())
            implies res == Ok::<u64, Error>(f64_canon(b)) && r.stream() == old(r).stream().skip(
            8,
        ) by {
            assert(old(r).stream().take(8) =~= f64_enc(b));
            crate::bytes::lemma_be_val_be_bytes(f64_key(b), 8);
        }
    }
    res
}

} // verus!
