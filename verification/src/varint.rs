//! The variable-length integer scheme shared by all multi-byte integers.
//!
//! A value is written in one of five width classes; the class is carried in
//! the leading bits of the first byte, and classes are arranged so that the
//! first byte alone settles every comparison across classes, while within a
//! class the payload is plain big-endian. Non-negative values use leading
//! bytes `0x80..=0xF8`; negative values mirror them downwards in
//! `0x04..=0x7F`, so that more negative numbers get strictly smaller bytes.

use crate::bytes::{
    be_bytes, be_val, lemma_be_bytes_lt, lemma_be_bytes_msb, lemma_be_val_be_bytes,
    lemma_pow256_values, pow256,
};
use crate::codec::{lemma_reads_from_trans, reads_from};
use crate::order::{lemma_lex_lt_common_prefix, lemma_lex_lt_first, lex_lt};
use crate::{Error, PrefixRead};
use vstd::arithmetic::div_mod::lemma_div_is_ordered;
use vstd::prelude::*;

verus! {

/// How many bytes a non-negative encoding occupies, given its first byte;
/// zero marks a byte that starts no valid encoding.
pub open spec fn uclass_len(b: u8) -> int {
    if 0x80 <= b <= 0xBF {
        1
    } else if 0xC0 <= b <= 0xDF {
        2
    } else if 0xE0 <= b <= 0xEF {
        4
    } else if 0xF0 <= b <= 0xF7 {
        8
    } else if b == 0xF8 {
        17
    } else {
        0
    }
}

/// How many bytes a signed encoding occupies, given its first byte. The
/// non-negative classes are kept, and each one gains a mirrored negative
/// class below `0x80`.
pub open spec fn iclass_len(b: u8) -> int {
    if b >= 0x80 {
        uclass_len(b)
    } else if 0x40 <= b <= 0x7F {
        1
    } else if 0x20 <= b <= 0x3F {
        2
    } else if 0x10 <= b <= 0x1F {
        4
    } else if 0x08 <= b <= 0x0F {
        8
    } else if b == 0x04 {
        17
    } else {
        0
    }
}

/// The canonical encoding of a non-negative value: the smallest class that
/// holds it, with the class marker added onto the big-endian payload.
pub open spec fn uenc(v: int) -> Seq<u8>
    recommends
        0 <= v,
{
    if v <= 0x3F {
        seq![(0x80 + v) as u8]
    } else if v <= 0x1FFF {
        be_bytes(0xC000 + v, 2)
    } else if v <= 0x0FFFFFFF {
        be_bytes(0xE0000000 + v, 4)
    } else if v <= 0x07FFFFFFFFFFFFFF {
        be_bytes(0xF000000000000000 + v, 8)
    } else {
        seq![0xF8u8] + be_bytes(v, 16)
    }
}

/// The canonical encoding of a signed value. Non-negative values encode
/// exactly as unsigned ones; negative values use the complementary class
/// markers below `0x80`, shifted so the payload is again plain big-endian.
pub open spec fn ienc(v: int) -> Seq<u8> {
    if v >= 0 {
        uenc(v)
    } else if v >= -0x40 {
        seq![(0x80 + v) as u8]
    } else if v >= -0x2000 {
        be_bytes(0x4000 + v, 2)
    } else if v >= -0x10000000 {
        be_bytes(0x20000000 + v, 4)
    } else if v >= -0x0800000000000000 {
        be_bytes(0x1000000000000000 + v, 8)
    } else {
        seq![0x04u8] + be_bytes(0x100000000000000000000000000000000int + v, 16)
    }
}

/// The byte strings the non-negative decoder accepts for a value `v`: any
/// class whose marker matches and whose payload multiplies out to `v`, the
/// canonical class or a wider one.
pub open spec fn is_uvar_bytes(s: Seq<u8>, v: int) -> bool {
    ||| (s.len() == 1 && 0x80 <= s[0] <= 0xBF && v == s[0] - 0x80)
    ||| (s.len() == 2 && 0xC0 <= s[0] <= 0xDF && v == be_val(s) - 0xC000)
    ||| (s.len() == 4 && 0xE0 <= s[0] <= 0xEF && v == be_val(s) - 0xE0000000)
    ||| (s.len() == 8 && 0xF0 <= s[0] <= 0xF7 && v == be_val(s) - 0xF000000000000000)
    ||| (s.len() == 17 && s[0] == 0xF8 && v == be_val(s.skip(1)))
}

/// The byte strings the signed decoder accepts for a value `v`.
pub open spec fn is_ivar_bytes(s: Seq<u8>, v: int) -> bool {
    ||| is_uvar_bytes(s, v)
    ||| (s.len() == 1 && 0x40 <= s[0] <= 0x7F && v == s[0] - 0x80)
    ||| (s.len() == 2 && 0x20 <= s[0] <= 0x3F && v == be_val(s) - 0x4000)
    ||| (s.len() == 4 && 0x10 <= s[0] <= 0x1F && v == be_val(s) - 0x20000000)
    ||| (s.len() == 8 && 0x08 <= s[0] <= 0x0F && v == be_val(s) - 0x1000000000000000)
    ||| (s.len() == 17 && s[0] == 0x04 && v == (
        if be_val(s.skip(1)) >= 0x80000000000000000000000000000000int {
            be_val(s.skip(1)) - 0x100000000000000000000000000000000int
        } else {
            be_val(s.skip(1))
        }))
}

/// The canonical non-negative encoding is well formed: self-delimiting by
/// its first byte, never starting below `0x80`, accepted by the decoder,
/// and with its first byte placed by the value's class.
pub proof fn lemma_uenc_props(v: int)
    requires
        0 <= v < pow256(16),
    ensures
        uenc(v).len() == uclass_len(uenc(v)[0]),
        uenc(v)[0] >= 0x80,
        is_uvar_bytes(uenc(v), v),
        v <= 0x3F ==> uenc(v)[0] <= 0xBF,
        0x40 <= v <= 0x1FFF ==> 0xC0 <= uenc(v)[0] <= 0xDF,
        0x2000 <= v <= 0x0FFFFFFF ==> 0xE0 <= uenc(v)[0] <= 0xEF,
        0x10000000 <= v <= 0x07FFFFFFFFFFFFFF ==> 0xF0 <= uenc(v)[0] <= 0xF7,
        v >= 0x0800000000000000 ==> uenc(v)[0] == 0xF8,
{
    lemma_pow256_values();
    if v <= 0x3F {
    } else if v <= 0x1FFF {
        let w = 0xC000 + v;
        lemma_be_bytes_msb(w, 2);
        lemma_div_is_ordered(0xC040, w, 0x100);
        lemma_div_is_ordered(w, 0xDFFF, 0x100);
        lemma_be_val_be_bytes(w, 2);
    } else if v <= 0x0FFFFFFF {
        let w = 0xE0000000 + v;
        lemma_be_bytes_msb(w, 4);
        lemma_div_is_ordered(0xE0002000, w, 0x1000000);
        lemma_div_is_ordered(w, 0xEFFFFFFF, 0x1000000);
        lemma_be_val_be_bytes(w, 4);
    } else if v <= 0x07FFFFFFFFFFFFFF {
        let w = 0xF000000000000000 + v;
        lemma_be_bytes_msb(w, 8);
        lemma_div_is_ordered(0xF000000010000000, w, 0x100000000000000);
        lemma_div_is_ordered(w, 0xF7FFFFFFFFFFFFFF, 0x100000000000000);
        lemma_be_val_be_bytes(w, 8);
    } else {
        assert(uenc(v).skip(1) =~= be_bytes(v, 16));
        lemma_be_val_be_bytes(v, 16);
    }
}

/// The canonical signed encoding is well formed, with negative classes
/// mirrored below `0x80`.
pub proof fn lemma_ienc_props(v: int)
    requires
        -0x80000000000000000000000000000000int <= v < pow256(16),
    ensures
        ienc(v).len() == iclass_len(ienc(v)[0]),
        ienc(v)[0] >= 0x04,
        is_ivar_bytes(ienc(v), v),
        v >= 0 ==> ienc(v)[0] >= 0x80,
        -0x40 <= v <= -1 ==> 0x40 <= ienc(v)[0] <= 0x7F,
        -0x2000 <= v <= -0x41 ==> 0x20 <= ienc(v)[0] <= 0x3F,
        -0x10000000 <= v <= -0x2001 ==> 0x10 <= ienc(v)[0] <= 0x1F,
        -0x0800000000000000 <= v <= -0x10000001 ==> 0x08 <= ienc(v)[0] <= 0x0F,
        v <= -0x0800000000000001 ==> ienc(v)[0] == 0x04,
{
    lemma_pow256_values();
    if v >= 0 {
        lemma_uenc_props(v);
    } else if v >= -0x40 {
    } else if v >= -0x2000 {
        let w = 0x4000 + v;
        lemma_be_bytes_msb(w, 2);
        lemma_div_is_ordered(0x2000, w, 0x100);
        lemma_div_is_ordered(w, 0x3FBF, 0x100);
        lemma_be_val_be_bytes(w, 2);
    } else if v >= -0x10000000 {
        let w = 0x20000000 + v;
        lemma_be_bytes_msb(w, 4);
        lemma_div_is_ordered(0x10000000, w, 0x1000000);
        lemma_div_is_ordered(w, 0x1FFFDFFF, 0x1000000);
        lemma_be_val_be_bytes(w, 4);
    } else if v >= -0x0800000000000000 {
        let w = 0x1000000000000000 + v;
        lemma_be_bytes_msb(w, 8);
        lemma_div_is_ordered(0x0800000000000000, w, 0x100000000000000);
        lemma_div_is_ordered(w, 0x0FFFFFFFEFFFFFFF, 0x100000000000000);
        lemma_be_val_be_bytes(w, 8);
    } else {
        let w = 0x100000000000000000000000000000000int + v;
        assert(ienc(v).skip(1) =~= be_bytes(w, 16));
        lemma_be_val_be_bytes(w, 16);
    }
}

/// Order preservation for non-negative values: numeric order is byte order.
pub proof fn lemma_uenc_lt(a: int, b: int)
    requires
        0 <= a < b < pow256(16),
    ensures
        lex_lt(uenc(a), uenc(b)),
{
    lemma_pow256_values();
    lemma_uenc_props(a);
    lemma_uenc_props(b);
    if uenc(a)[0] < uenc(b)[0] {
        lemma_lex_lt_first(uenc(a), uenc(b));
    } else {
        // same class
        if b <= 0x3F {
            lemma_lex_lt_first(uenc(a), uenc(b));
        } else if b <= 0x1FFF {
            lemma_be_bytes_lt(0xC000 + a, 0xC000 + b, 2);
        } else if b <= 0x0FFFFFFF {
            lemma_be_bytes_lt(0xE0000000 + a, 0xE0000000 + b, 4);
        } else if b <= 0x07FFFFFFFFFFFFFF {
            lemma_be_bytes_lt(0xF000000000000000 + a, 0xF000000000000000 + b, 8);
        } else {
            lemma_be_bytes_lt(a, b, 16);
            lemma_lex_lt_common_prefix(seq![0xF8u8], be_bytes(a, 16), be_bytes(b, 16));
        }
    }
}

/// Order preservation for signed values.
pub proof fn lemma_ienc_lt(a: int, b: int)
    requires
        -0x80000000000000000000000000000000int <= a < b < pow256(16),
    ensures
        lex_lt(ienc(a), ienc(b)),
{
    lemma_pow256_values();
    lemma_ienc_props(a);
    lemma_ienc_props(b);
    if a >= 0 {
        lemma_uenc_lt(a, b);
    } else if ienc(a)[0] < ienc(b)[0] {
        lemma_lex_lt_first(ienc(a), ienc(b));
    } else {
        // both negative, same class
        if a >= -0x40 {
            lemma_lex_lt_first(ienc(a), ienc(b));
        } else if a >= -0x2000 {
            lemma_be_bytes_lt(0x4000 + a, 0x4000 + b, 2);
        } else if a >= -0x10000000 {
            lemma_be_bytes_lt(0x20000000 + a, 0x20000000 + b, 4);
        } else if a >= -0x0800000000000000 {
            lemma_be_bytes_lt(0x1000000000000000 + a, 0x1000000000000000 + b, 8);
        } else {
            let base: int = 0x100000000000000000000000000000000int;
            lemma_be_bytes_lt(base + a, base + b, 16);
            lemma_lex_lt_common_prefix(seq![0x04u8], be_bytes(base + a, 16), be_bytes(base + b, 16));
        }
    }
}

/// No canonical non-negative encoding leads another: the scheme is
/// prefix-free and injective.
pub proof fn lemma_uenc_inj(a: int, b: int)
    requires
        0 <= a < pow256(16),
        0 <= b < pow256(16),
        uenc(a).is_prefix_of(uenc(b)),
    ensures
        uenc(a) == uenc(b),
        a == b,
{
    lemma_uenc_props(a);
    lemma_uenc_props(b);
    assert(uenc(a)[0] == uenc(b)[0]);
    assert(uenc(a).len() == uenc(b).len());
    assert(uenc(a) =~= uenc(b));
    if uenc(b).len() == 17 {
        assert(be_val(uenc(a).skip(1)) == a);
        assert(be_val(uenc(b).skip(1)) == b);
    }
}

/// No canonical signed encoding leads another.
pub proof fn lemma_ienc_inj(a: int, b: int)
    requires
        -0x80000000000000000000000000000000int <= a < pow256(16),
        -0x80000000000000000000000000000000int <= b < pow256(16),
        ienc(a).is_prefix_of(ienc(b)),
    ensures
        ienc(a) == ienc(b),
        a == b,
{
    lemma_ienc_props(a);
    lemma_ienc_props(b);
    assert(ienc(a)[0] == ienc(b)[0]);
    assert(ienc(a).len() == ienc(b).len());
    assert(ienc(a) =~= ienc(b));
    if ienc(b).len() == 17 {
        assert(be_val(ienc(a).skip(1)) == be_val(ienc(b).skip(1)));
    }
}

/// When a stream starts with the canonical encoding of `w`, the first byte
/// pins the class, the class pins the consumed bytes, and the consumed bytes
/// pin the decoded value: it can only be `w`.
pub proof fn lemma_uvar_read_canonical(s: Seq<u8>, w: int)
    requires
        0 <= w < pow256(16),
        uenc(w).is_prefix_of(s),
    ensures
        s.len() >= 1,
        uclass_len(s[0]) == uenc(w).len(),
        1 <= uclass_len(s[0]) <= s.len(),
        s.take(uclass_len(s[0])) == uenc(w),
        forall|v: int| is_uvar_bytes(#[trigger] s.take(uclass_len(s[0])), v) ==> v == w,
{
    lemma_uenc_props(w);
    assert(uenc(w)[0] == s[0]);
    let n = uclass_len(s[0]);
    assert(s.take(n) =~= uenc(w));
    assert forall|v: int| is_uvar_bytes(#[trigger] s.take(n), v) implies v == w by {
        if n == 17 {
            assert(be_val(s.take(n).skip(1)) == v);
        }
    }
}

/// The signed counterpart: within the signed value range, a canonical prefix
/// forces the decoded value.
pub proof fn lemma_ivar_read_canonical(s: Seq<u8>, w: int)
    requires
        -0x80000000000000000000000000000000int <= w < 0x80000000000000000000000000000000int,
        ienc(w).is_prefix_of(s),
    ensures
        s.len() >= 1,
        iclass_len(s[0]) == ienc(w).len(),
        1 <= iclass_len(s[0]) <= s.len(),
        s.take(iclass_len(s[0])) == ienc(w),
        forall|v: int| is_ivar_bytes(#[trigger] s.take(iclass_len(s[0])), v) ==> v == w,
        s[0] == 0xF8 ==> be_val(s.take(17).skip(1)) == w,
{
    crate::bytes::lemma_pow256_values();
    lemma_ienc_props(w);
    assert(ienc(w)[0] == s[0]);
    let n = iclass_len(s[0]);
    assert(s.take(n) =~= ienc(w));
    if n == 17 {
        crate::bytes::lemma_be_val_bound(s.take(n).skip(1));
    }
    assert forall|v: int| is_ivar_bytes(#[trigger] s.take(n), v) implies v == w by {
        if n == 17 {
            assert(be_val(s.take(n).skip(1)) == be_val(ienc(w).skip(1)));
        }
    }
}

/// Read `n` more bytes big-endian onto the running value `acc0`.
pub(crate) fn read_be(r: &mut PrefixRead, n: usize, acc0: u128) -> (res: Result<u128, Error>)
    requires
        old(r).wf(),
        n <= 16,
        acc0 < pow256((16 - n) as nat),
    ensures
        reads_from(*old(r), *final(r)),
        match res {
            Ok(acc) => old(r).stream().len() >= n && final(r).stream() == old(r).stream().skip(
                n as int,
            ) && acc == acc0 * pow256(n as nat) + be_val(old(r).stream().take(n as int)),
            Err(e) => e == Error::Eof && old(r).stream().len() < n,
        },
{
    let mut acc: u128 = acc0;
    let mut i: usize = 0;
    proof {
        crate::bytes::lemma_pow256_values();
        assert(old(r).stream().take(0) =~= Seq::<u8>::empty());
    }
    while i < n
        invariant
            r.wf(),
            i <= n <= 16,
            acc0 < pow256((16 - n) as nat),
            reads_from(*old(r), *r),
            old(r).stream().len() >= i,
            r.stream() == old(r).stream().skip(i as int),
            acc == acc0 * pow256(i as nat) + be_val(old(r).stream().take(i as int)),
            acc < pow256((16 - n + i) as nat),
        decreases n - i,
    {
        let b = match r.read_byte() {
            Ok(b) => b,
            Err(_) => {
                proof {
                    old(r).lemma_prefix_nonempty();
                }
                return Err(Error::Eof);
            }
        };
        proof {
            let s = old(r).stream();
            let t = s.take(i as int);
            crate::bytes::lemma_pow256_values();
            crate::bytes::lemma_be_val_bound(t.push(b));
            crate::bytes::lemma_be_val_snoc(t, b);
            assert(s.take(i + 1) =~= t.push(b));
            assert(s.skip(i as int).skip(1) =~= s.skip(i + 1));
            crate::order::lemma_skip_is_suffix(s, i + 1);
            crate::bytes::lemma_pow256_mul((16 - n) as nat, (i + 1) as nat);
            assert(acc0 * pow256((i + 1) as nat) == 256 * (acc0 * pow256(i as nat)))
                by (nonlinear_arith)
                requires pow256((i + 1) as nat) == 256 * pow256(i as nat);
            assert(256 * acc + b < pow256((16 - n + i + 1) as nat)) by {
                let bv = be_val(t);
                crate::bytes::lemma_be_val_bound(t);
                assert(acc0 * pow256((i + 1) as nat) + be_val(t.push(b)) < pow256(
                    (16 - n + i + 1) as nat,
                )) by (nonlinear_arith)
                    requires
                        acc0 + 1 <= pow256((16 - n) as nat),
                        be_val(t.push(b)) < pow256((i + 1) as nat),
                        be_val(t.push(b)) == 256 * bv + b,
                        acc == acc0 * pow256(i as nat) + bv,
                        0 <= bv,
                        0 <= acc0,
                        pow256((16 - n) as nat) * pow256((i + 1) as nat) == pow256(
                            (16 - n + i + 1) as nat,
                        ),
                        acc0 * pow256((i + 1) as nat) == 256 * (acc0 * pow256(i as nat)),
                        pow256((i + 1) as nat) >= 1;
            }
        }
        acc = acc * 256 + (b as u128);
        i = i + 1;
    }
    Ok(acc)
}

/// Read one non-negative variable-length integer. Exactly the bytes of one
/// width class are consumed on success; an empty stream or one that ends
/// inside the class is `Eof`, and a first byte outside every non-negative
/// class is `Parse`.
pub fn read_uvar(r: &mut PrefixRead) -> (res: Result<u128, Error>)
    requires
        old(r).wf(),
    ensures
        reads_from(*old(r), *final(r)),
        match res {
            Ok(v) => {
                &&& old(r).stream().len() >= 1
                &&& 1 <= uclass_len(old(r).stream()[0]) <= old(r).stream().len()
                &&& final(r).stream() == old(r).stream().skip(uclass_len(old(r).stream()[0]))
                &&& is_uvar_bytes(
                    old(r).stream().take(uclass_len(old(r).stream()[0])),
                    v as int,
                )
            },
            Err(e) => {
                if old(r).stream().len() == 0 {
                    e == Error::Eof
                } else if uclass_len(old(r).stream()[0]) == 0 {
                    e == Error::Parse
                } else {
                    e == Error::Eof && old(r).stream().len() < uclass_len(old(r).stream()[0])
                }
            },
        },
{
    let ghost s = old(r).stream();
    let b0 = match r.read_byte() {
        Ok(b) => b,
        Err(e) => {
            proof {
                old(r).lemma_prefix_nonempty();
            }
            return Err(e);
        }
    };
    proof {
        crate::bytes::lemma_pow256_values();
        crate::order::lemma_skip_is_suffix(s, 1);
    }
    let ghost mid = *r;
    if b0 < 0x80 || b0 > 0xF8 {
        Err(Error::Parse)
    } else if b0 <= 0xBF {
        proof {
            assert(s.take(1) =~= seq![b0]);
        }
        Ok((b0 - 0x80) as u128)
    } else if b0 <= 0xDF {
        match read_be(r, 1, b0 as u128) {
            Ok(acc) => {
                proof {
                    lemma_uvar_glue(s, mid.stream(), b0, 1, acc as int);
                    lemma_reads_from_trans(*old(r), mid, *r);
                }
                Ok(acc - 0xC000)
            }
            Err(e) => {
                proof {
                    lemma_reads_from_trans(*old(r), mid, *r);
                }
                Err(e)
            }
        }
    } else if b0 <= 0xEF {
        match read_be(r, 3, b0 as u128) {
            Ok(acc) => {
                proof {
                    lemma_uvar_glue(s, mid.stream(), b0, 3, acc as int);
                    lemma_reads_from_trans(*old(r), mid, *r);
                }
                Ok(acc - 0xE0000000)
            }
            Err(e) => {
                proof {
                    lemma_reads_from_trans(*old(r), mid, *r);
                }
                Err(e)
            }
        }
    } else if b0 <= 0xF7 {
        match read_be(r, 7, b0 as u128) {
            Ok(acc) => {
                proof {
                    lemma_uvar_glue(s, mid.stream(), b0, 7, acc as int);
                    lemma_reads_from_trans(*old(r), mid, *r);
                }
                Ok(acc - 0xF000000000000000)
            }
            Err(e) => {
                proof {
                    lemma_reads_from_trans(*old(r), mid, *r);
                }
                Err(e)
            }
        }
    } else {
        match read_be(r, 16, 0) {
            Ok(acc) => {
                proof {
                    lemma_uvar_glue(s, mid.stream(), b0, 16, acc as int);
                    lemma_reads_from_trans(*old(r), mid, *r);
                }
                Ok(acc)
            }
            Err(e) => {
                proof {
                    lemma_reads_from_trans(*old(r), mid, *r);
                }
                Err(e)
            }
        }
    }
}

/// Splices the first byte back onto the payload that `read_be` consumed:
/// the class's bytes out of `s` multiply out to the running value.
proof fn lemma_uvar_glue(s: Seq<u8>, m: Seq<u8>, b0: u8, n: int, acc: int)
    requires
        s.len() >= 1,
        s[0] == b0,
        m == s.skip(1),
        0 <= n <= 16,
        m.len() >= n,
        acc == (if n == 16 {
            be_val(m.take(n))
        } else {
            b0 * pow256(n as nat) + be_val(m.take(n))
        }),
    ensures
        s.len() >= n + 1,
        s.skip(1).skip(n) == s.skip(n + 1),
        n < 16 ==> acc == be_val(s.take(n + 1)),
        n == 16 ==> acc == be_val(s.take(17).skip(1)),
        0 <= be_val(m.take(n)) < pow256(n as nat),
{
    crate::bytes::lemma_pow256_values();
    crate::bytes::lemma_be_val_bound(m.take(n));
    assert(s.skip(1).skip(n) =~= s.skip(n + 1));
    if n == 16 {
        assert(s.take(17).skip(1) =~= m.take(16));
    } else {
        assert(s.take(n + 1) =~= seq![b0] + m.take(n));
        crate::bytes::lemma_be_val_cons(b0, m.take(n));
    }
}

/// Read one signed variable-length integer. The accepted classes are the
/// non-negative ones plus their mirrored negative forms; a `0xF8`-class
/// payload beyond the signed range is a `FromInt` failure.
pub fn read_ivar(r: &mut PrefixRead) -> (res: Result<i128, Error>)
    requires
        old(r).wf(),
    ensures
        reads_from(*old(r), *final(r)),
        match res {
            Ok(v) => {
                &&& old(r).stream().len() >= 1
                &&& 1 <= iclass_len(old(r).stream()[0]) <= old(r).stream().len()
                &&& final(r).stream() == old(r).stream().skip(iclass_len(old(r).stream()[0]))
                &&& is_ivar_bytes(
                    old(r).stream().take(iclass_len(old(r).stream()[0])),
                    v as int,
                )
            },
            Err(e) => {
                if old(r).stream().len() == 0 {
                    e == Error::Eof
                } else if iclass_len(old(r).stream()[0]) == 0 {
                    e == Error::Parse
                } else if old(r).stream().len() < iclass_len(old(r).stream()[0]) {
                    e == Error::Eof
                } else {
                    e == Error::FromInt && old(r).stream()[0] == 0xF8 && be_val(
                        old(r).stream().take(17).skip(1),
                    ) > 0x7FFFFFFFFFFFFFFFFFFFFFFFFFFFFFFFint
                }
            },
        },
{
    let ghost s = old(r).stream();
    let b0 = match r.read_byte() {
        Ok(b) => b,
        Err(e) => {
            proof {
                old(r).lemma_prefix_nonempty();
            }
            return Err(e);
        }
    };
    proof {
        crate::bytes::lemma_pow256_values();
        crate::order::lemma_skip_is_suffix(s, 1);
    }
    let ghost mid = *r;
    if b0 >= 0x80 {
        if b0 <= 0xBF {
            proof {
                assert(s.take(1) =~= seq![b0]);
            }
            Ok((b0 - 0x80) as i128)
        } else if b0 <= 0xDF {
            match read_be(r, 1, b0 as u128) {
                Ok(acc) => {
                    proof {
                        lemma_uvar_glue(s, mid.stream(), b0, 1, acc as int);
                        lemma_reads_from_trans(*old(r), mid, *r);
                    }
                    Ok((acc as i128) - 0xC000)
                }
                Err(e) => {
                    proof {
                        lemma_reads_from_trans(*old(r), mid, *r);
                    }
                    Err(e)
                }
            }
        } else if b0 <= 0xEF {
            match read_be(r, 3, b0 as u128) {
                Ok(acc) => {
                    proof {
                        lemma_uvar_glue(s, mid.stream(), b0, 3, acc as int);
                        lemma_reads_from_trans(*old(r), mid, *r);
                    }
                    Ok((acc as i128) - 0xE0000000)
                }
                Err(e) => {
                    proof {
                        lemma_reads_from_trans(*old(r), mid, *r);
                    }
                    Err(e)
                }
            }
        } else if b0 <= 0xF7 {
            match read_be(r, 7, b0 as u128) {
                Ok(acc) => {
                    proof {
                        lemma_uvar_glue(s, mid.stream(), b0, 7, acc as int);
                        lemma_reads_from_trans(*old(r), mid, *r);
                    }
                    Ok((acc as i128) - 0xF000000000000000)
                }
                Err(e) => {
                    proof {
                        lemma_reads_from_trans(*old(r), mid, *r);
                    }
                    Err(e)
                }
            }
        } else if b0 == 0xF8 {
            match read_be(r, 16, 0) {
                Ok(acc) => {
                    proof {
                        lemma_uvar_glue(s, mid.stream(), b0, 16, acc as int);
                        lemma_reads_from_trans(*old(r), mid, *r);
                    }
                    if acc <= 0x7FFFFFFFFFFFFFFFFFFFFFFFFFFFFFFF {
                        Ok(acc as i128)
                    } else {
                        Err(Error::FromInt)
                    }
                }
                Err(e) => {
                    proof {
                        lemma_reads_from_trans(*old(r), mid, *r);
                    }
                    Err(e)
                }
            }
        } else {
            Err(Error::Parse)
        }
    } else if b0 >= 0x40 {
        proof {
            assert(s.take(1) =~= seq![b0]);
        }
        Ok((b0 as i128) - 0x80)
    } else if b0 >= 0x20 {
        match read_be(r, 1, b0 as u128) {
            Ok(acc) => {
                proof {
                    lemma_uvar_glue(s, mid.stream(), b0, 1, acc as int);
                    lemma_reads_from_trans(*old(r), mid, *r);
                }
                Ok((acc as i128) - 0x4000)
            }
            Err(e) => {
                proof {
                    lemma_reads_from_trans(*old(r), mid, *r);
                }
                Err(e)
            }
        }
    } else if b0 >= 0x10 {
        match read_be(r, 3, b0 as u128) {
            Ok(acc) => {
                proof {
                    lemma_uvar_glue(s, mid.stream(), b0, 3, acc as int);
                    lemma_reads_from_trans(*old(r), mid, *r);
                }
                Ok((acc as i128) - 0x20000000)
            }
            Err(e) => {
                proof {
                    lemma_reads_from_trans(*old(r), mid, *r);
                }
                Err(e)
            }
        }
    } else if b0 >= 0x08 {
        match read_be(r, 7, b0 as u128) {
            Ok(acc) => {
                proof {
                    lemma_uvar_glue(s, mid.stream(), b0, 7, acc as int);
                    lemma_reads_from_trans(*old(r), mid, *r);
                }
                Ok((acc as i128) - 0x1000000000000000)
            }
            Err(e) => {
                proof {
                    lemma_reads_from_trans(*old(r), mid, *r);
                }
                Err(e)
            }
        }
    } else if b0 == 0x04 {
        match read_be(r, 16, 0) {
            Ok(acc) => {
                proof {
                    lemma_uvar_glue(s, mid.stream(), b0, 16, acc as int);
                    assert(s.take(17).skip(1) =~= mid.stream().take(16));
                    lemma_reads_from_trans(*old(r), mid, *r);
                }
                if acc >= 0x80000000000000000000000000000000 {
                    Ok(((acc - 0x80000000000000000000000000000000) as i128) + i128::MIN)
                } else {
                    Ok(acc as i128)
                }
            }
            Err(e) => {
                proof {
                    lemma_reads_from_trans(*old(r), mid, *r);
                }
                Err(e)
            }
        }
    } else {
        Err(Error::Parse)
    }
}

/// Append the `n`-byte big-endian form of `v`.
pub(crate) fn write_be(out: &mut Vec<u8>, v: u128, n: usize)
    requires
        n == 2 || n == 4 || n == 8 || n == 16,
        v < pow256(n as nat),
    ensures
        final(out)@ == old(out)@ + be_bytes(v as int, n as nat),
{
    proof {
        crate::bytes::lemma_pow256_values();
    }
    if n == 2 {
        out.push((v / 0x100 % 0x100) as u8);
        out.push((v % 0x100) as u8);
    } else if n == 4 {
        out.push((v / 0x1000000 % 0x100) as u8);
        out.push((v / 0x10000 % 0x100) as u8);
        out.push((v / 0x100 % 0x100) as u8);
        out.push((v % 0x100) as u8);
    } else if n == 8 {
        out.push((v / 0x100000000000000 % 0x100) as u8);
        out.push((v / 0x1000000000000 % 0x100) as u8);
        out.push((v / 0x10000000000 % 0x100) as u8);
        out.push((v / 0x100000000 % 0x100) as u8);
        out.push((v / 0x1000000 % 0x100) as u8);
        out.push((v / 0x10000 % 0x100) as u8);
        out.push((v / 0x100 % 0x100) as u8);
        out.push((v % 0x100) as u8);
    } else {
        out.push((v / 0x1000000000000000000000000000000 % 0x100) as u8);
        out.push((v / 0x10000000000000000000000000000 % 0x100) as u8);
        out.push((v / 0x100000000000000000000000000 % 0x100) as u8);
        out.push((v / 0x1000000000000000000000000 % 0x100) as u8);
        out.push((v / 0x10000000000000000000000 % 0x100) as u8);
        out.push((v / 0x100000000000000000000 % 0x100) as u8);
        out.push((v / 0x1000000000000000000 % 0x100) as u8);
        out.push((v / 0x10000000000000000 % 0x100) as u8);
        out.push((v / 0x100000000000000 % 0x100) as u8);
        out.push((v / 0x1000000000000 % 0x100) as u8);
        out.push((v / 0x10000000000 % 0x100) as u8);
        out.push((v / 0x100000000 % 0x100) as u8);
        out.push((v / 0x1000000 % 0x100) as u8);
        out.push((v / 0x10000 % 0x100) as u8);
        out.push((v / 0x100 % 0x100) as u8);
        out.push((v % 0x100) as u8);
    }
    proof {
        assert(out@ =~= old(out)@ + be_bytes(v as int, n as nat));
    }
}

/// Append the canonical encoding of a non-negative value.
pub fn write_uvar(out: &mut Vec<u8>, v: u128)
    ensures
        final(out)@ == old(out)@ + uenc(v as int),
{
    proof {
        crate::bytes::lemma_pow256_values();
    }
    if v <= 0x3F {
        out.push((v as u8) + 0x80);
        proof {
            assert(out@ =~= old(out)@ + uenc(v as int));
        }
    } else if v <= 0x1FFF {
        write_be(out, 0xC000 + v, 2);
    } else if v <= 0x0FFFFFFF {
        write_be(out, 0xE0000000 + v, 4);
    } else if v <= 0x07FFFFFFFFFFFFFF {
        write_be(out, 0xF000000000000000 + v, 8);
    } else {
        out.push(0xF8);
        write_be(out, v, 16);
        proof {
            assert(out@ =~= old(out)@ + uenc(v as int));
        }
    }
}

/// Append the canonical encoding of a signed value.
pub fn write_ivar(out: &mut Vec<u8>, v: i128)
    ensures
        final(out)@ == old(out)@ + ienc(v as int),
{
    proof {
        crate::bytes::lemma_pow256_values();
    }
    if v >= 0 {
        write_uvar(out, v as u128);
    } else if v >= -0x40 {
        out.push((v + 0x80) as u8);
        proof {
            assert(out@ =~= old(out)@ + ienc(v as int));
        }
    } else if v >= -0x2000 {
        write_be(out, (v + 0x4000) as u128, 2);
    } else if v >= -0x10000000 {
        write_be(out, (v + 0x20000000) as u128, 4);
    } else if v >= -0x0800000000000000 {
        write_be(out, (v + 0x1000000000000000) as u128, 8);
    } else {
        out.push(0x04);
        let lo: u128 = ((v - i128::MIN) as u128) + 0x80000000000000000000000000000000;
        write_be(out, lo, 16);
        proof {
            assert(out@ =~= old(out)@ + ienc(v as int));
        }
    }
}

} // verus!
