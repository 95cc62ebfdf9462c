//! Big-endian byte strings of a fixed width, and their arithmetic: a value
//! below `256^n` is written as exactly `n` bytes, most significant first, so
//! that numeric order and lexicographic byte order coincide.

use vstd::arithmetic::div_mod::{
    lemma_div_denominator, lemma_div_is_ordered, lemma_fundamental_div_mod,
    lemma_mod_bound, lemma_div_pos_is_pos,
};
use vstd::prelude::*;

verus! {

/// `256^n`.
pub open spec fn pow256(n: nat) -> int
    decreases n,
{
    if n == 0 {
        1
    } else {
        256 * pow256((n - 1) as nat)
    }
}

/// The `n`-byte big-endian encoding of `v`; byte `i` is the coefficient of
/// `256^(n-1-i)` in `v`'s base-256 expansion.
pub open spec fn be_bytes(v: int, n: nat) -> Seq<u8> {
    Seq::new(n, |i: int| ((v / pow256((n - 1 - i) as nat)) % 256) as u8)
}

/// The value of a big-endian byte string.
pub open spec fn be_val(s: Seq<u8>) -> int
    decreases s.len(),
{
    if s.len() == 0 {
        0
    } else {
        256 * be_val(s.drop_last()) + s.last()
    }
}

pub proof fn lemma_pow256_pos(n: nat)
    ensures
        pow256(n) >= 1,
    decreases n,
{
    if n > 0 {
        lemma_pow256_pos((n - 1) as nat);
    }
}

/// The concrete powers the codec's width classes use.
pub proof fn lemma_pow256_values()
    ensures
        pow256(0) == 1,
        pow256(1) == 0x100,
        pow256(2) == 0x10000,
        pow256(3) == 0x1000000,
        pow256(4) == 0x100000000,
        pow256(5) == 0x10000000000,
        pow256(6) == 0x1000000000000,
        pow256(7) == 0x100000000000000,
        pow256(8) == 0x10000000000000000,
        pow256(9) == 0x1000000000000000000,
        pow256(10) == 0x100000000000000000000,
        pow256(11) == 0x10000000000000000000000,
        pow256(12) == 0x1000000000000000000000000,
        pow256(13) == 0x100000000000000000000000000,
        pow256(14) == 0x10000000000000000000000000000,
        pow256(15) == 0x1000000000000000000000000000000,
        pow256(16) == 0x100000000000000000000000000000000,
{
    assert(pow256(0) == 1);
    assert(pow256(1) == 0x100);
    assert(pow256(2) == 0x10000);
    assert(pow256(3) == 0x1000000);
    assert(pow256(4) == 0x100000000);
    assert(pow256(5) == 0x10000000000);
    assert(pow256(6) == 0x1000000000000);
    assert(pow256(7) == 0x100000000000000);
    assert(pow256(8) == 0x10000000000000000);
    assert(pow256(9) == 0x1000000000000000000);
    assert(pow256(10) == 0x100000000000000000000);
    assert(pow256(11) == 0x10000000000000000000000);
    assert(pow256(12) == 0x1000000000000000000000000);
    assert(pow256(13) == 0x100000000000000000000000000);
    assert(pow256(14) == 0x10000000000000000000000000000);
    assert(pow256(15) == 0x1000000000000000000000000000000);
    assert(pow256(16) == 0x100000000000000000000000000000000);
}

/// The leading byte of an in-range value needs no masking: it is the full
/// quotient by `256^(n-1)`.
pub proof fn lemma_be_bytes_msb(v: int, n: nat)
    requires
        n >= 1,
        0 <= v < pow256(n),
    ensures
        be_bytes(v, n)[0] == v / pow256((n - 1) as nat),
        0 <= v / pow256((n - 1) as nat) < 256,
{
    let p = pow256((n - 1) as nat);
    lemma_pow256_pos((n - 1) as nat);
    lemma_div_pos_is_pos(v, p);
    assert(v / p < 256) by {
        if v / p >= 256 {
            lemma_fundamental_div_mod(v, p);
            lemma_mod_bound(v, p);
            assert((v / p) * p >= 256 * p) by (nonlinear_arith)
                requires v / p >= 256, p > 0;
        }
    }
}

/// Dropping the leading byte of an `n`-byte string leaves the `(n-1)`-byte
/// string of the value's remainder below `256^(n-1)`.
pub proof fn lemma_be_bytes_tail(v: int, n: nat)
    requires
        n >= 1,
        0 <= v,
    ensures
        be_bytes(v, n).skip(1) =~= be_bytes(v % pow256((n - 1) as nat), (n - 1) as nat),
{
    let p = pow256((n - 1) as nat);
    lemma_pow256_pos((n - 1) as nat);
    assert forall|i: int| 0 <= i < n - 1 implies be_bytes(v, n).skip(1)[i] == be_bytes(
        v % p,
        (n - 1) as nat,
    )[i] by {
        let q = pow256((n - 2 - i) as nat);
        lemma_pow256_pos((n - 2 - i) as nat);
        // p == q * 256^(i+1), so q divides p
        let w = pow256((i + 1) as nat);
        lemma_pow256_mul((n - 2 - i) as nat, (i + 1) as nat);
        lemma_pow256_pos((i + 1) as nat);
        // v = (v / p) * p + v % p
        lemma_fundamental_div_mod(v, p);
        lemma_mod_bound(v, p);
        let r = v % p;
        // v / q = (v/p) * (p/q) + r / q
        assert(v / q == (v / p) * w + r / q) by {
            assert(v == (v / p) * (q * w) + r) by (nonlinear_arith)
                requires p == q * w, v == p * (v / p) + r;
            lemma_div_multiple_plus(v / p, w, r, q);
        }
        // (v/q) % 256 == (r/q) % 256 because (v/p)*w is a multiple of 256
        assert(w % 256 == 0) by {
            lemma_pow256_mod256((i + 1) as nat);
        }
        assert(((v / p) * w + r / q) % 256 == (r / q) % 256) by {
            let k = v / p;
            assert(k * w == (k * (w / 256)) * 256) by (nonlinear_arith)
                requires w % 256 == 0, w == (w / 256) * 256 + w % 256;
            vstd::arithmetic::div_mod::lemma_mod_multiples_vanish(k * (w / 256), r / q, 256);
        }
    }
}

/// `256^(a+b) == 256^a * 256^b`.
pub proof fn lemma_pow256_mul(a: nat, b: nat)
    ensures
        pow256(a + b) == pow256(a) * pow256(b),
    decreases b,
{
    if b == 0 {
    } else {
        lemma_pow256_mul(a, (b - 1) as nat);
        assert(pow256(a + b) == 256 * pow256((a + b - 1) as nat));
        assert(pow256(a) * pow256(b) == pow256(a) * (256 * pow256((b - 1) as nat)));
        assert(pow256(a) * (256 * pow256((b - 1) as nat)) == 256 * (pow256(a) * pow256(
            (b - 1) as nat,
        ))) by (nonlinear_arith);
    }
}

/// A positive power of 256 is a multiple of 256.
pub proof fn lemma_pow256_mod256(n: nat)
    requires
        n >= 1,
    ensures
        pow256(n) % 256 == 0,
        pow256(n) / 256 == pow256((n - 1) as nat),
{
    lemma_pow256_pos((n - 1) as nat);
    assert(pow256(n) == pow256((n - 1) as nat) * 256) by (nonlinear_arith)
        requires pow256(n) == 256 * pow256((n - 1) as nat);
    vstd::arithmetic::div_mod::lemma_mod_multiples_basic(pow256((n - 1) as nat), 256);
    vstd::arithmetic::div_mod::lemma_div_by_multiple(pow256((n - 1) as nat), 256);
}

/// `(q * (m * w) + r) / m == q * w + r / m` for `m > 0`.
pub proof fn lemma_div_multiple_plus(q: int, w: int, r: int, m: int)
    requires
        m > 0,
    ensures
        (q * (m * w) + r) / m == q * w + r / m,
{
    assert(q * (m * w) == (q * w) * m) by (nonlinear_arith);
    vstd::arithmetic::div_mod::lemma_hoist_over_denominator(r, q * w, m as nat);
}

/// Reading the bytes back multiplies out to the original value.
pub proof fn lemma_be_val_be_bytes(v: int, n: nat)
    requires
        0 <= v < pow256(n),
    ensures
        be_val(be_bytes(v, n)) == v,
    decreases n,
{
    if n == 0 {
    } else {
        let s = be_bytes(v, n);
        assert(s.drop_last() =~= be_bytes(v / 256, (n - 1) as nat)) by {
            assert forall|i: int| 0 <= i < n - 1 implies s[i] == be_bytes(
                v / 256,
                (n - 1) as nat,
            )[i] by {
                let k = (n - 1 - i) as nat;
                // v / 256^k == (v / 256) / 256^(k-1)
                lemma_pow256_pos((k - 1) as nat);
                lemma_div_denominator(v, 256, pow256((k - 1) as nat));
                assert(pow256(k) == 256 * pow256((k - 1) as nat));
            }
        }
        assert(v / 256 < pow256((n - 1) as nat)) by {
            lemma_pow256_pos((n - 1) as nat);
            if v / 256 >= pow256((n - 1) as nat) {
                lemma_fundamental_div_mod(v, 256);
                lemma_mod_bound(v, 256);
            }
        }
        lemma_div_pos_is_pos(v, 256);
        lemma_be_val_be_bytes(v / 256, (n - 1) as nat);
        assert(s.last() == (v / pow256(0)) % 256);
        lemma_fundamental_div_mod(v, 256);
    }
}

/// A byte string's value is bounded by the power of its length.
pub proof fn lemma_be_val_bound(s: Seq<u8>)
    ensures
        0 <= be_val(s) < pow256(s.len()),
    decreases s.len(),
{
    if s.len() == 0 {
    } else {
        lemma_be_val_bound(s.drop_last());
    }
}

/// Appending one byte multiplies the value by 256 and adds the byte.
pub proof fn lemma_be_val_snoc(s: Seq<u8>, b: u8)
    ensures
        be_val(s.push(b)) == 256 * be_val(s) + b,
{
    assert(s.push(b).drop_last() =~= s);
}

/// The leading byte carries the full power of the remaining width.
pub proof fn lemma_be_val_cons(b: u8, t: Seq<u8>)
    ensures
        be_val(seq![b] + t) == b * pow256(t.len()) + be_val(t),
    decreases t.len(),
{
    if t.len() == 0 {
        assert(seq![b] + t =~= seq![b]);
        assert((seq![b]).drop_last() =~= Seq::<u8>::empty());
        assert(be_val(seq![b]) == 256 * be_val(Seq::<u8>::empty()) + b);
        assert(be_val(Seq::<u8>::empty()) == 0);
        assert(pow256(0) == 1);
    } else {
        let s = seq![b] + t;
        assert(s.len() == t.len() + 1);
        assert(s.drop_last() =~= seq![b] + t.drop_last());
        assert(s.last() == t.last());
        assert(be_val(s) == 256 * be_val(s.drop_last()) + s.last());
        lemma_be_val_cons(b, t.drop_last());
        let p = pow256((t.len() - 1) as nat);
        assert(be_val(s.drop_last()) == b * p + be_val(t.drop_last()));
        assert(be_val(t) == 256 * be_val(t.drop_last()) + t.last());
        assert(256 * (b * p + be_val(t.drop_last())) == b * (256 * p) + 256 * be_val(
            t.drop_last(),
        )) by (nonlinear_arith);
        assert(pow256(t.len()) == 256 * p);
    }
}

/// Within one width class, numeric order is byte order.
pub proof fn lemma_be_bytes_lt(a: int, b: int, n: nat)
    requires
        0 <= a < b < pow256(n),
    ensures
        crate::order::lex_lt(be_bytes(a, n), be_bytes(b, n)),
    decreases n,
{
    let p = pow256((n - 1) as nat);
    lemma_pow256_pos((n - 1) as nat);
    lemma_be_bytes_msb(a, n);
    lemma_be_bytes_msb(b, n);
    if a / p < b / p {
        crate::order::lemma_lex_lt_first(be_bytes(a, n), be_bytes(b, n));
    } else {
        lemma_div_is_ordered(a, b, p);
        assert(a / p == b / p);
        lemma_fundamental_div_mod(a, p);
        lemma_fundamental_div_mod(b, p);
        lemma_mod_bound(a, p);
        lemma_mod_bound(b, p);
        assert(a % p < b % p);
        lemma_be_bytes_tail(a, n);
        lemma_be_bytes_tail(b, n);
        lemma_be_bytes_lt(a % p, b % p, (n - 1) as nat);
        assert(be_bytes(a, n)[0] == be_bytes(b, n)[0]);
    }
}

} // verus!
