//! The codec's two traits and the sequence-head escape convention that lets
//! encodings be nested inside terminated sequences without ambiguity.
//!
//! `0x00` is the reserved terminator byte that ends a framed sequence and
//! `0x01` the escape byte. An element whose own encoding is empty, or starts
//! with one of the two reserved bytes, is written behind a single escape
//! byte; every other encoding is written as it is.

use core::cmp::Ordering;
use crate::order::lex_lt;
use crate::{Error, PrefixRead};
use vstd::prelude::*;

verus! {

/// The static classification of a type's encodings, used to reason about how
/// values of the type may appear inside a framed sequence.
#[derive(Clone, Copy, Debug, PartialEq, Eq, Structural)]
pub enum ObjectType {
    /// Encodings are never empty but may start with any byte.
    Any,
    /// Encodings never start with the terminator or the escape byte.
    CantStartWithZero,
    /// Every value encodes to the empty byte string.
    ZeroSized,
}

/// What a classification promises about one value's encoding.
pub open spec fn shape_ok(t: ObjectType, e: Seq<u8>) -> bool {
    match t {
        ObjectType::Any => e.len() > 0,
        ObjectType::CantStartWithZero => e.len() > 0 && e[0] >= 0x02,
        ObjectType::ZeroSized => e.len() == 0,
    }
}

/// The shape of a composite built from a head field and the rest: the head
/// decides, unless it is zero-width, in which case the rest does.
pub open spec fn combine_shape(a: ObjectType, b: ObjectType) -> ObjectType {
    match a {
        ObjectType::ZeroSized => b,
        _ => a,
    }
}

/// The runtime counterpart of `combine_shape`.
pub fn combine_object_type(a: ObjectType, b: ObjectType) -> (t: ObjectType)
    ensures
        t == combine_shape(a, b),
{
    match a {
        ObjectType::ZeroSized => b,
        _ => a,
    }
}

/// Short-circuit composition of field comparisons: the first one decides
/// unless it found equality, in which case the next one does.
pub open spec fn cmp_then(a: Option<Ordering>, b: Option<Ordering>) -> Option<Ordering> {
    match a {
        Some(Ordering::Equal) => b,
        _ => a,
    }
}

/// The sequence-head form of an encoding: empty encodings become a lone
/// escape byte, encodings that start with a reserved byte get an escape byte
/// in front, and all others are unchanged.
pub open spec fn seq_enc(e: Seq<u8>) -> Seq<u8> {
    if e.len() == 0 {
        seq![0x01u8]
    } else if e[0] <= 0x01 {
        seq![0x01u8] + e
    } else {
        e
    }
}

/// The sequence-head form never starts with the terminator byte, so a
/// terminator after it is always unambiguous.
pub proof fn lemma_seq_enc_first(e: Seq<u8>)
    ensures
        seq_enc(e).len() > 0,
        seq_enc(e)[0] >= 0x01,
{
}

/// The escape convention does not blur boundaries: a sequence-head form
/// that leads another comes from an encoding that leads the other's.
pub proof fn lemma_seq_enc_prefix(x: Seq<u8>, y: Seq<u8>)
    requires
        seq_enc(x).is_prefix_of(seq_enc(y)),
    ensures
        x.is_prefix_of(y),
{
    if x.len() == 0 || x[0] <= 0x01 {
        if y.len() == 0 || y[0] <= 0x01 {
            crate::order::lemma_prefix_strip(seq![0x01u8], x, y);
        } else {
            assert(seq_enc(x)[0] == seq_enc(y)[0]);
            assert(false);
        }
    } else {
        if y.len() == 0 || y[0] <= 0x01 {
            assert(seq_enc(x)[0] == seq_enc(y)[0]);
            assert(false);
        }
    }
}

/// The escape convention does not reorder: where two encodings compare and
/// the comparison is settled within their common bytes, their sequence-head
/// forms compare the same way, and are again settled within common bytes.
pub proof fn lemma_seq_enc_order(x: Seq<u8>, y: Seq<u8>)
    requires
        lex_lt(x, y),
        !x.is_prefix_of(y),
    ensures
        lex_lt(seq_enc(x), seq_enc(y)),
        !seq_enc(x).is_prefix_of(seq_enc(y)),
{
    assert(x.len() > 0) by {
        if x.len() == 0 {
            assert(x =~= y.subrange(0, 0));
        }
    }
    if seq_enc(x).is_prefix_of(seq_enc(y)) {
        lemma_seq_enc_prefix(x, y);
    }
    if x[0] <= 0x01 {
        if y.len() == 0 || y[0] <= 0x01 {
            crate::order::lemma_lex_lt_common_prefix(seq![0x01u8], x, y);
        } else {
            crate::order::lemma_lex_lt_first(seq_enc(x), seq_enc(y));
        }
    } else {
        if y.len() == 0 || y[0] <= 0x01 {
            // lex_lt(x, y) is impossible: x starts at 0x02 or above, y below
            assert(!lex_lt(x, y));
        }
    }
}

/// How a decoding call may change a byte source: it consumes bytes from the
/// front, it never plants a pushback byte of its own, and a pushback byte it
/// was handed survives only if the call read nothing at all.
pub open spec fn reads_from(pre: PrefixRead, post: PrefixRead) -> bool {
    &&& post.wf()
    &&& post.stream().is_suffix_of(pre.stream())
    &&& (post.has_prefix() ==> post == pre)
    &&& (pre.has_prefix() && !post.has_prefix() ==> post.stream().len() < pre.stream().len())
}

pub proof fn lemma_reads_from_trans(a: PrefixRead, b: PrefixRead, c: PrefixRead)
    requires
        reads_from(a, b),
        reads_from(b, c),
    ensures
        reads_from(a, c),
{
    crate::order::lemma_suffix_trans(c.stream(), b.stream(), a.stream());
}

/// A type that can be written in the order-preserving encoding.
///
/// The specification side fixes, for every value, the exact byte string
/// `enc` it encodes to, the type's shape classification, and the value
/// ordering `spec_cmp` the encoding must respect. Implementations owe three
/// laws: `lemma_shape` ties the encodings to the classification,
/// `lemma_prefix_free` makes the encoding unambiguous (no encoding is a
/// strict prefix of another), and `lemma_order` is the point of the library:
/// wherever two values are ordered, their encodings compare the same way as
/// raw bytes.
pub trait LexOrdSer: Sized + DeepView {
    /// The byte string this value encodes to.
    spec fn enc(&self) -> Seq<u8>;

    /// The type's shape classification.
    spec fn obj_type() -> ObjectType;

    /// The value ordering that the encoding preserves; `None` where the
    /// type's order leaves two values uncompared.
    spec fn spec_cmp(&self, other: &Self) -> Option<Ordering>;

    /// The runtime view of the type's classification.
    fn object_type() -> (t: ObjectType)
        ensures
            t == Self::obj_type(),
    ;

    /// Every encoding obeys the type's shape classification.
    proof fn lemma_shape(&self)
        ensures
            shape_ok(Self::obj_type(), self.enc()),
    ;

    /// No value's encoding is a strict prefix of another's: an encoding that
    /// leads another is the same bytes for the same value.
    proof fn lemma_prefix_free(&self, other: &Self)
        ensures
            self.enc().is_prefix_of(other.enc()) ==> self.enc() == other.enc()
                && self.deep_view() == other.deep_view(),
    ;

    /// Byte-wise lexicographic comparison of encodings reproduces the value
    /// ordering wherever that ordering is defined.
    proof fn lemma_order(&self, other: &Self)
        ensures
            self.spec_cmp(other) == Some(Ordering::Less) ==> lex_lt(self.enc(), other.enc()),
            self.spec_cmp(other) == Some(Ordering::Equal) ==> self.enc() == other.enc(),
            self.spec_cmp(other) == Some(Ordering::Greater) ==> lex_lt(other.enc(), self.enc()),
    ;

    /// Append this value's plain encoding to `out`.
    fn to_write(&self, out: &mut Vec<u8>)
        ensures
            final(out)@ == old(out)@ + self.enc(),
    ;

    /// Append this value's sequence-head encoding to `out`: the plain
    /// encoding behind an escape byte where the plain form is empty or
    /// starts with a reserved byte.
    fn to_write_seq(&self, out: &mut Vec<u8>)
        ensures
            final(out)@ == old(out)@ + seq_enc(self.enc()),
    {
        let mut buf: Vec<u8> = Vec::new();
        self.to_write(&mut buf);
        if buf.len() == 0 {
            out.push(0x01);
        } else {
            if buf[0] <= 0x01 {
                out.push(0x01);
            }
            out.append(&mut buf);
        }
        proof {
            assert(out@ =~= old(out)@ + seq_enc(self.enc()));
        }
    }
}

/// A type that can also be read back from its encoding.
pub trait LexOrd: LexOrdSer {
    /// Read one value's plain encoding from the front of `r`.
    ///
    /// Whenever the stream starts with the encoding of some value `v`, the
    /// call must succeed with exactly `v` and consume exactly `v`'s
    /// encoding; this is the round-trip law. On other streams the call
    /// reports an error or a best-effort value, but in every case it only
    /// consumes a prefix of the stream.
    fn from_read(r: &mut PrefixRead) -> (res: Result<Self, Error>)
        requires
            old(r).wf(),
        ensures
            reads_from(*old(r), *final(r)),
            forall|v: Self|
                (#[trigger] v.enc()).is_prefix_of(old(r).stream()) ==> res is Ok
                    && res->Ok_0.deep_view() == v.deep_view() && final(r).stream() == old(
                    r,
                ).stream().skip(v.enc().len() as int),
    ;

    /// Read one value's sequence-head encoding, after an outer framing layer
    /// has already consumed its first byte `first`.
    ///
    /// An escape byte means the plain encoding follows; any other byte is
    /// handed back to the stream so the plain decoder re-reads it. A handed
    /// back byte that the plain decoder does not consume is discarded.
    fn from_read_seq(first: u8, r: &mut PrefixRead) -> (res: Result<Self, Error>)
        requires
            old(r).wf(),
            !old(r).has_prefix(),
        ensures
            reads_from(*old(r), *final(r)),
            !final(r).has_prefix(),
            final(r).stream().is_suffix_of(old(r).stream()),
            forall|v: Self|
                seq_enc(#[trigger] v.enc()).is_prefix_of(seq![first] + old(r).stream())
                    ==> res is Ok && res->Ok_0.deep_view() == v.deep_view() && final(r).stream()
                    == (seq![first] + old(r).stream()).skip(seq_enc(v.enc()).len() as int),
    {
        if first == 0x01 {
            let res = Self::from_read(r);
            proof {
                assert forall|v: Self|
                    seq_enc(#[trigger] v.enc()).is_prefix_of(seq![first] + old(r).stream())
                        implies res is Ok && res->Ok_0.deep_view() == v.deep_view() && r.stream()
                        == (seq![first] + old(r).stream()).skip(seq_enc(v.enc()).len() as int) by {
                    let e = v.enc();
                    if e.len() == 0 || e[0] <= 0x01 {
                        assert(seq_enc(e) =~= seq![0x01u8] + e);
                        assert(e.is_prefix_of(old(r).stream())) by {
                            crate::order::lemma_prefix_strip(
                                seq![0x01u8],
                                e,
                                old(r).stream(),
                            );
                            assert((seq![0x01u8] + e).is_prefix_of(
                                seq![0x01u8] + old(r).stream(),
                            ));
                        }
                        assert((seq![first] + old(r).stream()).skip(seq_enc(e).len() as int)
                            =~= old(r).stream().skip(e.len() as int));
                    } else {
                        assert(seq_enc(e) == e);
                        assert(e[0] == (seq![first] + old(r).stream())[0]);
                    }
                }
            }
            res
        } else {
            r.push_prefix(first);
            let ghost mid = *r;
            let res = Self::from_read(r);
            let ghost post = *r;
            r.clear_prefix();
            proof {
                let s0 = old(r).stream();
                let full = seq![first] + s0;
                assert(mid.stream() == full);
                // consumption: what remains fits inside the original stream
                if post.has_prefix() {
                    assert(post == mid);
                    assert(r.stream() =~= s0);
                } else {
                    assert(post.stream().len() < full.len());
                    crate::order::lemma_suffix_within(post.stream(), seq![first], s0);
                }
                assert forall|v: Self|
                    seq_enc(#[trigger] v.enc()).is_prefix_of(full) implies res is Ok
                        && res->Ok_0.deep_view() == v.deep_view() && r.stream() == full.skip(
                    seq_enc(v.enc()).len() as int) by {
                    let e = v.enc();
                    assert(seq_enc(e)[0] == full[0]);
                    assert(seq_enc(e) == e) by {
                        if e.len() == 0 || e[0] <= 0x01 {
                            assert(seq_enc(e)[0] == 0x01);
                        }
                    }
                    assert(e.len() > 0 && e[0] == first);
                    assert(e.is_prefix_of(mid.stream()));
                    assert(post.stream() == full.skip(e.len() as int));
                    assert(post.stream().len() < mid.stream().len());
                    assert(!post.has_prefix());
                }
            }
            res
        }
    }
}

/// The round-trip law, end to end: decoding a fresh encoding gives back
/// the encoded value, and nothing of the encoding is left unread.
pub fn round_trip<T: LexOrd>(v: &T) -> (r: T)
    ensures
        r.deep_view() == v.deep_view(),
{
    let mut buf: Vec<u8> = Vec::new();
    v.to_write(&mut buf);
    let mut reader = PrefixRead::new(buf);
    proof {
        assert(v.enc().is_prefix_of(reader.stream())) by {
            assert(v.enc() =~= reader.stream().subrange(0, v.enc().len() as int));
        }
    }
    let res = T::from_read(&mut reader);
    match res {
        Ok(r) => r,
        Err(_) => vstd::pervasive::unreached(),
    }
}

/// The escape round-trip law, end to end: a value written in sequence-head
/// form is read back unchanged by the head decoder, however its plain
/// encoding begins.
pub fn round_trip_seq_head<T: LexOrd>(v: &T) -> (r: T)
    ensures
        r.deep_view() == v.deep_view(),
{
    let mut buf: Vec<u8> = Vec::new();
    v.to_write_seq(&mut buf);
    proof {
        lemma_seq_enc_first(v.enc());
    }
    let mut reader = PrefixRead::new(buf);
    let first = match reader.read_byte() {
        Ok(b) => b,
        Err(_) => vstd::pervasive::unreached(),
    };
    proof {
        assert(seq_enc(v.enc()).is_prefix_of(seq![first] + reader.stream())) by {
            assert(seq![first] + reader.stream() =~= seq_enc(v.enc()));
            assert(seq_enc(v.enc()) =~= seq_enc(v.enc()).subrange(
                0,
                seq_enc(v.enc()).len() as int,
            ));
        }
    }
    let res = T::from_read_seq(first, &mut reader);
    match res {
        Ok(r) => r,
        Err(_) => vstd::pervasive::unreached(),
    }
}

} // verus!
