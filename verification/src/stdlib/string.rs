//! The text codec.
//!
//! A string is its UTF-8 bytes run through the byte-run framing: each byte
//! in sequence-head form, then the terminator. Decoding collects the run
//! and then validates UTF-8; bytes that are not UTF-8 are a decode
//! failure. Comparison is byte-wise on the UTF-8 form, which is exactly
//! the order of the underlying scalar values.

use core::cmp::Ordering;
use crate::codec::{LexOrd, LexOrdSer, ObjectType};
use crate::util::iterator::{
    lemma_seq_full_order, lemma_seq_full_prefix_free, read_vec, seq_cmp, seq_full_enc,
    write_iterator,
};
use crate::{Error, PrefixRead};
use vstd::prelude::*;
use vstd::utf8::{
    decode_utf8, encode_utf8, encode_utf8_decode_utf8, encode_utf8_valid_utf8, valid_utf8,
};

verus! {

/// Relies on `String::from_utf8`: it wraps exactly the given bytes into a
/// string when they are valid UTF-8, and refuses them otherwise.
#[verifier::external_body]
fn string_from_utf8(bytes: Vec<u8>) -> (r: Option<String>)
    ensures
        match r {
            Some(s) => valid_utf8(bytes@) && s@ == decode_utf8(bytes@),
            None => !valid_utf8(bytes@),
        },
{
    String::from_utf8(bytes).ok()
}

impl LexOrdSer for String {
    open spec fn enc(&self) -> Seq<u8> {
        seq_full_enc(encode_utf8(self@))
    }

    open spec fn obj_type() -> ObjectType {
        ObjectType::Any
    }

    open spec fn spec_cmp(&self, other: &Self) -> Option<Ordering> {
        seq_cmp(encode_utf8(self@), encode_utf8(other@))
    }

    fn object_type() -> ObjectType {
        ObjectType::Any
    }

    proof fn lemma_shape(&self) {
    }

    proof fn lemma_prefix_free(&self, other: &Self) {
        if self.enc().is_prefix_of(other.enc()) {
            lemma_seq_full_prefix_free::<u8>(encode_utf8(self@), encode_utf8(other@));
            assert(encode_utf8(self@) =~= encode_utf8(other@)) by {
                assert forall|i: int| 0 <= i < encode_utf8(self@).len() implies encode_utf8(
                    self@,
                )[i] == encode_utf8(other@)[i] by {
                    assert(encode_utf8(self@)[i].enc() == encode_utf8(other@)[i].enc());
                    assert(encode_utf8(self@)[i].enc()[0] == encode_utf8(other@)[i].enc()[0]);
                }
            }
            encode_utf8_decode_utf8(self@);
            encode_utf8_decode_utf8(other@);
        }
    }

    proof fn lemma_order(&self, other: &Self) {
        lemma_seq_full_order::<u8>(encode_utf8(self@), encode_utf8(other@));
    }

    fn to_write(&self, out: &mut Vec<u8>) {
        write_iterator(out, self.as_str().as_bytes());
    }
}

impl LexOrd for String {
    fn from_read(r: &mut PrefixRead) -> (res: Result<Self, Error>) {
        let bytes = match read_vec::<u8>(r) {
            Ok(b) => b,
            Err(e) => {
                proof {
                    assert forall|v: String| (#[trigger] v.enc()).is_prefix_of(old(r).stream())
                        implies false by {
                        assert(seq_full_enc(encode_utf8(v@)).is_prefix_of(old(r).stream()));
                    }
                }
                return Err(e);
            }
        };
        let ghost bv = bytes@;
        let res: Result<String, Error> = match string_from_utf8(bytes) {
            Some(s) => Ok(s),
            None => Err(Error::Utf8),
        };
        proof {
            assert forall|v: String| (#[trigger] v.enc()).is_prefix_of(old(r).stream())
                implies res is Ok && res->Ok_0.deep_view() == v.deep_view() && r.stream() == old(
                r,
            ).stream().skip(v.enc().len() as int) by {
                assert(seq_full_enc(encode_utf8(v@)).is_prefix_of(old(r).stream()));
                assert(bv =~= encode_utf8(v@)) by {
                    assert forall|i: int| 0 <= i < encode_utf8(v@).len() implies bv[i]
                        == encode_utf8(v@)[i] by {
                        assert(bv[i].deep_view() == encode_utf8(v@)[i].deep_view());
                        assert(bv[i] == encode_utf8(v@)[i]);
                    }
                }
                encode_utf8_valid_utf8(v@);
                encode_utf8_decode_utf8(v@);
            }
        }
        res
    }
}

} // verus!
