//! The codec for growable sequences.
//!
//! A vector is framed as a run: each element in sequence-head form, then
//! the terminator byte. Two vectors compare element-wise with the shorter
//! prefix first, and the framing reproduces exactly that order on raw
//! bytes.

use core::cmp::Ordering;
use crate::codec::{LexOrd, LexOrdSer, ObjectType};
use crate::util::iterator::{
    lemma_seq_full_order, lemma_seq_full_prefix_free, read_vec, seq_cmp, seq_full_enc,
    write_iterator,
};
use crate::{Error, PrefixRead};
use vstd::prelude::*;

verus! {

impl<T: LexOrdSer> LexOrdSer for Vec<T> {
    open spec fn enc(&self) -> Seq<u8> {
        seq_full_enc(self@)
    }

    open spec fn obj_type() -> ObjectType {
        ObjectType::Any
    }

    open spec fn spec_cmp(&self, other: &Self) -> Option<Ordering> {
        seq_cmp(self@, other@)
    }

    fn object_type() -> ObjectType {
        ObjectType::Any
    }

    proof fn lemma_shape(&self) {
    }

    proof fn lemma_prefix_free(&self, other: &Self) {
        if self.enc().is_prefix_of(other.enc()) {
            lemma_seq_full_prefix_free(self@, other@);
            assert(self.deep_view() =~= other.deep_view()) by {
                assert forall|i: int| 0 <= i < self@.len() implies self.deep_view()[i]
                    == other.deep_view()[i] by {
                    assert(self@[i].deep_view() == other@[i].deep_view());
                }
            }
        }
    }

    proof fn lemma_order(&self, other: &Self) {
        lemma_seq_full_order(self@, other@);
    }

    fn to_write(&self, out: &mut Vec<u8>) {
        write_iterator(out, self.as_slice());
    }
}

impl<T: LexOrdSer, const N: usize> LexOrdSer for [T; N] {
    open spec fn enc(&self) -> Seq<u8> {
        seq_full_enc(self@)
    }

    open spec fn obj_type() -> ObjectType {
        ObjectType::Any
    }

    open spec fn spec_cmp(&self, other: &Self) -> Option<Ordering> {
        seq_cmp(self@, other@)
    }

    fn object_type() -> ObjectType {
        ObjectType::Any
    }

    proof fn lemma_shape(&self) {
    }

    proof fn lemma_prefix_free(&self, other: &Self) {
        if self.enc().is_prefix_of(other.enc()) {
            lemma_seq_full_prefix_free(self@, other@);
            assert(self.deep_view() =~= other.deep_view()) by {
                assert forall|i: int| 0 <= i < self@.len() implies self.deep_view()[i]
                    == other.deep_view()[i] by {
                    assert(self@[i].deep_view() == other@[i].deep_view());
                }
            }
        }
    }

    proof fn lemma_order(&self, other: &Self) {
        lemma_seq_full_order(self@, other@);
    }

    fn to_write(&self, out: &mut Vec<u8>) {
        write_iterator(out, vstd::array::array_as_slice(self));
    }
}

impl<T: LexOrd> LexOrd for Vec<T> {
    fn from_read(r: &mut PrefixRead) -> (res: Result<Self, Error>) {
        let res: Result<Vec<T>, Error> = read_vec::<T>(r);
        proof {
            assert forall|v: Vec<T>| (#[trigger] v.enc()).is_prefix_of(old(r).stream())
                implies res is Ok && res->Ok_0.deep_view() == v.deep_view() && r.stream() == old(
                r,
            ).stream().skip(v.enc().len() as int) by {
                assert(seq_full_enc(v@).is_prefix_of(old(r).stream()));
                assert(res->Ok_0.deep_view() =~= v.deep_view()) by {
                    assert forall|i: int| 0 <= i < v@.len() implies res->Ok_0.deep_view()[i]
                        == v.deep_view()[i] by {
                        assert(res->Ok_0@[i].deep_view() == v@[i].deep_view());
                    }
                }
            }
        }
        res
    }
}

} // verus!
