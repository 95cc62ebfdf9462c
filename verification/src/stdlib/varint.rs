//! A thin ownership wrapper that pins an unsigned integer to the
//! variable-length scheme. For the multi-byte widths `VarInt<T>` encodes
//! exactly as `T` itself does; for `u8`, whose plain codec is the raw
//! byte, the wrapper is the way to ask for the variable-length form.

use core::cmp::Ordering;
use crate::bytes::lemma_pow256_values;
use crate::codec::{LexOrd, LexOrdSer, ObjectType};
use crate::varint::{
    lemma_uenc_inj, lemma_uenc_lt, lemma_uenc_props, lemma_uvar_read_canonical, read_uvar, uenc,
    write_uvar,
};
use crate::{Error, PrefixRead};
use vstd::prelude::*;

verus! {

#[derive(PartialEq, Eq, PartialOrd, Ord, Debug)]
pub struct VarInt<T>(pub T);

impl<T: DeepView> DeepView for VarInt<T> {
    type V = T::V;

    open spec fn deep_view(&self) -> Self::V {
        self.0.deep_view()
    }
}

impl LexOrdSer for VarInt<u8> {
    open spec fn enc(&self) -> Seq<u8> {
        uenc(self.0 as int)
    }

    open spec fn obj_type() -> ObjectType {
        ObjectType::CantStartWithZero
    }

    open spec fn spec_cmp(&self, other: &Self) -> Option<Ordering> {
        if self.0 < other.0 {
            Some(Ordering::Less)
        } else if self.0 == other.0 {
            Some(Ordering::Equal)
        } else {
            Some(Ordering::Greater)
        }
    }

    fn object_type() -> ObjectType {
        ObjectType::CantStartWithZero
    }

    proof fn lemma_shape(&self) {
        lemma_pow256_values();
        lemma_uenc_props(self.0 as int);
    }

    proof fn lemma_prefix_free(&self, other: &Self) {
        lemma_pow256_values();
        if self.enc().is_prefix_of(other.enc()) {
            lemma_uenc_inj(self.0 as int, other.0 as int);
        }
    }

    proof fn lemma_order(&self, other: &Self) {
        lemma_pow256_values();
        if self.0 < other.0 {
            lemma_uenc_lt(self.0 as int, other.0 as int);
        } else if other.0 < self.0 {
            lemma_uenc_lt(other.0 as int, self.0 as int);
        }
    }

    fn to_write(&self, out: &mut Vec<u8>) {
        write_uvar(out, self.0 as u128);
    }
}

impl LexOrd for VarInt<u8> {
    fn from_read(r: &mut PrefixRead) -> (res: Result<Self, Error>) {
        proof {
            lemma_pow256_values();
        }
        let x: u128 = match read_uvar(r) {
            Ok(x) => x,
            Err(e) => {
                proof {
                    assert forall|v: VarInt<u8>| (#[trigger] v.enc()).is_prefix_of(
                        old(r).stream(),
                    ) implies false by {
                        lemma_uvar_read_canonical(old(r).stream(), v.0 as int);
                    }
                }
                return Err(e);
            }
        };
        let res: Result<VarInt<u8>, Error> = if x <= 0xFF {
            Ok(VarInt(x as u8))
        } else {
            Err(Error::FromInt)
        };
        proof {
            assert forall|v: VarInt<u8>| (#[trigger] v.enc()).is_prefix_of(old(r).stream())
                implies res is Ok && res->Ok_0.deep_view() == v.deep_view() && r.stream() == old(
                r,
            ).stream().skip(v.enc().len() as int) by {
                lemma_uvar_read_canonical(old(r).stream(), v.0 as int);
            }
        }
        res
    }
}

impl LexOrdSer for VarInt<u16> {
    open spec fn enc(&self) -> Seq<u8> {
        uenc(self.0 as int)
    }

    open spec fn obj_type() -> ObjectType {
        ObjectType::CantStartWithZero
    }

    open spec fn spec_cmp(&self, other: &Self) -> Option<Ordering> {
        if self.0 < other.0 {
            Some(Ordering::Less)
        } else if self.0 == other.0 {
            Some(Ordering::Equal)
        } else {
            Some(Ordering::Greater)
        }
    }

    fn object_type() -> ObjectType {
        ObjectType::CantStartWithZero
    }

    proof fn lemma_shape(&self) {
        lemma_pow256_values();
        lemma_uenc_props(self.0 as int);
    }

    proof fn lemma_prefix_free(&self, other: &Self) {
        lemma_pow256_values();
        if self.enc().is_prefix_of(other.enc()) {
            lemma_uenc_inj(self.0 as int, other.0 as int);
        }
    }

    proof fn lemma_order(&self, other: &Self) {
        lemma_pow256_values();
        if self.0 < other.0 {
            lemma_uenc_lt(self.0 as int, other.0 as int);
        } else if other.0 < self.0 {
            lemma_uenc_lt(other.0 as int, self.0 as int);
        }
    }

    fn to_write(&self, out: &mut Vec<u8>) {
        write_uvar(out, self.0 as u128);
    }
}

impl LexOrd for VarInt<u16> {
    fn from_read(r: &mut PrefixRead) -> (res: Result<Self, Error>) {
        proof {
            lemma_pow256_values();
        }
        let x: u128 = match read_uvar(r) {
            Ok(x) => x,
            Err(e) => {
                proof {
                    assert forall|v: VarInt<u16>| (#[trigger] v.enc()).is_prefix_of(
                        old(r).stream(),
                    ) implies false by {
                        lemma_uvar_read_canonical(old(r).stream(), v.0 as int);
                    }
                }
                return Err(e);
            }
        };
        let res: Result<VarInt<u16>, Error> = if x <= 0xFFFF {
            Ok(VarInt(x as u16))
        } else {
            Err(Error::FromInt)
        };
        proof {
            assert forall|v: VarInt<u16>| (#[trigger] v.enc()).is_prefix_of(old(r).stream())
                implies res is Ok && res->Ok_0.deep_view() == v.deep_view() && r.stream() == old(
                r,
            ).stream().skip(v.enc().len() as int) by {
                lemma_uvar_read_canonical(old(r).stream(), v.0 as int);
            }
        }
        res
    }
}

impl LexOrdSer for VarInt<u32> {
    open spec fn enc(&self) -> Seq<u8> {
        uenc(self.0 as int)
    }

    open spec fn obj_type() -> ObjectType {
        ObjectType::CantStartWithZero
    }

    open spec fn spec_cmp(&self, other: &Self) -> Option<Ordering> {
        if self.0 < other.0 {
            Some(Ordering::Less)
        } else if self.0 == other.0 {
            Some(Ordering::Equal)
        } else {
            Some(Ordering::Greater)
        }
    }

    fn object_type() -> ObjectType {
        ObjectType::CantStartWithZero
    }

    proof fn lemma_shape(&self) {
        lemma_pow256_values();
        lemma_uenc_props(self.0 as int);
    }

    proof fn lemma_prefix_free(&self, other: &Self) {
        lemma_pow256_values();
        if self.enc().is_prefix_of(other.enc()) {
            lemma_uenc_inj(self.0 as int, other.0 as int);
        }
    }

    proof fn lemma_order(&self, other: &Self) {
        lemma_pow256_values();
        if self.0 < other.0 {
            lemma_uenc_lt(self.0 as int, other.0 as int);
        } else if other.0 < self.0 {
            lemma_uenc_lt(other.0 as int, self.0 as int);
        }
    }

    fn to_write(&self, out: &mut Vec<u8>) {
        write_uvar(out, self.0 as u128);
    }
}

impl LexOrd for VarInt<u32> {
    fn from_read(r: &mut PrefixRead) -> (res: Result<Self, Error>) {
        proof {
            lemma_pow256_values();
        }
        let x: u128 = match read_uvar(r) {
            Ok(x) => x,
            Err(e) => {
                proof {
                    assert forall|v: VarInt<u32>| (#[trigger] v.enc()).is_prefix_of(
                        old(r).stream(),
                    ) implies false by {
                        lemma_uvar_read_canonical(old(r).stream(), v.0 as int);
                    }
                }
                return Err(e);
            }
        };
        let res: Result<VarInt<u32>, Error> = if x <= 0xFFFFFFFF {
            Ok(VarInt(x as u32))
        } else {
            Err(Error::FromInt)
        };
        proof {
            assert forall|v: VarInt<u32>| (#[trigger] v.enc()).is_prefix_of(old(r).stream())
                implies res is Ok && res->Ok_0.deep_view() == v.deep_view() && r.stream() == old(
                r,
            ).stream().skip(v.enc().len() as int) by {
                lemma_uvar_read_canonical(old(r).stream(), v.0 as int);
            }
        }
        res
    }
}

impl LexOrdSer for VarInt<u64> {
    open spec fn enc(&self) -> Seq<u8> {
        uenc(self.0 as int)
    }

    open spec fn obj_type() -> ObjectType {
        ObjectType::CantStartWithZero
    }

    open spec fn spec_cmp(&self, other: &Self) -> Option<Ordering> {
        if self.0 < other.0 {
            Some(Ordering::Less)
        } else if self.0 == other.0 {
            Some(Ordering::Equal)
        } else {
            Some(Ordering::Greater)
        }
    }

    fn object_type() -> ObjectType {
        ObjectType::CantStartWithZero
    }

    proof fn lemma_shape(&self) {
        lemma_pow256_values();
        lemma_uenc_props(self.0 as int);
    }

    proof fn lemma_prefix_free(&self, other: &Self) {
        lemma_pow256_values();
        if self.enc().is_prefix_of(other.enc()) {
            lemma_uenc_inj(self.0 as int, other.0 as int);
        }
    }

    proof fn lemma_order(&self, other: &Self) {
        lemma_pow256_values();
        if self.0 < other.0 {
            lemma_uenc_lt(self.0 as int, other.0 as int);
        } else if other.0 < self.0 {
            lemma_uenc_lt(other.0 as int, self.0 as int);
        }
    }

    fn to_write(&self, out: &mut Vec<u8>) {
        write_uvar(out, self.0 as u128);
    }
}

impl LexOrd for VarInt<u64> {
    fn from_read(r: &mut PrefixRead) -> (res: Result<Self, Error>) {
        proof {
            lemma_pow256_values();
        }
        let x: u128 = match read_uvar(r) {
            Ok(x) => x,
            Err(e) => {
                proof {
                    assert forall|v: VarInt<u64>| (#[trigger] v.enc()).is_prefix_of(
                        old(r).stream(),
                    ) implies false by {
                        lemma_uvar_read_canonical(old(r).stream(), v.0 as int);
                    }
                }
                return Err(e);
            }
        };
        let res: Result<VarInt<u64>, Error> = if x <= 0xFFFFFFFFFFFFFFFF {
            Ok(VarInt(x as u64))
        } else {
            Err(Error::FromInt)
        };
        proof {
            assert forall|v: VarInt<u64>| (#[trigger] v.enc()).is_prefix_of(old(r).stream())
                implies res is Ok && res->Ok_0.deep_view() == v.deep_view() && r.stream() == old(
                r,
            ).stream().skip(v.enc().len() as int) by {
                lemma_uvar_read_canonical(old(r).stream(), v.0 as int);
            }
        }
        res
    }
}

impl LexOrdSer for VarInt<u128> {
    open spec fn enc(&self) -> Seq<u8> {
        uenc(self.0 as int)
    }

    open spec fn obj_type() -> ObjectType {
        ObjectType::CantStartWithZero
    }

    open spec fn spec_cmp(&self, other: &Self) -> Option<Ordering> {
        if self.0 < other.0 {
            Some(Ordering::Less)
        } else if self.0 == other.0 {
            Some(Ordering::Equal)
        } else {
            Some(Ordering::Greater)
        }
    }

    fn object_type() -> ObjectType {
        ObjectType::CantStartWithZero
    }

    proof fn lemma_shape(&self) {
        lemma_pow256_values();
        lemma_uenc_props(self.0 as int);
    }

    proof fn lemma_prefix_free(&self, other: &Self) {
        lemma_pow256_values();
        if self.enc().is_prefix_of(other.enc()) {
            lemma_uenc_inj(self.0 as int, other.0 as int);
        }
    }

    proof fn lemma_order(&self, other: &Self) {
        lemma_pow256_values();
        if self.0 < other.0 {
            lemma_uenc_lt(self.0 as int, other.0 as int);
        } else if other.0 < self.0 {
            lemma_uenc_lt(other.0 as int, self.0 as int);
        }
    }

    fn to_write(&self, out: &mut Vec<u8>) {
        write_uvar(out, self.0 as u128);
    }
}

impl LexOrd for VarInt<u128> {
    fn from_read(r: &mut PrefixRead) -> (res: Result<Self, Error>) {
        proof {
            lemma_pow256_values();
        }
        let x: u128 = match read_uvar(r) {
            Ok(x) => x,
            Err(e) => {
                proof {
                    assert forall|v: VarInt<u128>| (#[trigger] v.enc()).is_prefix_of(
                        old(r).stream(),
                    ) implies false by {
                        lemma_uvar_read_canonical(old(r).stream(), v.0 as int);
                    }
                }
                return Err(e);
            }
        };
        let res: Result<VarInt<u128>, Error> = Ok(VarInt(x));
        proof {
            assert forall|v: VarInt<u128>| (#[trigger] v.enc()).is_prefix_of(old(r).stream())
                implies res is Ok && res->Ok_0.deep_view() == v.deep_view() && r.stream() == old(
                r,
            ).stream().skip(v.enc().len() as int) by {
                lemma_uvar_read_canonical(old(r).stream(), v.0 as int);
            }
        }
        res
    }
}

impl LexOrdSer for VarInt<usize> {
    open spec fn enc(&self) -> Seq<u8> {
        uenc(self.0 as int)
    }

    open spec fn obj_type() -> ObjectType {
        ObjectType::CantStartWithZero
    }

    open spec fn spec_cmp(&self, other: &Self) -> Option<Ordering> {
        if self.0 < other.0 {
            Some(Ordering::Less)
        } else if self.0 == other.0 {
            Some(Ordering::Equal)
        } else {
            Some(Ordering::Greater)
        }
    }

    fn object_type() -> ObjectType {
        ObjectType::CantStartWithZero
    }

    proof fn lemma_shape(&self) {
        lemma_pow256_values();
        lemma_uenc_props(self.0 as int);
    }

    proof fn lemma_prefix_free(&self, other: &Self) {
        lemma_pow256_values();
        if self.enc().is_prefix_of(other.enc()) {
            lemma_uenc_inj(self.0 as int, other.0 as int);
        }
    }

    proof fn lemma_order(&self, other: &Self) {
        lemma_pow256_values();
        if self.0 < other.0 {
            lemma_uenc_lt(self.0 as int, other.0 as int);
        } else if other.0 < self.0 {
            lemma_uenc_lt(other.0 as int, self.0 as int);
        }
    }

    fn to_write(&self, out: &mut Vec<u8>) {
        write_uvar(out, self.0 as u128);
    }
}

impl LexOrd for VarInt<usize> {
    fn from_read(r: &mut PrefixRead) -> (res: Result<Self, Error>) {
        proof {
            lemma_pow256_values();
        }
        let x: u128 = match read_uvar(r) {
            Ok(x) => x,
            Err(e) => {
                proof {
                    assert forall|v: VarInt<usize>| (#[trigger] v.enc()).is_prefix_of(
                        old(r).stream(),
                    ) implies false by {
                        lemma_uvar_read_canonical(old(r).stream(), v.0 as int);
                    }
                }
                return Err(e);
            }
        };
        let res: Result<VarInt<usize>, Error> = if x <= usize::MAX as u128 {
            Ok(VarInt(x as usize))
        } else {
            Err(Error::FromInt)
        };
        proof {
            assert forall|v: VarInt<usize>| (#[trigger] v.enc()).is_prefix_of(old(r).stream())
                implies res is Ok && res->Ok_0.deep_view() == v.deep_view() && r.stream() == old(
                r,
            ).stream().skip(v.enc().len() as int) by {
                lemma_uvar_read_canonical(old(r).stream(), v.0 as int);
            }
        }
        res
    }
}

} // verus!
