//! Codecs for the integer scalars and booleans.
//!
//! A boolean is one byte, `0x80` for `false` and `0x81` for `true`. An
//! unsigned 8-bit integer is itself; a signed one is shifted by its minimum
//! so that numeric order becomes unsigned byte order: `-128` maps to `0x00`
//! and `127` to `0xFF`. Every wider integer, signed or unsigned, uses the
//! shared variable-length class scheme, so equal values of different widths
//! encode identically.

use core::cmp::Ordering;
use crate::bytes::lemma_pow256_values;
use crate::codec::{LexOrd, LexOrdSer, ObjectType};
use crate::order::lemma_skip_is_suffix;
use crate::varint::{
    ienc, lemma_ienc_inj, lemma_ienc_lt, lemma_ienc_props, lemma_ivar_read_canonical,
    lemma_uenc_inj, lemma_uenc_lt, lemma_uenc_props, lemma_uvar_read_canonical, read_ivar,
    read_uvar, uenc, write_ivar, write_uvar,
};
use crate::{Error, PrefixRead};
use vstd::prelude::*;

verus! {


impl LexOrdSer for bool {
    open spec fn enc(&self) -> Seq<u8> {
        if *self {
            seq![0x81u8]
        } else {
            seq![0x80u8]
        }
    }

    open spec fn obj_type() -> ObjectType {
        ObjectType::CantStartWithZero
    }

    open spec fn spec_cmp(&self, other: &Self) -> Option<Ordering> {
        if *self == *other {
            Some(Ordering::Equal)
        } else if !*self {
            Some(Ordering::Less)
        } else {
            Some(Ordering::Greater)
        }
    }

    fn object_type() -> ObjectType {
        ObjectType::CantStartWithZero
    }

    proof fn lemma_shape(&self) {
    }

    proof fn lemma_prefix_free(&self, other: &Self) {
        if self.enc().is_prefix_of(other.enc()) {
            assert(self.enc() =~= other.enc());
            assert(self.enc()[0] == other.enc()[0]);
        }
    }

    proof fn lemma_order(&self, other: &Self) {
    }

    fn to_write(&self, out: &mut Vec<u8>) {
        out.push(if *self { 0x81 } else { 0x80 });
        proof {
            assert(out@ =~= old(out)@ + self.enc());
        }
    }
}

impl LexOrd for bool {
    fn from_read(r: &mut PrefixRead) -> (res: Result<Self, Error>) {
        let b = match r.read_byte() {
            Ok(b) => b,
            Err(e) => {
                proof {
                    old(r).lemma_prefix_nonempty();
                }
                return Err(e);
            }
        };
        let res: Result<bool, Error> = Ok(b != 0x80);
        proof {
            lemma_skip_is_suffix(old(r).stream(), 1);
            assert forall|v: bool| (#[trigger] v.enc()).is_prefix_of(old(r).stream())
                implies res is Ok && res->Ok_0.deep_view() == v.deep_view() && r.stream() == old(
                r,
            ).stream().skip(v.enc().len() as int) by {
                assert(v.enc()[0] == old(r).stream()[0]);
            }
        }
        res
    }
}

impl LexOrdSer for u8 {
    open spec fn enc(&self) -> Seq<u8> {
        seq![*self]
    }

    open spec fn obj_type() -> ObjectType {
        ObjectType::Any
    }

    open spec fn spec_cmp(&self, other: &Self) -> Option<Ordering> {
        if *self < *other {
            Some(Ordering::Less)
        } else if *self == *other {
            Some(Ordering::Equal)
        } else {
            Some(Ordering::Greater)
        }
    }

    fn object_type() -> ObjectType {
        ObjectType::Any
    }

    proof fn lemma_shape(&self) {
    }

    proof fn lemma_prefix_free(&self, other: &Self) {
        if self.enc().is_prefix_of(other.enc()) {
            assert(self.enc() =~= other.enc());
            assert(self.enc()[0] == other.enc()[0]);
        }
    }

    proof fn lemma_order(&self, other: &Self) {
    }

    fn to_write(&self, out: &mut Vec<u8>) {
        out.push(*self);
        proof {
            assert(out@ =~= old(out)@ + self.enc());
        }
    }
}

impl LexOrd for u8 {
    fn from_read(r: &mut PrefixRead) -> (res: Result<Self, Error>) {
        let b = match r.read_byte() {
            Ok(b) => b,
            Err(e) => {
                proof {
                    old(r).lemma_prefix_nonempty();
                }
                return Err(e);
            }
        };
        let res: Result<u8, Error> = Ok(b);
        proof {
            lemma_skip_is_suffix(old(r).stream(), 1);
            assert forall|v: u8| (#[trigger] v.enc()).is_prefix_of(old(r).stream())
                implies res is Ok && res->Ok_0.deep_view() == v.deep_view() && r.stream() == old(
                r,
            ).stream().skip(v.enc().len() as int) by {
                assert(v.enc()[0] == old(r).stream()[0]);
            }
        }
        res
    }
}

impl LexOrdSer for i8 {
    open spec fn enc(&self) -> Seq<u8> {
        seq![(*self + 0x80) as u8]
    }

    open spec fn obj_type() -> ObjectType {
        ObjectType::Any
    }

    open spec fn spec_cmp(&self, other: &Self) -> Option<Ordering> {
        if *self < *other {
            Some(Ordering::Less)
        } else if *self == *other {
            Some(Ordering::Equal)
        } else {
            Some(Ordering::Greater)
        }
    }

    fn object_type() -> ObjectType {
        ObjectType::Any
    }

    proof fn lemma_shape(&self) {
    }

    proof fn lemma_prefix_free(&self, other: &Self) {
        if self.enc().is_prefix_of(other.enc()) {
            assert(self.enc() =~= other.enc());
            assert(self.enc()[0] == other.enc()[0]);
        }
    }

    proof fn lemma_order(&self, other: &Self) {
    }

    fn to_write(&self, out: &mut Vec<u8>) {
        out.push((*self as i16 + 0x80) as u8);
        proof {
            assert(out@ =~= old(out)@ + self.enc());
        }
    }
}

impl LexOrd for i8 {
    fn from_read(r: &mut PrefixRead) -> (res: Result<Self, Error>) {
        let b = match r.read_byte() {
            Ok(b) => b,
            Err(e) => {
                proof {
                    old(r).lemma_prefix_nonempty();
                }
                return Err(e);
            }
        };
        let res: Result<i8, Error> = Ok((b as i16 - 0x80) as i8);
        proof {
            lemma_skip_is_suffix(old(r).stream(), 1);
            assert forall|v: i8| (#[trigger] v.enc()).is_prefix_of(old(r).stream())
                implies res is Ok && res->Ok_0.deep_view() == v.deep_view() && r.stream() == old(
                r,
            ).stream().skip(v.enc().len() as int) by {
                assert(v.enc()[0] == old(r).stream()[0]);
            }
        }
        res
    }
}



impl LexOrdSer for u16 {
    open spec fn enc(&self) -> Seq<u8> {
        uenc(*self as int)
    }

    open spec fn obj_type() -> ObjectType {
        ObjectType::CantStartWithZero
    }

    open spec fn spec_cmp(&self, other: &Self) -> Option<Ordering> {
        if *self < *other {
            Some(Ordering::Less)
        } else if *self == *other {
            Some(Ordering::Equal)
        } else {
            Some(Ordering::Greater)
        }
    }

    fn object_type() -> ObjectType {
        ObjectType::CantStartWithZero
    }

    proof fn lemma_shape(&self) {
        lemma_pow256_values();
        lemma_uenc_props(*self as int);
    }

    proof fn lemma_prefix_free(&self, other: &Self) {
        lemma_pow256_values();
        if self.enc().is_prefix_of(other.enc()) {
            lemma_uenc_inj(*self as int, *other as int);
        }
    }

    proof fn lemma_order(&self, other: &Self) {
        lemma_pow256_values();
        if *self < *other {
            lemma_uenc_lt(*self as int, *other as int);
        } else if *other < *self {
            lemma_uenc_lt(*other as int, *self as int);
        }
    }

    fn to_write(&self, out: &mut Vec<u8>) {
        write_uvar(out, *self as u128);
    }
}

impl LexOrd for u16 {
    fn from_read(r: &mut PrefixRead) -> (res: Result<Self, Error>) {
        proof {
            lemma_pow256_values();
        }
        let x: u128 = match read_uvar(r) {
            Ok(x) => x,
            Err(e) => {
                proof {
                    assert forall|v: u16| (#[trigger] v.enc()).is_prefix_of(old(r).stream())
                        implies false by {
                        lemma_uvar_read_canonical(old(r).stream(), v as int);
                    }
                }
                return Err(e);
            }
        };
        let res: Result<u16, Error> = if x <= 0xFFFF {
            Ok(x as u16)
        } else {
            Err(Error::FromInt)
        };
        proof {
            assert forall|v: u16| (#[trigger] v.enc()).is_prefix_of(old(r).stream())
                implies res is Ok && res->Ok_0.deep_view() == v.deep_view() && r.stream() == old(
                r,
            ).stream().skip(v.enc().len() as int) by {
                lemma_uvar_read_canonical(old(r).stream(), v as int);
            }
        }
        res
    }
}

impl LexOrdSer for u32 {
    open spec fn enc(&self) -> Seq<u8> {
        uenc(*self as int)
    }

    open spec fn obj_type() -> ObjectType {
        ObjectType::CantStartWithZero
    }

    open spec fn spec_cmp(&self, other: &Self) -> Option<Ordering> {
        if *self < *other {
            Some(Ordering::Less)
        } else if *self == *other {
            Some(Ordering::Equal)
        } else {
            Some(Ordering::Greater)
        }
    }

    fn object_type() -> ObjectType {
        ObjectType::CantStartWithZero
    }

    proof fn lemma_shape(&self) {
        lemma_pow256_values();
        lemma_uenc_props(*self as int);
    }

    proof fn lemma_prefix_free(&self, other: &Self) {
        lemma_pow256_values();
        if self.enc().is_prefix_of(other.enc()) {
            lemma_uenc_inj(*self as int, *other as int);
        }
    }

    proof fn lemma_order(&self, other: &Self) {
        lemma_pow256_values();
        if *self < *other {
            lemma_uenc_lt(*self as int, *other as int);
        } else if *other < *self {
            lemma_uenc_lt(*other as int, *self as int);
        }
    }

    fn to_write(&self, out: &mut Vec<u8>) {
        write_uvar(out, *self as u128);
    }
}

impl LexOrd for u32 {
    fn from_read(r: &mut PrefixRead) -> (res: Result<Self, Error>) {
        proof {
            lemma_pow256_values();
        }
        let x: u128 = match read_uvar(r) {
            Ok(x) => x,
            Err(e) => {
                proof {
                    assert forall|v: u32| (#[trigger] v.enc()).is_prefix_of(old(r).stream())
                        implies false by {
                        lemma_uvar_read_canonical(old(r).stream(), v as int);
                    }
                }
                return Err(e);
            }
        };
        let res: Result<u32, Error> = if x <= 0xFFFFFFFF {
            Ok(x as u32)
        } else {
            Err(Error::FromInt)
        };
        proof {
            assert forall|v: u32| (#[trigger] v.enc()).is_prefix_of(old(r).stream())
                implies res is Ok && res->Ok_0.deep_view() == v.deep_view() && r.stream() == old(
                r,
            ).stream().skip(v.enc().len() as int) by {
                lemma_uvar_read_canonical(old(r).stream(), v as int);
            }
        }
        res
    }
}

impl LexOrdSer for u64 {
    open spec fn enc(&self) -> Seq<u8> {
        uenc(*self as int)
    }

    open spec fn obj_type() -> ObjectType {
        ObjectType::CantStartWithZero
    }

    open spec fn spec_cmp(&self, other: &Self) -> Option<Ordering> {
        if *self < *other {
            Some(Ordering::Less)
        } else if *self == *other {
            Some(Ordering::Equal)
        } else {
            Some(Ordering::Greater)
        }
    }

    fn object_type() -> ObjectType {
        ObjectType::CantStartWithZero
    }

    proof fn lemma_shape(&self) {
        lemma_pow256_values();
        lemma_uenc_props(*self as int);
    }

    proof fn lemma_prefix_free(&self, other: &Self) {
        lemma_pow256_values();
        if self.enc().is_prefix_of(other.enc()) {
            lemma_uenc_inj(*self as int, *other as int);
        }
    }

    proof fn lemma_order(&self, other: &Self) {
        lemma_pow256_values();
        if *self < *other {
            lemma_uenc_lt(*self as int, *other as int);
        } else if *other < *self {
            lemma_uenc_lt(*other as int, *self as int);
        }
    }

    fn to_write(&self, out: &mut Vec<u8>) {
        write_uvar(out, *self as u128);
    }
}

impl LexOrd for u64 {
    fn from_read(r: &mut PrefixRead) -> (res: Result<Self, Error>) {
        proof {
            lemma_pow256_values();
        }
        let x: u128 = match read_uvar(r) {
            Ok(x) => x,
            Err(e) => {
                proof {
                    assert forall|v: u64| (#[trigger] v.enc()).is_prefix_of(old(r).stream())
                        implies false by {
                        lemma_uvar_read_canonical(old(r).stream(), v as int);
                    }
                }
                return Err(e);
            }
        };
        let res: Result<u64, Error> = if x <= 0xFFFFFFFFFFFFFFFF {
            Ok(x as u64)
        } else {
            Err(Error::FromInt)
        };
        proof {
            assert forall|v: u64| (#[trigger] v.enc()).is_prefix_of(old(r).stream())
                implies res is Ok && res->Ok_0.deep_view() == v.deep_view() && r.stream() == old(
                r,
            ).stream().skip(v.enc().len() as int) by {
                lemma_uvar_read_canonical(old(r).stream(), v as int);
            }
        }
        res
    }
}

impl LexOrdSer for u128 {
    open spec fn enc(&self) -> Seq<u8> {
        uenc(*self as int)
    }

    open spec fn obj_type() -> ObjectType {
        ObjectType::CantStartWithZero
    }

    open spec fn spec_cmp(&self, other: &Self) -> Option<Ordering> {
        if *self < *other {
            Some(Ordering::Less)
        } else if *self == *other {
            Some(Ordering::Equal)
        } else {
            Some(Ordering::Greater)
        }
    }

    fn object_type() -> ObjectType {
        ObjectType::CantStartWithZero
    }

    proof fn lemma_shape(&self) {
        lemma_pow256_values();
        lemma_uenc_props(*self as int);
    }

    proof fn lemma_prefix_free(&self, other: &Self) {
        lemma_pow256_values();
        if self.enc().is_prefix_of(other.enc()) {
            lemma_uenc_inj(*self as int, *other as int);
        }
    }

    proof fn lemma_order(&self, other: &Self) {
        lemma_pow256_values();
        if *self < *other {
            lemma_uenc_lt(*self as int, *other as int);
        } else if *other < *self {
            lemma_uenc_lt(*other as int, *self as int);
        }
    }

    fn to_write(&self, out: &mut Vec<u8>) {
        write_uvar(out, *self as u128);
    }
}

impl LexOrd for u128 {
    fn from_read(r: &mut PrefixRead) -> (res: Result<Self, Error>) {
        proof {
            lemma_pow256_values();
        }
        let x: u128 = match read_uvar(r) {
            Ok(x) => x,
            Err(e) => {
                proof {
                    assert forall|v: u128| (#[trigger] v.enc()).is_prefix_of(old(r).stream())
                        implies false by {
                        lemma_uvar_read_canonical(old(r).stream(), v as int);
                    }
                }
                return Err(e);
            }
        };
        let res: Result<u128, Error> = Ok(x);
        proof {
            assert forall|v: u128| (#[trigger] v.enc()).is_prefix_of(old(r).stream())
                implies res is Ok && res->Ok_0.deep_view() == v.deep_view() && r.stream() == old(
                r,
            ).stream().skip(v.enc().len() as int) by {
                lemma_uvar_read_canonical(old(r).stream(), v as int);
            }
        }
        res
    }
}

impl LexOrdSer for usize {
    open spec fn enc(&self) -> Seq<u8> {
        uenc(*self as int)
    }

    open spec fn obj_type() -> ObjectType {
        ObjectType::CantStartWithZero
    }

    open spec fn spec_cmp(&self, other: &Self) -> Option<Ordering> {
        if *self < *other {
            Some(Ordering::Less)
        } else if *self == *other {
            Some(Ordering::Equal)
        } else {
            Some(Ordering::Greater)
        }
    }

    fn object_type() -> ObjectType {
        ObjectType::CantStartWithZero
    }

    proof fn lemma_shape(&self) {
        lemma_pow256_values();
        lemma_uenc_props(*self as int);
    }

    proof fn lemma_prefix_free(&self, other: &Self) {
        lemma_pow256_values();
        if self.enc().is_prefix_of(other.enc()) {
            lemma_uenc_inj(*self as int, *other as int);
        }
    }

    proof fn lemma_order(&self, other: &Self) {
        lemma_pow256_values();
        if *self < *other {
            lemma_uenc_lt(*self as int, *other as int);
        } else if *other < *self {
            lemma_uenc_lt(*other as int, *self as int);
        }
    }

    fn to_write(&self, out: &mut Vec<u8>) {
        write_uvar(out, *self as u128);
    }
}

impl LexOrd for usize {
    fn from_read(r: &mut PrefixRead) -> (res: Result<Self, Error>) {
        proof {
            lemma_pow256_values();
        }
        let x: u128 = match read_uvar(r) {
            Ok(x) => x,
            Err(e) => {
                proof {
                    assert forall|v: usize| (#[trigger] v.enc()).is_prefix_of(old(r).stream())
                        implies false by {
                        lemma_uvar_read_canonical(old(r).stream(), v as int);
                    }
                }
                return Err(e);
            }
        };
        let res: Result<usize, Error> = if x <= usize::MAX as u128 {
            Ok(x as usize)
        } else {
            Err(Error::FromInt)
        };
        proof {
            assert forall|v: usize| (#[trigger] v.enc()).is_prefix_of(old(r).stream())
                implies res is Ok && res->Ok_0.deep_view() == v.deep_view() && r.stream() == old(
                r,
            ).stream().skip(v.enc().len() as int) by {
                lemma_uvar_read_canonical(old(r).stream(), v as int);
            }
        }
        res
    }
}

impl LexOrdSer for i16 {
    open spec fn enc(&self) -> Seq<u8> {
        ienc(*self as int)
    }

    open spec fn obj_type() -> ObjectType {
        ObjectType::CantStartWithZero
    }

    open spec fn spec_cmp(&self, other: &Self) -> Option<Ordering> {
        if *self < *other {
            Some(Ordering::Less)
        } else if *self == *other {
            Some(Ordering::Equal)
        } else {
            Some(Ordering::Greater)
        }
    }

    fn object_type() -> ObjectType {
        ObjectType::CantStartWithZero
    }

    proof fn lemma_shape(&self) {
        lemma_pow256_values();
        lemma_ienc_props(*self as int);
    }

    proof fn lemma_prefix_free(&self, other: &Self) {
        lemma_pow256_values();
        if self.enc().is_prefix_of(other.enc()) {
            lemma_ienc_inj(*self as int, *other as int);
        }
    }

    proof fn lemma_order(&self, other: &Self) {
        lemma_pow256_values();
        if *self < *other {
            lemma_ienc_lt(*self as int, *other as int);
        } else if *other < *self {
            lemma_ienc_lt(*other as int, *self as int);
        }
    }

    fn to_write(&self, out: &mut Vec<u8>) {
        write_ivar(out, *self as i128);
    }
}

impl LexOrd for i16 {
    fn from_read(r: &mut PrefixRead) -> (res: Result<Self, Error>) {
        proof {
            lemma_pow256_values();
        }
        let x: i128 = match read_ivar(r) {
            Ok(x) => x,
            Err(e) => {
                proof {
                    assert forall|v: i16| (#[trigger] v.enc()).is_prefix_of(old(r).stream())
                        implies false by {
                        lemma_ivar_read_canonical(old(r).stream(), v as int);
                    }
                }
                return Err(e);
            }
        };
        let res: Result<i16, Error> = if -0x8000 <= x && x <= 0x7FFF {
            Ok(x as i16)
        } else {
            Err(Error::FromInt)
        };
        proof {
            assert forall|v: i16| (#[trigger] v.enc()).is_prefix_of(old(r).stream())
                implies res is Ok && res->Ok_0.deep_view() == v.deep_view() && r.stream() == old(
                r,
            ).stream().skip(v.enc().len() as int) by {
                lemma_ivar_read_canonical(old(r).stream(), v as int);
            }
        }
        res
    }
}

impl LexOrdSer for i32 {
    open spec fn enc(&self) -> Seq<u8> {
        ienc(*self as int)
    }

    open spec fn obj_type() -> ObjectType {
        ObjectType::CantStartWithZero
    }

    open spec fn spec_cmp(&self, other: &Self) -> Option<Ordering> {
        if *self < *other {
            Some(Ordering::Less)
        } else if *self == *other {
            Some(Ordering::Equal)
        } else {
            Some(Ordering::Greater)
        }
    }

    fn object_type() -> ObjectType {
        ObjectType::CantStartWithZero
    }

    proof fn lemma_shape(&self) {
        lemma_pow256_values();
        lemma_ienc_props(*self as int);
    }

    proof fn lemma_prefix_free(&self, other: &Self) {
        lemma_pow256_values();
        if self.enc().is_prefix_of(other.enc()) {
            lemma_ienc_inj(*self as int, *other as int);
        }
    }

    proof fn lemma_order(&self, other: &Self) {
        lemma_pow256_values();
        if *self < *other {
            lemma_ienc_lt(*self as int, *other as int);
        } else if *other < *self {
            lemma_ienc_lt(*other as int, *self as int);
        }
    }

    fn to_write(&self, out: &mut Vec<u8>) {
        write_ivar(out, *self as i128);
    }
}

impl LexOrd for i32 {
    fn from_read(r: &mut PrefixRead) -> (res: Result<Self, Error>) {
        proof {
            lemma_pow256_values();
        }
        let x: i128 = match read_ivar(r) {
            Ok(x) => x,
            Err(e) => {
                proof {
                    assert forall|v: i32| (#[trigger] v.enc()).is_prefix_of(old(r).stream())
                        implies false by {
                        lemma_ivar_read_canonical(old(r).stream(), v as int);
                    }
                }
                return Err(e);
            }
        };
        let res: Result<i32, Error> = if -0x80000000 <= x && x <= 0x7FFFFFFF {
            Ok(x as i32)
        } else {
            Err(Error::FromInt)
        };
        proof {
            assert forall|v: i32| (#[trigger] v.enc()).is_prefix_of(old(r).stream())
                implies res is Ok && res->Ok_0.deep_view() == v.deep_view() && r.stream() == old(
                r,
            ).stream().skip(v.enc().len() as int) by {
                lemma_ivar_read_canonical(old(r).stream(), v as int);
            }
        }
        res
    }
}

impl LexOrdSer for i64 {
    open spec fn enc(&self) -> Seq<u8> {
        ienc(*self as int)
    }

    open spec fn obj_type() -> ObjectType {
        ObjectType::CantStartWithZero
    }

    open spec fn spec_cmp(&self, other: &Self) -> Option<Ordering> {
        if *self < *other {
            Some(Ordering::Less)
        } else if *self == *other {
            Some(Ordering::Equal)
        } else {
            Some(Ordering::Greater)
        }
    }

    fn object_type() -> ObjectType {
        ObjectType::CantStartWithZero
    }

    proof fn lemma_shape(&self) {
        lemma_pow256_values();
        lemma_ienc_props(*self as int);
    }

    proof fn lemma_prefix_free(&self, other: &Self) {
        lemma_pow256_values();
        if self.enc().is_prefix_of(other.enc()) {
            lemma_ienc_inj(*self as int, *other as int);
        }
    }

    proof fn lemma_order(&self, other: &Self) {
        lemma_pow256_values();
        if *self < *other {
            lemma_ienc_lt(*self as int, *other as int);
        } else if *other < *self {
            lemma_ienc_lt(*other as int, *self as int);
        }
    }

    fn to_write(&self, out: &mut Vec<u8>) {
        write_ivar(out, *self as i128);
    }
}

impl LexOrd for i64 {
    fn from_read(r: &mut PrefixRead) -> (res: Result<Self, Error>) {
        proof {
            lemma_pow256_values();
        }
        let x: i128 = match read_ivar(r) {
            Ok(x) => x,
            Err(e) => {
                proof {
                    assert forall|v: i64| (#[trigger] v.enc()).is_prefix_of(old(r).stream())
                        implies false by {
                        lemma_ivar_read_canonical(old(r).stream(), v as int);
                    }
                }
                return Err(e);
            }
        };
        let res: Result<i64, Error> = if -0x8000000000000000 <= x && x <= 0x7FFFFFFFFFFFFFFF {
            Ok(x as i64)
        } else {
            Err(Error::FromInt)
        };
        proof {
            assert forall|v: i64| (#[trigger] v.enc()).is_prefix_of(old(r).stream())
                implies res is Ok && res->Ok_0.deep_view() == v.deep_view() && r.stream() == old(
                r,
            ).stream().skip(v.enc().len() as int) by {
                lemma_ivar_read_canonical(old(r).stream(), v as int);
            }
        }
        res
    }
}

impl LexOrdSer for i128 {
    open spec fn enc(&self) -> Seq<u8> {
        ienc(*self as int)
    }

    open spec fn obj_type() -> ObjectType {
        ObjectType::CantStartWithZero
    }

    open spec fn spec_cmp(&self, other: &Self) -> Option<Ordering> {
        if *self < *other {
            Some(Ordering::Less)
        } else if *self == *other {
            Some(Ordering::Equal)
        } else {
            Some(Ordering::Greater)
        }
    }

    fn object_type() -> ObjectType {
        ObjectType::CantStartWithZero
    }

    proof fn lemma_shape(&self) {
        lemma_pow256_values();
        lemma_ienc_props(*self as int);
    }

    proof fn lemma_prefix_free(&self, other: &Self) {
        lemma_pow256_values();
        if self.enc().is_prefix_of(other.enc()) {
            lemma_ienc_inj(*self as int, *other as int);
        }
    }

    proof fn lemma_order(&self, other: &Self) {
        lemma_pow256_values();
        if *self < *other {
            lemma_ienc_lt(*self as int, *other as int);
        } else if *other < *self {
            lemma_ienc_lt(*other as int, *self as int);
        }
    }

    fn to_write(&self, out: &mut Vec<u8>) {
        write_ivar(out, *self as i128);
    }
}

impl LexOrd for i128 {
    fn from_read(r: &mut PrefixRead) -> (res: Result<Self, Error>) {
        proof {
            lemma_pow256_values();
        }
        let x: i128 = match read_ivar(r) {
            Ok(x) => x,
            Err(e) => {
                proof {
                    assert forall|v: i128| (#[trigger] v.enc()).is_prefix_of(old(r).stream())
                        implies false by {
                        lemma_ivar_read_canonical(old(r).stream(), v as int);
                    }
                }
                return Err(e);
            }
        };
        let res: Result<i128, Error> = Ok(x);
        proof {
            assert forall|v: i128| (#[trigger] v.enc()).is_prefix_of(old(r).stream())
                implies res is Ok && res->Ok_0.deep_view() == v.deep_view() && r.stream() == old(
                r,
            ).stream().skip(v.enc().len() as int) by {
                lemma_ivar_read_canonical(old(r).stream(), v as int);
            }
        }
        res
    }
}

impl LexOrdSer for isize {
    open spec fn enc(&self) -> Seq<u8> {
        ienc(*self as int)
    }

    open spec fn obj_type() -> ObjectType {
        ObjectType::CantStartWithZero
    }

    open spec fn spec_cmp(&self, other: &Self) -> Option<Ordering> {
        if *self < *other {
            Some(Ordering::Less)
        } else if *self == *other {
            Some(Ordering::Equal)
        } else {
            Some(Ordering::Greater)
        }
    }

    fn object_type() -> ObjectType {
        ObjectType::CantStartWithZero
    }

    proof fn lemma_shape(&self) {
        lemma_pow256_values();
        lemma_ienc_props(*self as int);
    }

    proof fn lemma_prefix_free(&self, other: &Self) {
        lemma_pow256_values();
        if self.enc().is_prefix_of(other.enc()) {
            lemma_ienc_inj(*self as int, *other as int);
        }
    }

    proof fn lemma_order(&self, other: &Self) {
        lemma_pow256_values();
        if *self < *other {
            lemma_ienc_lt(*self as int, *other as int);
        } else if *other < *self {
            lemma_ienc_lt(*other as int, *self as int);
        }
    }

    fn to_write(&self, out: &mut Vec<u8>) {
        write_ivar(out, *self as i128);
    }
}

impl LexOrd for isize {
    fn from_read(r: &mut PrefixRead) -> (res: Result<Self, Error>) {
        proof {
            lemma_pow256_values();
        }
        let x: i128 = match read_ivar(r) {
            Ok(x) => x,
            Err(e) => {
                proof {
                    assert forall|v: isize| (#[trigger] v.enc()).is_prefix_of(old(r).stream())
                        implies false by {
                        lemma_ivar_read_canonical(old(r).stream(), v as int);
                    }
                }
                return Err(e);
            }
        };
        let res: Result<isize, Error> = if isize::MIN as i128 <= x && x <= isize::MAX as i128 {
            Ok(x as isize)
        } else {
            Err(Error::FromInt)
        };
        proof {
            assert forall|v: isize| (#[trigger] v.enc()).is_prefix_of(old(r).stream())
                implies res is Ok && res->Ok_0.deep_view() == v.deep_view() && r.stream() == old(
                r,
            ).stream().skip(v.enc().len() as int) by {
                lemma_ivar_read_canonical(old(r).stream(), v as int);
            }
        }
        res
    }
}

} // verus!
