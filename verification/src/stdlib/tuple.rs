//! Codecs for tuples, including the empty tuple.
//!
//! A tuple concatenates its fields' plain encodings in declared order, and
//! its comparison is field by field with a short circuit at the first
//! difference, so the pair laws compose outwards to every arity. Higher
//! arities lean on the pair codec by regrouping into nested pairs, which
//! concatenate to the very same bytes.

use core::cmp::Ordering;
use crate::codec::{cmp_then, combine_object_type, combine_shape, LexOrd, LexOrdSer, ObjectType};
use crate::order::{
    lemma_lex_lt_append, lemma_lex_lt_common_prefix, lemma_lex_lt_irreflexive, lemma_prefix_head,
    lemma_prefix_of_concat, lemma_prefix_strip, lemma_prefix_tail,
};
use crate::{Error, PrefixRead};
use vstd::prelude::*;

verus! {

impl LexOrdSer for () {
    open spec fn enc(&self) -> Seq<u8> {
        Seq::empty()
    }

    open spec fn obj_type() -> ObjectType {
        ObjectType::ZeroSized
    }

    open spec fn spec_cmp(&self, other: &Self) -> Option<Ordering> {
        Some(Ordering::Equal)
    }

    fn object_type() -> ObjectType {
        ObjectType::ZeroSized
    }

    proof fn lemma_shape(&self) {
    }

    proof fn lemma_prefix_free(&self, other: &Self) {
        assert(self.enc() =~= other.enc());
    }

    proof fn lemma_order(&self, other: &Self) {
        assert(self.enc() =~= other.enc());
    }

    fn to_write(&self, out: &mut Vec<u8>) {
        proof {
            assert(out@ =~= old(out)@ + self.enc());
        }
    }
}

impl LexOrd for () {
    fn from_read(r: &mut PrefixRead) -> (res: Result<Self, Error>) {
        proof {
            assert(r.stream() =~= r.stream().subrange(0, r.stream().len() as int));
            assert forall|v: ()| (#[trigger] v.enc()).is_prefix_of(r.stream())
                implies r.stream() == r.stream().skip(v.enc().len() as int) by {
                assert(r.stream().skip(0) =~= r.stream());
            }
        }
        Ok(())
    }
}

impl<A: LexOrdSer, B: LexOrdSer> LexOrdSer for (A, B) {
    open spec fn enc(&self) -> Seq<u8> {
        self.0.enc() + self.1.enc()
    }

    open spec fn obj_type() -> ObjectType {
        combine_shape(A::obj_type(), B::obj_type())
    }

    open spec fn spec_cmp(&self, other: &Self) -> Option<Ordering> {
        cmp_then(self.0.spec_cmp(&other.0), self.1.spec_cmp(&other.1))
    }

    fn object_type() -> ObjectType {
        combine_object_type(A::object_type(), B::object_type())
    }

    proof fn lemma_shape(&self) {
        self.0.lemma_shape();
        self.1.lemma_shape();
    }

    proof fn lemma_prefix_free(&self, other: &Self) {
        if self.enc().is_prefix_of(other.enc()) {
            lemma_prefix_of_concat(self.0.enc(), other.0.enc(), self.1.enc(), other.1.enc());
            self.0.lemma_prefix_free(&other.0);
            other.0.lemma_prefix_free(&self.0);
            assert(self.0.enc() == other.0.enc());
            lemma_prefix_strip(self.0.enc(), self.1.enc(), other.1.enc());
            self.1.lemma_prefix_free(&other.1);
        }
    }

    proof fn lemma_order(&self, other: &Self) {
        let ea = self.0.enc();
        let eb = self.1.enc();
        let fa = other.0.enc();
        let fb = other.1.enc();
        self.0.lemma_order(&other.0);
        self.1.lemma_order(&other.1);
        self.0.lemma_prefix_free(&other.0);
        other.0.lemma_prefix_free(&self.0);
        lemma_lex_lt_irreflexive(ea);
        lemma_lex_lt_irreflexive(fa);
        if self.0.spec_cmp(&other.0) == Some(Ordering::Less) {
            lemma_lex_lt_append(ea, fa, eb, fb);
        } else if self.0.spec_cmp(&other.0) == Some(Ordering::Greater) {
            lemma_lex_lt_append(fa, ea, fb, eb);
        } else if self.0.spec_cmp(&other.0) == Some(Ordering::Equal) {
            lemma_lex_lt_common_prefix(ea, eb, fb);
            lemma_lex_lt_common_prefix(ea, fb, eb);
        }
    }

    fn to_write(&self, out: &mut Vec<u8>) {
        self.0.to_write(out);
        self.1.to_write(out);
        proof {
            assert(out@ =~= old(out)@ + self.enc());
        }
    }
}

impl<A: LexOrd, B: LexOrd> LexOrd for (A, B) {
    fn from_read(r: &mut PrefixRead) -> (res: Result<Self, Error>) {
        let ghost s = old(r).stream();
        let a = match A::from_read(r) {
            Ok(a) => a,
            Err(e) => {
                proof {
                    assert forall|v: (A, B)| (#[trigger] v.enc()).is_prefix_of(s)
                        implies false by {
                        lemma_prefix_head(v.0.enc(), v.1.enc(), s);
                    }
                }
                return Err(e);
            }
        };
        let ghost mid = *r;
        let b = match B::from_read(r) {
            Ok(b) => b,
            Err(e) => {
                proof {
                    crate::codec::lemma_reads_from_trans(*old(r), mid, *r);
                    assert forall|v: (A, B)| (#[trigger] v.enc()).is_prefix_of(s)
                        implies false by {
                        lemma_prefix_head(v.0.enc(), v.1.enc(), s);
                        lemma_prefix_tail(v.0.enc(), v.1.enc(), s);
                    }
                }
                return Err(e);
            }
        };
        let res: Result<(A, B), Error> = Ok((a, b));
        proof {
            crate::codec::lemma_reads_from_trans(*old(r), mid, *r);
            assert forall|v: (A, B)| (#[trigger] v.enc()).is_prefix_of(s) implies res is Ok
                && res->Ok_0.deep_view() == v.deep_view() && r.stream() == s.skip(
                v.enc().len() as int,
            ) by {
                lemma_prefix_head(v.0.enc(), v.1.enc(), s);
                lemma_prefix_tail(v.0.enc(), v.1.enc(), s);
                assert(s.skip(v.0.enc().len() as int).skip(v.1.enc().len() as int) =~= s.skip(
                    v.enc().len() as int,
                ));
            }
        }
        res
    }
}

impl<A: LexOrdSer> LexOrdSer for (A,) {
    open spec fn enc(&self) -> Seq<u8> {
        self.0.enc()
    }

    open spec fn obj_type() -> ObjectType {
        A::obj_type()
    }

    open spec fn spec_cmp(&self, other: &Self) -> Option<Ordering> {
        self.0.spec_cmp(&other.0)
    }

    fn object_type() -> ObjectType {
        A::object_type()
    }

    proof fn lemma_shape(&self) {
        self.0.lemma_shape();
    }

    proof fn lemma_prefix_free(&self, other: &Self) {
        self.0.lemma_prefix_free(&other.0);
    }

    proof fn lemma_order(&self, other: &Self) {
        self.0.lemma_order(&other.0);
    }

    fn to_write(&self, out: &mut Vec<u8>) {
        self.0.to_write(out);
    }
}

impl<A: LexOrd> LexOrd for (A,) {
    fn from_read(r: &mut PrefixRead) -> (res: Result<Self, Error>) {
        let res: Result<(A,), Error> = match A::from_read(r) {
            Ok(a) => Ok((a,)),
            Err(e) => Err(e),
        };
        proof {
            assert forall|v: (A,)| (#[trigger] v.enc()).is_prefix_of(old(r).stream())
                implies res is Ok && res->Ok_0.deep_view() == v.deep_view() && r.stream() == old(
                r,
            ).stream().skip(v.enc().len() as int) by {
                assert(v.0.enc().is_prefix_of(old(r).stream()));
            }
        }
        res
    }
}

impl<A: LexOrdSer, B: LexOrdSer, C: LexOrdSer> LexOrdSer for (A, B, C) {
    open spec fn enc(&self) -> Seq<u8> {
        self.0.enc() + self.1.enc() + self.2.enc()
    }

    open spec fn obj_type() -> ObjectType {
        combine_shape(A::obj_type(), combine_shape(B::obj_type(), C::obj_type()))
    }

    open spec fn spec_cmp(&self, other: &Self) -> Option<Ordering> {
        cmp_then(self.0.spec_cmp(&other.0), cmp_then(self.1.spec_cmp(&other.1), self.2.spec_cmp(&other.2)))
    }

    fn object_type() -> ObjectType {
        combine_object_type(A::object_type(), combine_object_type(B::object_type(), C::object_type()))
    }

    proof fn lemma_shape(&self) {
        let w = (self.0, (self.1, self.2));
        w.lemma_shape();
        assert(w.enc() =~= self.enc());
    }

    proof fn lemma_prefix_free(&self, other: &Self) {
        let w = (self.0, (self.1, self.2));
        let u = (other.0, (other.1, other.2));
        assert(w.enc() =~= self.enc());
        assert(u.enc() =~= other.enc());
        w.lemma_prefix_free(&u);
    }

    proof fn lemma_order(&self, other: &Self) {
        let w = (self.0, (self.1, self.2));
        let u = (other.0, (other.1, other.2));
        assert(w.enc() =~= self.enc());
        assert(u.enc() =~= other.enc());
        w.lemma_order(&u);
    }

    fn to_write(&self, out: &mut Vec<u8>) {
        self.0.to_write(out);
        self.1.to_write(out);
        self.2.to_write(out);
        proof {
            assert(out@ =~= old(out)@ + self.enc());
        }
    }
}

impl<A: LexOrd, B: LexOrd, C: LexOrd> LexOrd for (A, B, C) {
    fn from_read(r: &mut PrefixRead) -> (res: Result<Self, Error>) {
        let res: Result<(A, B, C), Error> = match <(A, (B, C))>::from_read(r) {
            Ok((x0, (x1, x2))) => Ok((x0, x1, x2)),
            Err(e) => Err(e),
        };
        proof {
            assert forall|v: (A, B, C)| (#[trigger] v.enc()).is_prefix_of(old(r).stream())
                implies res is Ok && res->Ok_0.deep_view() == v.deep_view() && r.stream() == old(
                r,
            ).stream().skip(v.enc().len() as int) by {
                let w = (v.0, (v.1, v.2));
                assert(w.enc() =~= v.enc());
                assert(w.enc().is_prefix_of(old(r).stream()));
            }
        }
        res
    }
}

impl<A: LexOrdSer, B: LexOrdSer, C: LexOrdSer, D: LexOrdSer> LexOrdSer for (A, B, C, D) {
    open spec fn enc(&self) -> Seq<u8> {
        self.0.enc() + self.1.enc() + self.2.enc() + self.3.enc()
    }

    open spec fn obj_type() -> ObjectType {
        combine_shape(A::obj_type(), combine_shape(B::obj_type(), combine_shape(C::obj_type(), D::obj_type())))
    }

    open spec fn spec_cmp(&self, other: &Self) -> Option<Ordering> {
        cmp_then(self.0.spec_cmp(&other.0), cmp_then(self.1.spec_cmp(&other.1), cmp_then(self.2.spec_cmp(&other.2), self.3.spec_cmp(&other.3))))
    }

    fn object_type() -> ObjectType {
        combine_object_type(A::object_type(), combine_object_type(B::object_type(), combine_object_type(C::object_type(), D::object_type())))
    }

    proof fn lemma_shape(&self) {
        let w = (self.0, (self.1, (self.2, self.3)));
        w.lemma_shape();
        assert(w.enc() =~= self.enc());
    }

    proof fn lemma_prefix_free(&self, other: &Self) {
        let w = (self.0, (self.1, (self.2, self.3)));
        let u = (other.0, (other.1, (other.2, other.3)));
        assert(w.enc() =~= self.enc());
        assert(u.enc() =~= other.enc());
        w.lemma_prefix_free(&u);
    }

    proof fn lemma_order(&self, other: &Self) {
        let w = (self.0, (self.1, (self.2, self.3)));
        let u = (other.0, (other.1, (other.2, other.3)));
        assert(w.enc() =~= self.enc());
        assert(u.enc() =~= other.enc());
        w.lemma_order(&u);
    }

    fn to_write(&self, out: &mut Vec<u8>) {
        self.0.to_write(out);
        self.1.to_write(out);
        self.2.to_write(out);
        self.3.to_write(out);
        proof {
            assert(out@ =~= old(out)@ + self.enc());
        }
    }
}

impl<A: LexOrd, B: LexOrd, C: LexOrd, D: LexOrd> LexOrd for (A, B, C, D) {
    fn from_read(r: &mut PrefixRead) -> (res: Result<Self, Error>) {
        let res: Result<(A, B, C, D), Error> = match <(A, (B, (C, D)))>::from_read(r) {
            Ok((x0, (x1, (x2, x3)))) => Ok((x0, x1, x2, x3)),
            Err(e) => Err(e),
        };
        proof {
            assert forall|v: (A, B, C, D)| (#[trigger] v.enc()).is_prefix_of(old(r).stream())
                implies res is Ok && res->Ok_0.deep_view() == v.deep_view() && r.stream() == old(
                r,
            ).stream().skip(v.enc().len() as int) by {
                let w = (v.0, (v.1, (v.2, v.3)));
                assert(w.enc() =~= v.enc());
                assert(w.enc().is_prefix_of(old(r).stream()));
            }
        }
        res
    }
}

impl<A: LexOrdSer, B: LexOrdSer, C: LexOrdSer, D: LexOrdSer, E: LexOrdSer> LexOrdSer for (A, B, C, D, E) {
    open spec fn enc(&self) -> Seq<u8> {
        self.0.enc() + self.1.enc() + self.2.enc() + self.3.enc() + self.4.enc()
    }

    open spec fn obj_type() -> ObjectType {
        combine_shape(A::obj_type(), combine_shape(B::obj_type(), combine_shape(C::obj_type(), combine_shape(D::obj_type(), E::obj_type()))))
    }

    open spec fn spec_cmp(&self, other: &Self) -> Option<Ordering> {
        cmp_then(self.0.spec_cmp(&other.0), cmp_then(self.1.spec_cmp(&other.1), cmp_then(self.2.spec_cmp(&other.2), cmp_then(self.3.spec_cmp(&other.3), self.4.spec_cmp(&other.4)))))
    }

    fn object_type() -> ObjectType {
        combine_object_type(A::object_type(), combine_object_type(B::object_type(), combine_object_type(C::object_type(), combine_object_type(D::object_type(), E::object_type()))))
    }

    proof fn lemma_shape(&self) {
        let w = (self.0, (self.1, (self.2, (self.3, self.4))));
        w.lemma_shape();
        assert(w.enc() =~= self.enc());
    }

    proof fn lemma_prefix_free(&self, other: &Self) {
        let w = (self.0, (self.1, (self.2, (self.3, self.4))));
        let u = (other.0, (other.1, (other.2, (other.3, other.4))));
        assert(w.enc() =~= self.enc());
        assert(u.enc() =~= other.enc());
        w.lemma_prefix_free(&u);
    }

    proof fn lemma_order(&self, other: &Self) {
        let w = (self.0, (self.1, (self.2, (self.3, self.4))));
        let u = (other.0, (other.1, (other.2, (other.3, other.4))));
        assert(w.enc() =~= self.enc());
        assert(u.enc() =~= other.enc());
        w.lemma_order(&u);
    }

    fn to_write(&self, out: &mut Vec<u8>) {
        self.0.to_write(out);
        self.1.to_write(out);
        self.2.to_write(out);
        self.3.to_write(out);
        self.4.to_write(out);
        proof {
            assert(out@ =~= old(out)@ + self.enc());
        }
    }
}

impl<A: LexOrd, B: LexOrd, C: LexOrd, D: LexOrd, E: LexOrd> LexOrd for (A, B, C, D, E) {
    fn from_read(r: &mut PrefixRead) -> (res: Result<Self, Error>) {
        let res: Result<(A, B, C, D, E), Error> = match <(A, (B, (C, (D, E))))>::from_read(r) {
            Ok((x0, (x1, (x2, (x3, x4))))) => Ok((x0, x1, x2, x3, x4)),
            Err(e) => Err(e),
        };
        proof {
            assert forall|v: (A, B, C, D, E)| (#[trigger] v.enc()).is_prefix_of(old(r).stream())
                implies res is Ok && res->Ok_0.deep_view() == v.deep_view() && r.stream() == old(
                r,
            ).stream().skip(v.enc().len() as int) by {
                let w = (v.0, (v.1, (v.2, (v.3, v.4))));
                assert(w.enc() =~= v.enc());
                assert(w.enc().is_prefix_of(old(r).stream()));
            }
        }
        res
    }
}

} // verus!
