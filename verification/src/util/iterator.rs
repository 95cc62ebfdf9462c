//! Framing for variable-length runs of elements.
//!
//! A run writes each element in its sequence-head form and one terminator
//! byte `0x00` after the last. Because a sequence-head form never starts
//! with the terminator, the run re-parses unambiguously, and because the
//! escape convention keeps the first byte order of elements intact, runs
//! compare lexicographically element by element, with a shorter run that
//! is a prefix of a longer one comparing below it.

use crate::codec::{seq_enc, LexOrd, LexOrdSer};
use crate::order::{
    lemma_lex_lt_append, lemma_lex_lt_common_prefix, lemma_lex_lt_first, lemma_prefix_head,
    lemma_prefix_of_concat, lemma_prefix_strip, lemma_prefix_tail, lex_lt,
};
use crate::{Error, PrefixRead};
use vstd::prelude::*;

verus! {

/// The bytes of a run's elements: each element's sequence-head form,
/// back to back.
pub open spec fn seq_body_enc<T: LexOrdSer>(s: Seq<T>) -> Seq<u8>
    decreases s.len(),
{
    if s.len() == 0 {
        Seq::empty()
    } else {
        seq_enc(s[0].enc()) + seq_body_enc(s.skip(1))
    }
}

/// The bytes of a whole framed run: the elements, then the terminator.
pub open spec fn seq_full_enc<T: LexOrdSer>(s: Seq<T>) -> Seq<u8> {
    seq_body_enc(s) + seq![0x00u8]
}

/// Extending a run appends the new element's bytes at the end.
pub proof fn lemma_seq_body_snoc<T: LexOrdSer>(s: Seq<T>, x: T)
    ensures
        seq_body_enc(s.push(x)) == seq_body_enc(s) + seq_enc(x.enc()),
    decreases s.len(),
{
    if s.len() == 0 {
        assert(s.push(x)[0] == x);
        assert(s.push(x).skip(1) =~= Seq::<T>::empty());
        assert(seq_body_enc(s.push(x)) == seq_enc(x.enc()) + seq_body_enc(Seq::<T>::empty()));
        assert(seq_enc(x.enc()) + Seq::<u8>::empty() =~= seq_enc(x.enc()));
        assert(seq_body_enc(s) + seq_enc(x.enc()) =~= seq_enc(x.enc()));
    } else {
        assert(s.push(x)[0] == s[0]);
        assert(s.push(x).skip(1) =~= s.skip(1).push(x));
        lemma_seq_body_snoc(s.skip(1), x);
        assert(seq_enc(s[0].enc()) + (seq_body_enc(s.skip(1)) + seq_enc(x.enc())) =~= (seq_enc(
            s[0].enc(),
        ) + seq_body_enc(s.skip(1))) + seq_enc(x.enc()));
    }
}

/// A run's bytes split at any element boundary.
pub proof fn lemma_seq_body_split<T: LexOrdSer>(s: Seq<T>, j: int)
    requires
        0 <= j < s.len(),
    ensures
        seq_body_enc(s) == seq_body_enc(s.take(j)) + (seq_enc(s[j].enc()) + seq_body_enc(
            s.skip(j + 1),
        )),
    decreases j,
{
    if j == 0 {
        assert(s.take(0) =~= Seq::<T>::empty());
        assert(seq_body_enc(s.take(0)) + (seq_enc(s[0].enc()) + seq_body_enc(s.skip(1))) =~= seq_enc(
            s[0].enc(),
        ) + seq_body_enc(s.skip(1)));
    } else {
        lemma_seq_body_split(s.skip(1), j - 1);
        assert(s.skip(1).take(j - 1) =~= s.take(j).skip(1));
        assert(s.skip(1)[j - 1] == s[j]);
        assert(s.skip(1).skip(j) =~= s.skip(j + 1));
        assert(s.take(j)[0] == s[0]);
        assert(seq_body_enc(s.take(j)) == seq_enc(s[0].enc()) + seq_body_enc(s.take(j).skip(1)));
        assert(seq_enc(s[0].enc()) + (seq_body_enc(s.take(j).skip(1)) + (seq_enc(s[j].enc())
            + seq_body_enc(s.skip(j + 1)))) =~= (seq_enc(s[0].enc()) + seq_body_enc(
            s.take(j).skip(1),
        )) + (seq_enc(s[j].enc()) + seq_body_enc(s.skip(j + 1))));
    }
}

/// Element-wise comparison of two runs: the first differing pair decides,
/// and a run that ends first comes before every extension of it.
pub open spec fn seq_cmp<T: LexOrdSer>(a: Seq<T>, b: Seq<T>) -> Option<core::cmp::Ordering>
    decreases a.len(),
{
    if a.len() == 0 && b.len() == 0 {
        Some(core::cmp::Ordering::Equal)
    } else if a.len() == 0 {
        Some(core::cmp::Ordering::Less)
    } else if b.len() == 0 {
        Some(core::cmp::Ordering::Greater)
    } else {
        match a[0].spec_cmp(&b[0]) {
            Some(core::cmp::Ordering::Equal) => seq_cmp(a.skip(1), b.skip(1)),
            c => c,
        }
    }
}

/// A framed run splits into its first element's head form and the framed
/// run of the rest.
pub proof fn lemma_seq_full_unfold<T: LexOrdSer>(s: Seq<T>)
    requires
        s.len() > 0,
    ensures
        seq_full_enc(s) == seq_enc(s[0].enc()) + seq_full_enc(s.skip(1)),
{
    assert((seq_enc(s[0].enc()) + seq_body_enc(s.skip(1))) + seq![0x00u8] =~= seq_enc(s[0].enc())
        + (seq_body_enc(s.skip(1)) + seq![0x00u8]));
}

/// Framed runs are unambiguous: one that leads another is the same bytes,
/// for element-wise the same values.
pub proof fn lemma_seq_full_prefix_free<T: LexOrdSer>(a: Seq<T>, b: Seq<T>)
    requires
        seq_full_enc(a).is_prefix_of(seq_full_enc(b)),
    ensures
        a.len() == b.len(),
        forall|i: int| 0 <= i < a.len() ==> #[trigger] a[i].enc() == b[i].enc(),
        forall|i: int| 0 <= i < a.len() ==> #[trigger] a[i].deep_view() == b[i].deep_view(),
        seq_full_enc(a) == seq_full_enc(b),
    decreases a.len(),
{
    if a.len() == 0 {
        if b.len() > 0 {
            crate::codec::lemma_seq_enc_first(b[0].enc());
            lemma_seq_full_unfold(b);
            assert(seq_full_enc(a)[0] == 0x00);
            assert(seq_full_enc(a)[0] == seq_full_enc(b)[0]);
            assert(false);
        } else {
            assert(seq_full_enc(a) =~= seq_full_enc(b));
        }
    } else if b.len() == 0 {
        crate::codec::lemma_seq_enc_first(a[0].enc());
        lemma_seq_full_unfold(a);
        assert(seq_full_enc(b).len() == 1);
        assert(seq_full_enc(a)[0] == seq_full_enc(b)[0]);
        assert(false);
    } else {
        lemma_seq_full_unfold(a);
        lemma_seq_full_unfold(b);
        lemma_prefix_of_concat(
            seq_enc(a[0].enc()),
            seq_enc(b[0].enc()),
            seq_full_enc(a.skip(1)),
            seq_full_enc(b.skip(1)),
        );
        if seq_enc(a[0].enc()).is_prefix_of(seq_enc(b[0].enc())) {
            crate::codec::lemma_seq_enc_prefix(a[0].enc(), b[0].enc());
        } else {
            crate::codec::lemma_seq_enc_prefix(b[0].enc(), a[0].enc());
        }
        a[0].lemma_prefix_free(&b[0]);
        b[0].lemma_prefix_free(&a[0]);
        assert(a[0].enc() == b[0].enc());
        lemma_prefix_strip(
            seq_enc(a[0].enc()),
            seq_full_enc(a.skip(1)),
            seq_full_enc(b.skip(1)),
        );
        lemma_seq_full_prefix_free(a.skip(1), b.skip(1));
        assert forall|i: int| 0 <= i < a.len() implies #[trigger] a[i].enc() == b[i].enc() by {
            if i > 0 {
                assert(a.skip(1)[i - 1].enc() == b.skip(1)[i - 1].enc());
                assert(a[i] == a.skip(1)[i - 1]);
                assert(b[i] == b.skip(1)[i - 1]);
            }
        }
        assert forall|i: int|
            0 <= i < a.len() implies #[trigger] a[i].deep_view() == b[i].deep_view() by {
            if i > 0 {
                assert(a.skip(1)[i - 1].deep_view() == b.skip(1)[i - 1].deep_view());
                assert(a[i] == a.skip(1)[i - 1]);
                assert(b[i] == b.skip(1)[i - 1]);
            }
        }
    }
}

/// Order preservation for framed runs: wherever the element-wise comparison
/// of two runs is defined, the framed encodings compare the same way as raw
/// bytes, and unequal runs are settled within their common bytes.
pub proof fn lemma_seq_full_order<T: LexOrdSer>(a: Seq<T>, b: Seq<T>)
    ensures
        seq_cmp(a, b) == Some(core::cmp::Ordering::Less) ==> lex_lt(
            seq_full_enc(a),
            seq_full_enc(b),
        ),
        seq_cmp(a, b) == Some(core::cmp::Ordering::Equal) ==> seq_full_enc(a) == seq_full_enc(b),
        seq_cmp(a, b) == Some(core::cmp::Ordering::Greater) ==> lex_lt(
            seq_full_enc(b),
            seq_full_enc(a),
        ),
    decreases a.len(),
{
    if a.len() == 0 && b.len() == 0 {
        assert(seq_full_enc(a) =~= seq_full_enc(b));
    } else if a.len() == 0 {
        crate::codec::lemma_seq_enc_first(b[0].enc());
        lemma_seq_full_unfold(b);
        lemma_lex_lt_first(seq_full_enc(a), seq_full_enc(b));
    } else if b.len() == 0 {
        crate::codec::lemma_seq_enc_first(a[0].enc());
        lemma_seq_full_unfold(a);
        lemma_lex_lt_first(seq_full_enc(b), seq_full_enc(a));
    } else {
        lemma_seq_full_unfold(a);
        lemma_seq_full_unfold(b);
        let ea = a[0].enc();
        let eb = b[0].enc();
        a[0].lemma_order(&b[0]);
        a[0].lemma_prefix_free(&b[0]);
        b[0].lemma_prefix_free(&a[0]);
        crate::order::lemma_lex_lt_irreflexive(ea);
        crate::order::lemma_lex_lt_irreflexive(eb);
        if a[0].spec_cmp(&b[0]) == Some(core::cmp::Ordering::Less) {
            crate::codec::lemma_seq_enc_order(ea, eb);
            lemma_lex_lt_append(seq_enc(ea), seq_enc(eb), seq_full_enc(a.skip(1)), seq_full_enc(
                b.skip(1),
            ));
        } else if a[0].spec_cmp(&b[0]) == Some(core::cmp::Ordering::Greater) {
            crate::codec::lemma_seq_enc_order(eb, ea);
            lemma_lex_lt_append(seq_enc(eb), seq_enc(ea), seq_full_enc(b.skip(1)), seq_full_enc(
                a.skip(1),
            ));
        } else if a[0].spec_cmp(&b[0]) == Some(core::cmp::Ordering::Equal) {
            lemma_seq_full_order(a.skip(1), b.skip(1));
            lemma_lex_lt_common_prefix(
                seq_enc(ea),
                seq_full_enc(a.skip(1)),
                seq_full_enc(b.skip(1)),
            );
            lemma_lex_lt_common_prefix(
                seq_enc(ea),
                seq_full_enc(b.skip(1)),
                seq_full_enc(a.skip(1)),
            );
        }
    }
}

/// The sequence prefix law: a run that is a strict prefix of another,
/// element for element, encodes strictly below it.
pub proof fn lemma_seq_prefix_lt<T: LexOrdSer>(a: Seq<T>, b: Seq<T>)
    requires
        a.len() < b.len(),
        a =~= b.take(a.len() as int),
    ensures
        lex_lt(seq_full_enc(a), seq_full_enc(b)),
{
    let j = a.len() as int;
    lemma_seq_body_split(b, j);
    crate::codec::lemma_seq_enc_first(b[j].enc());
    assert(seq_body_enc(a) == seq_body_enc(b.take(j)));
    let tail = seq_enc(b[j].enc()) + seq_body_enc(b.skip(j + 1));
    assert(seq_full_enc(b) =~= seq_body_enc(a) + (tail + seq![0x00u8]));
    lemma_lex_lt_first(seq![0x00u8], tail + seq![0x00u8]);
    lemma_lex_lt_common_prefix(seq_body_enc(a), seq![0x00u8], tail + seq![0x00u8]);
}

/// Write every element of `items` in sequence-head form, then the
/// terminator: the whole framed encoding of the run.
pub fn write_iterator<T: LexOrdSer>(out: &mut Vec<u8>, items: &[T])
    ensures
        final(out)@ == old(out)@ + seq_full_enc(items@),
{
    let mut i: usize = 0;
    proof {
        assert(items@.take(0) =~= Seq::<T>::empty());
        assert(out@ =~= old(out)@ + seq_body_enc(items@.take(0)));
    }
    while i < items.len()
        invariant
            i <= items@.len(),
            out@ == old(out)@ + seq_body_enc(items@.take(i as int)),
        decreases items@.len() - i,
    {
        items[i].to_write_seq(out);
        proof {
            lemma_seq_body_snoc(items@.take(i as int), items@[i as int]);
            assert(items@.take(i + 1) =~= items@.take(i as int).push(items@[i as int]));
            assert((old(out)@ + seq_body_enc(items@.take(i as int))) + seq_enc(
                items@[i as int].enc(),
            ) =~= old(out)@ + seq_body_enc(items@.take(i + 1)));
        }
        i = i + 1;
    }
    out.push(0x00);
    proof {
        assert(items@.take(items@.len() as int) =~= items@);
        assert(out@ =~= old(out)@ + seq_full_enc(items@));
    }
}

/// Write a run that is itself in head position inside an outer run: an
/// escape byte, then the framed run. The leading escape is written whether
/// or not the run's own first byte would need it; the head decoder accepts
/// both forms.
pub fn write_seq_iterator<T: LexOrdSer>(out: &mut Vec<u8>, items: &[T])
    ensures
        final(out)@ == old(out)@ + (seq![0x01u8] + seq_full_enc(items@)),
{
    out.push(0x01);
    write_iterator(out, items);
    proof {
        assert(out@ =~= old(out)@ + (seq![0x01u8] + seq_full_enc(items@)));
    }
}

/// Read one framed run of elements. Whenever the stream starts with the
/// framed encoding of some run of values, the call succeeds with exactly
/// those values, element for element, and consumes exactly that encoding.
pub fn read_vec<T: LexOrd>(r: &mut PrefixRead) -> (res: Result<Vec<T>, Error>)
    requires
        old(r).wf(),
    ensures
        crate::codec::reads_from(*old(r), *final(r)),
        forall|vs: Seq<T>|
            (#[trigger] seq_full_enc(vs)).is_prefix_of(old(r).stream()) ==> res is Ok
                && res->Ok_0@.len() == vs.len() && (forall|j: int|
                0 <= j < vs.len() ==> (#[trigger] res->Ok_0@[j]).deep_view()
                    == vs[j].deep_view()) && final(r).stream() == old(r).stream().skip(
                seq_full_enc(vs).len() as int,
            ),
{
    let ghost s0 = old(r).stream();
    let mut acc: Vec<T> = Vec::new();
    proof {
        assert(s0.skip(0) =~= s0);
        assert(s0.is_suffix_of(s0)) by {
            assert(s0 =~= s0.subrange(0, s0.len() as int));
        }
        assert forall|vs: Seq<T>| (#[trigger] seq_full_enc(vs)).is_prefix_of(s0)
            implies r.stream() == s0.skip(seq_body_enc(vs.take(acc@.len() as int)).len() as int)
            by {
            assert(vs.take(0) =~= Seq::<T>::empty());
        }
    }
    loop
        invariant
            r.wf(),
            s0 == old(r).stream(),
            crate::codec::reads_from(*old(r), *r),
            forall|vs: Seq<T>|
                (#[trigger] seq_full_enc(vs)).is_prefix_of(s0) ==> acc@.len() <= vs.len() && (
                forall|j: int|
                    0 <= j < acc@.len() ==> (#[trigger] acc@[j]).deep_view()
                        == vs[j].deep_view()) && r.stream() == s0.skip(
                    seq_body_enc(vs.take(acc@.len() as int)).len() as int,
                ),
        decreases r.stream().len(),
    {
        let ghost pre = *r;
        let first = match r.read_byte() {
            Ok(b) => b,
            Err(e) => {
                proof {
                    pre.lemma_prefix_nonempty();
                    crate::codec::lemma_reads_from_trans(*old(r), pre, *r);
                    assert forall|vs: Seq<T>| (#[trigger] seq_full_enc(vs)).is_prefix_of(s0)
                        implies false by {
                        lemma_run_step(s0, vs, acc@.len() as int, pre.stream());
                    }
                }
                return Err(e);
            }
        };
        if first == 0x00 {
            let ghost accv = acc@;
            let res: Result<Vec<T>, Error> = Ok(acc);
            proof {
                crate::order::lemma_skip_is_suffix(pre.stream(), 1);
                crate::codec::lemma_reads_from_trans(*old(r), pre, *r);
                assert(res->Ok_0@ == accv);
                assert forall|vs: Seq<T>| (#[trigger] seq_full_enc(vs)).is_prefix_of(s0)
                    implies res is Ok && res->Ok_0@.len() == vs.len() && (forall|j: int|
                    0 <= j < vs.len() ==> (#[trigger] res->Ok_0@[j]).deep_view()
                        == vs[j].deep_view()) && r.stream() == s0.skip(
                    seq_full_enc(vs).len() as int,
                ) by {
                    lemma_run_step(s0, vs, accv.len() as int, pre.stream());
                    if accv.len() < vs.len() {
                        crate::codec::lemma_seq_enc_first(vs[accv.len() as int].enc());
                        assert(false);
                    }
                    assert(accv.len() == vs.len());
                    assert forall|j: int|
                        0 <= j < vs.len() implies (#[trigger] res->Ok_0@[j]).deep_view()
                        == vs[j].deep_view() by {
                        assert(res->Ok_0@[j] == accv[j]);
                        assert(accv[j].deep_view() == vs[j].deep_view());
                    }
                    assert(vs.take(vs.len() as int) =~= vs);
                    assert(r.stream() =~= s0.skip(seq_full_enc(vs).len() as int)) by {
                        assert(r.stream() == pre.stream().skip(1));
                        assert(pre.stream() == s0.skip(seq_body_enc(vs).len() as int));
                        assert(seq_full_enc(vs).len() == seq_body_enc(vs).len() + 1);
                        let nb = seq_body_enc(vs).len() as int;
                        assert(nb + 1 <= s0.len()) by {
                            assert(seq_full_enc(vs).len() <= s0.len());
                        }
                        assert(s0.skip(nb).skip(1) =~= s0.skip(nb + 1));
                    }
                }
            }
            return res;
        }
        let ghost mid = *r;
        let x = match T::from_read_seq(first, r) {
            Ok(x) => x,
            Err(e) => {
                proof {
                    crate::order::lemma_skip_is_suffix(pre.stream(), 1);
                    crate::codec::lemma_reads_from_trans(*old(r), pre, mid);
                    crate::codec::lemma_reads_from_trans(*old(r), mid, *r);
                    assert forall|vs: Seq<T>| (#[trigger] seq_full_enc(vs)).is_prefix_of(s0)
                        implies false by {
                        lemma_run_step(s0, vs, acc@.len() as int, pre.stream());
                        let j = acc@.len() as int;
                        if j == vs.len() {
                            assert(pre.stream()[0] == 0x00);
                            assert(false);
                        }
                        assert(seq_enc(vs[j].enc()).is_prefix_of(seq![first] + mid.stream())) by {
                            assert(seq![first] + mid.stream() =~= pre.stream());
                        }
                    }
                }
                return Err(e);
            }
        };
        proof {
            crate::order::lemma_skip_is_suffix(pre.stream(), 1);
            crate::codec::lemma_reads_from_trans(*old(r), pre, mid);
            crate::codec::lemma_reads_from_trans(*old(r), mid, *r);
        }
        let ghost acc0 = acc@;
        acc.push(x);
        proof {
            let j = acc0.len() as int;
            assert forall|vs: Seq<T>| (#[trigger] seq_full_enc(vs)).is_prefix_of(s0)
                implies acc@.len() <= vs.len() && (forall|k: int|
                0 <= k < acc@.len() ==> (#[trigger] acc@[k]).deep_view() == vs[k].deep_view())
                && r.stream() == s0.skip(seq_body_enc(vs.take(acc@.len() as int)).len() as int)
                by {
                lemma_run_step(s0, vs, j, pre.stream());
                if j == vs.len() {
                    assert(pre.stream()[0] == 0x00);
                    assert(false);
                }
                assert(seq_enc(vs[j].enc()).is_prefix_of(seq![first] + mid.stream())) by {
                    assert(seq![first] + mid.stream() =~= pre.stream());
                }
                assert(x.deep_view() == vs[j].deep_view());
                assert forall|k: int|
                    0 <= k < acc@.len() implies (#[trigger] acc@[k]).deep_view()
                    == vs[k].deep_view() by {
                    if k < j {
                        assert(acc@[k] == acc0[k]);
                        assert((acc0[k]).deep_view() == vs[k].deep_view());
                    } else {
                        assert(acc@[k] == x);
                    }
                }
                lemma_seq_body_snoc(vs.take(j), vs[j]);
                assert(vs.take(j + 1) =~= vs.take(j).push(vs[j]));
                assert(r.stream() =~= s0.skip(seq_body_enc(vs.take(j + 1)).len() as int)) by {
                    assert(r.stream() == (seq![first] + mid.stream()).skip(
                        seq_enc(vs[j].enc()).len() as int,
                    ));
                    assert(seq![first] + mid.stream() =~= pre.stream());
                    assert(pre.stream() == s0.skip(seq_body_enc(vs.take(j)).len() as int));
                    let n1 = seq_body_enc(vs.take(j)).len() as int;
                    let n2 = seq_enc(vs[j].enc()).len() as int;
                    assert(n1 + n2 <= s0.len()) by {
                        lemma_seq_body_split(vs, j);
                        assert(seq_body_enc(vs).len() == n1 + n2 + seq_body_enc(
                            vs.skip(j + 1),
                        ).len());
                        assert(seq_full_enc(vs).len() <= s0.len());
                    }
                    assert(s0.skip(n1).skip(n2) =~= s0.skip(n1 + n2));
                }
            }
        }
    }
}

/// Step-wise reading of a framed run: each call to `next` yields one
/// element, `None` at the terminator, or an error for bytes that frame no
/// element.
pub struct ReadIter<T> {
    reader: PrefixRead,
    _phantom: core::marker::PhantomData<T>,
}

impl<T: LexOrd> ReadIter<T> {
    /// The bytes still to be read.
    pub closed spec fn stream(&self) -> Seq<u8> {
        self.reader.stream()
    }

    pub closed spec fn wf(&self) -> bool {
        self.reader.wf() && !self.reader.has_prefix()
    }

    /// Iterate over a run whose framing bytes are still unread.
    pub fn new(reader: PrefixRead) -> (it: ReadIter<T>)
        requires
            reader.wf(),
            !reader.has_prefix(),
        ensures
            it.wf(),
            it.stream() == reader.stream(),
    {
        ReadIter { reader, _phantom: core::marker::PhantomData }
    }

    /// Iterate over a run in head position whose leading escape byte was
    /// already consumed by the outer framing. Handing over any byte but
    /// the escape is a caller error.
    pub fn new_seq(first: u8, reader: PrefixRead) -> (res: Result<ReadIter<T>, Error>)
        requires
            first == 0x01,
            reader.wf(),
            !reader.has_prefix(),
        ensures
            res is Ok,
            res->Ok_0.wf(),
            res->Ok_0.stream() == reader.stream(),
    {
        Ok(ReadIter { reader, _phantom: core::marker::PhantomData })
    }

    /// Read the next element, if the terminator has not been reached.
    pub fn next(&mut self) -> (res: Option<Result<T, Error>>)
        requires
            old(self).wf(),
        ensures
            final(self).wf(),
            final(self).stream().is_suffix_of(old(self).stream()),
            res is None <==> (old(self).stream().len() > 0 && old(self).stream()[0] == 0x00),
            res is None ==> final(self).stream() == old(self).stream().skip(1),
            old(self).stream().len() == 0 ==> res == Some(Err::<T, Error>(Error::Eof)),
            forall|v: T|
                seq_enc(#[trigger] v.enc()).is_prefix_of(old(self).stream()) ==> res is Some
                    && res->Some_0 is Ok && res->Some_0->Ok_0.deep_view() == v.deep_view()
                    && final(self).stream() == old(self).stream().skip(
                    seq_enc(v.enc()).len() as int,
                ),
    {
        let ghost pre = self.reader;
        let first = match self.reader.read_byte() {
            Ok(b) => b,
            Err(e) => {
                proof {
                    assert forall|v: T|
                        seq_enc(#[trigger] v.enc()).is_prefix_of(pre.stream())
                            implies false by {
                        crate::codec::lemma_seq_enc_first(v.enc());
                    }
                    assert(self.stream() =~= self.stream().subrange(
                        0,
                        self.stream().len() as int,
                    ));
                }
                return Some(Err(e));
            }
        };
        if first == 0x00 {
            proof {
                crate::order::lemma_skip_is_suffix(pre.stream(), 1);
                assert forall|v: T|
                    seq_enc(#[trigger] v.enc()).is_prefix_of(pre.stream()) implies false by {
                    crate::codec::lemma_seq_enc_first(v.enc());
                    assert(seq_enc(v.enc())[0] == pre.stream()[0]);
                }
            }
            return None;
        }
        let ghost mid = self.reader;
        let res: Option<Result<T, Error>> = match T::from_read_seq(first, &mut self.reader) {
            Ok(x) => Some(Ok(x)),
            Err(e) => Some(Err(e)),
        };
        proof {
            crate::order::lemma_suffix_trans(
                self.reader.stream(),
                mid.stream(),
                pre.stream(),
            );
            crate::order::lemma_skip_is_suffix(pre.stream(), 1);
            assert forall|v: T|
                seq_enc(#[trigger] v.enc()).is_prefix_of(pre.stream()) implies res is Some
                && res->Some_0 is Ok && res->Some_0->Ok_0.deep_view() == v.deep_view()
                && self.stream() == pre.stream().skip(seq_enc(v.enc()).len() as int) by {
                assert(seq_enc(v.enc()).is_prefix_of(seq![first] + mid.stream())) by {
                    assert(seq![first] + mid.stream() =~= pre.stream());
                }
                assert(self.reader.stream() == (seq![first] + mid.stream()).skip(
                    seq_enc(v.enc()).len() as int,
                ));
                assert((seq![first] + mid.stream()).skip(seq_enc(v.enc()).len() as int)
                    == pre.stream().skip(seq_enc(v.enc()).len() as int)) by {
                    assert(seq![first] + mid.stream() =~= pre.stream());
                }
            }
        }
        res
    }
}

/// Inside a run that leads the stream, the bytes after the first `j`
/// elements start either with the next element's head form or, when the
/// run is exhausted, with the terminator.
proof fn lemma_run_step<T: LexOrdSer>(s0: Seq<u8>, vs: Seq<T>, j: int, rest: Seq<u8>)
    requires
        seq_full_enc(vs).is_prefix_of(s0),
        0 <= j <= vs.len(),
        rest == s0.skip(seq_body_enc(vs.take(j)).len() as int),
    ensures
        rest.len() > 0,
        j < vs.len() ==> seq_enc(vs[j].enc()).is_prefix_of(rest) && rest[0] == seq_enc(
            vs[j].enc(),
        )[0] && rest[0] >= 0x01,
        j == vs.len() ==> rest[0] == 0x00,
{
    let bt = seq_body_enc(vs.take(j));
    if j < vs.len() {
        lemma_seq_body_split(vs, j);
        crate::codec::lemma_seq_enc_first(vs[j].enc());
        let se = seq_enc(vs[j].enc());
        let after = seq_body_enc(vs.skip(j + 1));
        assert(seq_full_enc(vs) =~= bt + ((se + (after + seq![0x00u8]))));
        lemma_prefix_tail(bt, se + (after + seq![0x00u8]), s0);
        lemma_prefix_head(se, after + seq![0x00u8], rest);
        assert(rest[0] == se[0]);
    } else {
        assert(vs.take(j) =~= vs);
        assert(bt == seq_body_enc(vs));
        assert(seq_full_enc(vs) == bt + seq![0x00u8]);
        lemma_prefix_tail(bt, seq![0x00u8], s0);
        assert(seq![0x00u8].is_prefix_of(rest));
        assert(seq![0x00u8] =~= rest.subrange(0, 1));
        assert(rest[0] == seq![0x00u8][0]);
    }
}

} // verus!
