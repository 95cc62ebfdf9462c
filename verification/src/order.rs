//! Byte-wise lexicographic order on byte strings, and the small algebra of
//! lemmas about prefixes and concatenation that the codec's ordering proofs
//! are built from.

use vstd::prelude::*;

verus! {

/// Strict lexicographic order on byte strings: compare byte by byte from the
/// front; a strict prefix is smaller than every extension of it.
pub open spec fn lex_lt(a: Seq<u8>, b: Seq<u8>) -> bool
    decreases a.len(),
{
    if b.len() == 0 {
        false
    } else if a.len() == 0 {
        true
    } else if a[0] < b[0] {
        true
    } else if a[0] == b[0] {
        lex_lt(a.skip(1), b.skip(1))
    } else {
        false
    }
}

/// Nothing is lexicographically below itself.
pub proof fn lemma_lex_lt_irreflexive(a: Seq<u8>)
    ensures
        !lex_lt(a, a),
    decreases a.len(),
{
    if a.len() > 0 {
        lemma_lex_lt_irreflexive(a.skip(1));
    }
}

/// A first byte that is strictly smaller decides the comparison, whatever
/// follows on either side.
pub proof fn lemma_lex_lt_first(a: Seq<u8>, b: Seq<u8>)
    requires
        a.len() > 0,
        b.len() > 0,
        a[0] < b[0],
    ensures
        lex_lt(a, b),
{
}

/// Prepending the same bytes to both sides changes nothing.
pub proof fn lemma_lex_lt_common_prefix(c: Seq<u8>, a: Seq<u8>, b: Seq<u8>)
    ensures
        lex_lt(c + a, c + b) == lex_lt(a, b),
    decreases c.len(),
{
    if c.len() == 0 {
        assert(c + a =~= a);
        assert(c + b =~= b);
    } else {
        assert((c + a).skip(1) =~= c.skip(1) + a);
        assert((c + b).skip(1) =~= c.skip(1) + b);
        lemma_lex_lt_common_prefix(c.skip(1), a, b);
    }
}

/// When neither side is a prefix of the other, a comparison is settled within
/// the common length, so appending anything to either side cannot change it.
pub proof fn lemma_lex_lt_append(a: Seq<u8>, b: Seq<u8>, x: Seq<u8>, y: Seq<u8>)
    requires
        lex_lt(a, b),
        !a.is_prefix_of(b),
    ensures
        lex_lt(a + x, b + y),
    decreases a.len(),
{
    if a.len() == 0 {
        assert(a.is_prefix_of(b)) by {
            assert(a =~= b.take(0));
        }
    } else if b.len() == 0 {
        // lex_lt(a, b) is false here; nothing to prove
    } else if a[0] < b[0] {
        lemma_lex_lt_first(a + x, b + y);
    } else {
        assert(a[0] == b[0]);
        assert(a.skip(1).is_prefix_of(b.skip(1)) ==> a.is_prefix_of(b)) by {
            if a.skip(1).is_prefix_of(b.skip(1)) {
                assert(a =~= b.subrange(0, a.len() as int)) by {
                    assert forall|i: int| 0 <= i < a.len() implies a[i] == b[i] by {
                        if i > 0 {
                            assert(a.skip(1)[i - 1] == b.skip(1).subrange(
                                0,
                                a.len() - 1,
                            )[i - 1]);
                        }
                    }
                }
            }
        }
        lemma_lex_lt_append(a.skip(1), b.skip(1), x, y);
        assert((a + x).skip(1) =~= a.skip(1) + x);
        assert((b + y).skip(1) =~= b.skip(1) + y);
    }
}

/// Suffixes of suffixes are suffixes.
pub proof fn lemma_suffix_trans(a: Seq<u8>, b: Seq<u8>, c: Seq<u8>)
    requires
        a.is_suffix_of(b),
        b.is_suffix_of(c),
    ensures
        a.is_suffix_of(c),
{
    assert(a =~= c.subrange(c.len() - a.len(), c.len() as int)) by {
        assert forall|i: int| 0 <= i < a.len() implies a[i] == c[c.len() - a.len() + i] by {
            assert(a[i] == b[b.len() - a.len() + i]);
            assert(b[b.len() - a.len() + i] == c[c.len() - b.len() + (b.len() - a.len() + i)]);
        }
    }
}

/// What remains after reading from a stream `c + s` is, once it fits inside
/// `s`, a suffix of `s` alone.
pub proof fn lemma_suffix_within(a: Seq<u8>, c: Seq<u8>, s: Seq<u8>)
    requires
        a.is_suffix_of(c + s),
        a.len() <= s.len(),
    ensures
        a.is_suffix_of(s),
{
    assert(a =~= s.subrange(s.len() - a.len(), s.len() as int)) by {
        assert forall|i: int| 0 <= i < a.len() implies a[i] == s[s.len() - a.len() + i] by {
            assert(a[i] == (c + s)[(c + s).len() - a.len() + i]);
        }
    }
}

/// Skipping a prefix of a stream leaves a suffix of it.
pub proof fn lemma_skip_is_suffix(s: Seq<u8>, n: int)
    requires
        0 <= n <= s.len(),
    ensures
        s.skip(n).is_suffix_of(s),
{
    assert(s.skip(n) =~= s.subrange(s.len() - s.skip(n).len(), s.len() as int));
}

/// If one concatenation is a prefix of another, the two heads must agree as
/// far as they overlap: one of them is a prefix of the other.
pub proof fn lemma_prefix_of_concat(a: Seq<u8>, b: Seq<u8>, x: Seq<u8>, y: Seq<u8>)
    requires
        (a + x).is_prefix_of(b + y),
    ensures
        a.is_prefix_of(b) || b.is_prefix_of(a),
{
    assert(a + x =~= (b + y).subrange(0, (a + x).len() as int));
    if a.len() <= b.len() {
        assert(a =~= b.subrange(0, a.len() as int)) by {
            assert forall|i: int| 0 <= i < a.len() implies a[i] == b[i] by {
                assert((a + x)[i] == (b + y)[i]);
            }
        }
    } else {
        assert(b =~= a.subrange(0, b.len() as int)) by {
            assert forall|i: int| 0 <= i < b.len() implies b[i] == a[i] by {
                assert((a + x)[i] == (b + y)[i]);
            }
        }
    }
}

/// The head of a concatenation that leads a stream leads the stream too.
pub proof fn lemma_prefix_head(a: Seq<u8>, b: Seq<u8>, s: Seq<u8>)
    requires
        (a + b).is_prefix_of(s),
    ensures
        a.is_prefix_of(s),
{
    assert(a =~= s.subrange(0, a.len() as int)) by {
        assert forall|i: int| 0 <= i < a.len() implies a[i] == s[i] by {
            assert((a + b)[i] == s.subrange(0, (a + b).len() as int)[i]);
        }
    }
}

/// The tail of a concatenation that leads a stream leads what is left of
/// the stream once the head is consumed.
pub proof fn lemma_prefix_tail(a: Seq<u8>, b: Seq<u8>, s: Seq<u8>)
    requires
        (a + b).is_prefix_of(s),
    ensures
        b.is_prefix_of(s.skip(a.len() as int)),
{
    assert(b =~= s.skip(a.len() as int).subrange(0, b.len() as int)) by {
        assert forall|i: int| 0 <= i < b.len() implies b[i] == s.skip(a.len() as int)[i] by {
            assert((a + b)[a.len() + i] == s.subrange(0, (a + b).len() as int)[a.len() + i]);
        }
    }
}

/// Stripping an equal head off a prefix pair leaves a prefix pair.
pub proof fn lemma_prefix_strip(a: Seq<u8>, x: Seq<u8>, y: Seq<u8>)
    requires
        (a + x).is_prefix_of(a + y),
    ensures
        x.is_prefix_of(y),
{
    assert(x =~= y.take(x.len() as int)) by {
        assert forall|i: int| 0 <= i < x.len() implies x[i] == y[i] by {
            assert((a + x)[a.len() + i] == (a + y).take((a + x).len() as int)[a.len() + i]);
        }
    }
}

} // verus!
