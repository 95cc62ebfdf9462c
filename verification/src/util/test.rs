//! A compact, human-readable rendering of encodings: each byte as two
//! upper-case hexadecimal digits, bytes separated by single spaces.

use crate::codec::LexOrdSer;
use vstd::prelude::*;
use vstd::string::StringExecFns;

verus! {

/// The hexadecimal digit for a value below sixteen.
pub open spec fn hex_digit(n: int) -> char {
    if n == 0 {
        '0'
    } else if n == 1 {
        '1'
    } else if n == 2 {
        '2'
    } else if n == 3 {
        '3'
    } else if n == 4 {
        '4'
    } else if n == 5 {
        '5'
    } else if n == 6 {
        '6'
    } else if n == 7 {
        '7'
    } else if n == 8 {
        '8'
    } else if n == 9 {
        '9'
    } else if n == 10 {
        'A'
    } else if n == 11 {
        'B'
    } else if n == 12 {
        'C'
    } else if n == 13 {
        'D'
    } else if n == 14 {
        'E'
    } else {
        'F'
    }
}

/// The rendering of a byte string: two digits per byte, spaces between
/// bytes, nothing around them.
pub open spec fn hex_str(bytes: Seq<u8>) -> Seq<char>
    decreases bytes.len(),
{
    if bytes.len() == 0 {
        Seq::empty()
    } else if bytes.len() == 1 {
        seq![hex_digit(bytes[0] as int / 16), hex_digit(bytes[0] as int % 16)]
    } else {
        hex_str(bytes.drop_last()) + seq![
            ' ',
            hex_digit(bytes.last() as int / 16),
            hex_digit(bytes.last() as int % 16),
        ]
    }
}

/// Append one hexadecimal digit.
fn append_hex_digit(s: &mut String, n: u8)
    requires
        n < 16,
    ensures
        final(s)@ == old(s)@ + seq![hex_digit(n as int)],
{
    if n == 0 {
        s.append("0");
        proof {
            reveal_strlit("0");
            assert(s@ =~= old(s)@ + seq![hex_digit(n as int)]);
        }
    } else if n == 1 {
        s.append("1");
        proof {
            reveal_strlit("1");
            assert(s@ =~= old(s)@ + seq![hex_digit(n as int)]);
        }
    } else if n == 2 {
        s.append("2");
        proof {
            reveal_strlit("2");
            assert(s@ =~= old(s)@ + seq![hex_digit(n as int)]);
        }
    } else if n == 3 {
        s.append("3");
        proof {
            reveal_strlit("3");
            assert(s@ =~= old(s)@ + seq![hex_digit(n as int)]);
        }
    } else if n == 4 {
        s.append("4");
        proof {
            reveal_strlit("4");
            assert(s@ =~= old(s)@ + seq![hex_digit(n as int)]);
        }
    } else if n == 5 {
        s.append("5");
        proof {
            reveal_strlit("5");
            assert(s@ =~= old(s)@ + seq![hex_digit(n as int)]);
        }
    } else if n == 6 {
        s.append("6");
        proof {
            reveal_strlit("6");
            assert(s@ =~= old(s)@ + seq![hex_digit(n as int)]);
        }
    } else if n == 7 {
        s.append("7");
        proof {
            reveal_strlit("7");
            assert(s@ =~= old(s)@ + seq![hex_digit(n as int)]);
        }
    } else if n == 8 {
        s.append("8");
        proof {
            reveal_strlit("8");
            assert(s@ =~= old(s)@ + seq![hex_digit(n as int)]);
        }
    } else if n == 9 {
        s.append("9");
        proof {
            reveal_strlit("9");
            assert(s@ =~= old(s)@ + seq![hex_digit(n as int)]);
        }
    } else if n == 10 {
        s.append("A");
        proof {
            reveal_strlit("A");
            assert(s@ =~= old(s)@ + seq![hex_digit(n as int)]);
        }
    } else if n == 11 {
        s.append("B");
        proof {
            reveal_strlit("B");
            assert(s@ =~= old(s)@ + seq![hex_digit(n as int)]);
        }
    } else if n == 12 {
        s.append("C");
        proof {
            reveal_strlit("C");
            assert(s@ =~= old(s)@ + seq![hex_digit(n as int)]);
        }
    } else if n == 13 {
        s.append("D");
        proof {
            reveal_strlit("D");
            assert(s@ =~= old(s)@ + seq![hex_digit(n as int)]);
        }
    } else if n == 14 {
        s.append("E");
        proof {
            reveal_strlit("E");
            assert(s@ =~= old(s)@ + seq![hex_digit(n as int)]);
        }
    } else {
        s.append("F");
        proof {
            reveal_strlit("F");
            assert(s@ =~= old(s)@ + seq![hex_digit(n as int)]);
        }
    }
}

/// Encode a value and render its bytes in hexadecimal.
pub fn encode<T: LexOrdSer>(value: T) -> (r: String)
    ensures
        r@ == hex_str(value.enc()),
{
    let mut buf: Vec<u8> = Vec::new();
    value.to_write(&mut buf);
    let mut s = String::new();
    let mut i: usize = 0;
    proof {
        assert(buf@.take(0) =~= Seq::<u8>::empty());
        assert(s@ =~= hex_str(buf@.take(0)));
    }
    while i < buf.len()
        invariant
            i <= buf@.len(),
            buf@ == value.enc(),
            s@ == hex_str(buf@.take(i as int)),
        decreases buf@.len() - i,
    {
        let b = buf[i];
        if i > 0 {
            s.append(" ");
            proof {
                reveal_strlit(" ");
            }
        }
        append_hex_digit(&mut s, b / 16);
        append_hex_digit(&mut s, b % 16);
        proof {
            let t = buf@.take(i + 1);
            assert(t.drop_last() =~= buf@.take(i as int));
            assert(t.last() == b);
            assert(s@ =~= hex_str(t));
        }
        i = i + 1;
    }
    proof {
        assert(buf@.take(buf@.len() as int) =~= buf@);
    }
    s
}

} // verus!
