//! Lower-case hexadecimal rendering of digests, and the inverse parser.

use vstd::prelude::*;
use vstd::string::StrSliceExecFns;

verus! {

/// The lower-case hexadecimal digit for a value below sixteen.
pub open spec fn hex_char_of(n: int) -> char {
    if n == 0 {
        '0'
    } else if n == 1 {
        '1'
    } else if n == 2 {
        '2'
    } else if n == 3 {
        '3'
    } else if n == 4 {
        '4'
    } else if n == 5 {
        '5'
    } else if n == 6 {
        '6'
    } else if n == 7 {
        '7'
    } else if n == 8 {
        '8'
    } else if n == 9 {
        '9'
    } else if n == 10 {
        'a'
    } else if n == 11 {
        'b'
    } else if n == 12 {
        'c'
    } else if n == 13 {
        'd'
    } else if n == 14 {
        'e'
    } else {
        'f'
    }
}

/// Each byte rendered as two lower-case hexadecimal digits, high nibble first.
pub open spec fn hex_of(bs: Seq<u8>) -> Seq<char>
    decreases bs.len(),
{
    if bs.len() == 0 {
        Seq::empty()
    } else {
        seq![hex_char_of((bs[0] / 16) as int), hex_char_of((bs[0] % 16) as int)] + hex_of(
            bs.drop_first(),
        )
    }
}

pub proof fn lemma_hex_of_append(a: Seq<u8>, b: Seq<u8>)
    ensures
        hex_of(a + b) == hex_of(a) + hex_of(b),
    decreases a.len(),
{
    if a.len() == 0 {
        assert(a + b =~= b);
        assert(hex_of(a) + hex_of(b) =~= hex_of(b));
    } else {
        lemma_hex_of_append(a.drop_first(), b);
        assert((a + b).drop_first() =~= a.drop_first() + b);
        assert(hex_of(a + b) =~= hex_of(a) + hex_of(b));
    }
}

/// Relies on String::push: appends exactly the given character.
#[verifier::external_body]
fn push_char(s: &mut String, c: char)
    ensures
        final(s)@ == old(s)@.push(c),
{
    s.push(c);
}

fn hex_char(n: u8) -> (c: char)
    requires
        n < 16,
    ensures
        c == hex_char_of(n as int),
{
    if n == 0 {
        '0'
    } else if n == 1 {
        '1'
    } else if n == 2 {
        '2'
    } else if n == 3 {
        '3'
    } else if n == 4 {
        '4'
    } else if n == 5 {
        '5'
    } else if n == 6 {
        '6'
    } else if n == 7 {
        '7'
    } else if n == 8 {
        '8'
    } else if n == 9 {
        '9'
    } else if n == 10 {
        'a'
    } else if n == 11 {
        'b'
    } else if n == 12 {
        'c'
    } else if n == 13 {
        'd'
    } else if n == 14 {
        'e'
    } else {
        'f'
    }
}

/// Renders bytes as a lower-case hexadecimal string, two digits per byte.
pub fn to_hex_string(bs: &[u8]) -> (s: String)
    ensures
        s@ == hex_of(bs@),
{
    let mut s = String::new();
    let mut i: usize = 0;
    while i < bs.len()
        invariant
            i <= bs.len(),
            s@ == hex_of(bs@.take(i as int)),
        decreases bs.len() - i,
    {
        let b = bs[i];
        push_char(&mut s, hex_char(b / 16));
        push_char(&mut s, hex_char(b % 16));
        proof {
            assert(bs@.take(i + 1) =~= bs@.take(i as int) + seq![bs@[i as int]]);
            lemma_hex_of_append(bs@.take(i as int), seq![bs@[i as int]]);
            let sb = seq![bs@[i as int]];
            assert(sb.drop_first() =~= Seq::<u8>::empty());
            assert(hex_of(sb.drop_first()) =~= Seq::<char>::empty());
            assert(hex_of(sb) =~= seq![
                hex_char_of((b / 16) as int),
                hex_char_of((b % 16) as int),
            ]);
            assert(s@ =~= hex_of(bs@.take(i + 1)));
        }
        i = i + 1;
    }
    proof {
        assert(bs@.take(bs@.len() as int) =~= bs@);
    }
    s
}

/// Whether the character is a hexadecimal digit in any of the three ranges
/// the parser accepts.
pub open spec fn is_hex_digit(c: char) -> bool {
    (48 <= c as int && c as int <= 57) || (97 <= c as int && c as int <= 102) || (65 <= c as int
        && c as int <= 70)
}

/// The numeric value of a hexadecimal digit.
pub open spec fn hex_digit_val(c: char) -> int {
    if 48 <= c as int && c as int <= 57 {
        c as int - 48
    } else if 97 <= c as int && c as int <= 102 {
        c as int - 87
    } else {
        c as int - 55
    }
}

/// The bytes a hexadecimal string denotes: two digits per byte, high nibble
/// first; `None` when the length is odd or a character is no hexadecimal
/// digit.
pub open spec fn hex_decode(s: Seq<char>) -> Option<Seq<u8>>
    decreases s.len(),
{
    if s.len() == 0 {
        Some(Seq::empty())
    } else if s.len() == 1 {
        None
    } else if !is_hex_digit(s[0]) || !is_hex_digit(s[1]) {
        None
    } else {
        match hex_decode(s.skip(2)) {
            Some(rest) => Some(
                seq![(hex_digit_val(s[0]) * 16 + hex_digit_val(s[1])) as u8] + rest,
            ),
            None => None,
        }
    }
}

fn hex_val(c: char) -> (r: Option<u8>)
    ensures
        r is Some <==> is_hex_digit(c),
        r is Some ==> r->0 == hex_digit_val(c),
{
    let u = c as u32;
    if 48 <= u && u <= 57 {
        Some((u - 48) as u8)
    } else if 97 <= u && u <= 102 {
        Some((u - 87) as u8)
    } else if 65 <= u && u <= 70 {
        Some((u - 55) as u8)
    } else {
        None
    }
}

/// Parses a hexadecimal string back into bytes; `None` on an odd length or a
/// character outside the hexadecimal digits.
pub fn from_hex_string(s: &str) -> (r: Option<Vec<u8>>)
    ensures
        r is Some <==> hex_decode(s@) is Some,
        r is Some ==> Some(r->0@) == hex_decode(s@),
{
    let n = s.unicode_len();
    let mut bs: Vec<u8> = Vec::new();
    let mut i: usize = 0;
    proof {
        assert(s@.skip(0) =~= s@);
        if hex_decode(s@) is Some {
            assert(Seq::<u8>::empty() + hex_decode(s@).unwrap() =~= hex_decode(s@).unwrap());
        }
    }
    while i < n
        invariant
            i <= n,
            i % 2 == 0,
            n == s@.len(),
            hex_decode(s@) == match hex_decode(s@.skip(i as int)) {
                Some(rest) => Some(bs@ + rest),
                None => None::<Seq<u8>>,
            },
        decreases n - i,
    {
        if i + 1 == n {
            proof {
                assert(s@.skip(i as int).len() == 1);
            }
            return None;
        }
        let c1 = s.get_char(i);
        let c2 = s.get_char(i + 1);
        proof {
            assert(s@.skip(i as int)[0] == c1);
            assert(s@.skip(i as int)[1] == c2);
        }
        let v1 = match hex_val(c1) {
            Some(v) => v,
            None => {
                return None;
            },
        };
        let v2 = match hex_val(c2) {
            Some(v) => v,
            None => {
                return None;
            },
        };
        let b: u8 = v1 * 16 + v2;
        let ghost bs0 = bs@;
        bs.push(b);
        proof {
            assert(s@.skip(i as int).skip(2) =~= s@.skip(i + 2));
            assert(bs@ =~= bs0 + seq![b]);
            if hex_decode(s@.skip(i + 2)) is Some {
                let rest = hex_decode(s@.skip(i + 2)).unwrap();
                assert(bs0 + (seq![b] + rest) =~= (bs0 + seq![b]) + rest);
            }
        }
        i = i + 2;
    }
    proof {
        assert(s@.skip(n as int) =~= Seq::<char>::empty());
        assert(bs@ + Seq::<u8>::empty() =~= bs@);
    }
    Some(bs)
}

} // verus!
