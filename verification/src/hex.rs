//! Lowercase hexadecimal encoding and decoding of byte strings, written out
//! and verified here because its whole behaviour is a few lines of
//! specification. Decoding accepts both letter cases, as the encoding's
//! usual decoders do.
use vstd::prelude::*;

use crate::codec::bytes_to_ascii_string;
use crate::codec::chars_of_bytes;
use crate::codec::lemma_ascii_byte;
use crate::codec::lemma_str_bytes_of_ascii;
use crate::codec::ascii_chars;
use vstd::string::StrSliceExecFns;

verus! {

/// The ASCII code of the lowercase hexadecimal digit for a value below 16.
pub open spec fn hex_digit_code(d: u8) -> u8
    recommends
        d < 16,
{
    if d < 10 {
        (d + 0x30) as u8
    } else {
        (d + 0x57) as u8
    }
}

/// The ASCII codes of the lowercase hexadecimal encoding: two digits per
/// byte, high nibble first.
pub open spec fn hex_codes(b: Seq<u8>) -> Seq<u8> {
    Seq::new(
        2 * b.len(),
        |i: int|
            if i % 2 == 0 {
                hex_digit_code(b[i / 2] / 16)
            } else {
                hex_digit_code(b[i / 2] % 16)
            },
    )
}

/// The lowercase hexadecimal encoding of a byte string.
pub open spec fn hex_of(b: Seq<u8>) -> Seq<char> {
    chars_of_bytes(hex_codes(b))
}

/// The value of a hexadecimal digit character, or -1 if it is none.
pub open spec fn hex_val(c: char) -> int {
    let u = c as u32;
    if 0x30 <= u <= 0x39 {
        u - 0x30
    } else if 0x61 <= u <= 0x66 {
        u - 0x61 + 10
    } else if 0x41 <= u <= 0x46 {
        u - 0x41 + 10
    } else {
        -1
    }
}

/// Whether every character is a hexadecimal digit.
pub open spec fn all_hex_digits(s: Seq<char>) -> bool {
    forall|i: int| #![trigger s[i]] 0 <= i < s.len() ==> hex_val(s[i]) >= 0
}

/// The bytes denoted by a hexadecimal string: `None` unless the length is
/// even and every character is a digit of either case.
pub open spec fn spec_hex_decode(s: Seq<char>) -> Option<Seq<u8>> {
    if s.len() % 2 == 0 && all_hex_digits(s) {
        Some(Seq::new(s.len() / 2, |i: int| (hex_val(s[2 * i]) * 16 + hex_val(s[2 * i + 1])) as u8))
    } else {
        None
    }
}

proof fn lemma_hex_digit_code_ascii(d: u8)
    requires
        d < 16,
    ensures
        hex_digit_code(d) < 128,
        hex_val((hex_digit_code(d) as char)) == d,
{
    lemma_ascii_byte(hex_digit_code(d));
}

/// A hexadecimal encoding is ASCII text, two characters per byte.
pub proof fn lemma_hex_of_ascii(b: Seq<u8>)
    ensures
        ascii_chars(hex_of(b)),
        hex_of(b).len() == 2 * b.len(),
{
    assert forall|j: int| 0 <= j < hex_codes(b).len() implies (#[trigger] hex_codes(b)[j])
        < 128 by {
        lemma_hex_digit_code_ascii(if j % 2 == 0 {
            b[j / 2] / 16
        } else {
            b[j / 2] % 16
        });
    }
    lemma_str_bytes_of_ascii(hex_codes(b));
}

/// Encoding then decoding a byte string gives it back.
pub proof fn lemma_hex_round_trip(b: Seq<u8>)
    ensures
        spec_hex_decode(hex_of(b)) == Some(b),
{
    let s = hex_of(b);
    assert forall|i: int| 0 <= i < s.len() implies hex_val(#[trigger] s[i]) >= 0 by {
        lemma_hex_digit_code_ascii(if i % 2 == 0 {
            b[i / 2] / 16
        } else {
            b[i / 2] % 16
        });
        lemma_ascii_byte(hex_codes(b)[i]);
    }
    let d = spec_hex_decode(s).unwrap();
    assert forall|i: int| 0 <= i < b.len() implies #[trigger] d[i] == b[i] by {
        lemma_hex_digit_code_ascii(b[i] / 16);
        lemma_hex_digit_code_ascii(b[i] % 16);
        lemma_ascii_byte(hex_codes(b)[2 * i]);
        lemma_ascii_byte(hex_codes(b)[2 * i + 1]);
        assert(hex_val(s[2 * i]) == b[i] / 16);
        assert(hex_val(s[2 * i + 1]) == b[i] % 16);
    }
    assert(d =~= b);
}

/// Encodes a byte string as lowercase hexadecimal text.
pub fn hex_encode(b: &Vec<u8>) -> (r: String)
    ensures
        r@ == hex_of(b@),
        r@.len() == 2 * b@.len(),
{
    let mut codes: Vec<u8> = Vec::new();
    let mut i: usize = 0;
    proof {
        assert(codes@ =~= hex_codes(b@.take(0)));
    }
    while i < b.len()
        invariant
            i <= b@.len(),
            codes@ =~= hex_codes(b@.take(i as int)),
        decreases b@.len() - i,
    {
        let byte = b[i];
        let hi = byte / 16;
        let lo = byte % 16;
        codes.push(if hi < 10 {
            hi + 0x30
        } else {
            hi + 0x57
        });
        codes.push(if lo < 10 {
            lo + 0x30
        } else {
            lo + 0x57
        });
        i = i + 1;
        proof {
            assert(codes@ =~= hex_codes(b@.take(i as int)));
        }
    }
    proof {
        assert(b@.take(b@.len() as int) =~= b@);
        assert forall|j: int| 0 <= j < codes@.len() implies #[trigger] codes@[j] < 128 by {
            lemma_hex_digit_code_ascii(if j % 2 == 0 {
                b@[j / 2] / 16
            } else {
                b@[j / 2] % 16
            });
        }
    }
    match bytes_to_ascii_string(codes) {
        Some(s) => s,
        None => {
            proof {
                assert(false);
            }
            String::new()
        },
    }
}

/// Decodes hexadecimal text into bytes; `None` unless the length is even and
/// every character is a digit of either case.
pub fn hex_decode(s: &str) -> (r: Option<Vec<u8>>)
    ensures
        match r {
            Some(b) => spec_hex_decode(s@) == Some(b@),
            None => spec_hex_decode(s@) is None,
        },
{
    let n = s.unicode_len();
    if n % 2 != 0 {
        return None;
    }
    let mut out: Vec<u8> = Vec::new();
    let mut i: usize = 0;
    while i < n
        invariant
            i <= n,
            i % 2 == 0,
            n == s@.len(),
            n % 2 == 0,
            out@.len() == i / 2,
            forall|j: int| #![trigger s@[j]] 0 <= j < i ==> hex_val(s@[j]) >= 0,
            forall|j: int|
                #![trigger out@[j]]
                0 <= j < i / 2 ==> out@[j] == (hex_val(s@[2 * j]) * 16 + hex_val(s@[2 * j + 1])),
        decreases n - i,
    {
        let c0 = s.get_char(i);
        let c1 = s.get_char(i + 1);
        let v0 = hex_char_val(c0);
        let v1 = hex_char_val(c1);
        if v0 < 0 || v1 < 0 {
            return None;
        }
        out.push((v0 as u8) * 16 + (v1 as u8));
        i = i + 2;
    }
    proof {
        let d = spec_hex_decode(s@).unwrap();
        assert(out@ =~= d);
    }
    Some(out)
}

/// The value of one hexadecimal digit character, or -1.
fn hex_char_val(c: char) -> (r: i8)
    ensures
        r == hex_val(c),
{
    let u = c as u32;
    if 0x30 <= u && u <= 0x39 {
        (u - 0x30) as i8
    } else if 0x61 <= u && u <= 0x66 {
        ((u - 0x61) as i8) + 10
    } else if 0x41 <= u && u <= 0x46 {
        ((u - 0x41) as i8) + 10
    } else {
        -1
    }
}

} // verus!
