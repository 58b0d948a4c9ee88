//! Canonical binary encoding used for block headers, transactions and stored
//! values: integers in little-endian fixed width, byte strings and text
//! prefixed by their length as a 64-bit unsigned integer, records as the
//! concatenation of their fields in declaration order. Block hashes and
//! transaction ids are computed over this encoding, so it is part of the
//! library's external contract.
use vstd::prelude::*;

verus! {

/// A sequence of characters that all lie in the ASCII range.
pub open spec fn ascii_chars(s: Seq<char>) -> bool {
    forall|i: int| #![trigger s[i]] 0 <= i < s.len() ==> (s[i] as u32) < 128
}

/// The bytes of an ASCII character sequence, one byte per character.
pub open spec fn str_bytes(s: Seq<char>) -> Seq<u8> {
    Seq::new(s.len(), |i: int| s[i] as u8)
}

/// The characters of a byte sequence, one character per byte.
pub open spec fn chars_of_bytes(s: Seq<u8>) -> Seq<char> {
    Seq::new(s.len(), |i: int| s[i] as char)
}

/// All bytes below 128.
pub open spec fn ascii_bytes(s: Seq<u8>) -> bool {
    forall|i: int| #![trigger s[i]] 0 <= i < s.len() ==> s[i] < 128
}

/// Facts about an ASCII character, made available through a call so that the
/// character's validity invariant is in scope.
pub proof fn lemma_ascii_char(c: char)
    requires
        (c as u32) < 128,
    ensures
        (c as u8) < 128,
        ((c as u8) as char) == c,
        '\0' <= c <= '\u{7f}',
{
}

/// An ASCII-range bound on a character, carried from the character ordering
/// to its numeric value.
pub proof fn lemma_char_in_ascii(c: char)
    requires
        '\0' <= c <= '\u{7f}',
    ensures
        (c as u32) < 128,
{
}

/// The library's numeric ASCII bound implies vstd's character-ordering one.
pub proof fn lemma_ascii_chars_is_ascii(s: Seq<char>)
    requires
        ascii_chars(s),
    ensures
        vstd::utf8::is_ascii_chars(s),
{
    assert forall|i: int| 0 <= i < s.len() implies '\0' <= #[trigger] s[i] <= '\u{7f}' by {
        lemma_ascii_char(s[i]);
    }
}

/// Facts about a byte below 128 viewed as a character.
pub proof fn lemma_ascii_byte(b: u8)
    requires
        b < 128,
    ensures
        ((b as char) as u8) == b,
        ((b as char) as u32) == b,
{
}

pub proof fn lemma_str_bytes_of_ascii(s: Seq<u8>)
    requires
        ascii_bytes(s),
    ensures
        ascii_chars(chars_of_bytes(s)),
        str_bytes(chars_of_bytes(s)) =~= s,
{
    assert forall|i: int| 0 <= i < s.len() implies (#[trigger] chars_of_bytes(s)[i] as u32)
        < 128 by {
        lemma_ascii_byte(s[i]);
    }
    assert forall|i: int| 0 <= i < s.len() implies #[trigger] str_bytes(chars_of_bytes(s))[i] == s[
        i as int] by {
        lemma_ascii_byte(s[i]);
    }
}

pub proof fn lemma_chars_of_str_bytes(s: Seq<char>)
    requires
        ascii_chars(s),
    ensures
        ascii_bytes(str_bytes(s)),
        chars_of_bytes(str_bytes(s)) =~= s,
{
    assert forall|i: int| 0 <= i < s.len() implies #[trigger] str_bytes(s)[i] < 128 by {
        lemma_ascii_char(s[i]);
    }
    assert forall|i: int| 0 <= i < s.len() implies #[trigger] chars_of_bytes(str_bytes(s))[i]
        == s[i] by {
        lemma_ascii_char(s[i]);
    }
}

/// Little-endian bytes of a 32-bit unsigned integer.
pub open spec fn u32_le(x: u32) -> Seq<u8> {
    seq![x as u8, (x >> 8) as u8, (x >> 16) as u8, (x >> 24) as u8]
}

/// Little-endian bytes of a 64-bit unsigned integer.
pub open spec fn u64_le(x: u64) -> Seq<u8> {
    seq![
        x as u8,
        (x >> 8) as u8,
        (x >> 16) as u8,
        (x >> 24) as u8,
        (x >> 32) as u8,
        (x >> 40) as u8,
        (x >> 48) as u8,
        (x >> 56) as u8,
    ]
}

/// Little-endian bytes of a 128-bit unsigned integer.
pub open spec fn u128_le(x: u128) -> Seq<u8> {
    seq![
        x as u8,
        (x >> 8) as u8,
        (x >> 16) as u8,
        (x >> 24) as u8,
        (x >> 32) as u8,
        (x >> 40) as u8,
        (x >> 48) as u8,
        (x >> 56) as u8,
        (x >> 64) as u8,
        (x >> 72) as u8,
        (x >> 80) as u8,
        (x >> 88) as u8,
        (x >> 96) as u8,
        (x >> 104) as u8,
        (x >> 112) as u8,
        (x >> 120) as u8,
    ]
}

/// Little-endian bytes of a 32-bit signed integer (two's complement).
pub open spec fn i32_le(x: i32) -> Seq<u8> {
    u32_le(x as u32)
}

/// A byte string prefixed by its length as a 64-bit little-endian integer.
pub open spec fn len_prefixed(b: Seq<u8>) -> Seq<u8> {
    u64_le(b.len() as u64) + b
}

/// An ASCII string in the encoding: its bytes, length-prefixed.
pub open spec fn ser_string(s: Seq<char>) -> Seq<u8> {
    len_prefixed(str_bytes(s))
}

/// The 32-bit unsigned integer read from four little-endian bytes.
pub open spec fn le32(s: Seq<u8>) -> u32 {
    (s[0] as u32) | (s[1] as u32) << 8 | (s[2] as u32) << 16 | (s[3] as u32) << 24
}

/// The 64-bit unsigned integer read from eight little-endian bytes.
pub open spec fn le64(s: Seq<u8>) -> u64 {
    (s[0] as u64) | (s[1] as u64) << 8 | (s[2] as u64) << 16 | (s[3] as u64) << 24 | (
    s[4] as u64) << 32 | (s[5] as u64) << 40 | (s[6] as u64) << 48 | (s[7] as u64) << 56
}

/// The 128-bit unsigned integer read from sixteen little-endian bytes.
pub open spec fn le128(s: Seq<u8>) -> u128 {
    (s[0] as u128) | (s[1] as u128) << 8 | (s[2] as u128) << 16 | (s[3] as u128) << 24 | (
    s[4] as u128) << 32 | (s[5] as u128) << 40 | (s[6] as u128) << 48 | (s[7] as u128) << 56 | (
    s[8] as u128) << 64 | (s[9] as u128) << 72 | (s[10] as u128) << 80 | (s[11] as u128) << 88 | (
    s[12] as u128) << 96 | (s[13] as u128) << 104 | (s[14] as u128) << 112 | (s[15] as u128) << 120
}

pub proof fn lemma_le32_of_u32_le(x: u32)
    ensures
        le32(u32_le(x)) == x,
{
    assert((x as u8 as u32) | ((x >> 8) as u8 as u32) << 8 | ((x >> 16) as u8 as u32) << 16 | ((x
        >> 24) as u8 as u32) << 24 == x) by (bit_vector);
}

pub proof fn lemma_le64_of_u64_le(x: u64)
    ensures
        le64(u64_le(x)) == x,
{
    assert((x as u8 as u64) | ((x >> 8) as u8 as u64) << 8 | ((x >> 16) as u8 as u64) << 16 | ((x
        >> 24) as u8 as u64) << 24 | ((x >> 32) as u8 as u64) << 32 | ((x >> 40) as u8 as u64) << 40
        | ((x >> 48) as u8 as u64) << 48 | ((x >> 56) as u8 as u64) << 56 == x) by (bit_vector);
}

pub proof fn lemma_le128_of_u128_le(x: u128)
    ensures
        le128(u128_le(x)) == x,
{
    assert((x as u8 as u128) | ((x >> 8) as u8 as u128) << 8 | ((x >> 16) as u8 as u128) << 16 | ((x
        >> 24) as u8 as u128) << 24 | ((x >> 32) as u8 as u128) << 32 | ((x >> 40) as u8 as u128)
        << 40 | ((x >> 48) as u8 as u128) << 48 | ((x >> 56) as u8 as u128) << 56 | ((x
        >> 64) as u8 as u128) << 64 | ((x >> 72) as u8 as u128) << 72 | ((x >> 80) as u8 as u128)
        << 80 | ((x >> 88) as u8 as u128) << 88 | ((x >> 96) as u8 as u128) << 96 | ((x
        >> 104) as u8 as u128) << 104 | ((x >> 112) as u8 as u128) << 112 | ((x
        >> 120) as u8 as u128) << 120 == x) by (bit_vector);
}

pub proof fn lemma_i32_le_inverse(x: i32)
    ensures
        le32(i32_le(x)) as i32 == x,
{
    lemma_le32_of_u32_le(x as u32);
    assert(x as u32 as i32 == x) by (bit_vector);
}

/// Appends the little-endian bytes of `x`.
pub fn push_u32_le(out: &mut Vec<u8>, x: u32)
    ensures
        final(out)@ == old(out)@ + u32_le(x),
{
    out.push(x as u8);
    out.push((x >> 8) as u8);
    out.push((x >> 16) as u8);
    out.push((x >> 24) as u8);
    proof {
        assert(out@ =~= old(out)@ + u32_le(x));
    }
}

/// Appends the little-endian bytes of `x`.
pub fn push_u64_le(out: &mut Vec<u8>, x: u64)
    ensures
        final(out)@ == old(out)@ + u64_le(x),
{
    out.push(x as u8);
    out.push((x >> 8) as u8);
    out.push((x >> 16) as u8);
    out.push((x >> 24) as u8);
    out.push((x >> 32) as u8);
    out.push((x >> 40) as u8);
    out.push((x >> 48) as u8);
    out.push((x >> 56) as u8);
    proof {
        assert(out@ =~= old(out)@ + u64_le(x));
    }
}

/// Appends the little-endian bytes of `x`.
pub fn push_u128_le(out: &mut Vec<u8>, x: u128)
    ensures
        final(out)@ == old(out)@ + u128_le(x),
{
    out.push(x as u8);
    out.push((x >> 8) as u8);
    out.push((x >> 16) as u8);
    out.push((x >> 24) as u8);
    out.push((x >> 32) as u8);
    out.push((x >> 40) as u8);
    out.push((x >> 48) as u8);
    out.push((x >> 56) as u8);
    out.push((x >> 64) as u8);
    out.push((x >> 72) as u8);
    out.push((x >> 80) as u8);
    out.push((x >> 88) as u8);
    out.push((x >> 96) as u8);
    out.push((x >> 104) as u8);
    out.push((x >> 112) as u8);
    out.push((x >> 120) as u8);
    proof {
        assert(out@ =~= old(out)@ + u128_le(x));
    }
}

/// Appends the little-endian bytes of `x` (two's complement).
pub fn push_i32_le(out: &mut Vec<u8>, x: i32)
    ensures
        final(out)@ == old(out)@ + i32_le(x),
{
    push_u32_le(out, x as u32);
}

/// Appends the bytes of `src`.
pub fn push_bytes(out: &mut Vec<u8>, src: &[u8])
    ensures
        final(out)@ == old(out)@ + src@,
{
    let mut i: usize = 0;
    proof {
        assert(out@ =~= old(out)@ + src@.take(0));
    }
    while i < src.len()
        invariant
            i <= src@.len(),
            out@ == old(out)@ + src@.take(i as int),
        decreases src@.len() - i,
    {
        out.push(src[i]);
        i = i + 1;
        proof {
            assert(out@ =~= old(out)@ + src@.take(i as int));
        }
    }
    proof {
        assert(out@ =~= old(out)@ + src@);
    }
}

/// Appends a length-prefixed byte string.
pub fn push_len_bytes(out: &mut Vec<u8>, src: &[u8])
    ensures
        final(out)@ == old(out)@ + len_prefixed(src@),
{
    push_u64_le(out, src.len() as u64);
    push_bytes(out, src);
    proof {
        assert(out@ =~= old(out)@ + len_prefixed(src@));
    }
}

/// Appends a length-prefixed ASCII string.
pub fn push_string(out: &mut Vec<u8>, s: &str)
    requires
        ascii_chars(s@),
    ensures
        final(out)@ == old(out)@ + ser_string(s@),
{
    proof {
        broadcast use vstd::string::is_ascii_spec_bytes;

        assert forall|i: int| 0 <= i < s@.len() implies '\0' <= #[trigger] s@[i] <= '\u{7f}' by {
            lemma_ascii_char(s@[i]);
        }
        assert(vstd::string::is_ascii(s));
    }
    let bytes = s.as_bytes();
    proof {
        assert(bytes@ =~= str_bytes(s@));
    }
    push_len_bytes(out, bytes);
}

/// Builds a `String` from bytes that are all in the ASCII range.
///
/// Relies on `String::from_utf8`: every byte below 128 is a one-byte UTF-8
/// sequence denoting the character of the same value, so the conversion
/// succeeds and maps each byte to that character.
#[verifier::external_body]
fn ascii_to_string(v: Vec<u8>) -> (r: String)
    requires
        ascii_bytes(v@),
    ensures
        r@ == chars_of_bytes(v@),
{
    String::from_utf8(v).unwrap()
}

/// Builds a `String` from ASCII bytes, checking the range at run time.
pub fn bytes_to_ascii_string(v: Vec<u8>) -> (r: Option<String>)
    ensures
        match r {
            Some(s) => ascii_bytes(v@) && s@ == chars_of_bytes(v@) && ascii_chars(s@),
            None => !ascii_bytes(v@),
        },
{
    let mut i: usize = 0;
    while i < v.len()
        invariant
            i <= v@.len(),
            forall|j: int| 0 <= j < i ==> #[trigger] v@[j] < 128,
        decreases v@.len() - i,
    {
        if v[i] >= 128 {
            return None;
        }
        i = i + 1;
    }
    proof {
        lemma_str_bytes_of_ascii(v@);
    }
    Some(ascii_to_string(v))
}

/// Compares two strings by value.
pub fn string_eq(a: &String, b: &String) -> (r: bool)
    ensures
        r == (a@ == b@),
{
    a.eq(b)
}

/// Compares two byte slices by value.
pub fn slices_eq(a: &[u8], b: &[u8]) -> (r: bool)
    ensures
        r == (a@ == b@),
{
    if a.len() != b.len() {
        return false;
    }
    let mut i: usize = 0;
    while i < a.len()
        invariant
            i <= a@.len(),
            a@.len() == b@.len(),
            forall|j: int| 0 <= j < i ==> a@[j] == b@[j],
        decreases a@.len() - i,
    {
        if a[i] != b[i] {
            return false;
        }
        i = i + 1;
    }
    proof {
        assert(a@ =~= b@);
    }
    true
}

/// The bytes of an ASCII string, one byte per character.
pub fn string_ascii_bytes(s: &String) -> (r: Vec<u8>)
    requires
        ascii_chars(s@),
    ensures
        r@ == str_bytes(s@),
{
    let ss = s.as_str();
    proof {
        broadcast use vstd::string::is_ascii_spec_bytes;

        assert forall|i: int| 0 <= i < ss@.len() implies '\0' <= #[trigger] ss@[i] <= '\u{7f}' by {
            lemma_ascii_char(ss@[i]);
        }
        assert(vstd::string::is_ascii(ss));
    }
    let r = vstd::string::StrSliceExecFns::as_bytes_vec(ss);
    proof {
        assert(r@ =~= str_bytes(s@));
    }
    r
}

/// Concatenation of byte strings is associative.
pub proof fn lemma_concat_assoc(a: Seq<u8>, b: Seq<u8>, c: Seq<u8>)
    ensures
        (a + b) + c == a + (b + c),
{
    assert((a + b) + c =~= a + (b + c));
}

/// Reassociates an eight-part concatenation from the left-nested form the
/// serialisers build to the right-nested form the parsers consume.
pub proof fn lemma_reassoc8(
    a1: Seq<u8>,
    a2: Seq<u8>,
    a3: Seq<u8>,
    a4: Seq<u8>,
    a5: Seq<u8>,
    a6: Seq<u8>,
    a7: Seq<u8>,
    a8: Seq<u8>,
)
    ensures
        a1 + a2 + a3 + a4 + a5 + a6 + a7 + a8 == a1 + (a2 + (a3 + (a4 + (a5 + (a6 + (a7 + a8)))))),
{
    assert(a1 + a2 + a3 + a4 + a5 + a6 + a7 + a8 =~= a1 + (a2 + (a3 + (a4 + (a5 + (a6 + (a7
        + a8)))))));
}

// ---------------------------------------------------------------------------
// Parsing. Each spec parser consumes a prefix of the input and returns the
// parsed value together with what is left, or `None` if the input does not
// start with a well-formed encoding.
// ---------------------------------------------------------------------------
/// Parses a 32-bit little-endian integer.
pub open spec fn sp_u32(s: Seq<u8>) -> Option<(u32, Seq<u8>)> {
    if s.len() >= 4 {
        Some((le32(s.take(4)), s.skip(4)))
    } else {
        None
    }
}

/// Parses a 64-bit little-endian integer.
pub open spec fn sp_u64(s: Seq<u8>) -> Option<(u64, Seq<u8>)> {
    if s.len() >= 8 {
        Some((le64(s.take(8)), s.skip(8)))
    } else {
        None
    }
}

/// Parses a 128-bit little-endian integer.
pub open spec fn sp_u128(s: Seq<u8>) -> Option<(u128, Seq<u8>)> {
    if s.len() >= 16 {
        Some((le128(s.take(16)), s.skip(16)))
    } else {
        None
    }
}

/// Parses a 32-bit little-endian signed integer.
pub open spec fn sp_i32(s: Seq<u8>) -> Option<(i32, Seq<u8>)> {
    match sp_u32(s) {
        Some((x, rest)) => Some((x as i32, rest)),
        None => None,
    }
}

/// Parses a length-prefixed byte string.
pub open spec fn sp_bytes(s: Seq<u8>) -> Option<(Seq<u8>, Seq<u8>)> {
    match sp_u64(s) {
        Some((n, rest)) => if rest.len() >= n {
            Some((rest.take(n as int), rest.skip(n as int)))
        } else {
            None
        },
        None => None,
    }
}

/// Parses a length-prefixed ASCII string.
pub open spec fn sp_string(s: Seq<u8>) -> Option<(Seq<char>, Seq<u8>)> {
    match sp_bytes(s) {
        Some((b, rest)) => if ascii_bytes(b) {
            Some((chars_of_bytes(b), rest))
        } else {
            None
        },
        None => None,
    }
}

pub proof fn lemma_sp_u32_inverse(x: u32, tail: Seq<u8>)
    ensures
        sp_u32(u32_le(x) + tail) == Some((x, tail)),
{
    let s = u32_le(x) + tail;
    assert(s.take(4) =~= u32_le(x));
    assert(s.skip(4) =~= tail);
    lemma_le32_of_u32_le(x);
}

pub proof fn lemma_sp_u64_inverse(x: u64, tail: Seq<u8>)
    ensures
        sp_u64(u64_le(x) + tail) == Some((x, tail)),
{
    let s = u64_le(x) + tail;
    assert(s.take(8) =~= u64_le(x));
    assert(s.skip(8) =~= tail);
    lemma_le64_of_u64_le(x);
}

pub proof fn lemma_sp_u128_inverse(x: u128, tail: Seq<u8>)
    ensures
        sp_u128(u128_le(x) + tail) == Some((x, tail)),
{
    let s = u128_le(x) + tail;
    assert(s.take(16) =~= u128_le(x));
    assert(s.skip(16) =~= tail);
    lemma_le128_of_u128_le(x);
}

pub proof fn lemma_sp_i32_inverse(x: i32, tail: Seq<u8>)
    ensures
        sp_i32(i32_le(x) + tail) == Some((x, tail)),
{
    lemma_sp_u32_inverse(x as u32, tail);
    assert(x as u32 as i32 == x) by (bit_vector);
}

pub proof fn lemma_sp_bytes_inverse(b: Seq<u8>, tail: Seq<u8>)
    requires
        b.len() < 0x1_0000_0000_0000_0000,
    ensures
        sp_bytes(len_prefixed(b) + tail) == Some((b, tail)),
{
    let s = len_prefixed(b) + tail;
    assert(u64_le(b.len() as u64) + (b + tail) =~= s);
    lemma_sp_u64_inverse(b.len() as u64, b + tail);
    let rest = (b + tail);
    assert(rest.take(b.len() as int) =~= b);
    assert(rest.skip(b.len() as int) =~= tail);
}

pub proof fn lemma_sp_string_inverse(c: Seq<char>, tail: Seq<u8>)
    requires
        ascii_chars(c),
        c.len() < 0x1_0000_0000_0000_0000,
    ensures
        sp_string(ser_string(c) + tail) == Some((c, tail)),
{
    lemma_sp_bytes_inverse(str_bytes(c), tail);
    lemma_chars_of_str_bytes(c);
}

// ---------------------------------------------------------------------------
// Executable parsers over a byte vector and a moving position.
// ---------------------------------------------------------------------------
/// What is left of `data` at position `pos`.
pub open spec fn rem(data: Seq<u8>, pos: int) -> Seq<u8> {
    data.skip(pos)
}

/// Reads a 32-bit little-endian integer at `*pos`, advancing it.
pub fn read_u32_le(data: &Vec<u8>, pos: &mut usize) -> (r: Option<u32>)
    requires
        *old(pos) <= data@.len(),
    ensures
        *final(pos) <= data@.len(),
        match r {
            Some(x) => sp_u32(rem(data@, *old(pos) as int)) == Some(
                (x, rem(data@, *final(pos) as int)),
            ),
            None => sp_u32(rem(data@, *old(pos) as int)) is None && *final(pos) == *old(pos),
        },
{
    let start = *pos;
    if data.len() - start < 4 {
        return None;
    }
    let ghost s = rem(data@, start as int);
    let x = (data[start] as u32) | (data[start + 1] as u32) << 8 | (data[start + 2] as u32) << 16
        | (data[start + 3] as u32) << 24;
    *pos = start + 4;
    proof {
        assert(s.take(4) =~= seq![
            data@[start as int],
            data@[start as int + 1],
            data@[start as int + 2],
            data@[start as int + 3],
        ]);
        assert(s.skip(4) =~= rem(data@, start as int + 4));
    }
    Some(x)
}

/// Reads a 64-bit little-endian integer at `*pos`, advancing it.
pub fn read_u64_le(data: &Vec<u8>, pos: &mut usize) -> (r: Option<u64>)
    requires
        *old(pos) <= data@.len(),
    ensures
        *final(pos) <= data@.len(),
        match r {
            Some(x) => sp_u64(rem(data@, *old(pos) as int)) == Some(
                (x, rem(data@, *final(pos) as int)),
            ),
            None => sp_u64(rem(data@, *old(pos) as int)) is None && *final(pos) == *old(pos),
        },
{
    let start = *pos;
    if data.len() - start < 8 {
        return None;
    }
    let ghost s = rem(data@, start as int);
    let x = (data[start] as u64) | (data[start + 1] as u64) << 8 | (data[start + 2] as u64) << 16
        | (data[start + 3] as u64) << 24 | (data[start + 4] as u64) << 32 | (data[start
        + 5] as u64) << 40 | (data[start + 6] as u64) << 48 | (data[start + 7] as u64) << 56;
    *pos = start + 8;
    proof {
        assert(s.take(8) =~= seq![
            data@[start as int],
            data@[start as int + 1],
            data@[start as int + 2],
            data@[start as int + 3],
            data@[start as int + 4],
            data@[start as int + 5],
            data@[start as int + 6],
            data@[start as int + 7],
        ]);
        assert(s.skip(8) =~= rem(data@, start as int + 8));
    }
    Some(x)
}

/// Reads a 128-bit little-endian integer at `*pos`, advancing it.
pub fn read_u128_le(data: &Vec<u8>, pos: &mut usize) -> (r: Option<u128>)
    requires
        *old(pos) <= data@.len(),
    ensures
        *final(pos) <= data@.len(),
        match r {
            Some(x) => sp_u128(rem(data@, *old(pos) as int)) == Some(
                (x, rem(data@, *final(pos) as int)),
            ),
            None => sp_u128(rem(data@, *old(pos) as int)) is None && *final(pos) == *old(pos),
        },
{
    let start = *pos;
    if data.len() - start < 16 {
        return None;
    }
    let ghost s = rem(data@, start as int);
    let x = (data[start] as u128) | (data[start + 1] as u128) << 8 | (data[start + 2] as u128)
        << 16 | (data[start + 3] as u128) << 24 | (data[start + 4] as u128) << 32 | (data[start
        + 5] as u128) << 40 | (data[start + 6] as u128) << 48 | (data[start + 7] as u128) << 56 | (
    data[start + 8] as u128) << 64 | (data[start + 9] as u128) << 72 | (data[start + 10] as u128)
        << 80 | (data[start + 11] as u128) << 88 | (data[start + 12] as u128) << 96 | (data[start
        + 13] as u128) << 104 | (data[start + 14] as u128) << 112 | (data[start + 15] as u128)
        << 120;
    *pos = start + 16;
    proof {
        assert(s.take(16) =~= seq![
            data@[start as int],
            data@[start as int + 1],
            data@[start as int + 2],
            data@[start as int + 3],
            data@[start as int + 4],
            data@[start as int + 5],
            data@[start as int + 6],
            data@[start as int + 7],
            data@[start as int + 8],
            data@[start as int + 9],
            data@[start as int + 10],
            data@[start as int + 11],
            data@[start as int + 12],
            data@[start as int + 13],
            data@[start as int + 14],
            data@[start as int + 15],
        ]);
        assert(s.skip(16) =~= rem(data@, start as int + 16));
    }
    Some(x)
}

/// Reads a 32-bit little-endian signed integer at `*pos`, advancing it.
pub fn read_i32_le(data: &Vec<u8>, pos: &mut usize) -> (r: Option<i32>)
    requires
        *old(pos) <= data@.len(),
    ensures
        *final(pos) <= data@.len(),
        match r {
            Some(x) => sp_i32(rem(data@, *old(pos) as int)) == Some(
                (x, rem(data@, *final(pos) as int)),
            ),
            None => sp_i32(rem(data@, *old(pos) as int)) is None && *final(pos) == *old(pos),
        },
{
    match read_u32_le(data, pos) {
        Some(x) => Some(x as i32),
        None => None,
    }
}

/// Reads a length-prefixed byte string at `*pos`, advancing it.
pub fn read_len_bytes(data: &Vec<u8>, pos: &mut usize) -> (r: Option<Vec<u8>>)
    requires
        *old(pos) <= data@.len(),
    ensures
        *final(pos) <= data@.len(),
        match r {
            Some(b) => sp_bytes(rem(data@, *old(pos) as int)) == Some(
                (b@, rem(data@, *final(pos) as int)),
            ),
            None => sp_bytes(rem(data@, *old(pos) as int)) is None && *final(pos) == *old(pos),
        },
{
    let p0 = *pos;
    let n = match read_u64_le(data, pos) {
        Some(n) => n,
        None => {
            return None;
        },
    };
    let start = *pos;
    if ((data.len() - start) as u64) < n {
        *pos = p0;
        return None;
    }
    let n_us = n as usize;
    proof {
        assert(n_us == n);
    }
    let mut out: Vec<u8> = Vec::new();
    let mut i: usize = 0;
    proof {
        assert(out@ =~= rem(data@, start as int).take(0));
    }
    while i < n_us
        invariant
            i <= n_us,
            start + n_us <= data@.len(),
            start + n_us <= usize::MAX,
            out@ =~= rem(data@, start as int).take(i as int),
        decreases n_us - i,
    {
        out.push(data[start + i]);
        i = i + 1;
        proof {
            assert(out@ =~= rem(data@, start as int).take(i as int));
        }
    }
    *pos = start + n_us;
    proof {
        assert(out@ =~= rem(data@, start as int).take(n as int));
        assert(rem(data@, start as int).skip(n as int) =~= rem(data@, start as int + n));
    }
    Some(out)
}

/// Reads a length-prefixed ASCII string at `*pos`, advancing it.
pub fn read_string(data: &Vec<u8>, pos: &mut usize) -> (r: Option<String>)
    requires
        *old(pos) <= data@.len(),
    ensures
        *final(pos) <= data@.len(),
        match r {
            Some(s) => sp_string(rem(data@, *old(pos) as int)) == Some(
                (s@, rem(data@, *final(pos) as int)),
            ) && ascii_chars(s@),
            None => sp_string(rem(data@, *old(pos) as int)) is None && *final(pos) == *old(pos),
        },
{
    let p0 = *pos;
    let b = match read_len_bytes(data, pos) {
        Some(b) => b,
        None => {
            return None;
        },
    };
    match bytes_to_ascii_string(b) {
        Some(s) => Some(s),
        None => {
            *pos = p0;
            None
        },
    }
}

} // verus!

