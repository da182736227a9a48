//! Byte-level codecs: lowercase hex, decimal lengths, UTF-8 text, SHA-1 and
//! zlib. The last three are called through small trusted wrappers.

use std::io::Read;
use vstd::prelude::*;
use vstd::string::StringExecFnsIsAscii;
use vstd::utf8::{
    char_u32_cast, decode_utf8, encode_utf8, is_ascii_chars, is_ascii_chars_encode_utf8, valid_utf8,
};

verus! {

/// The character of a hex digit `n` (`0 <= n < 16`), lowercase.
pub open spec fn hex_digit(n: int) -> char {
    if n < 10 {
        ((n + 48) as u8) as char
    } else {
        ((n + 87) as u8) as char
    }
}

/// Two lowercase hex digits for each byte, high nibble first.
pub open spec fn hex_text(b: Seq<u8>) -> Seq<char> {
    Seq::new(
        2 * b.len(),
        |i: int|
            if i % 2 == 0 {
                hex_digit(b[i / 2] as int / 16)
            } else {
                hex_digit(b[i / 2] as int % 16)
            },
    )
}

pub open spec fn is_hex_byte(c: u8) -> bool {
    (48 <= c <= 57) || (97 <= c <= 102) || (65 <= c <= 70)
}

pub open spec fn hex_byte_value(c: u8) -> int {
    if 48 <= c <= 57 {
        c - 48
    } else if 97 <= c <= 102 {
        c - 87
    } else {
        c - 55
    }
}

/// Text that hex decoding accepts: an even number of hex digits, either case.
pub open spec fn is_hex_bytes(t: Seq<u8>) -> bool {
    &&& t.len() % 2 == 0
    &&& forall|i: int| 0 <= i < t.len() ==> is_hex_byte(#[trigger] t[i])
}

/// The bytes that hex text stands for.
pub open spec fn hex_value(t: Seq<u8>) -> Seq<u8> {
    Seq::new(
        t.len() / 2,
        |i: int| (hex_byte_value(t[2 * i]) * 16 + hex_byte_value(t[2 * i + 1])) as u8,
    )
}

pub open spec fn is_lower_hex_char(c: char) -> bool {
    ('0' <= c <= '9') || ('a' <= c <= 'f')
}

/// An object id as text: forty lowercase hex digits.
pub open spec fn is_object_id(t: Seq<char>) -> bool {
    &&& t.len() == 40
    &&& forall|i: int| 0 <= i < t.len() ==> is_lower_hex_char(#[trigger] t[i])
}

/// What SHA-1 computes of `data`.
pub uninterp spec fn sha1_of(data: Seq<u8>) -> Seq<u8>;

/// What inflating the zlib stream at the front of `data` gives: the number of
/// input bytes that the stream took and the bytes it decodes to; `None` when
/// no complete stream is there.
pub uninterp spec fn zlib_inflate(data: Seq<u8>) -> Option<(nat, Seq<u8>)>;

/// Relies on `sha1::Sha1::digest` (through `digest::Digest`): the SHA-1 of
/// `data`, a 20-byte array.
#[verifier::external_body]
pub(crate) fn sha1_digest(data: &[u8]) -> (r: Vec<u8>)
    ensures
        r@ == sha1_of(data@),
        r@.len() == 20,
{
    <sha1::Sha1 as sha1::Digest>::digest(data).to_vec()
}

/// Relies on `hex::encode`: two lowercase digits per byte, high nibble first.
#[verifier::external_body]
pub(crate) fn to_hex(data: &[u8]) -> (r: String)
    ensures
        r@ == hex_text(data@),
{
    hex::encode(data)
}

/// Relies on `hex::decode`: it fails on odd length or on a byte that is not a
/// hex digit of either case, and otherwise packs each pair of digits into a byte.
#[verifier::external_body]
pub(crate) fn from_hex(text: &[u8]) -> (r: Option<Vec<u8>>)
    ensures
        r is Some <==> is_hex_bytes(text@),
        r matches Some(b) ==> b@ == hex_value(text@),
{
    hex::decode(text).ok()
}

/// Relies on `String::from_utf8`: it accepts exactly the well-formed UTF-8
/// byte strings and keeps their characters.
#[verifier::external_body]
pub(crate) fn utf8_string(bytes: Vec<u8>) -> (r: Option<String>)
    ensures
        r is Some <==> valid_utf8(bytes@),
        r matches Some(s) ==> s@ == decode_utf8(bytes@),
{
    String::from_utf8(bytes).ok()
}

/// Relies on flate2's `bufread::ZlibDecoder` read to its end: it inflates the
/// one zlib stream at the front of `data`, ignores what follows the stream,
/// and `total_in` counts the input bytes that the stream took.
#[verifier::external_body]
pub(crate) fn zlib_decompress(data: &[u8]) -> (r: Option<(usize, Vec<u8>)>)
    ensures
        r is None <==> zlib_inflate(data@) is None,
        r matches Some((n, out)) ==> zlib_inflate(data@) == Some((n as nat, out@)) && n
            <= data@.len(),
{
    let mut decoder = flate2::bufread::ZlibDecoder::new(data);
    let mut out = Vec::new();
    match decoder.read_to_end(&mut out) {
        Ok(_) => Some((decoder.total_in() as usize, out)),
        Err(_) => None,
    }
}

/// Relies on flate2's `read::ZlibEncoder` at `Compression::fast()`: reading
/// from a slice cannot fail and its deflate path has no reachable error, and
/// its output is one complete zlib stream of `data`, so inflating it gives
/// `data` back and takes the whole stream, whatever bytes follow it (the
/// decoder stops at the stream's end).
#[verifier::external_body]
pub(crate) fn zlib_compress(data: &[u8]) -> (r: Option<Vec<u8>>)
    ensures
        r is Some,
        r matches Some(z) ==> zlib_inflate(z@) == Some((z@.len(), data@)),
        r matches Some(z) ==> forall|rest: Seq<u8>|
            #[trigger] zlib_inflate(z@ + rest) == Some((z@.len(), data@)),
{
    let mut encoder = flate2::read::ZlibEncoder::new(data, flate2::Compression::fast());
    let mut out = Vec::new();
    match encoder.read_to_end(&mut out) {
        Ok(_) => Some(out),
        Err(_) => None,
    }
}

/// The decimal digits of `n`, most significant first, as ASCII bytes.
pub open spec fn decimal(n: nat) -> Seq<u8>
    decreases n,
{
    if n < 10 {
        seq![(n + 48) as u8]
    } else {
        decimal(n / 10).push((n % 10 + 48) as u8)
    }
}

/// Appends the decimal digits of `n` to `out`.
pub fn push_decimal(n: usize, out: &mut Vec<u8>)
    ensures
        final(out)@ == old(out)@ + decimal(n as nat),
    decreases n,
{
    if n < 10 {
        out.push((n + 48) as u8);
    } else {
        push_decimal(n / 10, out);
        out.push((n % 10 + 48) as u8);
    }
}

/// Nonempty, and ASCII digits only.
pub open spec fn is_decimal(d: Seq<u8>) -> bool {
    &&& d.len() > 0
    &&& forall|i: int| 0 <= i < d.len() ==> 48 <= #[trigger] d[i] <= 57
}

/// The number that decimal digits spell, most significant first.
pub open spec fn decimal_value(d: Seq<u8>) -> nat
    decreases d.len(),
{
    if d.len() == 0 {
        0
    } else {
        decimal_value(d.drop_last()) * 10 + (d.last() - 48) as nat
    }
}

/// Reading the digits of `n` gives `n` back.
pub proof fn lemma_decimal_value(n: nat)
    ensures
        decimal_value(decimal(n)) == n,
    decreases n,
{
    let d = decimal(n);
    if n < 10 {
        assert(d.drop_last() =~= Seq::<u8>::empty());
        assert(decimal_value(d.drop_last()) == 0);
        assert(d.last() == (n + 48) as u8);
    } else {
        assert(d.drop_last() =~= decimal(n / 10));
        lemma_decimal_value(n / 10);
        assert(d.last() == (n % 10 + 48) as u8);
        assert((n / 10) * 10 + n % 10 == n);
    }
}

/// A prefix of digits spells no more than the whole.
proof fn lemma_decimal_value_prefix(d: Seq<u8>, i: int)
    requires
        0 <= i <= d.len(),
    ensures
        decimal_value(d.subrange(0, i)) <= decimal_value(d),
    decreases d.len() - i,
{
    if i == d.len() {
        assert(d.subrange(0, i) =~= d);
    } else {
        lemma_decimal_value_prefix(d.drop_last(), i);
        assert(d.drop_last().subrange(0, i) =~= d.subrange(0, i));
    }
}

/// Reads decimal digits; `None` when they are empty, hold another byte, or
/// spell a number beyond `usize`.
pub fn parse_decimal(d: &[u8]) -> (r: Option<usize>)
    ensures
        r is Some <==> is_decimal(d@) && decimal_value(d@) <= usize::MAX,
        r matches Some(v) ==> v == decimal_value(d@),
{
    if d.len() == 0 {
        return None;
    }
    let mut acc: usize = 0;
    let mut i: usize = 0;
    assert(d@.subrange(0, 0) =~= Seq::<u8>::empty());
    while i < d.len()
        invariant
            i <= d@.len(),
            acc == decimal_value(d@.subrange(0, i as int)),
            forall|j: int| 0 <= j < i ==> 48 <= #[trigger] d@[j] <= 57,
        decreases d@.len() - i,
    {
        let c = d[i];
        if c < 48 || c > 57 {
            return None;
        }
        assert(d@.subrange(0, i + 1).drop_last() =~= d@.subrange(0, i as int));
        proof {
            lemma_decimal_value_prefix(d@, i + 1);
        }
        let t = match acc.checked_mul(10) {
            Some(t) => t,
            None => {
                return None;
            },
        };
        acc = match t.checked_add((c - 48) as usize) {
            Some(a) => a,
            None => {
                return None;
            },
        };
        i = i + 1;
    }
    assert(d@.subrange(0, d@.len() as int) =~= d@);
    Some(acc)
}

/// Decimal digits are ASCII digits: none of them is a space or a NUL.
pub proof fn lemma_decimal_digits(n: nat)
    ensures
        is_decimal(decimal(n)),
        decimal(n).len() > 0,
        forall|i: int| 0 <= i < decimal(n).len() ==> 48 <= #[trigger] decimal(n)[i] <= 57,
    decreases n,
{
    if n >= 10 {
        lemma_decimal_digits(n / 10);
    }
}

/// Position of the first `b` in `s`, or `s.len()` when there is none.
pub open spec fn index_of(s: Seq<u8>, b: u8) -> nat
    decreases s.len(),
{
    if s.len() == 0 {
        0
    } else if s[0] == b {
        0
    } else {
        1 + index_of(s.drop_first(), b)
    }
}

/// `index_of` is the first occurrence: every earlier byte differs from `b`.
pub proof fn lemma_index_of(s: Seq<u8>, b: u8, i: int)
    requires
        0 <= i <= s.len(),
        forall|j: int| 0 <= j < i ==> s[j] != b,
        i < s.len() ==> s[i] == b,
    ensures
        index_of(s, b) == i,
    decreases i,
{
    if i > 0 {
        assert forall|j: int| 0 <= j < i - 1 implies s.drop_first()[j] != b by {
            assert(s.drop_first()[j] == s[j + 1]);
        }
        lemma_index_of(s.drop_first(), b, i - 1);
    }
}

/// Finds the first `b` in `s` at or after `start`; `s.len()` when there is none.
pub fn find_byte(s: &[u8], start: usize, b: u8) -> (r: usize)
    requires
        start <= s@.len(),
    ensures
        r == start + index_of(s@.subrange(start as int, s@.len() as int), b),
        start <= r <= s@.len(),
{
    let mut i = start;
    while i < s.len() && s[i] != b
        invariant
            start <= i <= s@.len(),
            forall|j: int| start <= j < i ==> s@[j] != b,
        decreases s@.len() - i,
    {
        i = i + 1;
    }
    proof {
        let t = s@.subrange(start as int, s@.len() as int);
        assert forall|j: int| 0 <= j < i - start implies t[j] != b by {
            assert(t[j] == s@[j + start]);
        }
        lemma_index_of(t, b, i - start);
    }
    i
}

/// Byte-wise equality of two slices.
pub fn bytes_equal(a: &[u8], b: &[u8]) -> (r: bool)
    ensures
        r == (a@ == b@),
{
    if a.len() != b.len() {
        return false;
    }
    let mut i: usize = 0;
    while i < a.len()
        invariant
            a@.len() == b@.len(),
            i <= a@.len(),
            forall|j: int| 0 <= j < i ==> a@[j] == b@[j],
        decreases a@.len() - i,
    {
        if a[i] != b[i] {
            return false;
        }
        i = i + 1;
    }
    assert(a@ =~= b@);
    true
}

/// A lowercase hex digit, read as a byte, reads back to the same digit.
pub proof fn lemma_hex_char(c: char)
    requires
        is_lower_hex_char(c),
    ensures
        (c as u8) as char == c,
        is_hex_byte(c as u8),
        0 <= hex_byte_value(c as u8) < 16,
        hex_digit(hex_byte_value(c as u8)) == c,
{
    char_u32_cast(c, c as u32);
    let x = c as u8;
    assert(x as u32 == c as u32);
    char_u32_cast(c, x as u32);
    if '0' <= c <= '9' {
        assert(hex_byte_value(x) == x - 48);
        assert(((x - 48 + 48) as u8) == x);
    } else {
        assert(hex_byte_value(x) == x - 87);
        assert(((x - 87 + 87) as u8) == x);
    }
}

/// An object id is ASCII; its bytes are valid hex of twenty bytes, which
/// hex-encode back to the id.
pub proof fn lemma_object_id_hex(h: Seq<char>)
    requires
        is_object_id(h),
    ensures
        is_ascii_chars(h),
        is_hex_bytes(encode_utf8(h)),
        hex_value(encode_utf8(h)).len() == 20,
        hex_text(hex_value(encode_utf8(h))) == h,
{
    assert forall|i: int| 0 <= i < h.len() implies '\0' <= #[trigger] h[i] <= '\u{7f}' by {
        assert(is_lower_hex_char(h[i]));
    }
    assert(is_ascii_chars(h));
    is_ascii_chars_encode_utf8(h);
    let b = encode_utf8(h);
    assert forall|i: int| 0 <= i < b.len() implies is_hex_byte(#[trigger] b[i]) by {
        assert(is_lower_hex_char(h[i]));
        lemma_hex_char(h[i]);
        assert(b[i] == h[i] as u8);
    }
    let v = hex_value(b);
    assert forall|i: int| 0 <= i < h.len() implies #[trigger] hex_text(v)[i] == h[i] by {
        let j = i / 2;
        assert(is_lower_hex_char(h[2 * j]));
        assert(is_lower_hex_char(h[2 * j + 1]));
        lemma_hex_char(h[2 * j]);
        lemma_hex_char(h[2 * j + 1]);
        assert(b[2 * j] == h[2 * j] as u8);
        assert(b[2 * j + 1] == h[2 * j + 1] as u8);
        let hi = hex_byte_value(b[2 * j]);
        let lo = hex_byte_value(b[2 * j + 1]);
        assert(v[j] == (hi * 16 + lo) as u8);
        assert((hi * 16 + lo) / 16 == hi && (hi * 16 + lo) % 16 == lo) by (nonlinear_arith)
            requires
                0 <= hi < 16,
                0 <= lo < 16,
        ;
        if i % 2 == 0 {
            assert(i == 2 * j);
        } else {
            assert(i == 2 * j + 1);
        }
    }
    assert(hex_text(v) =~= h);
}

/// An ASCII character and its byte stand for each other.
proof fn lemma_ascii_char(c: char)
    requires
        c <= '\u{7f}',
    ensures
        (c as u8) as char == c,
        (c as u8) as u32 == c as u32,
{
    char_u32_cast(c, c as u32);
    let x = c as u8;
    assert(x as u32 == c as u32);
    char_u32_cast(c, x as u32);
}

/// Checks that `s` is an object id: forty lowercase hex digits.
pub fn is_id_text(s: &String) -> (r: bool)
    ensures
        r == is_object_id(s@),
{
    if !s.is_ascii() {
        assert(!is_object_id(s@)) by {
            if is_object_id(s@) {
                assert forall|i: int| 0 <= i < s@.len() implies '\0' <= #[trigger] s@[i]
                    <= '\u{7f}' by {
                    assert(is_lower_hex_char(s@[i]));
                }
            }
        }
        return false;
    }
    let b = s.as_str().as_bytes();
    proof {
        is_ascii_chars_encode_utf8(s@);
    }
    assert(b@ == encode_utf8(s@));
    if b.len() != 40 {
        return false;
    }
    let mut i: usize = 0;
    while i < b.len()
        invariant
            i <= b@.len(),
            b@.len() == s@.len() == 40,
            is_ascii_chars(s@),
            forall|j: int| 0 <= j < b@.len() ==> s@[j] as u8 == #[trigger] b@[j],
            forall|j: int| 0 <= j < i ==> is_lower_hex_char(#[trigger] s@[j]),
        decreases b@.len() - i,
    {
        let c = b[i];
        proof {
            assert(s@[i as int] <= '\u{7f}');
            lemma_ascii_char(s@[i as int]);
        }
        if !((48u8 <= c && c <= 57u8) || (97u8 <= c && c <= 102u8)) {
            assert(!is_lower_hex_char(s@[i as int]));
            return false;
        }
        i = i + 1;
    }
    true
}

} // verus!
