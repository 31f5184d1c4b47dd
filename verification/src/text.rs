//! Byte-string helpers shared by the parsers and renderers: ASCII views,
//! case-insensitive comparison, decimal and hexadecimal rendering.

use vstd::prelude::*;
use vstd::string::StringSliceAdditionalSpecFns;
use vstd::utf8::*;

verus! {

broadcast use vstd::string::axiom_spec_iter, vstd::string::next_postcondition;

/// The characters of an ASCII byte string, one per byte.
pub open spec fn ascii_chars(b: Seq<u8>) -> Seq<char> {
    Seq::new(b.len(), |i: int| b[i] as char)
}

/// Every byte is below 0x80.
pub open spec fn is_ascii_bytes(b: Seq<u8>) -> bool {
    forall|i: int| 0 <= i < b.len() ==> #[trigger] b[i] < 0x80
}

/// ASCII lowercase of one byte; other bytes are unchanged.
pub open spec fn ascii_lower(b: u8) -> u8 {
    if 0x41 <= b <= 0x5a {
        (b + 32) as u8
    } else {
        b
    }
}

/// Equal up to ASCII case, byte for byte.
pub open spec fn eq_ignore_ascii_case(a: Seq<u8>, b: Seq<u8>) -> bool {
    &&& a.len() == b.len()
    &&& forall|i: int| 0 <= i < a.len() ==> #[trigger] ascii_lower(a[i]) == ascii_lower(b[i])
}

/// Decimal digits of `n`, most significant first, without leading zeros.
pub open spec fn decimal(n: nat) -> Seq<u8>
    decreases n,
{
    if n < 10 {
        seq![(0x30 + n) as u8]
    } else {
        decimal(n / 10).push((0x30 + n % 10) as u8)
    }
}

/// Lowercase hexadecimal digit for a value below 16.
pub open spec fn hex_digit(x: int) -> u8 {
    if x < 10 {
        (0x30 + x) as u8
    } else {
        (0x61 + x - 10) as u8
    }
}

/// Two lowercase hexadecimal digits per byte.
pub open spec fn hex_lower(b: Seq<u8>) -> Seq<u8> {
    Seq::new(
        2 * b.len(),
        |i: int|
            if i % 2 == 0 {
                hex_digit(b[i / 2] as int / 16)
            } else {
                hex_digit(b[i / 2] as int % 16)
            },
    )
}

/// The decimal digits of a number are ASCII, and there is at least one.
pub proof fn lemma_decimal_ascii(n: nat)
    ensures
        is_ascii_bytes(decimal(n)),
        decimal(n).len() > 0,
    decreases n,
{
    if n >= 10 {
        lemma_decimal_ascii(n / 10);
    }
}

/// Hex digits are ASCII, two per byte.
pub proof fn lemma_hex_lower_ascii(b: Seq<u8>)
    ensures
        is_ascii_bytes(hex_lower(b)),
        hex_lower(b).len() == 2 * b.len(),
{
    assert forall|i: int| 0 <= i < hex_lower(b).len() implies #[trigger] hex_lower(b)[i] < 0x80 by {
        let x = if i % 2 == 0 {
            b[i / 2] as int / 16
        } else {
            b[i / 2] as int % 16
        };
        assert(0 <= x < 16);
    }
}

/// `core::str::from_utf8`: the bytes as a string slice when they are valid
/// UTF-8. The contract states std's documented behaviour over vstd's
/// definition of UTF-8 validity: `Some` exactly for valid UTF-8, and then the
/// slice's bytes are the input bytes.
#[verifier::external_body]
pub(crate) fn utf8_str(bytes: &[u8]) -> (r: Option<&str>)
    ensures
        r is Some <==> valid_utf8(bytes@),
        r matches Some(s) ==> s.spec_bytes() == bytes@,
{
    core::str::from_utf8(bytes).ok()
}

pub proof fn lemma_ascii_valid_utf8(b: Seq<u8>)
    requires
        forall|i: int| 0 <= i < b.len() ==> b[i] < 0x80,
    ensures
        valid_utf8(b),
    decreases b.len(),
{
    if b.len() != 0 {
        let b0 = b[0];
        assert((b0 & 0x7F) as u32 <= 0x7F) by (bit_vector);
        let rest = b.subrange(1, b.len() as int);
        assert forall|i: int| 0 <= i < rest.len() implies rest[i] < 0x80 by {
            assert(rest[i] == b[i + 1]);
        }
        lemma_ascii_valid_utf8(rest);
        assert(pop_first_scalar(b) =~= rest);
    }
}

pub proof fn lemma_ascii_decode(cs: Seq<char>, b: Seq<u8>)
    requires
        encode_utf8(cs) == b,
        forall|i: int| 0 <= i < b.len() ==> b[i] < 0x80,
    ensures
        cs == ascii_chars(b),
    decreases cs.len(),
{
    if cs.len() == 0 {
        assert(ascii_chars(b) =~= cs);
    } else {
        let c = cs[0] as u32;
        char_is_scalar(cs[0]);
        let head = encode_scalar(c);
        let tail = encode_utf8(cs.drop_first());
        assert(b == head + tail);
        if has_width_1_encoding(c) {
            assert(leading_byte_width_1(c) == c as u8) by (bit_vector)
                requires
                    c <= 0x7F,
            ;
        } else if has_width_2_encoding(c) {
            assert(leading_byte_width_2(c) >= 0x80) by (bit_vector)
                requires
                    0x80 <= c <= 0x7FF,
            ;
            assert(b[0] == head[0]);
        } else if has_width_3_encoding(c) {
            assert(leading_byte_width_3(c) >= 0x80) by (bit_vector)
                requires
                    0x800 <= c <= 0xFFFF,
            ;
            assert(b[0] == head[0]);
        } else {
            assert(leading_byte_width_4(c) >= 0x80) by (bit_vector)
                requires
                    0x10000 <= c <= 0x10FFFF,
            ;
            assert(b[0] == head[0]);
        }
        assert(head.len() == 1);
        let rest = b.subrange(1, b.len() as int);
        assert(rest =~= tail);
        assert forall|i: int| 0 <= i < rest.len() implies rest[i] < 0x80 by {
            assert(rest[i] == b[i + 1]);
        }
        lemma_ascii_decode(cs.drop_first(), rest);
        char_u32_cast(cs[0], c);
        assert(has_width_1_encoding(c));
        assert(b[0] == c as u8);
        assert((b[0] as u32) == c);
        assert(cs[0] == b[0] as char);
        assert forall|i: int| 1 <= i < cs.len() implies cs[i] == b[i] as char by {
            assert(cs.drop_first()[i - 1] == cs[i]);
            assert(rest[i - 1] == b[i]);
        }
        assert(cs =~= ascii_chars(b));
    }
}


/// The characters of `s`, in order.
pub fn chars_of(s: &str) -> (v: Vec<char>)
    ensures
        v@ == s@,
{
    let mut v: Vec<char> = Vec::new();
    for c in it: s.chars()
        invariant
            v@ == it.seq().subrange(0, it.index() as int),
    {
        v.push(c);
    }
    v
}

/// Byte-wise equality.
pub fn bytes_equal(a: &[u8], b: &[u8]) -> (r: bool)
    ensures
        r == (a@ == b@),
{
    if a.len() != b.len() {
        return false;
    }
    let mut i: usize = 0;
    while i < a.len()
        invariant
            0 <= i <= a@.len(),
            a@.len() == b@.len(),
            forall|k: int| 0 <= k < i ==> a@[k] == b@[k],
        decreases a@.len() - i,
    {
        if a[i] != b[i] {
            return false;
        }
        i = i + 1;
    }
    assert(a@ =~= b@);
    true
}

/// String equality, through the UTF-8 bytes.
pub fn str_equal(a: &str, b: &str) -> (r: bool)
    ensures
        r == (a@ == b@),
{
    let eq = bytes_equal(a.as_bytes(), b.as_bytes());
    proof {
        if eq {
            encode_utf8_decode_utf8(a@);
            encode_utf8_decode_utf8(b@);
        }
    }
    eq
}

/// Whether the string `s` is the ASCII text `label`.
pub fn str_is_ascii_label(s: &str, label: &[u8]) -> (r: bool)
    requires
        is_ascii_bytes(label@),
    ensures
        r == (s@ == ascii_chars(label@)),
{
    let b = s.as_bytes();
    let eq = bytes_equal(b, label);
    proof {
        if eq {
            lemma_ascii_decode(s@, label@);
        } else if s@ == ascii_chars(label@) {
            assert(is_ascii_chars(s@));
            is_ascii_chars_encode_utf8(s@);
            assert(encode_utf8(s@) =~= label@);
        }
    }
    eq
}

/// An ASCII byte string as a `String`.
pub fn ascii_to_string(b: &[u8]) -> (s: String)
    requires
        is_ascii_bytes(b@),
    ensures
        s@ == ascii_chars(b@),
{
    proof {
        lemma_ascii_valid_utf8(b@);
    }
    match utf8_str(b) {
        Some(text) => {
            proof {
                lemma_ascii_decode(text@, b@);
            }
            text.to_owned()
        },
        None => String::new(),
    }
}

pub fn to_ascii_lower(b: u8) -> (r: u8)
    ensures
        r == ascii_lower(b),
{
    if 0x41 <= b && b <= 0x5a {
        b + 32
    } else {
        b
    }
}

/// Byte-wise comparison up to ASCII case.
pub fn bytes_eq_ignore_ascii_case(a: &[u8], b: &[u8]) -> (r: bool)
    ensures
        r == eq_ignore_ascii_case(a@, b@),
{
    if a.len() != b.len() {
        return false;
    }
    let mut i: usize = 0;
    while i < a.len()
        invariant
            0 <= i <= a@.len(),
            a@.len() == b@.len(),
            forall|k: int| 0 <= k < i ==> #[trigger] ascii_lower(a@[k]) == ascii_lower(b@[k]),
        decreases a@.len() - i,
    {
        if to_ascii_lower(a[i]) != to_ascii_lower(b[i]) {
            return false;
        }
        i = i + 1;
    }
    true
}

/// Append the decimal digits of `n`.
pub fn push_decimal(out: &mut Vec<u8>, n: u64)
    ensures
        final(out)@ == old(out)@ + decimal(n as nat),
    decreases n,
{
    if n >= 10 {
        push_decimal(out, n / 10);
    }
    let ghost before = out@;
    out.push(0x30 + (n % 10) as u8);
    proof {
        if n >= 10 {
            assert(decimal(n as nat) == decimal((n / 10) as nat).push((0x30 + n % 10) as u8));
        }
    }
    assert(out@ =~= old(out)@ + decimal(n as nat));
}

pub fn hex_digit_of(x: u8) -> (r: u8)
    requires
        x < 16,
    ensures
        r == hex_digit(x as int),
{
    if x < 10 {
        0x30 + x
    } else {
        0x61 + x - 10
    }
}

/// Append two lowercase hexadecimal digits for each byte of `b`.
pub fn push_hex_lower(out: &mut Vec<u8>, b: &[u8])
    ensures
        final(out)@ == old(out)@ + hex_lower(b@),
{
    let mut i: usize = 0;
    while i < b.len()
        invariant
            0 <= i <= b@.len(),
            out@ == old(out)@ + hex_lower(b@.subrange(0, i as int)),
        decreases b@.len() - i,
    {
        let ghost before = out@;
        out.push(hex_digit_of(b[i] / 16));
        out.push(hex_digit_of(b[i] % 16));
        assert(hex_lower(b@.subrange(0, i + 1)) =~= hex_lower(b@.subrange(0, i as int)).push(
            hex_digit(b@[i as int] as int / 16),
        ).push(hex_digit(b@[i as int] as int % 16)));
        i = i + 1;
        assert(out@ =~= old(out)@ + hex_lower(b@.subrange(0, i as int)));
    }
    assert(b@.subrange(0, b@.len() as int) =~= b@);
}

} // verus!
