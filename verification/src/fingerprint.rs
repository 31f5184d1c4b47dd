//! TLS ClientHello fingerprinting: JA3 over the parsed ClientHello fields.
//!
//! GREASE filtering (RFC 8701) is centralised in [`is_grease_codepoint`].

use vstd::prelude::*;

use crate::sni::client_hello::{ClientHelloMetadata, HelloView, TLS_LEGACY_VERSION};
use crate::text::{
    ascii_chars, ascii_to_string, decimal, hex_digit, hex_lower, is_ascii_bytes,
    lemma_decimal_ascii, lemma_hex_lower_ascii, push_decimal, push_hex_lower,
};

verus! {

/// A GREASE codepoint: the high byte equals the low byte, and the low nibble
/// is `0xA`.
pub open spec fn grease(v: u16) -> bool {
    v / 256 == v % 256 && (v % 256) % 16 == 10
}

/// `true` if `value` is a GREASE codepoint per RFC 8701 §3: `0x0A0A`,
/// `0x1A1A`, …, `0xFAFA`.
pub fn is_grease_codepoint(value: u16) -> (r: bool)
    ensures
        r == grease(value),
{
    let hi = value / 256;
    let lo = value % 256;
    hi == lo && lo % 16 == 10
}

/// The GREASE codepoints are exactly the sixteen values `0x0A0A + k·0x1010`.
pub proof fn grease_values(v: u16)
    ensures
        grease(v) <==> (v >= 0x0A0A && (v - 0x0A0A) as u16 % 0x1010 == 0),
{
    assert(grease(v) <==> (v >= 0x0A0A && (v - 0x0A0A) as u16 % 0x1010 == 0)) by (bit_vector);
}

/// `values` without its GREASE codepoints, in order.
pub open spec fn grease_free(values: Seq<u16>) -> Seq<u16>
    decreases values.len(),
{
    if values.len() == 0 {
        values
    } else {
        let rest = grease_free(values.drop_last());
        if grease(values.last()) {
            rest
        } else {
            rest.push(values.last())
        }
    }
}

/// Decimal renderings of `values`, joined by `-`.
pub open spec fn join16(values: Seq<u16>) -> Seq<u8>
    decreases values.len(),
{
    if values.len() == 0 {
        Seq::empty()
    } else if values.len() == 1 {
        decimal(values[0] as nat)
    } else {
        join16(values.drop_last()).push(0x2du8) + decimal(values.last() as nat)
    }
}

/// Decimal renderings of `values`, joined by `-`.
pub open spec fn join8(values: Seq<u8>) -> Seq<u8>
    decreases values.len(),
{
    if values.len() == 0 {
        Seq::empty()
    } else if values.len() == 1 {
        decimal(values[0] as nat)
    } else {
        join8(values.drop_last()).push(0x2du8) + decimal(values.last() as nat)
    }
}

/// A JA3 list field renders every value: one value renders as its decimal
/// digits, and the field of two non-empty lists put end to end is the field
/// of the first, a `-`, and the field of the second.
pub proof fn point_format_field_lists_every_value(a: Seq<u8>, b: Seq<u8>, x: u8)
    ensures
        join8(seq![x]) == decimal(x as nat),
        a.len() > 0 && b.len() > 0 ==> join8(a + b) == join8(a) + seq![0x2du8] + join8(b),
    decreases b.len(),
{
    if a.len() > 0 && b.len() > 0 {
        let ab = a + b;
        if b.len() == 1 {
            assert(ab.drop_last() =~= a);
            assert(ab.last() == b[0]);
            assert(join8(ab) =~= join8(a) + seq![0x2du8] + join8(b));
        } else {
            point_format_field_lists_every_value(a, b.drop_last(), x);
            assert(ab.drop_last() =~= a + b.drop_last());
            assert(ab.last() == b.last());
            assert(join8(ab) =~= join8(a) + seq![0x2du8] + join8(b));
        }
    }
}

/// The same for the `u16` fields (cipher suites, extensions, groups).
pub proof fn code_field_lists_every_value(a: Seq<u16>, b: Seq<u16>, x: u16)
    ensures
        join16(seq![x]) == decimal(x as nat),
        a.len() > 0 && b.len() > 0 ==> join16(a + b) == join16(a) + seq![0x2du8] + join16(b),
    decreases b.len(),
{
    if a.len() > 0 && b.len() > 0 {
        let ab = a + b;
        if b.len() == 1 {
            assert(ab.drop_last() =~= a);
            assert(ab.last() == b[0]);
            assert(join16(ab) =~= join16(a) + seq![0x2du8] + join16(b));
        } else {
            code_field_lists_every_value(a, b.drop_last(), x);
            assert(ab.drop_last() =~= a + b.drop_last());
            assert(ab.last() == b.last());
            assert(join16(ab) =~= join16(a) + seq![0x2du8] + join16(b));
        }
    }
}

/// The JA3 string
/// `SSLVersion,Ciphers,Extensions,EllipticCurves,EllipticCurvePointFormats`:
/// decimal codepoints joined by `-`, GREASE filtered from the three `u16`
/// lists, wire order kept, absent extensions rendered as empty fields.
pub open spec fn ja3_raw(m: HelloView) -> Seq<u8> {
    decimal(TLS_LEGACY_VERSION as nat).push(0x2cu8) + join16(grease_free(m.cipher_suites)).push(
        0x2cu8,
    ) + join16(grease_free(m.extension_order)).push(0x2cu8) + match m.supported_groups {
        Some(g) => join16(grease_free(g)),
        None => Seq::empty(),
    }.push(0x2cu8) + match m.ec_point_formats {
        Some(f) => join8(f),
        None => Seq::empty(),
    }
}

/// The MD5 digest of `input`, as the `md-5` crate computes it.
pub uninterp spec fn md5_of(input: Seq<u8>) -> Seq<u8>;

/// `md5::Md5::digest` (the `md-5` crate): the digest of `input`. Its result
/// is named by [`md5_of`]; the only further claim is the 16-byte length that
/// the output type (`GenericArray<u8, U16>`) fixes.
#[verifier::external_body]
fn md5_digest(input: &[u8]) -> (d: Vec<u8>)
    ensures
        d@ == md5_of(input@),
        d@.len() == 16,
{
    <md5::Md5 as md5::Digest>::digest(input).to_vec()
}

/// JA3 fingerprint: the input string and its lowercase hex MD5.
#[derive(Debug, Clone, PartialEq, Eq, Hash)]
pub struct Ja3 {
    /// Five comma-separated fields, each a `-`-joined list of decimal
    /// codepoints with GREASE filtered out.
    pub raw: String,
    /// Lowercase hex MD5 of `raw` (32 hex characters).
    pub md5: String,
}

/// Push a `-`-joined decimal list of `u16` values, GREASE filtered when
/// asked.
fn write_u16_list(out: &mut Vec<u8>, values: &[u16], filter_grease: bool)
    requires
        is_ascii_bytes(old(out)@),
    ensures
        final(out)@ == old(out)@ + join16(
            if filter_grease {
                grease_free(values@)
            } else {
                values@
            },
        ),
        is_ascii_bytes(final(out)@),
{
    let ghost kept_of = |s: Seq<u16>|
        if filter_grease {
            grease_free(s)
        } else {
            s
        };
    let mut first = true;
    let mut i: usize = 0;
    while i < values.len()
        invariant
            0 <= i <= values@.len(),
            out@ == old(out)@ + join16(kept_of(values@.subrange(0, i as int))),
            first == (kept_of(values@.subrange(0, i as int)).len() == 0),
            is_ascii_bytes(out@),
            kept_of == (|s: Seq<u16>|
                if filter_grease {
                    grease_free(s)
                } else {
                    s
                }),
        decreases values@.len() - i,
    {
        let v = values[i];
        let ghost pre = values@.subrange(0, i as int);
        let ghost next = values@.subrange(0, i + 1);
        assert(next.drop_last() =~= pre);
        assert(next.last() == v);
        if filter_grease && is_grease_codepoint(v) {
            i = i + 1;
            continue;
        }
        let ghost kept = kept_of(pre);
        assert(kept_of(next) =~= kept.push(v));
        assert(kept.push(v).drop_last() =~= kept);
        proof {
            lemma_decimal_ascii(v as nat);
        }
        if !first {
            out.push(0x2d);
        }
        push_decimal(out, v as u64);
        assert(out@ =~= old(out)@ + join16(kept.push(v)));
        first = false;
        i = i + 1;
    }
    assert(values@.subrange(0, values@.len() as int) =~= values@);
}

/// Push a `-`-joined decimal list of `u8` values.
fn write_u8_list(out: &mut Vec<u8>, values: &[u8])
    requires
        is_ascii_bytes(old(out)@),
    ensures
        final(out)@ == old(out)@ + join8(values@),
        is_ascii_bytes(final(out)@),
{
    let mut i: usize = 0;
    while i < values.len()
        invariant
            0 <= i <= values@.len(),
            out@ == old(out)@ + join8(values@.subrange(0, i as int)),
            is_ascii_bytes(out@),
        decreases values@.len() - i,
    {
        let v = values[i];
        let ghost pre = values@.subrange(0, i as int);
        let ghost next = values@.subrange(0, i + 1);
        assert(next.drop_last() =~= pre);
        proof {
            lemma_decimal_ascii(v as nat);
        }
        if i > 0 {
            out.push(0x2d);
        }
        push_decimal(out, v as u64);
        assert(out@ =~= old(out)@ + join8(next));
        i = i + 1;
    }
    assert(values@.subrange(0, values@.len() as int) =~= values@);
}

/// Lowercase hex rendering of a digest.
pub fn hex_lower_string(digest: &[u8]) -> (s: String)
    ensures
        s@ == ascii_chars(hex_lower(digest@)),
{
    let mut out: Vec<u8> = Vec::new();
    push_hex_lower(&mut out, digest);
    proof {
        lemma_hex_lower_ascii(digest@);
        assert(out@ =~= hex_lower(digest@));
    }
    ascii_to_string(out.as_slice())
}

/// Lowercase hex MD5 digest of `input`: the classic JA3 representation.
fn md5_hex_lower(input: &[u8]) -> (s: String)
    ensures
        s@ == ascii_chars(hex_lower(md5_of(input@))),
        s@.len() == 32,
{
    let digest = md5_digest(input);
    hex_lower_string(digest.as_slice())
}

/// Compute the JA3 fingerprint of a parsed ClientHello: the JA3 string and
/// the lowercase hex MD5 of it.
pub fn ja3(meta: &ClientHelloMetadata) -> (j: Ja3)
    ensures
        j.raw@ == ascii_chars(ja3_raw(meta@)),
        j.md5@ == ascii_chars(hex_lower(md5_of(ja3_raw(meta@)))),
        j.md5@.len() == 32,
{
    let mut raw: Vec<u8> = Vec::new();
    proof {
        lemma_decimal_ascii(TLS_LEGACY_VERSION as nat);
    }
    push_decimal(&mut raw, TLS_LEGACY_VERSION as u64);
    raw.push(0x2c);
    write_u16_list(&mut raw, meta.cipher_suites.as_slice(), true);
    raw.push(0x2c);
    write_u16_list(&mut raw, meta.extension_order.as_slice(), true);
    raw.push(0x2c);
    let ghost before_groups = raw@;
    match &meta.supported_groups {
        Some(groups) => write_u16_list(&mut raw, groups.as_slice(), true),
        None => {},
    }
    raw.push(0x2c);
    let ghost before_formats = raw@;
    match &meta.ec_point_formats {
        Some(formats) => write_u8_list(&mut raw, formats.as_slice()),
        None => {},
    }
    assert(raw@ =~= ja3_raw(meta@));
    let md5 = md5_hex_lower(raw.as_slice());
    let raw_text = ascii_to_string(raw.as_slice());
    Ja3 { raw: raw_text, md5 }
}

/// JA3 reads only the cipher suites, the extension order, the supported
/// groups and the point formats: neither the SNI host nor the ALPN values
/// (only the extension type codes) change it.
pub proof fn ja3_ignores_host_and_alpn(a: HelloView, b: HelloView)
    requires
        a.cipher_suites == b.cipher_suites,
        a.extension_order == b.extension_order,
        a.supported_groups == b.supported_groups,
        a.ec_point_formats == b.ec_point_formats,
    ensures
        ja3_raw(a) == ja3_raw(b),
{
}

} // verus!
