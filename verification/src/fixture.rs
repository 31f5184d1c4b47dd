//! Builders for minimal record-framed ClientHello bytes: one record, legacy
//! version 0x0303, a fixed random, an empty session id, one cipher suite
//! (TLS_AES_128_GCM_SHA256) and the null compression method.
//!
//! Length fields are written modulo their width, as a `u16` or `u24` cast
//! of the length would write them.

use vstd::prelude::*;
use vstd::string::StringSliceAdditionalSpecFns;

use crate::sni::client_hello::{
    ext_walk, finish_hello, initial_ext_state, spec_parse_handshake, ExtState,
};
use crate::sni::client_hello::{apply_extension, EXT_ENCRYPTED_CLIENT_HELLO, EXT_SERVER_NAME};
use crate::sni::cursor::{be16, be24};
use crate::sni::server_name::{
    hostname_shape_ok, ip_address_literal, is_ldh_byte, scan_server_name, spec_server_name,
    strip_trailing_dot, HostScan, ServerName,
};
use crate::text::{ascii_chars, lemma_ascii_valid_utf8};
use crate::sni::extract::{spec_extract_sni, Outcome};
use crate::sni::reassembly::{single_record_agrees_with_walk, spec_reassemble, spec_single_record};

verus! {

/// `n` as two big-endian bytes, modulo 2^16.
pub open spec fn be16_of(n: nat) -> Seq<u8> {
    seq![((n / 256) % 256) as u8, (n % 256) as u8]
}

/// `n` as three big-endian bytes, modulo 2^24.
pub open spec fn be24_of(n: nat) -> Seq<u8> {
    seq![((n / 65536) % 256) as u8, ((n / 256) % 256) as u8, (n % 256) as u8]
}

/// The ClientHello body around an extensions block.
pub open spec fn hello_body(extensions: Seq<u8>) -> Seq<u8> {
    seq![0x03u8, 0x03u8] + Seq::new(32, |i: int| 0xAAu8) + seq![0x00u8] + seq![
        0x00u8,
        0x02u8,
        0x13u8,
        0x01u8,
    ] + seq![0x01u8, 0x00u8] + be16_of(extensions.len()) + extensions
}

/// The handshake message around a ClientHello body.
pub open spec fn hello_handshake(extensions: Seq<u8>) -> Seq<u8> {
    seq![0x01u8] + be24_of(hello_body(extensions).len()) + hello_body(extensions)
}

/// The single handshake record around an extensions block.
pub open spec fn hello_record(extensions: Seq<u8>) -> Seq<u8> {
    seq![0x16u8, 0x03u8, 0x01u8] + be16_of(hello_handshake(extensions).len()) + hello_handshake(
        extensions,
    )
}

/// A `server_name` extension with one `host_name` entry.
pub open spec fn sni_extension_bytes(host: Seq<u8>) -> Seq<u8> {
    let entry = seq![0x00u8] + be16_of(host.len()) + host;
    let list = be16_of(entry.len()) + entry;
    seq![0x00u8, 0x00u8] + be16_of(list.len()) + list
}

/// An empty `encrypted_client_hello` extension, then a decoy `server_name`.
pub open spec fn ech_then_decoy_bytes(decoy: Seq<u8>) -> Seq<u8> {
    seq![0xfeu8, 0x0du8, 0x00u8, 0x00u8] + sni_extension_bytes(decoy)
}


proof fn lemma_be16_at(s: Seq<u8>, k: int, n: nat)
    requires
        0 <= k,
        k + 2 <= s.len(),
        n < 65536,
        s.subrange(k, k + 2) == be16_of(n),
    ensures
        be16(s, k) == n,
{
    assert(s[k] == s.subrange(k, k + 2)[0]);
    assert(s[k + 1] == s.subrange(k, k + 2)[1]);
    assert(((n / 256) % 256) * 256 + n % 256 == n) by (nonlinear_arith)
        requires
            n < 65536,
    ;
}

proof fn lemma_be24_at(s: Seq<u8>, k: int, n: nat)
    requires
        0 <= k,
        k + 3 <= s.len(),
        n < 16777216,
        s.subrange(k, k + 3) == be24_of(n),
    ensures
        be24(s, k) == n,
{
    assert(s[k] == s.subrange(k, k + 3)[0]);
    assert(s[k + 1] == s.subrange(k, k + 3)[1]);
    assert(s[k + 2] == s.subrange(k, k + 3)[2]);
    assert(((n / 65536) % 256) * 65536 + ((n / 256) % 256) * 256 + n % 256 == n)
        by (nonlinear_arith)
        requires
            n < 16777216,
    ;
}

/// The record carries the handshake message whole: reassembly yields it.
proof fn lemma_record_reassembles(extensions: Seq<u8>)
    requires
        extensions.len() <= 16000,
    ensures
        spec_reassemble(hello_record(extensions)) == Some(hello_handshake(extensions)),
{
    let body = hello_body(extensions);
    let hs = hello_handshake(extensions);
    let r = hello_record(extensions);
    assert(body.len() == 43 + extensions.len());
    assert(hs.len() == 4 + body.len());
    assert(r.len() == 5 + hs.len());
    assert(r.subrange(3, 5) =~= be16_of(hs.len()));
    lemma_be16_at(r, 3, hs.len());
    let frag = r.subrange(5, 5 + hs.len() as int);
    assert(frag =~= hs);
    assert(hs.subrange(1, 4) =~= be24_of(body.len()));
    lemma_be24_at(hs, 1, body.len());
    assert(frag.subrange(0, hs.len() as int) =~= hs);
    assert(spec_single_record(r) == Some(hs));
    single_record_agrees_with_walk(r);
}

/// The handshake message parses as a ClientHello whose extensions are
/// exactly the block it was built around.
proof fn lemma_handshake_parses(extensions: Seq<u8>)
    requires
        extensions.len() <= 16000,
    ensures
        spec_parse_handshake(hello_handshake(extensions)) == match ext_walk(
            extensions,
            0,
            initial_ext_state(),
        ) {
            Some(st) => Some(finish_hello(seq![0x13u8, 0x01u8], st)),
            None => None,
        },
{
    let body = hello_body(extensions);
    let hs = hello_handshake(extensions);
    assert(body.len() == 43 + extensions.len());
    assert(hs[0] == 1);
    assert(hs.subrange(4, 6) =~= be16_of(0x0303));
    lemma_be16_at(hs, 4, 0x0303);
    assert(hs[38] == 0);
    assert(hs.subrange(38, 38) =~= Seq::<u8>::empty());
    assert(hs.subrange(39, 41) =~= be16_of(2));
    lemma_be16_at(hs, 39, 2);
    assert(hs.subrange(41, 43) =~= seq![0x13u8, 0x01u8]);
    assert(hs[43] == 1);
    assert(hs.subrange(44, 45) =~= seq![0x00u8]);
    assert(seq![0x00u8].contains(0u8)) by {
        assert(seq![0x00u8][0] == 0u8);
    }
    assert(hs.subrange(45, 47) =~= be16_of(extensions.len()));
    lemma_be16_at(hs, 45, extensions.len());
    assert(hs.subrange(47, 47 + extensions.len() as int) =~= extensions);
}

/// A host the parser reports verbatim: the shape checks pass, there is no
/// trailing dot to strip, and it is not an IP literal.
pub open spec fn reportable_host(b: Seq<u8>) -> bool {
    &&& hostname_shape_ok(b)
    &&& b[b.len() - 1] != 0x2e
    &&& !ip_address_literal(ascii_chars(b))
}

/// The `server_name` body of [`sni_extension_bytes`], after its type and
/// length.
pub open spec fn sni_body(b: Seq<u8>) -> Seq<u8> {
    let entry = seq![0x00u8] + be16_of(b.len()) + b;
    be16_of(entry.len()) + entry
}

proof fn lemma_sni_body_names_host(b: Seq<u8>)
    requires
        reportable_host(b),
    ensures
        spec_server_name(sni_body(b)) == ServerName::Host(b),
{
    let entry = seq![0x00u8] + be16_of(b.len()) + b;
    let data = sni_body(b);
    assert(b.len() <= 253);
    assert(data.subrange(0, 2) =~= be16_of(entry.len()));
    lemma_be16_at(data, 0, entry.len());
    assert(data.subrange(2, 2 + entry.len() as int) =~= entry);
    assert(entry.subrange(1, 3) =~= be16_of(b.len()));
    lemma_be16_at(entry, 1, b.len());
    assert(entry.subrange(3, 3 + b.len() as int) =~= b);
    assert forall|i: int| 0 <= i < b.len() implies b[i] < 0x80 by {
        assert(is_ldh_byte(b[i]));
    }
    lemma_ascii_valid_utf8(b);
    assert(strip_trailing_dot(b) == b);
    assert(scan_server_name(data) == HostScan::Candidate { host: b, duplicate: false });
}

/// The extension state after a reportable `server_name` is applied.
pub open spec fn with_host(st: ExtState, b: Seq<u8>) -> ExtState {
    ExtState { seen: st.seen.push(EXT_SERVER_NAME), sni_host: Some(ascii_chars(b)), ..st }
}

proof fn lemma_sni_walk(ext: Seq<u8>, pos: int, b: Seq<u8>, st: ExtState)
    requires
        reportable_host(b),
        0 <= pos,
        pos + sni_extension_bytes(b).len() == ext.len(),
        ext.subrange(pos, ext.len() as int) == sni_extension_bytes(b),
        !st.psk_seen,
        !st.seen.contains(EXT_SERVER_NAME),
    ensures
        ext_walk(ext, pos, st) == Some(with_host(st, b)),
{
    let body = sni_body(b);
    let tail = ext.subrange(pos, ext.len() as int);
    assert(b.len() <= 253);
    assert(tail.len() == 4 + body.len());
    assert(tail.subrange(0, 2) =~= be16_of(0));
    lemma_be16_at(tail, 0, 0);
    assert(tail.subrange(2, 4) =~= be16_of(body.len()));
    lemma_be16_at(tail, 2, body.len());
    assert(tail[0] == ext[pos] && tail[1] == ext[pos + 1]);
    assert(tail[2] == ext[pos + 2] && tail[3] == ext[pos + 3]);
    assert(tail.subrange(4, 4 + body.len() as int) =~= body);
    assert(ext.subrange(pos + 4, pos + 4 + body.len()) =~= tail.subrange(4, 4 + body.len() as int));
    lemma_sni_body_names_host(b);
    let st2 = with_host(st, b);
    assert(apply_extension(st, EXT_SERVER_NAME, body) == Some(st2));
    assert(ext_walk(ext, pos + 4 + body.len(), st2) == Some(st2));
}

proof fn lemma_plain_round_trip(b: Seq<u8>)
    requires
        reportable_host(b),
    ensures
        spec_extract_sni(hello_record(sni_extension_bytes(b))) == Outcome::Cleartext(ascii_chars(b)),
{
    let ext = sni_extension_bytes(b);
    assert(b.len() <= 253);
    assert(ext.subrange(0, ext.len() as int) =~= ext);
    lemma_sni_walk(ext, 0, b, initial_ext_state());
    lemma_record_reassembles(ext);
    lemma_handshake_parses(ext);
}

proof fn lemma_ech_walk(b: Seq<u8>)
    requires
        reportable_host(b),
    ensures
        ext_walk(ech_then_decoy_bytes(b), 0, initial_ext_state()) matches Some(st) && st.ech_present,
{
    let st0 = initial_ext_state();
    let ext = sni_extension_bytes(b);
    let ech = ech_then_decoy_bytes(b);
    assert(b.len() <= 253);
    assert(ech.len() == 4 + ext.len());
    assert(ech.subrange(0, 2) =~= be16_of(0xfe0d));
    lemma_be16_at(ech, 0, 0xfe0d);
    assert(ech.subrange(2, 4) =~= be16_of(0));
    lemma_be16_at(ech, 2, 0);
    let st1 = ExtState { seen: st0.seen.push(EXT_ENCRYPTED_CLIENT_HELLO), ech_present: true, ..st0 };
    assert(apply_extension(st0, EXT_ENCRYPTED_CLIENT_HELLO, ech.subrange(4, 4)) == Some(st1));
    assert(ech.subrange(4, ech.len() as int) =~= ext);
    assert(!st1.seen.contains(EXT_SERVER_NAME)) by {
        assert(st1.seen =~= seq![EXT_ENCRYPTED_CLIENT_HELLO]);
    }
    lemma_sni_walk(ech, 4, b, st1);
}

proof fn lemma_ech_round_trip(b: Seq<u8>)
    requires
        reportable_host(b),
    ensures
        spec_extract_sni(hello_record(ech_then_decoy_bytes(b))) == Outcome::Encrypted,
{
    let ech = ech_then_decoy_bytes(b);
    assert(b.len() <= 253);
    assert(ech.len() == 4 + sni_extension_bytes(b).len());
    lemma_ech_walk(b);
    lemma_record_reassembles(ech);
    lemma_handshake_parses(ech);
}

/// A ClientHello built around one `server_name` extension carrying a
/// reportable host gives that host back as the cleartext SNI; built around
/// an `encrypted_client_hello` extension and the same host as a decoy, it
/// is reported as encrypted.
pub proof fn fixture_round_trips(b: Seq<u8>)
    requires
        reportable_host(b),
    ensures
        spec_extract_sni(hello_record(sni_extension_bytes(b))) == Outcome::Cleartext(ascii_chars(b)),
        spec_extract_sni(hello_record(ech_then_decoy_bytes(b))) == Outcome::Encrypted,
{
    lemma_plain_round_trip(b);
    lemma_ech_round_trip(b);
}

fn push_be16(out: &mut Vec<u8>, n: usize)
    ensures
        final(out)@ == old(out)@ + be16_of(n as nat),
{
    out.push(((n / 256) % 256) as u8);
    out.push((n % 256) as u8);
}

fn push_be24(out: &mut Vec<u8>, n: usize)
    ensures
        final(out)@ == old(out)@ + be24_of(n as nat),
{
    out.push(((n / 65536) % 256) as u8);
    out.push(((n / 256) % 256) as u8);
    out.push((n % 256) as u8);
}

fn push_all(out: &mut Vec<u8>, src: &[u8])
    ensures
        final(out)@ == old(out)@ + src@,
{
    let ghost start = out@;
    let mut i: usize = 0;
    while i < src.len()
        invariant
            0 <= i <= src@.len(),
            out@ == start + src@.subrange(0, i as int),
        decreases src@.len() - i,
    {
        out.push(src[i]);
        i = i + 1;
        assert(out@ =~= start + src@.subrange(0, i as int));
    }
    assert(src@.subrange(0, src@.len() as int) =~= src@);
}

/// Wrap an `extensions` block into a complete single-record ClientHello.
pub fn client_hello(extensions: &[u8]) -> (record: Vec<u8>)
    ensures
        record@ == hello_record(extensions@),
{
    let mut body: Vec<u8> = Vec::new();
    body.push(0x03);
    body.push(0x03);
    let mut i: usize = 0;
    while i < 32
        invariant
            0 <= i <= 32,
            body@ == seq![0x03u8, 0x03u8] + Seq::new(i as nat, |j: int| 0xAAu8),
        decreases 32 - i,
    {
        body.push(0xAA);
        i = i + 1;
        assert(body@ =~= seq![0x03u8, 0x03u8] + Seq::new(i as nat, |j: int| 0xAAu8));
    }
    body.push(0x00);
    body.push(0x00);
    body.push(0x02);
    body.push(0x13);
    body.push(0x01);
    body.push(0x01);
    body.push(0x00);
    push_be16(&mut body, extensions.len());
    push_all(&mut body, extensions);
    assert(body@ =~= hello_body(extensions@));

    let mut handshake: Vec<u8> = Vec::new();
    handshake.push(0x01);
    push_be24(&mut handshake, body.len());
    push_all(&mut handshake, body.as_slice());
    assert(handshake@ =~= hello_handshake(extensions@));

    let mut record: Vec<u8> = Vec::new();
    record.push(0x16);
    record.push(0x03);
    record.push(0x01);
    push_be16(&mut record, handshake.len());
    push_all(&mut record, handshake.as_slice());
    assert(record@ =~= hello_record(extensions@));
    record
}

/// A `server_name` extension carrying one `host_name` entry.
pub fn sni_extension(host: &str) -> (ext: Vec<u8>)
    ensures
        ext@ == sni_extension_bytes(host.spec_bytes()),
{
    let host_bytes = host.as_bytes();
    let mut entry: Vec<u8> = Vec::new();
    entry.push(0x00);
    push_be16(&mut entry, host_bytes.len());
    push_all(&mut entry, host_bytes);

    let mut list: Vec<u8> = Vec::new();
    push_be16(&mut list, entry.len());
    push_all(&mut list, entry.as_slice());

    let mut ext: Vec<u8> = Vec::new();
    ext.push(0x00);
    ext.push(0x00);
    push_be16(&mut ext, list.len());
    push_all(&mut ext, list.as_slice());
    assert(ext@ =~= sni_extension_bytes(host.spec_bytes()));
    ext
}

/// An `encrypted_client_hello` extension followed by a decoy `server_name`:
/// the real ECH wire shape, in which ECH must win and mask the visible host.
pub fn ech_then_decoy_sni(decoy_host: &str) -> (exts: Vec<u8>)
    ensures
        exts@ == ech_then_decoy_bytes(decoy_host.spec_bytes()),
{
    let mut exts: Vec<u8> = Vec::new();
    exts.push(0xfe);
    exts.push(0x0d);
    exts.push(0x00);
    exts.push(0x00);
    let sni = sni_extension(decoy_host);
    push_all(&mut exts, sni.as_slice());
    assert(exts@ =~= ech_then_decoy_bytes(decoy_host.spec_bytes()));
    exts
}

} // verus!
