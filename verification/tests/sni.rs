use aegiuw_core::sni::client_hello::{
    EXT_ALPN, EXT_ENCRYPTED_CLIENT_HELLO, EXT_KEY_SHARE, EXT_PRE_SHARED_KEY, EXT_SERVER_NAME,
    EXT_SUPPORTED_VERSIONS, HANDSHAKE_TYPE_CLIENT_HELLO, TLS_LEGACY_VERSION,
};
use aegiuw_core::sni::cursor::Cursor;
use aegiuw_core::sni::reassembly::{
    reassemble_handshake_owned, try_reassemble_single_record, CONTENT_TYPE_HANDSHAKE,
};
use aegiuw_core::parse_handshake_message_full;
use aegiuw_core::sni::server_name::NAME_TYPE_HOST_NAME;
use std::time::Instant;

use aegiuw_core::{
    extract_sni, hrr_sni_consistent, is_cloudflare_ech_outer, is_idn_host,
    parse_client_hello_full, parse_handshake_message, reassemble_handshake, AlpnProtocol,
    SniOutcome, TlsVersion, CLOUDFLARE_ECH_OUTER_SNI,
};

// ── Cursor ───────────────────────────────────────────────────────────────

#[test]
fn cursor_reads_multi_byte_ints_big_endian() {
    let mut c = Cursor::new(&[0x01, 0xab, 0xcd, 0x12, 0x34, 0x56]);
    assert_eq!(c.read_u8(), Some(0x01));
    assert_eq!(c.read_u16(), Some(0xabcd));
    assert_eq!(c.read_u24(), Some(0x123456));
    assert_eq!(c.remaining(), 0);
}

#[test]
fn cursor_refuses_overrun() {
    let mut c = Cursor::new(&[0x01, 0x02]);
    assert_eq!(c.read_slice(5), None);
    assert_eq!(c.read_u24(), None);
    assert_eq!(c.read_u16(), Some(0x0102));
}

#[test]
fn cursor_length_prefixed_reads() {
    let buf = [0x03, b'a', b'b', b'c', 0x00, 0x02, b'x', b'y'];
    let mut c = Cursor::new(&buf);
    assert_eq!(c.read_u8_prefixed(), Some(&b"abc"[..]));
    assert_eq!(c.read_u16_prefixed(), Some(&b"xy"[..]));
}

#[test]
fn cursor_length_prefix_rejects_truncated_payload() {
    let buf = [0x0a, b'a', b'b', b'c'];
    let mut c = Cursor::new(&buf);
    assert_eq!(c.read_u8_prefixed(), None);
}

// ── ClientHello builders ─────────────────────────────────────────────────

const MAX_RECORD_EXTENSIONS: usize = 4_000;
const MANY_EXTENSIONS: usize = 10_000;

const DEFAULT_CIPHER_SUITES: &[u8] = &[0x13, 0x01];

fn build_handshake_message(extensions: &[u8]) -> Vec<u8> {
    build_handshake_message_custom(extensions, TLS_LEGACY_VERSION, &[], DEFAULT_CIPHER_SUITES, &[0x00])
}

fn build_handshake_message_with_version(extensions: &[u8], legacy_version: u16) -> Vec<u8> {
    build_handshake_message_custom(extensions, legacy_version, &[], DEFAULT_CIPHER_SUITES, &[0x00])
}

fn build_handshake_message_with_compression(extensions: &[u8], compression_methods: &[u8]) -> Vec<u8> {
    build_handshake_message_custom(
        extensions,
        TLS_LEGACY_VERSION,
        &[],
        DEFAULT_CIPHER_SUITES,
        compression_methods,
    )
}

fn build_handshake_message_with_cipher_suites(extensions: &[u8], cipher_suites: &[u8]) -> Vec<u8> {
    build_handshake_message_custom(extensions, TLS_LEGACY_VERSION, &[], cipher_suites, &[0x00])
}

fn build_handshake_message_with_session_id(extensions: &[u8], session_id: &[u8]) -> Vec<u8> {
    build_handshake_message_custom(
        extensions,
        TLS_LEGACY_VERSION,
        session_id,
        DEFAULT_CIPHER_SUITES,
        &[0x00],
    )
}

fn build_handshake_message_custom(
    extensions: &[u8],
    legacy_version: u16,
    session_id: &[u8],
    cipher_suites: &[u8],
    compression_methods: &[u8],
) -> Vec<u8> {
    let mut body = Vec::new();
    body.extend_from_slice(&legacy_version.to_be_bytes());
    body.extend_from_slice(&[0xAA; 32]);
    body.push(session_id.len() as u8);
    body.extend_from_slice(session_id);
    body.extend_from_slice(&(cipher_suites.len() as u16).to_be_bytes());
    body.extend_from_slice(cipher_suites);
    body.push(compression_methods.len() as u8);
    body.extend_from_slice(compression_methods);
    body.extend_from_slice(&(extensions.len() as u16).to_be_bytes());
    body.extend_from_slice(extensions);

    let mut handshake = Vec::new();
    handshake.push(HANDSHAKE_TYPE_CLIENT_HELLO);
    let body_len = body.len() as u32;
    handshake.push(((body_len >> 16) & 0xff) as u8);
    handshake.push(((body_len >> 8) & 0xff) as u8);
    handshake.push((body_len & 0xff) as u8);
    handshake.extend_from_slice(&body);
    handshake
}

fn wrap_record(content_type: u8, payload: &[u8]) -> Vec<u8> {
    let mut record = Vec::with_capacity(5 + payload.len());
    record.push(content_type);
    record.extend_from_slice(&[0x03, 0x01]);
    record.extend_from_slice(&(payload.len() as u16).to_be_bytes());
    record.extend_from_slice(payload);
    record
}

fn build_client_hello(extensions: &[u8]) -> Vec<u8> {
    wrap_record(CONTENT_TYPE_HANDSHAKE, &build_handshake_message(extensions))
}

fn build_fragmented_records(handshake: &[u8], splits: &[usize]) -> Vec<u8> {
    let mut out = Vec::new();
    let mut prev = 0usize;
    for &split in splits {
        let split = split.min(handshake.len());
        out.extend_from_slice(&wrap_record(CONTENT_TYPE_HANDSHAKE, &handshake[prev..split]));
        prev = split;
    }
    out.extend_from_slice(&wrap_record(CONTENT_TYPE_HANDSHAKE, &handshake[prev..]));
    out
}

fn build_sni_extension(host: &str) -> Vec<u8> {
    let host_bytes = host.as_bytes();
    let mut entry = Vec::new();
    entry.push(NAME_TYPE_HOST_NAME);
    entry.extend_from_slice(&(host_bytes.len() as u16).to_be_bytes());
    entry.extend_from_slice(host_bytes);

    let mut list = Vec::new();
    list.extend_from_slice(&(entry.len() as u16).to_be_bytes());
    list.extend_from_slice(&entry);

    let mut ext = Vec::new();
    ext.extend_from_slice(&EXT_SERVER_NAME.to_be_bytes());
    ext.extend_from_slice(&(list.len() as u16).to_be_bytes());
    ext.extend_from_slice(&list);
    ext
}

fn build_ech_extension() -> Vec<u8> {
    let payload = [0x00, 0x01, 0x02, 0x03];
    let mut ext = Vec::new();
    ext.extend_from_slice(&EXT_ENCRYPTED_CLIENT_HELLO.to_be_bytes());
    ext.extend_from_slice(&(payload.len() as u16).to_be_bytes());
    ext.extend_from_slice(&payload);
    ext
}

fn build_sni_extension_with_hosts(hosts: &[&str]) -> Vec<u8> {
    let mut entries = Vec::new();
    for h in hosts {
        let b = h.as_bytes();
        entries.push(NAME_TYPE_HOST_NAME);
        entries.extend_from_slice(&(b.len() as u16).to_be_bytes());
        entries.extend_from_slice(b);
    }
    let mut list = Vec::new();
    list.extend_from_slice(&(entries.len() as u16).to_be_bytes());
    list.extend_from_slice(&entries);
    let mut ext = Vec::new();
    ext.extend_from_slice(&EXT_SERVER_NAME.to_be_bytes());
    ext.extend_from_slice(&(list.len() as u16).to_be_bytes());
    ext.extend_from_slice(&list);
    ext
}

fn build_extension(ext_type: u16, payload: &[u8]) -> Vec<u8> {
    let mut ext = Vec::new();
    ext.extend_from_slice(&ext_type.to_be_bytes());
    ext.extend_from_slice(&(payload.len() as u16).to_be_bytes());
    ext.extend_from_slice(payload);
    ext
}

fn cleartext(host: &str) -> SniOutcome {
    SniOutcome::Cleartext { host: host.to_string() }
}

// ── extract_sni outcomes ─────────────────────────────────────────────────

#[test]
fn extracts_visible_sni() {
    let bytes = build_client_hello(&build_sni_extension("example.com"));
    assert_eq!(extract_sni(&bytes), SniOutcome::Cleartext { host: "example.com".into() });
}

#[test]
fn ech_wins_over_visible_sni() {
    let mut extensions = build_sni_extension("decoy.example.com");
    extensions.extend_from_slice(&build_ech_extension());
    let bytes = build_client_hello(&extensions);
    assert_eq!(extract_sni(&bytes), SniOutcome::Encrypted);

    let mut extensions = build_ech_extension();
    extensions.extend_from_slice(&build_sni_extension("decoy.example.com"));
    let bytes = build_client_hello(&extensions);
    assert_eq!(extract_sni(&bytes), SniOutcome::Encrypted);
}

#[test]
fn no_sni_extension_is_not_found() {
    let bytes = build_client_hello(&[]);
    assert_eq!(extract_sni(&bytes), SniOutcome::NotFound);
}

#[test]
fn empty_input_is_malformed() {
    assert_eq!(extract_sni(&[]), SniOutcome::Malformed);
}

#[test]
fn wrong_content_type_is_malformed() {
    assert_eq!(extract_sni(&[0x17, 0x03, 0x01, 0x00, 0x00]), SniOutcome::Malformed);
}

#[test]
fn truncated_record_is_malformed() {
    assert_eq!(extract_sni(&[0x16, 0x03, 0x01]), SniOutcome::Malformed);
}

#[test]
fn non_client_hello_handshake_is_malformed() {
    let bytes = [0x16, 0x03, 0x01, 0x00, 0x04, 0x02, 0x00, 0x00, 0x00];
    assert_eq!(extract_sni(&bytes), SniOutcome::Malformed);
}

#[test]
fn non_utf8_host_yields_not_found_not_malformed() {
    let mut ext = Vec::new();
    ext.extend_from_slice(&EXT_SERVER_NAME.to_be_bytes());
    ext.extend_from_slice(&[0x00, 0x08, 0x00, 0x06, 0x00, 0x00, 0x03, 0xff, 0xfe, 0xfd]);
    let bytes = build_client_hello(&ext);
    assert_eq!(extract_sni(&bytes), SniOutcome::NotFound);
}

#[test]
fn extension_with_over_claimed_data_length_is_malformed() {
    let bad_extensions = vec![0x00, 0x64, 0x00, 0x64];
    let bytes = build_client_hello(&bad_extensions);
    assert_eq!(extract_sni(&bytes), SniOutcome::Malformed);
}

#[test]
fn sni_outcome_kind_strings_are_stable() {
    assert_eq!(SniOutcome::Cleartext { host: "x".into() }.kind(), "cleartext");
    assert_eq!(SniOutcome::Encrypted.kind(), "encrypted");
    assert_eq!(SniOutcome::NotFound.kind(), "not_found");
    assert_eq!(SniOutcome::Malformed.kind(), "malformed");
}

#[test]
fn allocation_cap_holds_against_drip_feed_of_small_records() {
    let mut bytes = Vec::new();
    let mut first = Vec::new();
    first.push(HANDSHAKE_TYPE_CLIENT_HELLO);
    first.extend_from_slice(&[0xFF, 0xFF, 0xFF]);
    first.extend_from_slice(&[0xAA; 4_000]);
    bytes.extend_from_slice(&wrap_record(CONTENT_TYPE_HANDSHAKE, &first));
    for _ in 0..16 {
        bytes.extend_from_slice(&wrap_record(CONTENT_TYPE_HANDSHAKE, &[0xBB; 4_000]));
    }
    assert_eq!(reassemble_handshake(&bytes), None);
    assert_eq!(extract_sni(&bytes), SniOutcome::Malformed);
}

#[test]
fn parses_maximum_single_record_within_debug_budget() {
    let n: usize = MAX_RECORD_EXTENSIONS;
    let mut extensions = Vec::with_capacity(n * 4);
    for i in 0..n {
        let ext_type = (0x0100u16).wrapping_add(i as u16);
        extensions.extend_from_slice(&build_extension(ext_type, &[]));
    }
    let bytes = build_client_hello(&extensions);
    assert!(bytes.len() <= 5 + 16_640, "fixture grew past one record (len={})", bytes.len());

    let start = Instant::now();
    let outcome = extract_sni(&bytes);
    let elapsed = start.elapsed();

    assert_eq!(outcome, SniOutcome::NotFound);
    assert!(
        elapsed.as_millis() < 200,
        "parser took {elapsed:?} for {n}-extension max-size record",
    );
}

#[test]
fn parses_client_hello_with_many_small_extensions_in_linear_time() {
    let n: usize = MANY_EXTENSIONS;
    let mut extensions = Vec::with_capacity(n * 4);
    for i in 0..n {
        let ext_type = (0x0100u16).wrapping_add(i as u16);
        extensions.extend_from_slice(&build_extension(ext_type, &[]));
    }
    let handshake = build_handshake_message(&extensions);
    let chunk = 12_000usize;
    let mut splits = Vec::new();
    let mut at = chunk;
    while at < handshake.len() {
        splits.push(at);
        at += chunk;
    }
    let bytes = build_fragmented_records(&handshake, &splits);

    let start = Instant::now();
    let outcome = extract_sni(&bytes);
    let elapsed = start.elapsed();

    assert_eq!(outcome, SniOutcome::NotFound, "got {outcome:?} for N={n}");
    assert!(
        elapsed.as_millis() < 2_000,
        "parser took {elapsed:?} for {n} extensions — quadratic blowup?",
    );
}

// ── Cloudflare ECH outer SNI ─────────────────────────────────────────────

#[test]
fn cloudflare_ech_outer_detector_matches_exact_string() {
    assert!(is_cloudflare_ech_outer(CLOUDFLARE_ECH_OUTER_SNI));
}

#[test]
fn cloudflare_ech_outer_detector_is_case_insensitive() {
    assert!(is_cloudflare_ech_outer("CLOUDFLARE-ECH.COM"));
    assert!(is_cloudflare_ech_outer("Cloudflare-Ech.Com"));
}

#[test]
fn cloudflare_ech_outer_detector_rejects_non_matches() {
    assert!(!is_cloudflare_ech_outer("example.com"));
    assert!(!is_cloudflare_ech_outer("cloudflare-ech.example.com"));
    assert!(!is_cloudflare_ech_outer("notcloudflare-ech.com"));
    assert!(!is_cloudflare_ech_outer(""));
}

// ── IDN detection ────────────────────────────────────────────────────────

#[test]
fn is_idn_host_detects_lowercase_xn_prefix() {
    assert!(is_idn_host("xn--caf-dma.com"));
}

#[test]
fn is_idn_host_detects_uppercase_xn_prefix() {
    assert!(is_idn_host("XN--CAF-DMA.com"));
    assert!(is_idn_host("Xn--Caf-Dma.com"));
}

#[test]
fn is_idn_host_detects_xn_in_subdomain() {
    assert!(is_idn_host("foo.xn--zb9c.example.com"));
}

#[test]
fn is_idn_host_returns_false_for_plain_hostname() {
    assert!(!is_idn_host("example.com"));
}

#[test]
fn is_idn_host_requires_double_hyphen() {
    assert!(!is_idn_host("xn-test.com"));
    assert!(!is_idn_host("xn.com"));
}

#[test]
fn is_idn_host_handles_empty_and_short_inputs() {
    assert!(!is_idn_host(""));
    assert!(!is_idn_host("xn-"));
}

// ── Hostname checks ──────────────────────────────────────────────────────

#[test]
fn preserves_mixed_case_hostname() {
    let bytes = build_client_hello(&build_sni_extension("Example.COM"));
    assert_eq!(extract_sni(&bytes), cleartext("Example.COM"));
}

#[test]
fn preserves_uppercase_punycode_prefix() {
    let bytes = build_client_hello(&build_sni_extension("XN--CAF-DMA.com"));
    assert_eq!(extract_sni(&bytes), cleartext("XN--CAF-DMA.com"));
}

#[test]
fn rejects_non_ascii_unicode_in_hostname() {
    let bytes = build_client_hello(&build_sni_extension("café.com"));
    assert_eq!(extract_sni(&bytes), SniOutcome::Malformed);
}

#[test]
fn rejects_emoji_in_hostname() {
    let bytes = build_client_hello(&build_sni_extension("hello💩.com"));
    assert_eq!(extract_sni(&bytes), SniOutcome::Malformed);
}

#[test]
fn rejects_underscore_in_hostname() {
    let bytes = build_client_hello(&build_sni_extension("foo_bar.example.com"));
    assert_eq!(extract_sni(&bytes), SniOutcome::Malformed);
}

#[test]
fn accepts_punycode_a_label() {
    let bytes = build_client_hello(&build_sni_extension("xn--caf-dma.com"));
    assert_eq!(extract_sni(&bytes), cleartext("xn--caf-dma.com"));
}

#[test]
fn accepts_hostname_with_hyphens_in_label() {
    let bytes = build_client_hello(&build_sni_extension("foo-bar.example.com"));
    assert_eq!(extract_sni(&bytes), cleartext("foo-bar.example.com"));
}

#[test]
fn strips_single_trailing_dot_from_fqdn() {
    let bytes = build_client_hello(&build_sni_extension("example.com."));
    assert_eq!(extract_sni(&bytes), cleartext("example.com"));
}

#[test]
fn lone_trailing_dot_is_malformed_via_empty_check() {
    let bytes = build_client_hello(&build_sni_extension("."));
    assert_eq!(extract_sni(&bytes), SniOutcome::Malformed);
}

#[test]
fn ipv4_with_trailing_dot_is_malformed_via_ip_check() {
    let bytes = build_client_hello(&build_sni_extension("192.168.1.1."));
    assert_eq!(extract_sni(&bytes), SniOutcome::Malformed);
}

#[test]
fn hostname_without_trailing_dot_is_unchanged() {
    let bytes = build_client_hello(&build_sni_extension("example.com"));
    assert_eq!(extract_sni(&bytes), cleartext("example.com"));
}

#[test]
fn hostname_at_253_chars_with_trailing_dot_passes_after_strip() {
    let mut host = "a.".repeat(126);
    host.push('a');
    assert_eq!(host.len(), 253);
    let with_dot = format!("{host}.");
    let bytes = build_client_hello(&build_sni_extension(&with_dot));
    assert_eq!(extract_sni(&bytes), SniOutcome::Cleartext { host: host.into() });
}

#[test]
fn rejects_hostname_longer_than_253_bytes() {
    let mut host = "a.".repeat(126);
    host.push_str("aa");
    assert_eq!(host.len(), 254);
    let bytes = build_client_hello(&build_sni_extension(&host));
    assert_eq!(extract_sni(&bytes), SniOutcome::Malformed);
}

#[test]
fn accepts_hostname_at_253_byte_boundary() {
    let mut host = "a.".repeat(126);
    host.push('a');
    assert_eq!(host.len(), 253);
    let bytes = build_client_hello(&build_sni_extension(&host));
    assert_eq!(extract_sni(&bytes), SniOutcome::Cleartext { host: host.into() });
}

#[test]
fn rejects_label_longer_than_63_bytes() {
    let label = "a".repeat(64);
    let host = format!("{label}.example.com");
    let bytes = build_client_hello(&build_sni_extension(&host));
    assert_eq!(extract_sni(&bytes), SniOutcome::Malformed);
}

#[test]
fn accepts_label_at_63_byte_boundary() {
    let label = "a".repeat(63);
    let host = format!("{label}.example.com");
    let bytes = build_client_hello(&build_sni_extension(&host));
    assert_eq!(extract_sni(&bytes), SniOutcome::Cleartext { host: host.into() });
}

#[test]
fn rejects_empty_host_name() {
    let bytes = build_client_hello(&build_sni_extension(""));
    assert_eq!(extract_sni(&bytes), SniOutcome::Malformed);
}

#[test]
fn accepts_single_character_hostname() {
    let bytes = build_client_hello(&build_sni_extension("a"));
    assert_eq!(extract_sni(&bytes), SniOutcome::Cleartext { host: "a".into() });
}

#[test]
fn rejects_ipv4_literal_as_sni() {
    let bytes = build_client_hello(&build_sni_extension("192.168.1.1"));
    assert_eq!(extract_sni(&bytes), SniOutcome::Malformed);
}

#[test]
fn rejects_ipv4_public_literal_as_sni() {
    let bytes = build_client_hello(&build_sni_extension("8.8.8.8"));
    assert_eq!(extract_sni(&bytes), SniOutcome::Malformed);
}

#[test]
fn rejects_ipv6_loopback_as_sni() {
    let bytes = build_client_hello(&build_sni_extension("::1"));
    assert_eq!(extract_sni(&bytes), SniOutcome::Malformed);
}

#[test]
fn rejects_ipv6_documentation_range_as_sni() {
    let bytes = build_client_hello(&build_sni_extension("2001:db8::1"));
    assert_eq!(extract_sni(&bytes), SniOutcome::Malformed);
}

#[test]
fn rejects_ipv4_mapped_ipv6_as_sni() {
    let bytes = build_client_hello(&build_sni_extension("::ffff:192.168.1.1"));
    assert_eq!(extract_sni(&bytes), SniOutcome::Malformed);
}

#[test]
fn accepts_hostname_that_starts_with_digits() {
    let bytes = build_client_hello(&build_sni_extension("1.example.com"));
    assert_eq!(extract_sni(&bytes), cleartext("1.example.com"));
}

#[test]
fn accepts_hostname_with_three_dots_but_not_four_octets() {
    let bytes = build_client_hello(&build_sni_extension("1.2.3.4.example.com"));
    assert_eq!(extract_sni(&bytes), cleartext("1.2.3.4.example.com"));
}

// ── Non-TLS framings ─────────────────────────────────────────────────────

#[test]
fn dtls_1_2_record_is_rejected_as_malformed() {
    let dtls = [
        0x16, 0xfe, 0xfd, 0x00, 0x01, 0x00, 0x00, 0x00, 0x00, 0x00, 0x01, 0x00, 0x10, 0x01, 0x00,
        0x00, 0x0C, 0xfe, 0xfd, 0xAA, 0xAA, 0xAA, 0xAA, 0xAA, 0xAA, 0xAA, 0xAA, 0xAA, 0xAA,
    ];
    assert_eq!(extract_sni(&dtls), SniOutcome::Malformed);
}

#[test]
fn dtls_1_3_unified_header_is_rejected_as_malformed() {
    let dtls13 = [0x2F, 0x00, 0x00, 0x00, 0x00];
    assert_eq!(extract_sni(&dtls13), SniOutcome::Malformed);
}

#[test]
fn rejects_ssl_2_0_short_format_client_hello() {
    let ssl2 = [0x80, 0x2E, 0x01, 0x00, 0x02, 0x00, 0x18, 0x00, 0x00, 0x00, 0x10];
    assert_eq!(extract_sni(&ssl2), SniOutcome::Malformed);
}

#[test]
fn rejects_ssl_2_0_long_format_client_hello() {
    let ssl2 = [0x00, 0x00, 0x2E, 0x01, 0x00, 0x02];
    assert_eq!(extract_sni(&ssl2), SniOutcome::Malformed);
}

// ── HelloRetryRequest consistency ────────────────────────────────────────

#[test]
fn hrr_sni_consistent_matches_identical_hosts() {
    let a = build_client_hello(&build_sni_extension("example.com"));
    let b = build_client_hello(&build_sni_extension("example.com"));
    assert_eq!(hrr_sni_consistent(&a, &b), Some(true));
}

#[test]
fn hrr_sni_consistent_flags_changed_host() {
    let a = build_client_hello(&build_sni_extension("first.example.com"));
    let b = build_client_hello(&build_sni_extension("second.example.com"));
    assert_eq!(hrr_sni_consistent(&a, &b), Some(false));
}

#[test]
fn hrr_sni_consistent_returns_none_when_either_side_is_not_cleartext() {
    let mut a_exts = build_sni_extension("example.com");
    a_exts.extend_from_slice(&build_ech_extension());
    let a = build_client_hello(&a_exts);
    let b = build_client_hello(&build_sni_extension("example.com"));
    assert_eq!(hrr_sni_consistent(&a, &b), None);
    assert_eq!(hrr_sni_consistent(&[], &b), None);
    assert_eq!(hrr_sni_consistent(&b, &[]), None);
}

// ── pre_shared_key position ──────────────────────────────────────────────

fn build_psk_extension() -> Vec<u8> {
    let payload = [0x00, 0x04, 0xAA, 0xAA, 0xAA, 0xAA, 0x00, 0x21, 0xBB];
    let mut ext = Vec::new();
    ext.extend_from_slice(&EXT_PRE_SHARED_KEY.to_be_bytes());
    ext.extend_from_slice(&(payload.len() as u16).to_be_bytes());
    ext.extend_from_slice(&payload);
    ext
}

#[test]
fn rejects_pre_shared_key_followed_by_another_extension() {
    let mut extensions = build_psk_extension();
    extensions.extend_from_slice(&build_sni_extension("example.com"));
    let bytes = build_client_hello(&extensions);
    assert_eq!(extract_sni(&bytes), SniOutcome::Malformed);
}

#[test]
fn accepts_pre_shared_key_as_last_extension() {
    let mut extensions = build_sni_extension("example.com");
    extensions.extend_from_slice(&build_psk_extension());
    let bytes = build_client_hello(&extensions);
    assert_eq!(extract_sni(&bytes), cleartext("example.com"));
}

#[test]
fn accepts_pre_shared_key_as_only_extension() {
    let extensions = build_psk_extension();
    let bytes = build_client_hello(&extensions);
    assert_eq!(extract_sni(&bytes), SniOutcome::NotFound);
}

// ── ServerNameList shape ─────────────────────────────────────────────────

#[test]
fn rejects_server_name_extension_with_empty_list() {
    let mut ext = Vec::new();
    ext.extend_from_slice(&EXT_SERVER_NAME.to_be_bytes());
    ext.extend_from_slice(&[0x00, 0x02]);
    ext.extend_from_slice(&[0x00, 0x00]);
    let bytes = build_client_hello(&ext);
    assert_eq!(extract_sni(&bytes), SniOutcome::Malformed);
}

#[test]
fn rejects_server_name_extension_with_one_byte_list() {
    let mut ext = Vec::new();
    ext.extend_from_slice(&EXT_SERVER_NAME.to_be_bytes());
    ext.extend_from_slice(&[0x00, 0x03]);
    ext.extend_from_slice(&[0x00, 0x01]);
    ext.extend_from_slice(&[0x00]);
    let bytes = build_client_hello(&ext);
    assert_eq!(extract_sni(&bytes), SniOutcome::Malformed);
}

// ── Multi-record reassembly ──────────────────────────────────────────────

#[test]
fn reassemble_handshake_assembles_single_record() {
    let handshake = build_handshake_message(&build_sni_extension("example.com"));
    let record = wrap_record(CONTENT_TYPE_HANDSHAKE, &handshake);
    let assembled = reassemble_handshake(&record).expect("single record reassembles");
    assert_eq!(assembled, handshake);
}

#[test]
fn reassemble_handshake_assembles_two_record_fragmentation() {
    let handshake = build_handshake_message(&build_sni_extension("example.com"));
    let split = 4 + 2 + 10;
    let records = build_fragmented_records(&handshake, &[split]);
    let assembled = reassemble_handshake(&records).expect("two records reassemble");
    assert_eq!(assembled, handshake);
}

#[test]
fn reassemble_handshake_assembles_many_tiny_fragments() {
    let handshake = build_handshake_message(&build_sni_extension("example.com"));
    let mut records = Vec::new();
    for byte in &handshake {
        records.extend_from_slice(&wrap_record(CONTENT_TYPE_HANDSHAKE, core::slice::from_ref(byte)));
    }
    let assembled = reassemble_handshake(&records).expect("byte-per-record reassembles");
    assert_eq!(assembled, handshake);
}

#[test]
fn reassemble_handshake_rejects_non_handshake_content_type() {
    let handshake = build_handshake_message(&[]);
    let split = 6;
    let mut records = Vec::new();
    records.extend_from_slice(&wrap_record(CONTENT_TYPE_HANDSHAKE, &handshake[..split]));
    records.extend_from_slice(&wrap_record(0x17, &handshake[split..]));
    assert_eq!(reassemble_handshake(&records), None);
}

#[test]
fn reassemble_handshake_rejects_truncated_record() {
    let handshake = build_handshake_message(&build_sni_extension("example.com"));
    let split = 10;
    let mut records = Vec::new();
    records.extend_from_slice(&wrap_record(CONTENT_TYPE_HANDSHAKE, &handshake[..split]));
    records.push(CONTENT_TYPE_HANDSHAKE);
    records.extend_from_slice(&[0x03, 0x01]);
    records.extend_from_slice(&[0x00, 0xC8]);
    records.extend_from_slice(&[0x00; 5]);
    assert_eq!(reassemble_handshake(&records), None);
}

#[test]
fn reassemble_handshake_caps_absurd_handshake_length() {
    let mut handshake = Vec::new();
    handshake.push(HANDSHAKE_TYPE_CLIENT_HELLO);
    handshake.extend_from_slice(&[0xFF, 0xFF, 0xFF]);
    let record = wrap_record(CONTENT_TYPE_HANDSHAKE, &handshake);
    assert_eq!(reassemble_handshake(&record), None);
}

#[test]
fn extract_sni_works_on_fragmented_two_record_client_hello() {
    let handshake = build_handshake_message(&build_sni_extension("example.com"));
    let split = handshake.len() / 2;
    let records = build_fragmented_records(&handshake, &[split]);
    assert_eq!(extract_sni(&records), cleartext("example.com"));
}

// ── Trailing bytes after the extensions block ────────────────────────────

fn build_handshake_with_trailing_body_bytes(extensions: &[u8], trailing: &[u8]) -> Vec<u8> {
    let mut body = Vec::new();
    body.extend_from_slice(&TLS_LEGACY_VERSION.to_be_bytes());
    body.extend_from_slice(&[0xAA; 32]);
    body.push(0);
    body.extend_from_slice(&(DEFAULT_CIPHER_SUITES.len() as u16).to_be_bytes());
    body.extend_from_slice(DEFAULT_CIPHER_SUITES);
    body.push(1);
    body.push(0);
    body.extend_from_slice(&(extensions.len() as u16).to_be_bytes());
    body.extend_from_slice(extensions);
    body.extend_from_slice(trailing);

    let mut handshake = Vec::new();
    handshake.push(HANDSHAKE_TYPE_CLIENT_HELLO);
    let body_len = body.len() as u32;
    handshake.push(((body_len >> 16) & 0xff) as u8);
    handshake.push(((body_len >> 8) & 0xff) as u8);
    handshake.push((body_len & 0xff) as u8);
    handshake.extend_from_slice(&body);
    handshake
}

#[test]
fn tolerates_trailing_bytes_after_extensions_block() {
    let handshake = build_handshake_with_trailing_body_bytes(
        &build_sni_extension("example.com"),
        &[0xDE, 0xAD, 0xBE, 0xEF],
    );
    let record = wrap_record(CONTENT_TYPE_HANDSHAKE, &handshake);
    assert_eq!(extract_sni(&record), cleartext("example.com"));
}

#[test]
fn tolerates_zero_padding_after_extensions_block() {
    let handshake =
        build_handshake_with_trailing_body_bytes(&build_sni_extension("padded.example.com"), &[0x00; 16]);
    let record = wrap_record(CONTENT_TYPE_HANDSHAKE, &handshake);
    assert_eq!(extract_sni(&record), cleartext("padded.example.com"));
}

// ── session_id, cipher_suites, legacy_version, compression ───────────────

#[test]
fn rejects_session_id_longer_than_32_bytes() {
    let handshake = build_handshake_message_with_session_id(&[], &[0xBB; 33]);
    let record = wrap_record(CONTENT_TYPE_HANDSHAKE, &handshake);
    assert_eq!(extract_sni(&record), SniOutcome::Malformed);
}

#[test]
fn accepts_session_id_at_32_byte_boundary() {
    let handshake =
        build_handshake_message_with_session_id(&build_sni_extension("example.com"), &[0xCC; 32]);
    let record = wrap_record(CONTENT_TYPE_HANDSHAKE, &handshake);
    assert_eq!(extract_sni(&record), cleartext("example.com"));
}

#[test]
fn rejects_empty_cipher_suites_list() {
    let handshake = build_handshake_message_with_cipher_suites(&[], &[]);
    let record = wrap_record(CONTENT_TYPE_HANDSHAKE, &handshake);
    assert_eq!(extract_sni(&record), SniOutcome::Malformed);
}

#[test]
fn rejects_odd_length_cipher_suites_list() {
    let handshake = build_handshake_message_with_cipher_suites(&[], &[0x13, 0x01, 0x13]);
    let record = wrap_record(CONTENT_TYPE_HANDSHAKE, &handshake);
    assert_eq!(extract_sni(&record), SniOutcome::Malformed);
}

#[test]
fn accepts_multiple_cipher_suites() {
    let handshake = build_handshake_message_with_cipher_suites(
        &build_sni_extension("example.com"),
        &[0x13, 0x01, 0x13, 0x02, 0x13, 0x03],
    );
    let record = wrap_record(CONTENT_TYPE_HANDSHAKE, &handshake);
    assert_eq!(extract_sni(&record), cleartext("example.com"));
}

#[test]
fn rejects_legacy_version_tls_1_0() {
    let handshake = build_handshake_message_with_version(&[], 0x0301);
    let record = wrap_record(CONTENT_TYPE_HANDSHAKE, &handshake);
    assert_eq!(extract_sni(&record), SniOutcome::Malformed);
}

#[test]
fn rejects_legacy_version_tls_1_1() {
    let handshake = build_handshake_message_with_version(&[], 0x0302);
    let record = wrap_record(CONTENT_TYPE_HANDSHAKE, &handshake);
    assert_eq!(extract_sni(&record), SniOutcome::Malformed);
}

#[test]
fn rejects_legacy_version_ssl_3_0() {
    let handshake = build_handshake_message_with_version(&[], 0x0300);
    let record = wrap_record(CONTENT_TYPE_HANDSHAKE, &handshake);
    assert_eq!(extract_sni(&record), SniOutcome::Malformed);
}

#[test]
fn rejects_legacy_version_above_tls_1_2() {
    let handshake = build_handshake_message_with_version(&[], 0x0304);
    let record = wrap_record(CONTENT_TYPE_HANDSHAKE, &handshake);
    assert_eq!(extract_sni(&record), SniOutcome::Malformed);
}

#[test]
fn accepts_legacy_version_0x0303() {
    let handshake =
        build_handshake_message_with_version(&build_sni_extension("example.com"), TLS_LEGACY_VERSION);
    let record = wrap_record(CONTENT_TYPE_HANDSHAKE, &handshake);
    assert_eq!(extract_sni(&record), cleartext("example.com"));
}

#[test]
fn rejects_compression_methods_without_null() {
    let handshake = build_handshake_message_with_compression(&[], &[0x01]);
    let record = wrap_record(CONTENT_TYPE_HANDSHAKE, &handshake);
    assert_eq!(extract_sni(&record), SniOutcome::Malformed);
}

#[test]
fn rejects_empty_compression_methods() {
    let handshake = build_handshake_message_with_compression(&[], &[]);
    let record = wrap_record(CONTENT_TYPE_HANDSHAKE, &handshake);
    assert_eq!(extract_sni(&record), SniOutcome::Malformed);
}

#[test]
fn accepts_legacy_compression_with_null_present() {
    let handshake =
        build_handshake_message_with_compression(&build_sni_extension("example.com"), &[0x01, 0x00]);
    let record = wrap_record(CONTENT_TYPE_HANDSHAKE, &handshake);
    assert_eq!(extract_sni(&record), cleartext("example.com"));
}

// ── Duplicate extensions ─────────────────────────────────────────────────

#[test]
fn rejects_two_server_name_extensions_in_one_client_hello() {
    let mut extensions = build_sni_extension("first.example.com");
    extensions.extend_from_slice(&build_sni_extension("second.example.com"));
    let bytes = build_client_hello(&extensions);
    assert_eq!(extract_sni(&bytes), SniOutcome::Malformed);
}

#[test]
fn rejects_two_host_name_entries_inside_one_server_name() {
    let extensions = build_sni_extension_with_hosts(&["first.example.com", "second.example.com"]);
    let bytes = build_client_hello(&extensions);
    assert_eq!(extract_sni(&bytes), SniOutcome::Malformed);
}

#[test]
fn rejects_two_encrypted_client_hello_extensions() {
    let mut extensions = build_ech_extension();
    extensions.extend_from_slice(&build_ech_extension());
    let bytes = build_client_hello(&extensions);
    assert_eq!(extract_sni(&bytes), SniOutcome::Malformed);
}

#[test]
fn rejects_two_duplicate_unknown_extensions() {
    let mut extensions = build_extension(0x0050, &[0xAA, 0xBB]);
    extensions.extend_from_slice(&build_extension(0x0050, &[0xCC, 0xDD]));
    extensions.extend_from_slice(&build_sni_extension("legit.example.com"));
    let bytes = build_client_hello(&extensions);
    assert_eq!(extract_sni(&bytes), SniOutcome::Malformed);
}

#[test]
fn accepts_two_distinct_unknown_extensions() {
    let mut extensions = build_extension(0x0A0A, &[]);
    extensions.extend_from_slice(&build_extension(0x1A1A, &[]));
    extensions.extend_from_slice(&build_sni_extension("example.com"));
    extensions.extend_from_slice(&build_extension(0x2A2A, &[]));
    let bytes = build_client_hello(&extensions);
    assert_eq!(extract_sni(&bytes), cleartext("example.com"));
}

#[test]
fn extract_sni_rejects_handshake_followed_by_app_data_record() {
    let handshake = build_handshake_message(&build_sni_extension("evil.example.com"));
    let split = 4 + 2 + 16;
    let mut records = Vec::new();
    records.extend_from_slice(&wrap_record(CONTENT_TYPE_HANDSHAKE, &handshake[..split]));
    records.extend_from_slice(&wrap_record(0x17, &handshake[split..]));
    assert_eq!(extract_sni(&records), SniOutcome::Malformed);
}

// ── Full ClientHello metadata ────────────────────────────────────────────

fn build_alpn_extension(protos: &[&[u8]]) -> Vec<u8> {
    let mut list: Vec<u8> = Vec::new();
    for p in protos {
        list.push(p.len() as u8);
        list.extend_from_slice(p);
    }
    let mut body = Vec::new();
    body.extend_from_slice(&(list.len() as u16).to_be_bytes());
    body.extend_from_slice(&list);
    build_extension(EXT_ALPN, &body)
}

fn build_supported_versions_extension(versions: &[u16]) -> Vec<u8> {
    let mut list: Vec<u8> = Vec::new();
    for v in versions {
        list.extend_from_slice(&v.to_be_bytes());
    }
    let mut body = Vec::new();
    body.push(list.len() as u8);
    body.extend_from_slice(&list);
    build_extension(EXT_SUPPORTED_VERSIONS, &body)
}

#[test]
fn parse_client_hello_full_extracts_host_alpn_versions_and_key_share() {
    let mut exts = Vec::new();
    exts.extend_from_slice(&build_sni_extension("example.com"));
    exts.extend_from_slice(&build_alpn_extension(&[b"h2", b"http/1.1"]));
    exts.extend_from_slice(&build_supported_versions_extension(&[0x0304, 0x0303]));
    exts.extend_from_slice(&build_extension(EXT_KEY_SHARE, &[0x00, 0x00]));
    let bytes = build_client_hello(&exts);

    let meta = parse_client_hello_full(&bytes).expect("well-formed CH");
    assert_eq!(meta.host.as_deref(), Some("example.com"));
    assert!(!meta.ech_present);
    let alpn = meta.alpn_protocols.as_ref().expect("ALPN parsed");
    assert_eq!(alpn.len(), 2);
    assert_eq!(&*alpn[0], b"h2");
    assert_eq!(&*alpn[1], b"http/1.1");
    assert_eq!(meta.supported_versions.as_deref(), Some(&[0x0304, 0x0303][..]));
    assert!(meta.key_share_present);
}

#[test]
fn parse_client_hello_full_returns_none_alpn_when_absent() {
    let bytes = build_client_hello(&build_sni_extension("example.com"));
    let meta = parse_client_hello_full(&bytes).expect("well-formed CH");
    assert!(meta.alpn_protocols.is_none(), "extension absent -> None");
    assert!(meta.supported_versions.is_none());
    assert!(!meta.key_share_present);
}

#[test]
fn parse_client_hello_full_masks_host_when_ech_present() {
    let mut exts = Vec::new();
    exts.extend_from_slice(&build_sni_extension("decoy.example.com"));
    exts.extend_from_slice(&build_extension(EXT_ENCRYPTED_CLIENT_HELLO, &[]));
    let bytes = build_client_hello(&exts);

    let meta = parse_client_hello_full(&bytes).expect("well-formed CH");
    assert!(meta.ech_present);
    assert!(meta.host.is_none(), "ECH must mask the outer SNI");
}

#[test]
fn parse_client_hello_full_rejects_empty_alpn_protocol_name() {
    let mut body = Vec::new();
    body.extend_from_slice(&1u16.to_be_bytes());
    body.push(0);
    let mut exts = Vec::new();
    exts.extend_from_slice(&build_sni_extension("example.com"));
    exts.extend_from_slice(&build_extension(EXT_ALPN, &body));
    let bytes = build_client_hello(&exts);
    assert_eq!(parse_client_hello_full(&bytes), None);
}

#[test]
fn parse_client_hello_full_rejects_odd_length_supported_versions() {
    let mut body = Vec::new();
    body.push(3);
    body.extend_from_slice(&[0x03, 0x04, 0x03]);
    let mut exts = Vec::new();
    exts.extend_from_slice(&build_sni_extension("example.com"));
    exts.extend_from_slice(&build_extension(EXT_SUPPORTED_VERSIONS, &body));
    let bytes = build_client_hello(&exts);
    assert_eq!(parse_client_hello_full(&bytes), None);
}

#[test]
fn extract_sni_is_thin_projection_of_parse_client_hello_full() {
    let inputs: &[Vec<u8>] = &[
        build_client_hello(&build_sni_extension("example.com")),
        {
            let mut exts = Vec::new();
            exts.extend_from_slice(&build_sni_extension("decoy.example.com"));
            exts.extend_from_slice(&build_extension(EXT_ENCRYPTED_CLIENT_HELLO, &[]));
            build_client_hello(&exts)
        },
        build_client_hello(&[]),
        vec![0xff, 0xff, 0xff],
    ];
    for bytes in inputs {
        let projected = match parse_client_hello_full(bytes) {
            None => SniOutcome::Malformed,
            Some(m) if m.ech_present => SniOutcome::Encrypted,
            Some(m) => match m.host {
                Some(host) => SniOutcome::Cleartext { host },
                None => SniOutcome::NotFound,
            },
        };
        assert_eq!(extract_sni(bytes), projected, "input len={}", bytes.len());
    }
}

// ── ALPN classification ──────────────────────────────────────────────────

#[test]
fn alpn_protocol_classifies_the_well_known_wire_values() {
    assert_eq!(AlpnProtocol::from_wire(b"http/1.0"), AlpnProtocol::Http10);
    assert_eq!(AlpnProtocol::from_wire(b"http/1.1"), AlpnProtocol::Http11);
    assert_eq!(AlpnProtocol::from_wire(b"h2"), AlpnProtocol::Http2);
    assert_eq!(AlpnProtocol::from_wire(b"h3"), AlpnProtocol::Http3);
    assert_eq!(AlpnProtocol::from_wire(b"h3-29"), AlpnProtocol::Http3);
    assert_eq!(AlpnProtocol::from_wire(b"h3-32"), AlpnProtocol::Http3);
    assert_eq!(AlpnProtocol::from_wire(b"acme-tls/1"), AlpnProtocol::Other);
    assert_eq!(AlpnProtocol::from_wire(b"dot"), AlpnProtocol::Other);
    assert_eq!(AlpnProtocol::from_wire(b"doq"), AlpnProtocol::Other);
    assert_eq!(AlpnProtocol::from_wire(b""), AlpnProtocol::Other);
    assert_eq!(AlpnProtocol::from_wire(b"h3foo"), AlpnProtocol::Other);
    assert_eq!(AlpnProtocol::from_wire(b"h2c"), AlpnProtocol::Other);
}

#[test]
fn alpn_protocol_kind_strings_are_stable_snake_case() {
    assert_eq!(AlpnProtocol::Http10.kind(), "http_1_0");
    assert_eq!(AlpnProtocol::Http11.kind(), "http_1_1");
    assert_eq!(AlpnProtocol::Http2.kind(), "http_2");
    assert_eq!(AlpnProtocol::Http3.kind(), "http_3");
    assert_eq!(AlpnProtocol::Other.kind(), "other");
}

#[test]
fn alpn_protocol_is_http_excludes_other_only() {
    assert!(AlpnProtocol::Http10.is_http());
    assert!(AlpnProtocol::Http11.is_http());
    assert!(AlpnProtocol::Http2.is_http());
    assert!(AlpnProtocol::Http3.is_http());
    assert!(!AlpnProtocol::Other.is_http());
}

#[test]
fn alpn_classified_preserves_wire_order() {
    let mut exts = Vec::new();
    exts.extend_from_slice(&build_sni_extension("example.com"));
    exts.extend_from_slice(&build_alpn_extension(&[b"h3", b"h2", b"http/1.1"]));
    let bytes = build_client_hello(&exts);
    let meta = parse_client_hello_full(&bytes).expect("well-formed CH");
    assert_eq!(
        meta.alpn_classified().as_deref(),
        Some(&[AlpnProtocol::Http3, AlpnProtocol::Http2, AlpnProtocol::Http11][..]),
    );
}

#[test]
fn alpn_classified_is_none_when_extension_absent() {
    let bytes = build_client_hello(&build_sni_extension("example.com"));
    let meta = parse_client_hello_full(&bytes).expect("well-formed CH");
    assert!(meta.alpn_classified().is_none());
    assert!(!meta.offers(AlpnProtocol::Http2));
    assert!(!meta.offers(AlpnProtocol::Http3));
}

#[test]
fn offers_returns_true_for_each_advertised_protocol() {
    let mut exts = Vec::new();
    exts.extend_from_slice(&build_sni_extension("example.com"));
    exts.extend_from_slice(&build_alpn_extension(&[b"h2", b"http/1.1"]));
    let bytes = build_client_hello(&exts);
    let meta = parse_client_hello_full(&bytes).expect("well-formed CH");
    assert!(meta.offers(AlpnProtocol::Http2));
    assert!(meta.offers(AlpnProtocol::Http11));
    assert!(!meta.offers(AlpnProtocol::Http3));
    assert!(!meta.offers(AlpnProtocol::Http10));
    assert!(!meta.offers(AlpnProtocol::Other));
}

#[test]
fn offers_recognises_h3_draft_codepoints_as_http3() {
    let mut exts = Vec::new();
    exts.extend_from_slice(&build_sni_extension("example.com"));
    exts.extend_from_slice(&build_alpn_extension(&[b"h3-29"]));
    let bytes = build_client_hello(&exts);
    let meta = parse_client_hello_full(&bytes).expect("well-formed CH");
    assert!(meta.offers(AlpnProtocol::Http3), "draft h3-29 must classify as Http3");
}

// ── TLS version classification ───────────────────────────────────────────

#[test]
fn tls_version_classifies_the_known_wire_codepoints() {
    assert_eq!(TlsVersion::from_wire(0x0300), TlsVersion::Ssl30);
    assert_eq!(TlsVersion::from_wire(0x0301), TlsVersion::Tls10);
    assert_eq!(TlsVersion::from_wire(0x0302), TlsVersion::Tls11);
    assert_eq!(TlsVersion::from_wire(0x0303), TlsVersion::Tls12);
    assert_eq!(TlsVersion::from_wire(0x0304), TlsVersion::Tls13);
    assert_eq!(TlsVersion::from_wire(0x0A0A), TlsVersion::Other);
    assert_eq!(TlsVersion::from_wire(0x1A1A), TlsVersion::Other);
    assert_eq!(TlsVersion::from_wire(0x0305), TlsVersion::Other);
    assert_eq!(TlsVersion::from_wire(0x0000), TlsVersion::Other);
    assert_eq!(TlsVersion::from_wire(0xFFFF), TlsVersion::Other);
}

#[test]
fn tls_version_kind_strings_are_stable_snake_case() {
    assert_eq!(TlsVersion::Ssl30.kind(), "ssl_3_0");
    assert_eq!(TlsVersion::Tls10.kind(), "tls_1_0");
    assert_eq!(TlsVersion::Tls11.kind(), "tls_1_1");
    assert_eq!(TlsVersion::Tls12.kind(), "tls_1_2");
    assert_eq!(TlsVersion::Tls13.kind(), "tls_1_3");
    assert_eq!(TlsVersion::Other.kind(), "other");
}

#[test]
fn tls_version_ord_puts_other_below_every_known_version() {
    assert!(TlsVersion::Other < TlsVersion::Ssl30);
    assert!(TlsVersion::Other < TlsVersion::Tls13);
    assert!(TlsVersion::Ssl30 < TlsVersion::Tls10);
    assert!(TlsVersion::Tls10 < TlsVersion::Tls11);
    assert!(TlsVersion::Tls11 < TlsVersion::Tls12);
    assert!(TlsVersion::Tls12 < TlsVersion::Tls13);
    assert!(TlsVersion::Tls13 >= TlsVersion::Tls13);
    assert!(TlsVersion::Other < TlsVersion::Tls13);
}

#[test]
fn supported_versions_classified_preserves_wire_order() {
    let mut exts = Vec::new();
    exts.extend_from_slice(&build_sni_extension("example.com"));
    exts.extend_from_slice(&build_supported_versions_extension(&[0x0304, 0x0303]));
    let bytes = build_client_hello(&exts);
    let meta = parse_client_hello_full(&bytes).expect("well-formed CH");
    assert_eq!(
        meta.supported_versions_classified().as_deref(),
        Some(&[TlsVersion::Tls13, TlsVersion::Tls12][..]),
    );
}

#[test]
fn supported_versions_classified_is_none_when_extension_absent() {
    let bytes = build_client_hello(&build_sni_extension("example.com"));
    let meta = parse_client_hello_full(&bytes).expect("well-formed CH");
    assert!(meta.supported_versions_classified().is_none());
}

#[test]
fn highest_supported_tls_version_picks_max_excluding_grease() {
    let mut exts = Vec::new();
    exts.extend_from_slice(&build_sni_extension("example.com"));
    exts.extend_from_slice(&build_supported_versions_extension(&[0x0A0A, 0x0303, 0x0304]));
    let bytes = build_client_hello(&exts);
    let meta = parse_client_hello_full(&bytes).expect("well-formed CH");
    assert_eq!(meta.highest_supported_tls_version(), TlsVersion::Tls13);
}

#[test]
fn highest_supported_tls_version_falls_back_to_tls12_without_extension() {
    let bytes = build_client_hello(&build_sni_extension("example.com"));
    let meta = parse_client_hello_full(&bytes).expect("well-formed CH");
    assert_eq!(meta.highest_supported_tls_version(), TlsVersion::Tls12);
}

#[test]
fn highest_supported_tls_version_falls_back_to_tls12_when_only_grease() {
    let mut exts = Vec::new();
    exts.extend_from_slice(&build_sni_extension("example.com"));
    exts.extend_from_slice(&build_supported_versions_extension(&[0x0A0A, 0x1A1A]));
    let bytes = build_client_hello(&exts);
    let meta = parse_client_hello_full(&bytes).expect("well-formed CH");
    assert_eq!(meta.highest_supported_tls_version(), TlsVersion::Tls12);
}

#[test]
fn offers_tls_version_when_extension_present() {
    let mut exts = Vec::new();
    exts.extend_from_slice(&build_sni_extension("example.com"));
    exts.extend_from_slice(&build_supported_versions_extension(&[0x0304, 0x0303]));
    let bytes = build_client_hello(&exts);
    let meta = parse_client_hello_full(&bytes).expect("well-formed CH");
    assert!(meta.offers_tls_version(TlsVersion::Tls13));
    assert!(meta.offers_tls_version(TlsVersion::Tls12));
    assert!(!meta.offers_tls_version(TlsVersion::Tls11));
    assert!(!meta.offers_tls_version(TlsVersion::Ssl30));
}

#[test]
fn offers_tls_version_implicit_tls12_without_extension() {
    let bytes = build_client_hello(&build_sni_extension("example.com"));
    let meta = parse_client_hello_full(&bytes).expect("well-formed CH");
    assert!(meta.offers_tls_version(TlsVersion::Tls12));
    assert!(!meta.offers_tls_version(TlsVersion::Tls13));
    assert!(!meta.offers_tls_version(TlsVersion::Tls11));
}

// ── Further cases ────────────────────────────────────────────────────────

#[test]
fn parse_handshake_message_handles_empty_and_foreign_types() {
    assert_eq!(parse_handshake_message(&[]), None);
    assert_eq!(parse_handshake_message(&[0x02, 0x00, 0x00, 0x00]), Some(SniOutcome::Malformed));
    let handshake = build_handshake_message(&build_sni_extension("example.com"));
    assert_eq!(parse_handshake_message(&handshake), Some(cleartext("example.com")));
}

#[test]
fn zero_length_records_are_skipped_during_reassembly() {
    let handshake = build_handshake_message(&build_sni_extension("example.com"));
    let mut records = wrap_record(CONTENT_TYPE_HANDSHAKE, &[]);
    records.extend_from_slice(&wrap_record(CONTENT_TYPE_HANDSHAKE, &handshake));
    assert_eq!(reassemble_handshake(&records), Some(handshake));
}

#[test]
fn ech_masks_host_even_with_an_ip_free_decoy_first() {
    let mut exts = build_extension(EXT_ENCRYPTED_CLIENT_HELLO, &[]);
    exts.extend_from_slice(&build_sni_extension("cloudflare-ech.com"));
    let meta = parse_client_hello_full(&build_client_hello(&exts)).expect("well-formed CH");
    assert!(meta.ech_present);
    assert_eq!(meta.host, None);
    assert_eq!(meta.extension_order, vec![EXT_ENCRYPTED_CLIENT_HELLO, EXT_SERVER_NAME]);
}

#[test]
fn two_record_split_at_every_position_reassembles_identically() {
    let handshake = build_handshake_message(&build_sni_extension("example.com"));
    let single = parse_client_hello_full(&wrap_record(CONTENT_TYPE_HANDSHAKE, &handshake));
    assert!(single.is_some());
    for split in 0..=handshake.len() {
        let records = build_fragmented_records(&handshake, &[split]);
        assert_eq!(reassemble_handshake(&records), Some(handshake.clone()), "split={split}");
        assert_eq!(parse_client_hello_full(&records), single, "split={split}");
    }
}

#[test]
fn bytes_after_a_complete_handshake_are_ignored() {
    let mut records = build_client_hello(&build_sni_extension("example.com"));
    records.extend_from_slice(&[0x17, 0x03, 0x03, 0x00, 0x05, 1, 2, 3]);
    assert_eq!(extract_sni(&records), cleartext("example.com"));
}

#[test]
fn highest_version_ignores_unknown_codepoints_wherever_they_sit() {
    let mut exts = Vec::new();
    exts.extend_from_slice(&build_supported_versions_extension(&[0x0304, 0x7A7A, 0x0301]));
    let meta = parse_client_hello_full(&build_client_hello(&exts)).expect("well-formed CH");
    assert_eq!(meta.highest_supported_tls_version(), TlsVersion::Tls13);
    assert_eq!(
        meta.supported_versions_classified(),
        Some(vec![TlsVersion::Tls13, TlsVersion::Other, TlsVersion::Tls10])
    );
}

#[test]
fn hrr_consistency_is_symmetric() {
    let a = build_client_hello(&build_sni_extension("first.example.com"));
    let b = build_client_hello(&build_sni_extension("second.example.com"));
    let c = build_client_hello(&[]);
    for (x, y) in [(&a, &b), (&a, &c), (&b, &a), (&a, &a)] {
        assert_eq!(hrr_sni_consistent(x, y), hrr_sni_consistent(y, x));
    }
}

#[test]
fn single_record_shortcut_agrees_with_the_record_walk() {
    let handshake = build_handshake_message(&build_sni_extension("example.com"));
    let record = wrap_record(CONTENT_TYPE_HANDSHAKE, &handshake);
    let fast = try_reassemble_single_record(&record).expect("one whole record");
    assert_eq!(fast, &handshake[..]);
    assert_eq!(reassemble_handshake_owned(&record), Some(fast.to_vec()));
    let split = build_fragmented_records(&handshake, &[7]);
    assert_eq!(try_reassemble_single_record(&split), None);
    assert_eq!(reassemble_handshake_owned(&split), Some(handshake));
}

#[test]
fn bytes_after_the_extensions_block_leave_the_parse_unchanged() {
    let handshake = build_handshake_message(&build_sni_extension("example.com"));
    let mut longer = handshake.clone();
    longer.extend_from_slice(&[0xDE, 0xAD, 0xBE, 0xEF]);
    assert_eq!(parse_handshake_message_full(&longer), parse_handshake_message_full(&handshake));
    assert!(parse_handshake_message_full(&handshake).is_some());
}
