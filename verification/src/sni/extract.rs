//! The outcome of a ClientHello peek, and the entry points that produce it.

use vstd::prelude::*;
use vstd::slice::slice_subrange;
use vstd::string::StringSliceAdditionalSpecFns;

use super::client_hello::{
    apply_extension, ext_walk, finish_hello, initial_ext_state, parse_after_random,
    parse_handshake_message_full, spec_parse_handshake, ClientHelloMetadata, ExtState, HelloView,
    HANDSHAKE_TYPE_CLIENT_HELLO,
};
use super::cursor::{be16, take_bytes, take_u16, take_u16_prefixed, take_u24, take_u8, take_u8_prefixed};
use super::reassembly::{
    fragmentation_is_transparent, handshake_records, record_version_is_ignored, versioned_records, reassembly_ignores_trailing_bytes, is_handshake_message, joined,
    reassemble_handshake, spec_reassemble, MAX_RECORD_FRAGMENT,
};
use super::server_name::{
    hostname_shape_ok, ip_address_literal, scan_server_name, server_name_given, spec_server_name,
    HostScan, ServerName,
};
use crate::text::{
    ascii_chars, ascii_lower, ascii_to_string, eq_ignore_ascii_case, hex_digit, hex_digit_of,
    is_ascii_bytes, to_ascii_lower,
};

verus! {

/// What a peek at a candidate ClientHello observed.
///
/// The parse is total: every input maps to exactly one variant, and each
/// routes to its own upstream policy.
#[derive(Debug, Clone, PartialEq, Eq, Hash)]
pub enum SniOutcome {
    /// A visible `server_name` host, verbatim from the wire (one trailing dot
    /// stripped).
    Cleartext { host: String },
    /// An `encrypted_client_hello` extension was present; any visible SNI is
    /// a decoy and is ignored.
    Encrypted,
    /// A valid ClientHello without a usable `server_name`.
    NotFound,
    /// Not a ClientHello, or one that breaks a structural rule.
    Malformed,
}

/// The mathematical model of [`SniOutcome`].
pub enum Outcome {
    Cleartext(Seq<char>),
    Encrypted,
    NotFound,
    Malformed,
}

impl View for SniOutcome {
    type V = Outcome;

    open spec fn view(&self) -> Outcome {
        match self {
            SniOutcome::Cleartext { host } => Outcome::Cleartext(host@),
            SniOutcome::Encrypted => Outcome::Encrypted,
            SniOutcome::NotFound => Outcome::NotFound,
            SniOutcome::Malformed => Outcome::Malformed,
        }
    }
}

pub open spec fn outcome_label(o: Outcome) -> Seq<char> {
    match o {
        Outcome::Cleartext(_) => "cleartext"@,
        Outcome::Encrypted => "encrypted"@,
        Outcome::NotFound => "not_found"@,
        Outcome::Malformed => "malformed"@,
    }
}

impl SniOutcome {
    /// Stable lowercase label for telemetry dimensions.
    pub fn kind(&self) -> (r: &'static str)
        ensures
            r@ == outcome_label(self@),
    {
        match self {
            SniOutcome::Cleartext { .. } => "cleartext",
            SniOutcome::Encrypted => "encrypted",
            SniOutcome::NotFound => "not_found",
            SniOutcome::Malformed => "malformed",
        }
    }
}

/// The outcome a parsed ClientHello projects to: ECH first, then the host.
pub open spec fn outcome_of(m: Option<HelloView>) -> Outcome {
    match m {
        None => Outcome::Malformed,
        Some(h) => if h.ech_present {
            Outcome::Encrypted
        } else {
            match h.host {
                Some(host) => Outcome::Cleartext(host),
                None => Outcome::NotFound,
            }
        },
    }
}

/// Records in, ClientHello fields out.
pub open spec fn spec_client_hello(bytes: Seq<u8>) -> Option<HelloView> {
    match spec_reassemble(bytes) {
        Some(h) => spec_parse_handshake(h),
        None => None,
    }
}

pub open spec fn spec_extract_sni(bytes: Seq<u8>) -> Outcome {
    outcome_of(spec_client_hello(bytes))
}

pub open spec fn spec_parse_handshake_message(h: Seq<u8>) -> Option<Outcome> {
    if h.len() == 0 {
        None
    } else if h[0] != HANDSHAKE_TYPE_CLIENT_HELLO {
        Some(Outcome::Malformed)
    } else {
        Some(outcome_of(spec_parse_handshake(h)))
    }
}

/// A host that passed every hostname check: 1 to 253 bytes, letters,
/// digits, hyphens and dots, labels of at most 63 bytes, and not an IP
/// literal.
pub open spec fn valid_sni_host(h: Seq<char>) -> bool {
    exists|b: Seq<u8>|
        #![trigger ascii_chars(b)]
        h == ascii_chars(b) && hostname_shape_ok(b) && !ip_address_literal(h)
}

proof fn lemma_server_name_host(data: Seq<u8>)
    ensures
        spec_server_name(data) matches ServerName::Host(b) ==> valid_sni_host(ascii_chars(b)),
{
    if let ServerName::Host(b) = spec_server_name(data) {
        if let HostScan::Candidate { host, .. } = scan_server_name(data) {
            assert(b == host);
            assert(hostname_shape_ok(b));
        }
    }
}

pub open spec fn ext_state_host_ok(st: ExtState) -> bool {
    st.sni_host matches Some(h) ==> valid_sni_host(h)
}

proof fn lemma_walk_host(ext: Seq<u8>, pos: int, st: ExtState)
    requires
        ext_state_host_ok(st),
    ensures
        ext_walk(ext, pos, st) matches Some(f) ==> ext_state_host_ok(f),
    decreases ext.len() - pos,
{
    if pos < 0 || ext.len() - pos < 4 || st.psk_seen {
    } else {
        let t = be16(ext, pos) as u16;
        let n = be16(ext, pos + 2);
        if pos + 4 + n > ext.len() || st.seen.contains(t) {
        } else {
            let data = ext.subrange(pos + 4, pos + 4 + n);
            lemma_server_name_host(data);
            if let Some(st2) = apply_extension(st, t, data) {
                assert(ext_state_host_ok(st2));
                lemma_walk_host(ext, pos + 4 + n, st2);
            }
        }
    }
}

/// Every host a parsed ClientHello reports passed the hostname checks.
pub proof fn parsed_host_is_valid(h: Seq<u8>)
    ensures
        spec_parse_handshake(h) matches Some(m) ==> (m.host matches Some(x) ==> valid_sni_host(x)),
{
    lemma_walk_host_all(h);
}

proof fn lemma_walk_host_all(h: Seq<u8>)
    ensures
        spec_parse_handshake(h) matches Some(m) ==> (m.host matches Some(x) ==> valid_sni_host(x)),
{
    if let Some(m) = spec_parse_handshake(h) {
        let p4: int = 38;
        if let Some((sid, p1)) = take_u8_prefixed(h, p4) {
            if let Some((cs, p2)) = take_u16_prefixed(h, p1) {
                if let Some((comp, p3)) = take_u8_prefixed(h, p2) {
                    if let Some((ext, _)) = take_u16_prefixed(h, p3) {
                        lemma_walk_host(ext, 0, initial_ext_state());
                    }
                }
            }
        }
    }
}

/// Every `Cleartext` host that [`extract_sni`] reports passed the hostname
/// checks, whatever the input bytes.
pub proof fn cleartext_host_is_valid(bytes: Seq<u8>)
    ensures
        spec_extract_sni(bytes) matches Outcome::Cleartext(h) ==> valid_sni_host(h),
{
    if let Some(h) = spec_reassemble(bytes) {
        parsed_host_is_valid(h);
    }
}

/// When ECH is present the reported host is always `None`: the visible SNI
/// is a decoy.
pub proof fn ech_masks_visible_host(h: Seq<u8>)
    ensures
        spec_parse_handshake(h) matches Some(m) ==> (m.ech_present ==> m.host is None),
{
}

/// A ClientHello split over several handshake records reads exactly as
/// the handshake message itself, and so as the same message sent in a
/// single record: the metadata, and therefore the SNI outcome, do not
/// depend on the fragmentation.
pub proof fn fragmented_hello_reads_the_same(fragments: Seq<Seq<u8>>, rest: Seq<u8>)
    requires
        is_handshake_message(joined(fragments)),
        forall|i: int| 0 <= i < fragments.len() ==> (#[trigger] fragments[i]).len() <= MAX_RECORD_FRAGMENT,
    ensures
        spec_client_hello(handshake_records(fragments) + rest) == spec_parse_handshake(
            joined(fragments),
        ),
        joined(fragments).len() <= MAX_RECORD_FRAGMENT ==> spec_client_hello(
            handshake_records(fragments) + rest,
        ) == spec_client_hello(handshake_records(seq![joined(fragments)]) + rest),
{
    fragmentation_is_transparent(fragments, rest);
    let single = seq![joined(fragments)];
    if joined(fragments).len() <= MAX_RECORD_FRAGMENT {
        assert(single.drop_last() =~= Seq::<Seq<u8>>::empty());
        assert(joined(Seq::<Seq<u8>>::empty()) == Seq::<u8>::empty());
        assert(single.last() == joined(fragments));
        assert(joined(single) =~= joined(fragments));
        assert forall|i: int| 0 <= i < single.len() implies (#[trigger] single[i]).len()
            <= MAX_RECORD_FRAGMENT by {
            assert(single[i] == joined(fragments));
        }
        fragmentation_is_transparent(single, rest);
    }
}

/// The record version field does not matter: a ClientHello split over
/// handshake records with any `legacy_record_version` values reads exactly
/// as the handshake message itself.
pub proof fn record_version_does_not_change_the_hello(
    fragments: Seq<Seq<u8>>,
    versions: spec_fn(int) -> u16,
    rest: Seq<u8>,
)
    requires
        is_handshake_message(joined(fragments)),
        forall|i: int| 0 <= i < fragments.len() ==> (#[trigger] fragments[i]).len() <= MAX_RECORD_FRAGMENT,
    ensures
        spec_client_hello(versioned_records(fragments, versions) + rest) == spec_parse_handshake(
            joined(fragments),
        ),
        spec_extract_sni(versioned_records(fragments, versions) + rest) == outcome_of(
            spec_parse_handshake(joined(fragments)),
        ),
{
    record_version_is_ignored(fragments, versions, rest);
}

/// Once the records carry a whole handshake message, whatever bytes follow
/// them change neither the metadata nor the SNI outcome.
pub proof fn trailing_bytes_do_not_change_the_outcome(records: Seq<u8>, rest: Seq<u8>)
    requires
        spec_reassemble(records) is Some,
    ensures
        spec_client_hello(records + rest) == spec_client_hello(records),
        spec_extract_sni(records + rest) == spec_extract_sni(records),
{
    reassembly_ignores_trailing_bytes(records, rest);
}

/// Parse a TLS ClientHello from record-framed bytes into the full set of
/// observable fields: reassemble the records, then walk the ClientHello.
/// `None` on any structural failure.
pub fn parse_client_hello_full(bytes: &[u8]) -> (r: Option<ClientHelloMetadata>)
    ensures
        match spec_client_hello(bytes@) {
            Some(m) => r matches Some(x) && x@ == m,
            None => r is None,
        },
        r matches Some(x) ==> (x.ech_present ==> x.host is None),
{
    match reassemble_handshake(bytes) {
        Some(handshake) => parse_handshake_message_full(handshake.as_slice()),
        None => None,
    }
}

fn outcome_from(meta: Option<ClientHelloMetadata>) -> (r: SniOutcome)
    ensures
        r@ == outcome_of(match meta {
            Some(m) => Some(m@),
            None => None,
        }),
{
    match meta {
        None => SniOutcome::Malformed,
        Some(m) => {
            if m.ech_present {
                SniOutcome::Encrypted
            } else {
                match m.host {
                    Some(host) => SniOutcome::Cleartext { host },
                    None => SniOutcome::NotFound,
                }
            }
        },
    }
}

/// Parse record-framed bytes as a TLS ClientHello and report what was
/// observed about the Server Name Indication.
///
/// One record or several consecutive handshake records are accepted and
/// reassembled first. ECH presence wins over any visible SNI. Every input,
/// the empty one included, maps to exactly one outcome.
pub fn extract_sni(bytes: &[u8]) -> (r: SniOutcome)
    ensures
        r@ == spec_extract_sni(bytes@),
        r@ matches Outcome::Cleartext(h) ==> valid_sni_host(h),
{
    proof {
        cleartext_host_is_valid(bytes@);
    }
    outcome_from(parse_client_hello_full(bytes))
}

/// Parse an already-reassembled handshake message and project it to an
/// outcome. `None` only for empty input; a first byte other than the
/// ClientHello type is `Malformed`.
pub fn parse_handshake_message(handshake: &[u8]) -> (r: Option<SniOutcome>)
    ensures
        match spec_parse_handshake_message(handshake@) {
            Some(o) => r matches Some(x) && x@ == o,
            None => r is None,
        },
{
    if handshake.len() == 0 {
        return None;
    }
    if handshake[0] != HANDSHAKE_TYPE_CLIENT_HELLO {
        return Some(SniOutcome::Malformed);
    }
    Some(outcome_from(parse_handshake_message_full(handshake)))
}

/// Whether the SNI of a ClientHello sent after a HelloRetryRequest matches
/// the first one (RFC 8446 §4.1.4): `Some(true)` for the same cleartext
/// host, `Some(false)` for different hosts, `None` unless both sides are
/// cleartext.
pub fn hrr_sni_consistent(first: &[u8], second: &[u8]) -> (r: Option<bool>)
    ensures
        r == match (spec_extract_sni(first@), spec_extract_sni(second@)) {
            (Outcome::Cleartext(a), Outcome::Cleartext(b)) => Some(a == b),
            _ => None,
        },
{
    match (extract_sni(first), extract_sni(second)) {
        (SniOutcome::Cleartext { host: a }, SniOutcome::Cleartext { host: b }) => Some(a == b),
        _ => None,
    }
}

/// The HelloRetryRequest check is symmetric, and a ClientHello is
/// consistent with itself exactly when it carries a cleartext host.
pub proof fn hrr_consistency_symmetric(first: Seq<u8>, second: Seq<u8>)
    ensures
        match (spec_extract_sni(first), spec_extract_sni(second)) {
            (Outcome::Cleartext(a), Outcome::Cleartext(b)) => (a == b) == (b == a),
            _ => true,
        },
        (spec_extract_sni(first) is Cleartext) == (match (
            spec_extract_sni(first),
            spec_extract_sni(first),
        ) {
            (Outcome::Cleartext(a), Outcome::Cleartext(b)) => a == b,
            _ => false,
        }),
{
}

/// The outer SNI Cloudflare presents for every ECH-enabled zone.
pub const CLOUDFLARE_ECH_OUTER_SNI: &'static str = "cloudflare-ech.com";

/// `cloudflare-ech.com`
pub open spec fn cloudflare_ech_outer_bytes() -> Seq<u8> {
    seq![
        0x63u8, 0x6c, 0x6f, 0x75, 0x64, 0x66, 0x6c, 0x61, 0x72, 0x65, 0x2d, 0x65, 0x63, 0x68,
        0x2e, 0x63, 0x6f, 0x6d,
    ]
}

/// Whether `host` is exactly the Cloudflare ECH outer-SNI name, ignoring
/// ASCII case.
pub fn is_cloudflare_ech_outer(host: &str) -> (r: bool)
    ensures
        r == eq_ignore_ascii_case(host.spec_bytes(), cloudflare_ech_outer_bytes()),
{
    let expected: [u8; 18] = [
        0x63, 0x6c, 0x6f, 0x75, 0x64, 0x66, 0x6c, 0x61, 0x72, 0x65, 0x2d, 0x65, 0x63, 0x68,
        0x2e, 0x63, 0x6f, 0x6d,
    ];
    assert(expected@ =~= cloudflare_ech_outer_bytes());
    let b = host.as_bytes();
    if b.len() != 18 {
        return false;
    }
    let mut i: usize = 0;
    while i < 18
        invariant
            0 <= i <= 18,
            b@.len() == 18,
            b@ == host.spec_bytes(),
            expected@ == cloudflare_ech_outer_bytes(),
            forall|k: int|
                0 <= k < i ==> #[trigger] ascii_lower(b@[k]) == ascii_lower(
                    cloudflare_ech_outer_bytes()[k],
                ),
        decreases 18 - i,
    {
        if to_ascii_lower(b[i]) != to_ascii_lower(expected[i]) {
            assert(expected@[i as int] == cloudflare_ech_outer_bytes()[i as int]);
            assert(!(ascii_lower(b@[i as int]) == ascii_lower(cloudflare_ech_outer_bytes()[i as int])));
            return false;
        }
        i = i + 1;
    }
    true
}

/// `xn--`
pub open spec fn a_label_prefix() -> Seq<u8> {
    seq![0x78u8, 0x6e, 0x2d, 0x2d]
}

/// A label starts at byte `i` of `b` and begins with `xn--` in any case.
pub open spec fn a_label_at(b: Seq<u8>, i: int) -> bool {
    &&& 0 <= i
    &&& i + 4 <= b.len()
    &&& (i == 0 || b[i - 1] == 0x2e)
    &&& eq_ignore_ascii_case(b.subrange(i, i + 4), a_label_prefix())
}

/// Whether any label of `host` is a punycode A-label: starts with `xn--`,
/// ignoring ASCII case (RFC 5890 §2.3.2.1).
pub fn is_idn_host(host: &str) -> (r: bool)
    ensures
        r == exists|i: int| #[trigger] a_label_at(host.spec_bytes(), i),
{
    let b = host.as_bytes();
    if b.len() < 4 {
        assert forall|i: int| !#[trigger] a_label_at(b@, i) by {}
        return false;
    }
    let mut i: usize = 0;
    while b.len() - i >= 4
        invariant
            0 <= i,
            b@ == host.spec_bytes(),
            i <= b@.len(),
            forall|k: int| 0 <= k < i ==> !#[trigger] a_label_at(b@, k),
        decreases b@.len() - i,
    {
        let start = i == 0 || b[i - 1] == 0x2e;
        let prefix = to_ascii_lower(b[i]) == 0x78 && to_ascii_lower(b[i + 1]) == 0x6e
            && to_ascii_lower(b[i + 2]) == 0x2d && to_ascii_lower(b[i + 3]) == 0x2d;
        let ghost sub = b@.subrange(i as int, i + 4);
        assert(sub[0] == b@[i as int] && sub[1] == b@[i + 1] && sub[2] == b@[i + 2] && sub[3]
            == b@[i + 3]);
        assert(prefix == eq_ignore_ascii_case(sub, a_label_prefix()));
        if start && prefix {
            assert(a_label_at(b@, i as int));
            return true;
        }
        i = i + 1;
    }
    assert forall|k: int| !#[trigger] a_label_at(b@, k) by {}
    false
}

/// Space-separated lowercase hex of the first 64 bytes (forensic preview of
/// input that did not parse).
pub open spec fn hex_preview(b: Seq<u8>) -> Seq<u8> {
    let n = if b.len() < 64 {
        b.len() as int
    } else {
        64
    };
    Seq::new(
        if n == 0 {
            0
        } else {
            (3 * n - 1) as nat
        },
        |i: int|
            if i % 3 == 2 {
                0x20u8
            } else if i % 3 == 0 {
                hex_digit(b[i / 3] as int / 16)
            } else {
                hex_digit(b[i / 3] as int % 16)
            },
    )
}

/// Hex preview of input that did not parse: the first 64 bytes as
/// two-digit lowercase hex, separated by single spaces.
pub fn malformed_hex_preview(bytes: &[u8]) -> (s: String)
    ensures
        s@ == ascii_chars(hex_preview(bytes@)),
{
    let n: usize = if bytes.len() < 64 {
        bytes.len()
    } else {
        64
    };
    let mut out: Vec<u8> = Vec::new();
    let mut i: usize = 0;
    while i < n
        invariant
            0 <= i <= n,
            n <= 64,
            n <= bytes@.len(),
            n == (if bytes@.len() < 64 {
                bytes@.len() as int
            } else {
                64
            }),
            out@.len() == if i == 0 {
                0
            } else {
                3 * i - 1
            },
            forall|k: int| 0 <= k < out@.len() ==> out@[k] == hex_preview(bytes@)[k],
            is_ascii_bytes(out@),
        decreases n - i,
    {
        if i > 0 {
            out.push(0x20);
        }
        out.push(hex_digit_of(bytes[i] / 16));
        out.push(hex_digit_of(bytes[i] % 16));
        i = i + 1;
    }
    assert(out@ =~= hex_preview(bytes@));
    ascii_to_string(out.as_slice())
}

} // verus!
