//! The `server_name` extension (RFC 6066 §3) and the hostname checks applied
//! to the `host_name` it carries.

use vstd::prelude::*;
use vstd::slice::slice_subrange;
use vstd::utf8::*;

use super::cursor::{take_u16_prefixed, take_u8, Cursor};
use crate::text::{ascii_chars, lemma_ascii_decode, lemma_ascii_valid_utf8, utf8_str};

verus! {

/// NameType value for `host_name` inside a ServerName.
pub const NAME_TYPE_HOST_NAME: u8 = 0;

/// Longest hostname accepted, in bytes (RFC 1035 presentation form).
pub const MAX_HOSTNAME_LEN: usize = 253;

/// Longest DNS label accepted, in bytes.
pub const MAX_LABEL_LEN: usize = 63;

/// Whether `text` is a literal IPv4 or IPv6 address as std's `IpAddr` parser
/// reads one. Named rather than restated: it is what
/// `str::parse::<core::net::IpAddr>` accepts.
pub uninterp spec fn ip_address_literal(text: Seq<char>) -> bool;

/// A letter, a digit, a hyphen or a dot.
pub open spec fn is_ldh_byte(b: u8) -> bool {
    (0x30 <= b <= 0x39) || (0x41 <= b <= 0x5a) || (0x61 <= b <= 0x7a) || b == 0x2d || b == 0x2e
}

pub open spec fn all_ldh(h: Seq<u8>) -> bool {
    forall|i: int| 0 <= i < h.len() ==> #[trigger] is_ldh_byte(h[i])
}

/// Length of the run of non-dot bytes that ends just before index `j`.
pub open spec fn run_before(h: Seq<u8>, j: int) -> nat
    decreases j,
{
    if j <= 0 {
        0
    } else if h[j - 1] == 0x2e {
        0
    } else {
        run_before(h, j - 1) + 1
    }
}

/// No dot-separated label is longer than [`MAX_LABEL_LEN`].
pub open spec fn labels_ok(h: Seq<u8>) -> bool {
    forall|j: int| 0 <= j <= h.len() ==> #[trigger] run_before(h, j) <= MAX_LABEL_LEN
}

/// The host with a single trailing dot (the FQDN marker) removed.
pub open spec fn strip_trailing_dot(h: Seq<u8>) -> Seq<u8> {
    if h.len() > 0 && h[h.len() - 1] == 0x2e {
        h.subrange(0, h.len() - 1)
    } else {
        h
    }
}

/// Every check on a hostname but the IP-literal one: non-empty, at most 253
/// bytes, labels of at most 63 bytes, letters/digits/hyphens/dots only.
pub open spec fn hostname_shape_ok(h: Seq<u8>) -> bool {
    &&& h.len() > 0
    &&& h.len() <= MAX_HOSTNAME_LEN
    &&& labels_ok(h)
    &&& all_ldh(h)
}

/// What a `server_name` extension body yields before the IP-literal check.
pub enum HostScan {
    /// A clear RFC violation.
    Malformed,
    /// Well-formed, but no usable host name.
    Skip,
    /// A host name of the right shape, and whether a second `host_name`
    /// entry follows it.
    Candidate { host: Seq<u8>, duplicate: bool },
}

pub open spec fn scan_server_name(data: Seq<u8>) -> HostScan {
    match take_u16_prefixed(data, 0) {
        None => HostScan::Malformed,
        Some((list, _)) => if list.len() < 3 {
            HostScan::Malformed
        } else if list[0] != NAME_TYPE_HOST_NAME {
            HostScan::Skip
        } else {
            match take_u16_prefixed(list, 1) {
                None => HostScan::Malformed,
                Some((raw, next)) => if !valid_utf8(raw) {
                    HostScan::Skip
                } else if !hostname_shape_ok(strip_trailing_dot(raw)) {
                    HostScan::Malformed
                } else {
                    HostScan::Candidate {
                        host: strip_trailing_dot(raw),
                        duplicate: take_u8(list, next) matches Some((t, _)) && t
                            == NAME_TYPE_HOST_NAME,
                    }
                },
            }
        },
    }
}

/// The outcome of a `server_name` extension body, spec side.
pub enum ServerName {
    Host(Seq<u8>),
    Skip,
    Malformed,
}

/// The outcome given whether the candidate host is an IP literal.
pub open spec fn server_name_given(data: Seq<u8>, host_is_ip_literal: bool) -> ServerName {
    match scan_server_name(data) {
        HostScan::Malformed => ServerName::Malformed,
        HostScan::Skip => ServerName::Skip,
        HostScan::Candidate { host, duplicate } => if host_is_ip_literal || duplicate {
            ServerName::Malformed
        } else {
            ServerName::Host(host)
        },
    }
}

/// The outcome of a `server_name` extension body.
pub open spec fn spec_server_name(data: Seq<u8>) -> ServerName {
    match scan_server_name(data) {
        HostScan::Candidate { host, .. } => server_name_given(
            data,
            ip_address_literal(ascii_chars(host)),
        ),
        _ => server_name_given(data, false),
    }
}

/// Result of parsing one `server_name` extension body.
pub enum ServerNameOutcome {
    /// A usable `host_name`, verbatim from the wire (one trailing dot
    /// stripped).
    Host(String),
    /// Well-formed extension but no usable host: the first entry is not a
    /// `host_name`, or its bytes are not UTF-8.
    Skip,
    /// A violation that rejects the whole ClientHello.
    Malformed,
}

impl ServerNameOutcome {
    pub open spec fn view_matches(&self, s: ServerName) -> bool {
        match (self, s) {
            (ServerNameOutcome::Host(h), ServerName::Host(b)) => h@ == ascii_chars(b),
            (ServerNameOutcome::Skip, ServerName::Skip) => true,
            (ServerNameOutcome::Malformed, ServerName::Malformed) => true,
            _ => false,
        }
    }
}

/// `str::parse::<core::net::IpAddr>` succeeds on `text`. The result is named
/// by [`ip_address_literal`]; nothing more is claimed about which strings
/// std accepts.
#[verifier::external_body]
fn is_ip_literal(text: &str) -> (r: bool)
    ensures
        r == ip_address_literal(text@),
{
    text.parse::<core::net::IpAddr>().is_ok()
}

/// `memchr::memchr_iter(needle, haystack)`, collected: every position of
/// `needle` in `haystack`, each once, in ascending order.
#[verifier::external_body]
fn byte_positions(needle: u8, haystack: &[u8]) -> (r: Vec<usize>)
    ensures
        forall|i: int|
            0 <= i < r.len() ==> (#[trigger] r[i]) < haystack.len() && haystack[r[i] as int]
                == needle,
        forall|i: int, j: int| 0 <= i < j < r.len() ==> r[i] < r[j],
        forall|k: int|
            0 <= k < haystack.len() && #[trigger] haystack[k] == needle ==> exists|i: int|
                0 <= i < r.len() && r[i] == k,
{
    memchr::memchr_iter(needle, haystack).collect()
}

/// `run_before` grows by one per byte across a stretch without dots.
proof fn lemma_run_linear(h: Seq<u8>, a: int, b: int)
    requires
        0 <= a <= b <= h.len(),
        a == 0 || h[a - 1] == 0x2e,
        forall|k: int| a <= k < b ==> h[k] != 0x2e,
    ensures
        run_before(h, b) == b - a,
    decreases b,
{
    if b > a {
        lemma_run_linear(h, a, b - 1);
    }
}

/// The label-length check, by walking the dot positions.
fn labels_within_limit(h: &[u8]) -> (ok: bool)
    ensures
        ok == labels_ok(h@),
{
    let dots = byte_positions(0x2e, h);
    let hlen = h.len();
    let mut prev: usize = 0;
    let mut t: usize = 0;
    while t < dots.len()
        invariant
            0 <= t <= dots.len(),
            hlen == h@.len(),
            prev <= h@.len(),
            t == 0 ==> prev == 0,
            t > 0 ==> prev == dots[t - 1] + 1,
            prev == 0 || h@[prev - 1] == 0x2e,
            forall|j: int| 0 <= j <= prev ==> #[trigger] run_before(h@, j) <= MAX_LABEL_LEN,
            forall|i: int|
                0 <= i < dots.len() ==> (#[trigger] dots[i]) < h@.len() && h@[dots[i] as int]
                    == 0x2e,
            forall|i: int, j: int| 0 <= i < j < dots.len() ==> dots[i] < dots[j],
            forall|k: int|
                0 <= k < h@.len() && #[trigger] h@[k] == 0x2e ==> exists|i: int|
                    0 <= i < dots.len() && dots[i] == k,
        decreases dots.len() - t,
    {
        let d = dots[t];
        assert(dots[t as int] < h@.len());
        assert forall|k: int| prev <= k < d implies h@[k] != 0x2e by {
            if h@[k] == 0x2e {
                let u = choose|u: int| 0 <= u < dots.len() && dots[u] == k;
                if u < t {
                    if t > 0 {
                        assert(dots[u] <= dots[t - 1]);
                    }
                } else if u >= t {
                    if u > t {
                        assert(dots[t as int] < dots[u]);
                    }
                }
            }
        }
        if t > 0 {
            assert(dots[t - 1] < dots[t as int]);
        }
        proof {
            lemma_run_linear(h@, prev as int, d as int);
        }
        if d - prev > MAX_LABEL_LEN {
            assert(run_before(h@, d as int) > MAX_LABEL_LEN);
            return false;
        }
        assert forall|j: int| 0 <= j <= d + 1 implies #[trigger] run_before(h@, j)
            <= MAX_LABEL_LEN by {
            if j > prev && j <= d {
                lemma_run_linear(h@, prev as int, j);
            }
        }
        prev = d + 1;
        t = t + 1;
    }
    assert forall|k: int| prev <= k < h@.len() implies h@[k] != 0x2e by {
        if h@[k] == 0x2e {
            let u = choose|u: int| 0 <= u < dots.len() && dots[u] == k;
            if t > 0 {
                assert(dots[u] <= dots[t - 1]);
            }
        }
    }
    proof {
        lemma_run_linear(h@, prev as int, h@.len() as int);
    }
    if h.len() - prev > MAX_LABEL_LEN {
        assert(run_before(h@, h@.len() as int) > MAX_LABEL_LEN);
        return false;
    }
    assert forall|j: int| 0 <= j <= h@.len() implies #[trigger] run_before(h@, j)
        <= MAX_LABEL_LEN by {
        if j > prev {
            lemma_run_linear(h@, prev as int, j);
        }
    }
    true
}

fn is_ldh(b: u8) -> (r: bool)
    ensures
        r == is_ldh_byte(b),
{
    (0x30 <= b && b <= 0x39) || (0x41 <= b && b <= 0x5a) || (0x61 <= b && b <= 0x7a) || b
        == 0x2d || b == 0x2e
}

fn all_ldh_bytes(h: &[u8]) -> (r: bool)
    ensures
        r == all_ldh(h@),
{
    let mut i: usize = 0;
    while i < h.len()
        invariant
            0 <= i <= h@.len(),
            forall|k: int| 0 <= k < i ==> #[trigger] is_ldh_byte(h@[k]),
        decreases h@.len() - i,
    {
        if !is_ldh(h[i]) {
            return false;
        }
        i = i + 1;
    }
    true
}

/// The executable counterpart of [`HostScan`]; a candidate carries the host
/// as a string slice.
enum Scan<'a> {
    Malformed,
    Skip,
    Candidate(&'a str, bool),
}

fn scan_server_name_exec(data: &[u8]) -> (r: Scan<'_>)
    ensures
        match (r, scan_server_name(data@)) {
            (Scan::Malformed, HostScan::Malformed) => true,
            (Scan::Skip, HostScan::Skip) => true,
            (Scan::Candidate(s, dup), HostScan::Candidate { host, duplicate }) => s@
                == ascii_chars(host) && dup == duplicate && hostname_shape_ok(host),
            _ => false,
        },
{
    let mut c = Cursor::new(data);
    let list = match c.read_u16_prefixed() {
        Some(l) => l,
        None => return Scan::Malformed,
    };
    let mut entries = Cursor::new(list);
    if entries.remaining() < 3 {
        return Scan::Malformed;
    }
    let name_type = match entries.read_u8() {
        Some(t) => t,
        None => return Scan::Malformed,
    };
    if name_type != NAME_TYPE_HOST_NAME {
        return Scan::Skip;
    }
    let raw = match entries.read_u16_prefixed() {
        Some(h) => h,
        None => return Scan::Malformed,
    };
    if utf8_str(raw).is_none() {
        return Scan::Skip;
    }
    let host = if raw.len() > 0 && raw[raw.len() - 1] == 0x2e {
        slice_subrange(raw, 0, raw.len() - 1)
    } else {
        raw
    };
    assert(host@ == strip_trailing_dot(raw@));
    if host.len() == 0 || host.len() > MAX_HOSTNAME_LEN {
        return Scan::Malformed;
    }
    if !labels_within_limit(host) {
        return Scan::Malformed;
    }
    if !all_ldh_bytes(host) {
        return Scan::Malformed;
    }
    proof {
        assert forall|i: int| 0 <= i < host@.len() implies host@[i] < 0x80 by {
            assert(is_ldh_byte(host@[i]));
        }
        lemma_ascii_valid_utf8(host@);
    }
    let text = match utf8_str(host) {
        Some(s) => s,
        None => return Scan::Skip,
    };
    proof {
        assert forall|i: int| 0 <= i < host@.len() implies host@[i] < 0x80 by {
            assert(is_ldh_byte(host@[i]));
        }
        lemma_ascii_decode(text@, host@);
    }
    let duplicate = match entries.read_u8() {
        Some(t) => t == NAME_TYPE_HOST_NAME,
        None => false,
    };
    Scan::Candidate(text, duplicate)
}

/// The outcome of a `server_name` extension body, given whether its
/// candidate host is an IP literal.
///
/// The first `ServerName` entry is consumed: a list too short to hold one
/// entry, or a length prefix that overruns, is `Malformed`; a first entry of
/// another name type is `Skip`; a host whose bytes are not UTF-8 is `Skip`.
/// After one trailing dot is stripped the host must be non-empty, at most 253
/// bytes, with labels of at most 63 bytes, made of letters, digits, hyphens
/// and dots, and not an IP literal; a second `host_name` entry right after it
/// is `Malformed`.
pub fn classify_server_name(data: &[u8], host_is_ip_literal: bool) -> (r: ServerNameOutcome)
    ensures
        r.view_matches(server_name_given(data@, host_is_ip_literal)),
{
    match scan_server_name_exec(data) {
        Scan::Malformed => ServerNameOutcome::Malformed,
        Scan::Skip => ServerNameOutcome::Skip,
        Scan::Candidate(text, duplicate) => {
            if host_is_ip_literal || duplicate {
                ServerNameOutcome::Malformed
            } else {
                ServerNameOutcome::Host(text.to_owned())
            }
        },
    }
}

/// Parse the body of a `server_name` extension.
pub fn parse_server_name_extension(data: &[u8]) -> (r: ServerNameOutcome)
    ensures
        r.view_matches(spec_server_name(data@)),
{
    let ip = match scan_server_name_exec(data) {
        Scan::Candidate(text, _) => is_ip_literal(text),
        _ => false,
    };
    classify_server_name(data, ip)
}

} // verus!
