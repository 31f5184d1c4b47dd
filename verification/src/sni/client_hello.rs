//! The ClientHello walker: an already-reassembled handshake message in, the
//! observable fields of the ClientHello out.

use vstd::prelude::*;
use vstd::slice::slice_to_vec;

use super::cursor::{
    be16, take_bytes, take_u16, take_u16_prefixed, take_u24, take_u8, take_u8_prefixed, Cursor,
};
use crate::text::ascii_chars;
use super::server_name::{
    parse_server_name_extension, spec_server_name, ServerName, ServerNameOutcome,
};

verus! {

/// Extension type for `server_name` (RFC 6066 §3).
pub const EXT_SERVER_NAME: u16 = 0x0000;

/// Extension type for `encrypted_client_hello`.
pub const EXT_ENCRYPTED_CLIENT_HELLO: u16 = 0xfe0d;

/// Extension type for `pre_shared_key` (RFC 8446 §4.2.11); it must be the
/// last extension of a ClientHello.
pub const EXT_PRE_SHARED_KEY: u16 = 0x0029;

/// Extension type for `application_layer_protocol_negotiation` (RFC 7301).
pub const EXT_ALPN: u16 = 0x0010;

/// Extension type for `supported_versions` (RFC 8446 §4.2.1).
pub const EXT_SUPPORTED_VERSIONS: u16 = 0x002b;

/// Extension type for `key_share` (RFC 8446 §4.2.8); only its presence is
/// recorded.
pub const EXT_KEY_SHARE: u16 = 0x0033;

/// Extension type for `supported_groups` (RFC 8422 §5.1.1).
pub const EXT_SUPPORTED_GROUPS: u16 = 0x000a;

/// Extension type for `ec_point_formats` (RFC 8422 §5.1.2).
pub const EXT_EC_POINT_FORMATS: u16 = 0x000b;

/// Handshake type for ClientHello.
pub const HANDSHAKE_TYPE_CLIENT_HELLO: u8 = 1;

/// The `legacy_version` every TLS 1.2 or 1.3 ClientHello carries
/// (RFC 8446 §4.1.2).
pub const TLS_LEGACY_VERSION: u16 = 0x0303;

/// Full set of observable fields extracted from a TLS ClientHello.
///
/// A ClientHello that fails any structural check is refused as a whole;
/// there is no lenient mode.
#[derive(Debug, Clone, PartialEq, Eq)]
pub struct ClientHelloMetadata {
    /// Visible SNI host. `None` when no `server_name` carried a usable
    /// `host_name`, and always `None` when ECH is present: the outer SNI is a
    /// decoy then.
    pub host: Option<String>,
    /// An `encrypted_client_hello` extension was seen.
    pub ech_present: bool,
    /// ALPN protocol identifiers in wire order; `None` if the extension was
    /// absent.
    pub alpn_protocols: Option<Vec<Vec<u8>>>,
    /// `supported_versions` entries in wire order; `None` if absent.
    pub supported_versions: Option<Vec<u16>>,
    /// A `key_share` extension was present.
    pub key_share_present: bool,
    /// Cipher suites in wire order.
    pub cipher_suites: Vec<u16>,
    /// Extension types in wire order.
    pub extension_order: Vec<u16>,
    /// `supported_groups` entries in wire order; `None` if the extension was
    /// absent or its list was not a well-formed `u16` list.
    pub supported_groups: Option<Vec<u16>>,
    /// `ec_point_formats` entries in wire order; `None` if the extension was
    /// absent or its list overran.
    pub ec_point_formats: Option<Vec<u8>>,
}

/// The mathematical model of [`ClientHelloMetadata`].
pub struct HelloView {
    pub host: Option<Seq<char>>,
    pub ech_present: bool,
    pub alpn_protocols: Option<Seq<Seq<u8>>>,
    pub supported_versions: Option<Seq<u16>>,
    pub key_share_present: bool,
    pub cipher_suites: Seq<u16>,
    pub extension_order: Seq<u16>,
    pub supported_groups: Option<Seq<u16>>,
    pub ec_point_formats: Option<Seq<u8>>,
}

pub open spec fn opt_string_view(o: Option<String>) -> Option<Seq<char>> {
    match o {
        Some(s) => Some(s@),
        None => None,
    }
}

pub open spec fn opt_vec_view<T>(o: Option<Vec<T>>) -> Option<Seq<T>> {
    match o {
        Some(v) => Some(v@),
        None => None,
    }
}

/// The contents of a list of byte vectors.
pub open spec fn nested_view(v: Seq<Vec<u8>>) -> Seq<Seq<u8>> {
    Seq::new(v.len(), |i: int| v[i]@)
}

pub open spec fn opt_nested_view(o: Option<Vec<Vec<u8>>>) -> Option<Seq<Seq<u8>>> {
    match o {
        Some(v) => Some(nested_view(v@)),
        None => None,
    }
}

impl View for ClientHelloMetadata {
    type V = HelloView;

    open spec fn view(&self) -> HelloView {
        HelloView {
            host: opt_string_view(self.host),
            ech_present: self.ech_present,
            alpn_protocols: opt_nested_view(self.alpn_protocols),
            supported_versions: opt_vec_view(self.supported_versions),
            key_share_present: self.key_share_present,
            cipher_suites: self.cipher_suites@,
            extension_order: self.extension_order@,
            supported_groups: opt_vec_view(self.supported_groups),
            ec_point_formats: opt_vec_view(self.ec_point_formats),
        }
    }
}

/// A byte string read as consecutive big-endian `u16` values.
pub open spec fn u16_pairs(s: Seq<u8>) -> Seq<u16> {
    Seq::new(s.len() / 2, |i: int| be16(s, 2 * i) as u16)
}

/// The ALPN protocol list from position `pos`, appended to `acc`.
pub open spec fn alpn_walk(list: Seq<u8>, pos: int, acc: Seq<Seq<u8>>) -> Option<Seq<Seq<u8>>>
    decreases list.len() - pos,
{
    if pos < 0 || pos >= list.len() {
        Some(acc)
    } else {
        let n = list[pos] as int;
        if pos + 1 + n > list.len() || n == 0 {
            None
        } else {
            alpn_walk(list, pos + 1 + n, acc.push(list.subrange(pos + 1, pos + 1 + n)))
        }
    }
}

/// ALPN extension body (RFC 7301): a `u16`-prefixed list of non-empty
/// `u8`-prefixed protocol names.
pub open spec fn spec_alpn(data: Seq<u8>) -> Option<Seq<Seq<u8>>> {
    match take_u16_prefixed(data, 0) {
        Some((list, _)) => alpn_walk(list, 0, Seq::empty()),
        None => None,
    }
}

/// `supported_versions` body in a ClientHello: a `u8`-prefixed, non-empty,
/// even-length list of `u16` versions.
pub open spec fn spec_supported_versions(data: Seq<u8>) -> Option<Seq<u16>> {
    match take_u8_prefixed(data, 0) {
        Some((list, _)) => if list.len() == 0 || list.len() % 2 != 0 {
            None
        } else {
            Some(u16_pairs(list))
        },
        None => None,
    }
}

/// `supported_groups` body: a `u16`-prefixed even-length list of `u16`
/// groups, when it is one.
pub open spec fn spec_supported_groups(data: Seq<u8>) -> Option<Seq<u16>> {
    match take_u16_prefixed(data, 0) {
        Some((list, _)) => if list.len() % 2 != 0 {
            None
        } else {
            Some(u16_pairs(list))
        },
        None => None,
    }
}

/// `ec_point_formats` body: a `u8`-prefixed list of formats, when it fits.
pub open spec fn spec_ec_point_formats(data: Seq<u8>) -> Option<Seq<u8>> {
    match take_u8_prefixed(data, 0) {
        Some((list, _)) => Some(list),
        None => None,
    }
}

/// What the extension walk has gathered so far.
pub struct ExtState {
    pub seen: Seq<u16>,
    pub psk_seen: bool,
    pub sni_host: Option<Seq<char>>,
    pub ech_present: bool,
    pub alpn_protocols: Option<Seq<Seq<u8>>>,
    pub supported_versions: Option<Seq<u16>>,
    pub key_share_present: bool,
    pub supported_groups: Option<Seq<u16>>,
    pub ec_point_formats: Option<Seq<u8>>,
}

pub open spec fn initial_ext_state() -> ExtState {
    ExtState {
        seen: Seq::empty(),
        psk_seen: false,
        sni_host: None,
        ech_present: false,
        alpn_protocols: None,
        supported_versions: None,
        key_share_present: false,
        supported_groups: None,
        ec_point_formats: None,
    }
}

/// One extension of type `t` with body `data`, applied to the gathered
/// state; `None` rejects the ClientHello.
pub open spec fn apply_extension(st: ExtState, t: u16, data: Seq<u8>) -> Option<ExtState> {
    let base = ExtState { seen: st.seen.push(t), psk_seen: st.psk_seen || t == EXT_PRE_SHARED_KEY, ..st };
    if t == EXT_ENCRYPTED_CLIENT_HELLO {
        Some(ExtState { ech_present: true, ..base })
    } else if t == EXT_SERVER_NAME {
        match spec_server_name(data) {
            ServerName::Host(h) => Some(ExtState { sni_host: Some(ascii_chars(h)), ..base }),
            ServerName::Skip => Some(base),
            ServerName::Malformed => None,
        }
    } else if t == EXT_ALPN {
        match spec_alpn(data) {
            Some(l) => Some(ExtState { alpn_protocols: Some(l), ..base }),
            None => None,
        }
    } else if t == EXT_SUPPORTED_VERSIONS {
        match spec_supported_versions(data) {
            Some(v) => Some(ExtState { supported_versions: Some(v), ..base }),
            None => None,
        }
    } else if t == EXT_KEY_SHARE {
        Some(ExtState { key_share_present: true, ..base })
    } else if t == EXT_SUPPORTED_GROUPS {
        Some(ExtState { supported_groups: spec_supported_groups(data), ..base })
    } else if t == EXT_EC_POINT_FORMATS {
        Some(ExtState { ec_point_formats: spec_ec_point_formats(data), ..base })
    } else {
        Some(base)
    }
}

/// The extension block walk from position `pos`. Fewer than four bytes left
/// end the walk; an extension after `pre_shared_key`, a repeated extension
/// type, or an overrunning body rejects the ClientHello.
pub open spec fn ext_walk(ext: Seq<u8>, pos: int, st: ExtState) -> Option<ExtState>
    decreases ext.len() - pos,
{
    if pos < 0 || ext.len() - pos < 4 {
        Some(st)
    } else if st.psk_seen {
        None
    } else {
        let t = be16(ext, pos) as u16;
        let n = be16(ext, pos + 2);
        if pos + 4 + n > ext.len() {
            None
        } else if st.seen.contains(t) {
            None
        } else {
            match apply_extension(st, t, ext.subrange(pos + 4, pos + 4 + n)) {
                Some(st2) => ext_walk(ext, pos + 4 + n, st2),
                None => None,
            }
        }
    }
}

/// The metadata a finished extension walk yields: ECH masks the visible SNI.
pub open spec fn finish_hello(cipher_suites: Seq<u8>, st: ExtState) -> HelloView {
    HelloView {
        host: if st.ech_present {
            None
        } else {
            st.sni_host
        },
        ech_present: st.ech_present,
        alpn_protocols: st.alpn_protocols,
        supported_versions: st.supported_versions,
        key_share_present: st.key_share_present,
        cipher_suites: u16_pairs(cipher_suites),
        extension_order: st.seen,
        supported_groups: st.supported_groups,
        ec_point_formats: st.ec_point_formats,
    }
}

/// The ClientHello fields after the 32 random bytes, from position `p`.
pub open spec fn parse_after_random(h: Seq<u8>, p: int) -> Option<HelloView> {
    match take_u8_prefixed(h, p) {
        None => None,
        Some((sid, p1)) => if sid.len() > 32 {
            None
        } else {
            match take_u16_prefixed(h, p1) {
                None => None,
                Some((cs, p2)) => if cs.len() == 0 || cs.len() % 2 != 0 {
                    None
                } else {
                    match take_u8_prefixed(h, p2) {
                        None => None,
                        Some((comp, p3)) => if !comp.contains(0u8) {
                            None
                        } else {
                            match take_u16_prefixed(h, p3) {
                                None => None,
                                Some((ext, _)) => match ext_walk(ext, 0, initial_ext_state()) {
                                    Some(st) => Some(finish_hello(cs, st)),
                                    None => None,
                                },
                            }
                        },
                    }
                },
            }
        },
    }
}

/// A handshake message parsed as a ClientHello: handshake type 1, a `u24`
/// length (not re-checked), `legacy_version` 0x0303, 32 random bytes, a
/// session id of at most 32 bytes, a non-empty even-length cipher suite
/// list, compression methods that include null, and the extension block.
/// Bytes after the extension block are ignored.
pub open spec fn spec_parse_handshake(h: Seq<u8>) -> Option<HelloView> {
    match take_u8(h, 0) {
        None => None,
        Some((ty, p1)) => if ty != HANDSHAKE_TYPE_CLIENT_HELLO {
            None
        } else {
            match take_u24(h, p1) {
                None => None,
                Some((_, p2)) => match take_u16(h, p2) {
                    None => None,
                    Some((ver, p3)) => if ver != TLS_LEGACY_VERSION {
                        None
                    } else {
                        match take_bytes(h, p3, 32) {
                            None => None,
                            Some((_, p4)) => parse_after_random(h, p4),
                        }
                    },
                },
            }
        },
    }
}

proof fn lemma_reads_ignore_suffix(h: Seq<u8>, t: Seq<u8>, p: int)
    ensures
        take_u8(h, p) is Some ==> take_u8(h + t, p) == take_u8(h, p),
        take_u16(h, p) is Some ==> take_u16(h + t, p) == take_u16(h, p),
        take_u24(h, p) is Some ==> take_u24(h + t, p) == take_u24(h, p),
        take_u8_prefixed(h, p) is Some ==> take_u8_prefixed(h + t, p) == take_u8_prefixed(h, p),
        take_u16_prefixed(h, p) is Some ==> take_u16_prefixed(h + t, p) == take_u16_prefixed(h, p),
        forall|n: int|
            #[trigger] take_bytes(h, p, n) is Some ==> take_bytes(h + t, p, n) == take_bytes(h, p, n),
{
    let g = h + t;
    if 0 <= p < h.len() {
        assert(g[p] == h[p]);
    }
    if 0 <= p && p + 2 <= h.len() {
        assert(g[p] == h[p] && g[p + 1] == h[p + 1]);
    }
    if 0 <= p && p + 3 <= h.len() {
        assert(g[p] == h[p] && g[p + 1] == h[p + 1] && g[p + 2] == h[p + 2]);
    }
    assert forall|n: int| #[trigger] take_bytes(h, p, n) is Some implies take_bytes(g, p, n)
        == take_bytes(h, p, n) by {
        assert(g.subrange(p, p + n) =~= h.subrange(p, p + n));
    }
    if let Some((n, q)) = take_u8(h, p) {
        if take_bytes(h, q, n as int) is Some {
            assert(g.subrange(q, q + n) =~= h.subrange(q, q + n));
        }
    }
    if let Some((n, q)) = take_u16(h, p) {
        if take_bytes(h, q, n as int) is Some {
            assert(g.subrange(q, q + n) =~= h.subrange(q, q + n));
        }
    }
}

/// Bytes after the extensions block of a ClientHello are ignored: appending
/// anything to a handshake message that parses leaves the parse unchanged.
pub proof fn trailing_body_bytes_are_ignored(h: Seq<u8>, t: Seq<u8>)
    ensures
        spec_parse_handshake(h) is Some ==> spec_parse_handshake(h + t) == spec_parse_handshake(h),
{
    if spec_parse_handshake(h) is Some {
        lemma_reads_ignore_suffix(h, t, 0);
        lemma_reads_ignore_suffix(h, t, 1);
        lemma_reads_ignore_suffix(h, t, 4);
        lemma_reads_ignore_suffix(h, t, 6);
        lemma_reads_ignore_suffix(h, t, 38);
        let (_, p1) = take_u8_prefixed(h, 38)->0;
        lemma_reads_ignore_suffix(h, t, p1);
        let (_, p2) = take_u16_prefixed(h, p1)->0;
        lemma_reads_ignore_suffix(h, t, p2);
        let (_, p3) = take_u8_prefixed(h, p2)->0;
        lemma_reads_ignore_suffix(h, t, p3);
    }
}

/// The cipher suites a parsed ClientHello reports are the big-endian `u16`
/// values of its `cipher_suites` vector, in wire order and all of them. The
/// vector's two-byte length sits right after the 38 fixed bytes and the
/// session id (whose one-byte length is at offset 38).
pub proof fn cipher_suites_in_wire_order(h: Seq<u8>)
    ensures
        spec_parse_handshake(h) matches Some(m) ==> {
            let p = 39 + h[38] as int;
            &&& m.cipher_suites.len() * 2 == h[p] as int * 256 + h[p + 1] as int
            &&& forall|i: int|
                0 <= i < m.cipher_suites.len() ==> #[trigger] m.cipher_suites[i] as int == h[p + 2
                    + 2 * i] as int * 256 + h[p + 3 + 2 * i] as int
        },
{
    if let Some(m) = spec_parse_handshake(h) {
        let p = 39 + h[38] as int;
        let (sid, p1) = take_u8_prefixed(h, 38)->0;
        assert(p1 == p);
        let (cs, p2) = take_u16_prefixed(h, p1)->0;
        let n = be16(h, p);
        assert(cs == h.subrange(p + 2, p + 2 + n));
        assert(m.cipher_suites == u16_pairs(cs));
        assert forall|i: int| 0 <= i < m.cipher_suites.len() implies #[trigger] m.cipher_suites[i]
            as int == h[p + 2 + 2 * i] as int * 256 + h[p + 3 + 2 * i] as int by {
            assert(cs[2 * i] == h[p + 2 + 2 * i]);
            assert(cs[2 * i + 1] == h[p + 3 + 2 * i]);
            assert(be16(cs, 2 * i) < 65536);
        }
    }
}

/// Consecutive big-endian `u16` values of an even-length byte string.
fn u16_list(bytes: &[u8]) -> (out: Vec<u16>)
    requires
        bytes@.len() % 2 == 0,
    ensures
        out@ == u16_pairs(bytes@),
{
    let mut out: Vec<u16> = Vec::new();
    let mut c = Cursor::new(bytes);
    let n = bytes.len();
    let mut k: usize = 0;
    while c.remaining() >= 2
        invariant
            c.wf(),
            n == bytes@.len(),
            c.data() == bytes@,
            c.position() == 2 * k,
            bytes@.len() % 2 == 0,
            out@ == u16_pairs(bytes@).subrange(0, k as int),
        decreases bytes@.len() - c.position(),
    {
        let v = match c.read_u16() {
            Some(v) => v,
            None => return out,
        };
        out.push(v);
        k = k + 1;
        assert(out@ =~= u16_pairs(bytes@).subrange(0, k as int));
    }
    assert(out@ =~= u16_pairs(bytes@));
    out
}

/// Parse the body of an ALPN extension.
fn parse_alpn_extension(data: &[u8]) -> (r: Option<Vec<Vec<u8>>>)
    ensures
        match spec_alpn(data@) {
            Some(l) => r matches Some(v) && nested_view(v@) == l,
            None => r is None,
        },
{
    let mut c = Cursor::new(data);
    let list = match c.read_u16_prefixed() {
        Some(l) => l,
        None => return None,
    };
    let mut entries = Cursor::new(list);
    let mut out: Vec<Vec<u8>> = Vec::new();
    assert(nested_view(out@) =~= Seq::<Seq<u8>>::empty());
    while entries.remaining() > 0
        invariant
            entries.wf(),
            entries.data() == list@,
            spec_alpn(data@) == alpn_walk(list@, entries.position(), nested_view(out@)),
        decreases list@.len() - entries.position(),
    {
        let proto = match entries.read_u8_prefixed() {
            Some(p) => p,
            None => return None,
        };
        if proto.len() == 0 {
            return None;
        }
        let ghost before = nested_view(out@);
        out.push(slice_to_vec(proto));
        assert(nested_view(out@) =~= before.push(proto@));
    }
    Some(out)
}

/// Parse the body of a `supported_versions` extension as a ClientHello
/// carries it.
fn parse_supported_versions_extension(data: &[u8]) -> (r: Option<Vec<u16>>)
    ensures
        match spec_supported_versions(data@) {
            Some(l) => r matches Some(v) && v@ == l,
            None => r is None,
        },
{
    let mut c = Cursor::new(data);
    let list = match c.read_u8_prefixed() {
        Some(l) => l,
        None => return None,
    };
    if list.len() == 0 || list.len() % 2 != 0 {
        return None;
    }
    Some(u16_list(list))
}

fn parse_supported_groups_extension(data: &[u8]) -> (r: Option<Vec<u16>>)
    ensures
        opt_vec_view(r) == spec_supported_groups(data@),
{
    let mut c = Cursor::new(data);
    let list = match c.read_u16_prefixed() {
        Some(l) => l,
        None => return None,
    };
    if list.len() % 2 != 0 {
        return None;
    }
    Some(u16_list(list))
}

fn parse_ec_point_formats_extension(data: &[u8]) -> (r: Option<Vec<u8>>)
    ensures
        opt_vec_view(r) == spec_ec_point_formats(data@),
{
    let mut c = Cursor::new(data);
    match c.read_u8_prefixed() {
        Some(l) => Some(slice_to_vec(l)),
        None => None,
    }
}

fn contains_u16(v: &Vec<u16>, x: u16) -> (r: bool)
    ensures
        r == v@.contains(x),
{
    let mut i: usize = 0;
    while i < v.len()
        invariant
            0 <= i <= v@.len(),
            forall|k: int| 0 <= k < i ==> v@[k] != x,
        decreases v@.len() - i,
    {
        if v[i] == x {
            assert(v@[i as int] == x);
            return true;
        }
        i = i + 1;
    }
    false
}

fn contains_u8(v: &[u8], x: u8) -> (r: bool)
    ensures
        r == v@.contains(x),
{
    let mut i: usize = 0;
    while i < v.len()
        invariant
            0 <= i <= v@.len(),
            forall|k: int| 0 <= k < i ==> v@[k] != x,
        decreases v@.len() - i,
    {
        if v[i] == x {
            assert(v@[i as int] == x);
            return true;
        }
        i = i + 1;
    }
    false
}

/// The executable extension-walk state.
struct ExtScan {
    seen: Vec<u16>,
    psk_seen: bool,
    sni_host: Option<String>,
    ech_present: bool,
    alpn_protocols: Option<Vec<Vec<u8>>>,
    supported_versions: Option<Vec<u16>>,
    key_share_present: bool,
    supported_groups: Option<Vec<u16>>,
    ec_point_formats: Option<Vec<u8>>,
}

impl ExtScan {
    spec fn state(&self) -> ExtState {
        ExtState {
            seen: self.seen@,
            psk_seen: self.psk_seen,
            sni_host: opt_string_view(self.sni_host),
            ech_present: self.ech_present,
            alpn_protocols: opt_nested_view(self.alpn_protocols),
            supported_versions: opt_vec_view(self.supported_versions),
            key_share_present: self.key_share_present,
            supported_groups: opt_vec_view(self.supported_groups),
            ec_point_formats: opt_vec_view(self.ec_point_formats),
        }
    }

    /// Apply one extension; `false` rejects the ClientHello.
    fn apply(&mut self, t: u16, data: &[u8]) -> (ok: bool)
        ensures
            match apply_extension(old(self).state(), t, data@) {
                Some(st) => ok && final(self).state() == st,
                None => !ok,
            },
    {
        self.seen.push(t);
        if t == EXT_PRE_SHARED_KEY {
            self.psk_seen = true;
        }
        if t == EXT_ENCRYPTED_CLIENT_HELLO {
            self.ech_present = true;
        } else if t == EXT_SERVER_NAME {
            match parse_server_name_extension(data) {
                ServerNameOutcome::Host(h) => {
                    self.sni_host = Some(h);
                },
                ServerNameOutcome::Skip => {},
                ServerNameOutcome::Malformed => {
                    return false;
                },
            }
        } else if t == EXT_ALPN {
            match parse_alpn_extension(data) {
                Some(l) => {
                    self.alpn_protocols = Some(l);
                },
                None => {
                    return false;
                },
            }
        } else if t == EXT_SUPPORTED_VERSIONS {
            match parse_supported_versions_extension(data) {
                Some(v) => {
                    self.supported_versions = Some(v);
                },
                None => {
                    return false;
                },
            }
        } else if t == EXT_KEY_SHARE {
            self.key_share_present = true;
        } else if t == EXT_SUPPORTED_GROUPS {
            self.supported_groups = parse_supported_groups_extension(data);
        } else if t == EXT_EC_POINT_FORMATS {
            self.ec_point_formats = parse_ec_point_formats_extension(data);
        }
        true
    }
}

/// Walk the extension block.
fn walk_extensions(extensions: &[u8]) -> (r: Option<ExtScan>)
    ensures
        match ext_walk(extensions@, 0, initial_ext_state()) {
            Some(st) => r matches Some(s) && s.state() == st,
            None => r is None,
        },
{
    let mut scan = ExtScan {
        seen: Vec::new(),
        psk_seen: false,
        sni_host: None,
        ech_present: false,
        alpn_protocols: None,
        supported_versions: None,
        key_share_present: false,
        supported_groups: None,
        ec_point_formats: None,
    };
    assert(scan.state() == initial_ext_state());
    let mut ext = Cursor::new(extensions);
    while ext.remaining() >= 4
        invariant
            ext.wf(),
            ext.data() == extensions@,
            ext_walk(extensions@, 0, initial_ext_state()) == ext_walk(
                extensions@,
                ext.position(),
                scan.state(),
            ),
        decreases extensions@.len() - ext.position(),
    {
        if scan.psk_seen {
            return None;
        }
        let ext_type = match ext.read_u16() {
            Some(t) => t,
            None => return None,
        };
        let ext_data = match ext.read_u16_prefixed() {
            Some(d) => d,
            None => return None,
        };
        if contains_u16(&scan.seen, ext_type) {
            return None;
        }
        if !scan.apply(ext_type, ext_data) {
            return None;
        }
    }
    Some(scan)
}

/// Parse an already-reassembled handshake message into the full set of
/// observable ClientHello fields. `None` when the bytes are not a
/// ClientHello, or when the ClientHello breaks any structural rule.
pub fn parse_handshake_message_full(handshake: &[u8]) -> (r: Option<ClientHelloMetadata>)
    ensures
        match spec_parse_handshake(handshake@) {
            Some(m) => r matches Some(x) && x@ == m,
            None => r is None,
        },
{
    let mut c = Cursor::new(handshake);
    match c.read_u8() {
        Some(t) => if t != HANDSHAKE_TYPE_CLIENT_HELLO {
            return None;
        },
        None => return None,
    }
    if c.read_u24().is_none() {
        return None;
    }
    match c.read_u16() {
        Some(v) => if v != TLS_LEGACY_VERSION {
            return None;
        },
        None => return None,
    }
    if c.read_slice(32).is_none() {
        return None;
    }
    let session_id = match c.read_u8_prefixed() {
        Some(s) => s,
        None => return None,
    };
    if session_id.len() > 32 {
        return None;
    }
    let cipher_suites = match c.read_u16_prefixed() {
        Some(s) => s,
        None => return None,
    };
    if cipher_suites.len() == 0 || cipher_suites.len() % 2 != 0 {
        return None;
    }
    let compression = match c.read_u8_prefixed() {
        Some(s) => s,
        None => return None,
    };
    if !contains_u8(compression, 0) {
        return None;
    }
    let extensions = match c.read_u16_prefixed() {
        Some(s) => s,
        None => return None,
    };
    let scan = match walk_extensions(extensions) {
        Some(s) => s,
        None => return None,
    };
    let suites = u16_list(cipher_suites);
    let host = if scan.ech_present {
        None
    } else {
        scan.sni_host
    };
    Some(
        ClientHelloMetadata {
            host,
            ech_present: scan.ech_present,
            alpn_protocols: scan.alpn_protocols,
            supported_versions: scan.supported_versions,
            key_share_present: scan.key_share_present,
            cipher_suites: suites,
            extension_order: scan.seen,
            supported_groups: scan.supported_groups,
            ec_point_formats: scan.ec_point_formats,
        },
    )
}

} // verus!
