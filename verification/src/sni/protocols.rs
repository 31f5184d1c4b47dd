//! Classification of ALPN identifiers and TLS versions offered in a
//! ClientHello.

use vstd::prelude::*;

use super::client_hello::ClientHelloMetadata;

verus! {

/// Classified ALPN protocol identifier.
///
/// The IANA ALPN registry collapsed to the buckets that drive routing
/// decisions; everything else is [`AlpnProtocol::Other`].
#[derive(Debug, Clone, Copy, PartialEq, Eq, Hash, Structural)]
pub enum AlpnProtocol {
    /// `http/1.0`.
    Http10,
    /// `http/1.1`.
    Http11,
    /// `h2`.
    Http2,
    /// `h3` or any draft `h3-NN`.
    Http3,
    /// Anything outside the HTTP family.
    Other,
}

/// `http/1.0`
pub open spec fn http10_id() -> Seq<u8> {
    seq![0x68u8, 0x74, 0x74, 0x70, 0x2f, 0x31, 0x2e, 0x30]
}

/// `http/1.1`
pub open spec fn http11_id() -> Seq<u8> {
    seq![0x68u8, 0x74, 0x74, 0x70, 0x2f, 0x31, 0x2e, 0x31]
}

/// The class of one ALPN protocol identifier.
pub open spec fn alpn_class(v: Seq<u8>) -> AlpnProtocol {
    if v == http10_id() {
        AlpnProtocol::Http10
    } else if v == http11_id() {
        AlpnProtocol::Http11
    } else if v == seq![0x68u8, 0x32] {
        AlpnProtocol::Http2
    } else if v == seq![0x68u8, 0x33] {
        AlpnProtocol::Http3
    } else if v.len() >= 3 && v[0] == 0x68 && v[1] == 0x33 && v[2] == 0x2d {
        AlpnProtocol::Http3
    } else {
        AlpnProtocol::Other
    }
}

pub open spec fn alpn_label(p: AlpnProtocol) -> Seq<char> {
    match p {
        AlpnProtocol::Http10 => "http_1_0"@,
        AlpnProtocol::Http11 => "http_1_1"@,
        AlpnProtocol::Http2 => "http_2"@,
        AlpnProtocol::Http3 => "http_3"@,
        AlpnProtocol::Other => "other"@,
    }
}

fn http_1_x(value: &[u8], last: u8) -> (r: bool)
    ensures
        r == (value@ == seq![0x68u8, 0x74, 0x74, 0x70, 0x2f, 0x31, 0x2e, last]),
{
    let r = value.len() == 8 && value[0] == 0x68 && value[1] == 0x74 && value[2] == 0x74
        && value[3] == 0x70 && value[4] == 0x2f && value[5] == 0x31 && value[6] == 0x2e
        && value[7] == last;
    assert(r ==> value@ =~= seq![0x68u8, 0x74, 0x74, 0x70, 0x2f, 0x31, 0x2e, last]);
    r
}

impl AlpnProtocol {
    /// Classify one ALPN protocol identifier from its wire bytes.
    pub fn from_wire(value: &[u8]) -> (r: Self)
        ensures
            r == alpn_class(value@),
    {
        if http_1_x(value, 0x30) {
            AlpnProtocol::Http10
        } else if http_1_x(value, 0x31) {
            AlpnProtocol::Http11
        } else if value.len() == 2 && value[0] == 0x68 && value[1] == 0x32 {
            assert(value@ =~= seq![0x68u8, 0x32]);
            AlpnProtocol::Http2
        } else if value.len() == 2 && value[0] == 0x68 && value[1] == 0x33 {
            assert(value@ =~= seq![0x68u8, 0x33]);
            AlpnProtocol::Http3
        } else if value.len() >= 3 && value[0] == 0x68 && value[1] == 0x33 && value[2] == 0x2d {
            AlpnProtocol::Http3
        } else {
            proof {
                if value@ == seq![0x68u8, 0x32] || value@ == seq![0x68u8, 0x33] {
                    assert(value@.len() == 2 && value@[0] == 0x68);
                }
            }
            AlpnProtocol::Other
        }
    }

    /// Stable lowercase label for telemetry dimensions.
    pub fn kind(&self) -> (r: &'static str)
        ensures
            r@ == alpn_label(*self),
    {
        match self {
            AlpnProtocol::Http10 => "http_1_0",
            AlpnProtocol::Http11 => "http_1_1",
            AlpnProtocol::Http2 => "http_2",
            AlpnProtocol::Http3 => "http_3",
            AlpnProtocol::Other => "other",
        }
    }

    /// Any classified HTTP variant.
    pub fn is_http(&self) -> (r: bool)
        ensures
            r == !(*self is Other),
    {
        !matches!(self, AlpnProtocol::Other)
    }
}

/// Classified TLS protocol version.
///
/// The derived ordering follows declaration order, so `Other` (GREASE or an
/// unknown codepoint) sorts lowest and `version >= TlsVersion::Tls13`
/// excludes it.
#[derive(Debug, Clone, Copy, PartialEq, Eq, Hash, PartialOrd, Ord, Structural)]
pub enum TlsVersion {
    /// GREASE, a future version, or any value not recognised.
    Other,
    /// SSL 3.0, `0x0300`.
    Ssl30,
    /// TLS 1.0, `0x0301`.
    Tls10,
    /// TLS 1.1, `0x0302`.
    Tls11,
    /// TLS 1.2, `0x0303`.
    Tls12,
    /// TLS 1.3, `0x0304`.
    Tls13,
}

pub open spec fn tls_class(v: u16) -> TlsVersion {
    if v == 0x0300 {
        TlsVersion::Ssl30
    } else if v == 0x0301 {
        TlsVersion::Tls10
    } else if v == 0x0302 {
        TlsVersion::Tls11
    } else if v == 0x0303 {
        TlsVersion::Tls12
    } else if v == 0x0304 {
        TlsVersion::Tls13
    } else {
        TlsVersion::Other
    }
}

/// Position in declaration order, the order the derived `Ord` follows.
pub open spec fn tls_rank(v: TlsVersion) -> int {
    match v {
        TlsVersion::Other => 0,
        TlsVersion::Ssl30 => 1,
        TlsVersion::Tls10 => 2,
        TlsVersion::Tls11 => 3,
        TlsVersion::Tls12 => 4,
        TlsVersion::Tls13 => 5,
    }
}

pub open spec fn tls_label(v: TlsVersion) -> Seq<char> {
    match v {
        TlsVersion::Ssl30 => "ssl_3_0"@,
        TlsVersion::Tls10 => "tls_1_0"@,
        TlsVersion::Tls11 => "tls_1_1"@,
        TlsVersion::Tls12 => "tls_1_2"@,
        TlsVersion::Tls13 => "tls_1_3"@,
        TlsVersion::Other => "other"@,
    }
}

/// The highest recognised version among `vs`, if any is recognised.
pub open spec fn highest_known(vs: Seq<u16>) -> Option<TlsVersion>
    decreases vs.len(),
{
    if vs.len() == 0 {
        None
    } else {
        let prev = highest_known(vs.drop_last());
        let c = tls_class(vs.last());
        if c is Other {
            prev
        } else {
            match prev {
                None => Some(c),
                Some(p) => if tls_rank(c) >= tls_rank(p) {
                    Some(c)
                } else {
                    Some(p)
                },
            }
        }
    }
}

/// The highest TLS version a `supported_versions` list advertises, TLS 1.2
/// when the extension is absent or lists nothing recognised.
pub open spec fn highest_offered(versions: Option<Seq<u16>>) -> TlsVersion {
    match versions {
        None => TlsVersion::Tls12,
        Some(vs) => match highest_known(vs) {
            Some(v) => v,
            None => TlsVersion::Tls12,
        },
    }
}

/// The highest recognised version is one of the listed versions and ranks
/// at or above every recognised version in the list; GREASE and unknown
/// codepoints never count.
pub proof fn highest_known_is_the_maximum(vs: Seq<u16>)
    ensures
        highest_known(vs) matches Some(h) ==> {
            &&& !(h is Other)
            &&& exists|k: int| 0 <= k < vs.len() && #[trigger] tls_class(vs[k]) == h
            &&& forall|k: int|
                0 <= k < vs.len() && !(tls_class(vs[k]) is Other) ==> tls_rank(
                    #[trigger] tls_class(vs[k]),
                ) <= tls_rank(h)
        },
        highest_known(vs) is None ==> forall|k: int|
            0 <= k < vs.len() ==> #[trigger] tls_class(vs[k]) is Other,
    decreases vs.len(),
{
    if vs.len() > 0 {
        let rest = vs.drop_last();
        highest_known_is_the_maximum(rest);
        assert forall|k: int| 0 <= k < rest.len() implies rest[k] == vs[k] by {}
        if let Some(p) = highest_known(rest) {
            let w = choose|k: int| 0 <= k < rest.len() && #[trigger] tls_class(rest[k]) == p;
            assert(tls_class(vs[w]) == p);
        }
        assert(vs.last() == vs[vs.len() - 1]);
    }
}

/// A listed version that names a known protocol: `0x0300` (SSL 3.0) to
/// `0x0304` (TLS 1.3).
pub open spec fn known_wire_version(x: u16) -> bool {
    0x0300 <= x <= 0x0304
}

/// The highest supported version is the newest protocol the list names: the
/// class of the largest known wire value listed, TLS 1.2 when the list names
/// none. GREASE and unknown values never count.
pub proof fn highest_is_the_newest_listed_version(vs: Seq<u16>)
    ensures
        (exists|j: int| 0 <= j < vs.len() && known_wire_version(#[trigger] vs[j])) ==> exists|
            k: int,
        |
            0 <= k < vs.len() && known_wire_version(vs[k]) && #[trigger] tls_class(vs[k])
                == highest_offered(Some(vs)) && forall|j: int|
                0 <= j < vs.len() && known_wire_version(#[trigger] vs[j]) ==> vs[j] <= vs[k],
        (forall|j: int| 0 <= j < vs.len() ==> !known_wire_version(#[trigger] vs[j]))
            ==> highest_offered(Some(vs)) == TlsVersion::Tls12,
{
    highest_known_is_the_maximum(vs);
    assert forall|x: u16| known_wire_version(x) implies !(tls_class(x) is Other) && tls_rank(
        #[trigger] tls_class(x),
    ) == x - 0x02ff by {}
    assert forall|x: u16| !known_wire_version(x) implies #[trigger] tls_class(x) is Other by {}
    if let Some(h) = highest_known(vs) {
        let k = choose|k: int| 0 <= k < vs.len() && #[trigger] tls_class(vs[k]) == h;
        assert(known_wire_version(vs[k]));
        assert forall|j: int| 0 <= j < vs.len() && known_wire_version(#[trigger] vs[j]) implies vs[j]
            <= vs[k] by {
            assert(tls_rank(tls_class(vs[j])) <= tls_rank(h));
        }
    } else {
        assert forall|j: int| 0 <= j < vs.len() implies !known_wire_version(#[trigger] vs[j]) by {
            assert(tls_class(vs[j]) is Other);
        }
    }
}

fn tls_rank_of(v: TlsVersion) -> (r: u8)
    ensures
        r == tls_rank(v),
{
    match v {
        TlsVersion::Other => 0,
        TlsVersion::Ssl30 => 1,
        TlsVersion::Tls10 => 2,
        TlsVersion::Tls11 => 3,
        TlsVersion::Tls12 => 4,
        TlsVersion::Tls13 => 5,
    }
}

impl TlsVersion {
    /// Classify a TLS version from its `u16` wire value.
    pub fn from_wire(value: u16) -> (r: Self)
        ensures
            r == tls_class(value),
    {
        match value {
            0x0300 => TlsVersion::Ssl30,
            0x0301 => TlsVersion::Tls10,
            0x0302 => TlsVersion::Tls11,
            0x0303 => TlsVersion::Tls12,
            0x0304 => TlsVersion::Tls13,
            _ => TlsVersion::Other,
        }
    }

    /// Stable lowercase label for telemetry dimensions.
    pub fn kind(&self) -> (r: &'static str)
        ensures
            r@ == tls_label(*self),
    {
        match self {
            TlsVersion::Ssl30 => "ssl_3_0",
            TlsVersion::Tls10 => "tls_1_0",
            TlsVersion::Tls11 => "tls_1_1",
            TlsVersion::Tls12 => "tls_1_2",
            TlsVersion::Tls13 => "tls_1_3",
            TlsVersion::Other => "other",
        }
    }
}

/// The classes of a list of ALPN identifiers, in order.
pub open spec fn alpn_classes(protos: Seq<Seq<u8>>) -> Seq<AlpnProtocol> {
    Seq::new(protos.len(), |i: int| alpn_class(protos[i]))
}

/// The classes of a list of wire versions, in order.
pub open spec fn tls_classes(vs: Seq<u16>) -> Seq<TlsVersion> {
    Seq::new(vs.len(), |i: int| tls_class(vs[i]))
}

impl ClientHelloMetadata {
    /// Every offered ALPN protocol, classified, in the client's preference
    /// order; `None` if the ALPN extension was absent.
    pub fn alpn_classified(&self) -> (r: Option<Vec<AlpnProtocol>>)
        ensures
            match self@.alpn_protocols {
                Some(ps) => r matches Some(v) && v@ == alpn_classes(ps),
                None => r is None,
            },
    {
        match &self.alpn_protocols {
            None => None,
            Some(protos) => {
                let mut out: Vec<AlpnProtocol> = Vec::new();
                let mut i: usize = 0;
                while i < protos.len()
                    invariant
                        0 <= i <= protos@.len(),
                        self.alpn_protocols == Some(*protos),
                        out@ == alpn_classes(self@.alpn_protocols->0).subrange(0, i as int),
                    decreases protos@.len() - i,
                {
                    out.push(AlpnProtocol::from_wire(protos[i].as_slice()));
                    i = i + 1;
                    assert(out@ =~= alpn_classes(self@.alpn_protocols->0).subrange(0, i as int));
                }
                assert(out@ =~= alpn_classes(self@.alpn_protocols->0));
                Some(out)
            },
        }
    }

    /// Whether the client offered the given ALPN protocol class; `false`
    /// when the extension was absent.
    pub fn offers(&self, proto: AlpnProtocol) -> (r: bool)
        ensures
            r == (self@.alpn_protocols matches Some(ps) && alpn_classes(ps).contains(proto)),
    {
        match &self.alpn_protocols {
            None => false,
            Some(protos) => {
                let mut i: usize = 0;
                while i < protos.len()
                    invariant
                        0 <= i <= protos@.len(),
                        self.alpn_protocols == Some(*protos),
                        forall|k: int|
                            0 <= k < i ==> alpn_classes(self@.alpn_protocols->0)[k] != proto,
                    decreases protos@.len() - i,
                {
                    if AlpnProtocol::from_wire(protos[i].as_slice()) == proto {
                        assert(alpn_classes(self@.alpn_protocols->0)[i as int] == proto);
                        return true;
                    }
                    i = i + 1;
                }
                false
            },
        }
    }

    /// Every offered TLS version, classified, in wire order; `None` if the
    /// `supported_versions` extension was absent.
    pub fn supported_versions_classified(&self) -> (r: Option<Vec<TlsVersion>>)
        ensures
            match self@.supported_versions {
                Some(vs) => r matches Some(v) && v@ == tls_classes(vs),
                None => r is None,
            },
    {
        match &self.supported_versions {
            None => None,
            Some(versions) => {
                let mut out: Vec<TlsVersion> = Vec::new();
                let mut i: usize = 0;
                while i < versions.len()
                    invariant
                        0 <= i <= versions@.len(),
                        out@ == tls_classes(versions@).subrange(0, i as int),
                    decreases versions@.len() - i,
                {
                    out.push(TlsVersion::from_wire(versions[i]));
                    i = i + 1;
                    assert(out@ =~= tls_classes(versions@).subrange(0, i as int));
                }
                assert(out@ =~= tls_classes(versions@));
                Some(out)
            },
        }
    }

    /// Whether the client advertised `version`. Without a
    /// `supported_versions` extension only TLS 1.2 counts as offered (the
    /// legacy version field is pinned to TLS 1.2).
    pub fn offers_tls_version(&self, version: TlsVersion) -> (r: bool)
        ensures
            r == match self@.supported_versions {
                Some(vs) => tls_classes(vs).contains(version),
                None => version == TlsVersion::Tls12,
            },
    {
        match &self.supported_versions {
            None => version == TlsVersion::Tls12,
            Some(versions) => {
                let mut i: usize = 0;
                while i < versions.len()
                    invariant
                        0 <= i <= versions@.len(),
                        self@.supported_versions == Some(versions@),
                        forall|k: int| 0 <= k < i ==> tls_classes(versions@)[k] != version,
                    decreases versions@.len() - i,
                {
                    if TlsVersion::from_wire(versions[i]) == version {
                        assert(tls_classes(versions@)[i as int] == version);
                        return true;
                    }
                    i = i + 1;
                }
                false
            },
        }
    }

    /// Highest TLS version the client advertised, ignoring GREASE and
    /// unknown codepoints; TLS 1.2 when the extension is absent or lists
    /// nothing recognised.
    pub fn highest_supported_tls_version(&self) -> (r: TlsVersion)
        ensures
            r == highest_offered(self@.supported_versions),
            !(r is Other),
    {
        match &self.supported_versions {
            None => TlsVersion::Tls12,
            Some(versions) => {
                let mut best: Option<TlsVersion> = None;
                let mut i: usize = 0;
                while i < versions.len()
                    invariant
                        0 <= i <= versions@.len(),
                        best == highest_known(versions@.subrange(0, i as int)),
                        best matches Some(b) ==> !(b is Other),
                    decreases versions@.len() - i,
                {
                    let c = TlsVersion::from_wire(versions[i]);
                    let ghost pre = versions@.subrange(0, i as int);
                    assert(versions@.subrange(0, i + 1).drop_last() =~= pre);
                    if !matches!(c, TlsVersion::Other) {
                        best = match best {
                            None => Some(c),
                            Some(p) => if tls_rank_of(c) >= tls_rank_of(p) {
                                Some(c)
                            } else {
                                Some(p)
                            },
                        };
                    }
                    i = i + 1;
                }
                assert(versions@.subrange(0, versions@.len() as int) =~= versions@);
                match best {
                    Some(v) => v,
                    None => TlsVersion::Tls12,
                }
            },
        }
    }
}

} // verus!
