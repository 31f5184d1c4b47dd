//! Pure decision logic of the local agent: SNI extraction from a TLS
//! ClientHello, local risk heuristics, and the verdict that decides between
//! the native path and the isolate path.

pub mod fingerprint;
pub mod fixture;
pub mod heuristics;
pub mod inspect;
pub mod peek;
pub mod pipeline;
pub mod risk;
pub mod sni;
pub mod text;

pub use fingerprint::{ja3, Ja3};
pub use risk::{RiskLevel, RiskSignal, Verdict};
pub use sni::{
    extract_sni, hrr_sni_consistent, is_cloudflare_ech_outer, is_idn_host, parse_client_hello_full,
    parse_handshake_message, parse_handshake_message_full, reassemble_handshake, AlpnProtocol,
    ClientHelloMetadata, SniOutcome, TlsVersion, CLOUDFLARE_ECH_OUTER_SNI,
};
