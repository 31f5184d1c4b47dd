//! SNI extraction from a raw TLS ClientHello.
//!
//! The wire layout walked:
//!
//! ```text
//! TLSPlaintext record    u8 ContentType (handshake = 22), u16 version, u16 length
//!   Handshake            u8 HandshakeType (client_hello = 1), u24 length
//!     ClientHello        u16 legacy_version, u8[32] random, u8-prefixed session id,
//!                        u16-prefixed cipher suites, u8-prefixed compression methods,
//!                        u16-prefixed extensions
//!       Extension        u16 type, u16-prefixed data
//! ```
//!
//! Every length prefix is checked against the bytes that remain, and the
//! outcome is a total function of the input.

pub mod client_hello;
pub mod cursor;
pub mod extract;
pub mod protocols;
pub mod reassembly;
pub mod server_name;

pub use client_hello::{parse_handshake_message_full, ClientHelloMetadata, TLS_LEGACY_VERSION};
pub use extract::{
    extract_sni, hrr_sni_consistent, is_cloudflare_ech_outer, is_idn_host,
    malformed_hex_preview, parse_client_hello_full, parse_handshake_message, SniOutcome,
    CLOUDFLARE_ECH_OUTER_SNI,
};
pub use protocols::{AlpnProtocol, TlsVersion};
pub use reassembly::{reassemble_handshake, MAX_HANDSHAKE_BYTES};
