//! The host-only peek: the SNI host of a ClientHello, or nothing.

use vstd::prelude::*;

use crate::sni::extract::{spec_extract_sni, Outcome, SniOutcome};

verus! {

/// Attempt to extract the SNI host from a TLS ClientHello byte slice.
///
/// `None` when the bytes are not a ClientHello, when the `server_name`
/// extension is absent or unusable, and when the ClientHello carries an
/// `encrypted_client_hello` extension: the real SNI is not recoverable then,
/// and the connection belongs to a fallback policy rather than to a
/// classification by name.
pub fn extract_sni(client_hello: &[u8]) -> (r: Option<String>)
    ensures
        match spec_extract_sni(client_hello@) {
            Outcome::Cleartext(h) => r matches Some(s) && s@ == h,
            _ => r is None,
        },
{
    match crate::sni::extract::extract_sni(client_hello) {
        SniOutcome::Cleartext { host } => Some(host),
        _ => None,
    }
}

} // verus!
