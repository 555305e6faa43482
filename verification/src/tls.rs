//! The choice, shared by both programs, of whether mutual TLS is configured.
use vstd::prelude::*;

verus! {

/// The three TLS files, if all three are given.
pub open spec fn spec_tls_files<P>(cert: Option<P>, key: Option<P>, ca: Option<P>) -> Option<(P, P, P)> {
    match (cert, key, ca) {
        (Some(cert), Some(key), Some(ca)) => Some((cert, key, ca)),
        _ => None,
    }
}

/// Mutual TLS is configured exactly when the certificate, the key and the CA
/// certificate are all given; then the three are handed back in that order.
pub fn tls_files<P>(cert: Option<P>, key: Option<P>, ca: Option<P>) -> (files: Option<(P, P, P)>)
    ensures
        files == spec_tls_files(cert, key, ca),
{
    match (cert, key, ca) {
        (Some(cert), Some(key), Some(ca)) => Some((cert, key, ca)),
        _ => None,
    }
}

} // verus!
