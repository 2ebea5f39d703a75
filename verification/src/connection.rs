//! Plain data describing how a connection is to be made.  Establishing
//! the stream itself (sockets, certificate loading, the handshake) is
//! I/O and happens outside the verified library; these types carry the
//! choice to that boundary.

use vstd::prelude::*;

verus! {

/// Whether the stream is encrypted, and with which extra certificates.
pub enum Security {
    Unsecured,
    Secured {
        root_cert_path: Option<String>,
        client_cert_path: Option<String>,
        client_key_path: Option<String>,
    },
}

/// Where and how to connect.
pub struct Config {
    pub server: String,
    pub port: u16,
    pub security: Security,
}

} // verus!
