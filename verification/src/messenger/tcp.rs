//! What a connection to a server or peer is made with.
use vstd::prelude::*;

verus! {

/// Parameters used in establishing a connection, optionally through a socks proxy.
/// (Members may be useful elsewhere as well, but that's the primary purpose.)
#[derive(Clone, Debug, PartialEq, Eq)]
pub struct SocksParams {
    /// Optional socks proxy address.
    pub socks: Option<String>,
    /// The target server or peer.
    pub target: String,
    /// The user who owns this connection.
    pub user: String,
    /// The recipient of messages sent on this connection.
    /// Group for client-server, user for p2p.
    pub recipient: String,
}

} // verus!
