//! The application-facing server callbacks.
//!
//! The surrounding application owns the sockets and the accept loop; it
//! implements `Server` and is handed each decoded packet.

use vstd::prelude::*;

use crate::stream::InPacket;

verus! {

/// An opaque handle for one connected client.
#[derive(Debug, Copy, Clone, PartialEq, Eq, Structural)]
pub struct ClientID(pub u32);

impl ClientID {
    /// A handle with the given numeric id.
    pub fn new(id: u32) -> (r: ClientID)
        ensures
            r == ClientID(id),
    {
        ClientID(id)
    }
}

/// What an application must provide to be driven by the protocol core.
pub trait Server {
    /// A client connected.
    fn on_connect(&mut self, cid: ClientID);

    /// A client disconnected.
    fn on_disconnect(&mut self, cid: ClientID);

    /// A packet arrived from a client.
    fn handle_packet(&mut self, cid: ClientID, packet: InPacket);
}

} // verus!
