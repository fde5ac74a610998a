use crate::file::FileSearchResult;
use crate::message::Message;
use vstd::prelude::*;

verus! {

/// What the layers of a node tell each other.
#[derive(Clone, Debug)]
pub enum Event {
    /// A connection with the node finished its handshake.
    NewConnection(u32),
    /// The connection with the node closed.
    ConnectionClosed(u32),
    /// A message arrived.
    MessageReceived(Message),
    /// All connections this node was set up to make are established.
    NetworkEstablished,
    /// A node answered one of this node's searches.
    FileFound(FileSearchResult),
    /// The node is leaving; every layer stops.
    Shutdown,
    /// The raw stream of a connection closed.
    SocketClosed,
}

} // verus!
