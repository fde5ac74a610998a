use crate::message::{Message, MessageBody};
use vstd::prelude::*;
use vstd::string::StringExecFns;

verus! {

/// Why the worker of a connection stops reading.
#[derive(Debug, Clone, Copy, PartialEq, Eq, Structural)]
pub enum ConnectionInterruptEvent {
    /// A message is to be written: the worker lets go of the stream for a moment.
    AllowWrite,
    /// The connection is being closed.
    Kill,
}

/// What reading a message from a connection came to.
pub enum ReadOutcome {
    /// A whole message arrived.
    Received(Message),
    /// The read was interrupted.
    Interrupted(ConnectionInterruptEvent),
    /// The bytes that arrived are not a message.
    Undecodable,
    /// The other side closed the connection.
    Closed,
    /// Reading failed for another reason.
    Failed,
}

/// What the worker of a connection does after a read.
#[derive(Debug, Clone, Copy, PartialEq, Eq, Structural)]
pub enum WorkerAction {
    /// Hand the message that arrived to the layers of the node.
    Emit,
    /// Note what happened and read again.
    Continue,
    /// The other side closed the connection: the node stops.
    Exit,
}

/// Why a connection could not be set up.
#[derive(Debug, Clone, Copy, PartialEq, Eq, Structural)]
pub enum HandshakeError {
    /// The first message on an incoming connection was not a request to connect.
    NotInitRequest,
    /// The node asked to connect did not answer with an acceptance.
    NotInitResponse(u32),
}

/// The waits between attempts to reach a node: none before the first attempt,
/// then two seconds, doubling after each attempt.
pub struct Backoff {
    pub delay: u64,
}

/// The four bytes of `prefix` read as a little-endian unsigned number.
pub open spec fn le_value(prefix: [u8; 4]) -> nat {
    (prefix[0] + 0x100 * prefix[1] + 0x1_0000 * prefix[2] + 0x100_0000 * prefix[3]) as nat
}

/// The four bytes of `prefix` read as a little-endian two's-complement number.
pub open spec fn le_signed(prefix: [u8; 4]) -> int {
    if le_value(prefix) < 0x8000_0000 {
        le_value(prefix) as int
    } else {
        le_value(prefix) - 0x1_0000_0000
    }
}

/// What the worker does after a read: a message goes to the layers, a closed
/// connection stops the node, and anything else is noted before reading again.
pub fn worker_step(outcome: &ReadOutcome) -> (act: WorkerAction)
    ensures
        outcome is Received ==> act == WorkerAction::Emit,
        outcome is Closed ==> act == WorkerAction::Exit,
        !(outcome is Received) && !(outcome is Closed) ==> act == WorkerAction::Continue,
{
    match outcome {
        ReadOutcome::Received(_) => WorkerAction::Emit,
        ReadOutcome::Closed => WorkerAction::Exit,
        _ => WorkerAction::Continue,
    }
}

/// The node an incoming connection comes from, when its first message asks to connect.
pub fn accept_handshake(first: &Message) -> (res: Result<u32, HandshakeError>)
    ensures
        first@.body is InitRequest ==> res == Ok::<u32, HandshakeError>(first.sender),
        !(first@.body is InitRequest) ==> res == Err::<u32, HandshakeError>(HandshakeError::NotInitRequest),
{
    match first.body {
        MessageBody::InitRequest => Ok(first.sender),
        _ => Err(HandshakeError::NotInitRequest),
    }
}

/// Whether node `node_id` accepted this node's request to connect.
pub fn check_init_response(reply: &Message, node_id: u32) -> (res: Result<(), HandshakeError>)
    ensures
        reply@.body is InitResponse ==> res is Ok,
        !(reply@.body is InitResponse) ==> res == Err::<(), HandshakeError>(HandshakeError::NotInitResponse(node_id)),
{
    match reply.body {
        MessageBody::InitResponse => Ok(()),
        _ => Err(HandshakeError::NotInitResponse(node_id)),
    }
}

impl HandshakeError {
    /// The text the node logs for the error; a refused node is named in it.
    pub fn message(&self) -> (s: String)
        ensures
            *self == HandshakeError::NotInitRequest ==> s@ == "Initial message was not a connection init request."@,
            self matches HandshakeError::NotInitResponse(id) ==> s@ == "Node "@ + crate::text::decimal(id as nat)
                + "'s response wasn't Init Response."@,
    {
        match self {
            HandshakeError::NotInitRequest => String::from_str("Initial message was not a connection init request."),
            HandshakeError::NotInitResponse(id) => {
                let mut s = String::from_str("Node ");
                crate::text::push_decimal(&mut s, *id as u64);
                s.append("'s response wasn't Init Response.");
                s
            },
        }
    }
}

impl Backoff {
    /// Waits for a node not yet tried.
    pub fn new() -> (b: Backoff)
        ensures
            b.delay == 1,
    {
        Backoff { delay: 1 }
    }

    /// The wait before the next attempt, if any: none before the first, then
    /// the current delay; the delay doubles after each attempt.
    pub fn next_wait(&mut self) -> (wait: Option<u64>)
        requires
            old(self).delay <= u64::MAX / 2,
        ensures
            wait == (if old(self).delay > 1 { Some(old(self).delay) } else { None::<u64> }),
            final(self).delay == 2 * old(self).delay,
    {
        let wait = if self.delay > 1 { Some(self.delay) } else { None };
        self.delay = self.delay * 2;
        wait
    }
}

/// The length a BSON document gives itself in its first four bytes.
pub fn document_length(prefix: &[u8; 4]) -> (len: i32)
    ensures
        len == le_signed(*prefix),
{
    let v: u32 = prefix[0] as u32 + 0x100 * (prefix[1] as u32) + 0x1_0000 * (prefix[2] as u32) + 0x100_0000
        * (prefix[3] as u32);
    if v < 0x8000_0000 {
        v as i32
    } else {
        (v - 0x8000_0000) as i32 - 0x7fff_ffff - 1
    }
}

} // verus!
