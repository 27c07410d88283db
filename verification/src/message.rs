//! The two kinds of message and the value that travels between peers.

use vstd::prelude::*;

verus! {

/// What a message asks of its receiver.
#[derive(Clone, Copy, Debug, PartialEq, Eq, Structural)]
pub enum MessageType {
    /// The token, moving forward; the receiver answers and forwards it.
    Ping,
    /// The answer to a `Ping`; the receiver does nothing further.
    Pong,
}

impl MessageType {
    /// The text under which a kind appears in a peer's record of events.
    pub open spec fn label(self) -> Seq<char> {
        match self {
            MessageType::Ping => "Ping"@,
            MessageType::Pong => "Pong"@,
        }
    }

    /// The kind's name as text: `"Ping"` or `"Pong"`.
    pub fn name(&self) -> (text: String)
        ensures
            text@ == self.label(),
    {
        match self {
            MessageType::Ping => "Ping".to_owned(),
            MessageType::Pong => "Pong".to_owned(),
        }
    }
}

/// A message: its kind and the index of the peer that sent it.
#[derive(Clone, Copy, Debug, PartialEq, Eq, Structural)]
pub struct Message {
    pub m_type: MessageType,
    pub sender_id: usize,
}

impl Message {
    /// A message of kind `mt` sent by peer `si`.
    pub fn new(mt: MessageType, si: usize) -> (message: Message)
        ensures
            message == (Message { m_type: mt, sender_id: si }),
    {
        Message { m_type: mt, sender_id: si }
    }
}

/// A message on its way into the inbound stream of peer `to`.
#[derive(Clone, Copy, Debug, PartialEq, Eq, Structural)]
pub struct Delivery {
    pub to: usize,
    pub message: Message,
}

} // verus!
