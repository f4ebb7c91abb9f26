//! What the sockets' owner asks of the firewall and hears from it.
//!
//! The firewall itself neither reads nor writes.  It says what to do next; the owner of the
//! sockets does it, and hands back what came of it.

use vstd::prelude::*;

verus! {

/// Most bytes that one read or one write moves.
pub const BUF_SIZE: usize = 65536;

/// What one read of a socket came back with.
#[derive(Debug)]
pub enum ReadReply {
    /// The bytes read, and when, in milliseconds since the Epoch.  No bytes is the end of the
    /// stream, unless none were asked for.
    Data { bytes: Vec<u8>, at: u128 },
    /// Nothing to read for now.
    WouldBlock,
    /// The socket failed.
    Failed(std::io::Error),
}

/// What one write to a socket came back with.
#[derive(Debug)]
pub enum WriteReply {
    /// How many of the bytes that were offered the socket took, and when, in milliseconds since
    /// the Epoch.
    Written { count: usize, at: u128 },
    /// No room for now.
    WouldBlock,
    /// The socket failed.
    Failed(std::io::Error),
}

/// A read's reply, its bytes as a sequence.
pub enum Received {
    Data { bytes: Seq<u8>, at: u128 },
    WouldBlock,
    Failed(std::io::Error),
}

impl View for ReadReply {
    type V = Received;

    open spec fn view(&self) -> Received {
        match *self {
            ReadReply::Data { bytes, at } => Received::Data { bytes: bytes@, at },
            ReadReply::WouldBlock => Received::WouldBlock,
            ReadReply::Failed(e) => Received::Failed(e),
        }
    }
}

/// Whether to go on reading, or writing.
#[derive(Debug, Clone, Copy, PartialEq, Eq, Structural)]
pub enum Turn {
    /// Read, or write, again.
    Again,
    /// Stop: true if the socket has no more to give or take for now, false if the connection is
    /// to be closed.
    Stop(bool),
}

/// What to do next for a pair of sockets.
#[derive(Debug, Clone, Copy, PartialEq, Eq, Structural)]
pub enum IoAction {
    /// Read at most this many bytes from the inbound socket.
    Read(usize),
    /// Write what is due, if anything is, to the outbound socket.
    Write,
    /// Nothing more: true if the pair of sockets lives on, false if it is to be closed.
    Done(bool),
}

/// What came of an [`IoAction`].
#[derive(Debug)]
pub enum IoReply {
    Read(ReadReply),
    /// None where no write was due.
    Write(Option<WriteReply>),
}

/// What a socket replied to a read or to a write, its bytes as a sequence.
pub enum Event {
    Read(Received),
    Write(Option<WriteReply>),
}

impl View for IoReply {
    type V = Event;

    open spec fn view(&self) -> Event {
        match *self {
            IoReply::Read(reply) => Event::Read(reply@),
            IoReply::Write(reply) => Event::Write(reply),
        }
    }
}

/// What a socket replied is taken as it came: all bytes, and the time.
pub proof fn law_replies_are_taken_whole(reply: ReadReply, write: Option<WriteReply>)
    ensures
        match reply {
            ReadReply::Data { bytes, at } => {
                &&& reply@ == (Received::Data { bytes: bytes@, at })
                &&& IoReply::Read(reply)@ == Event::Read(Received::Data { bytes: bytes@, at })
            },
            ReadReply::WouldBlock => {
                &&& reply@ == Received::WouldBlock
                &&& IoReply::Read(reply)@ == Event::Read(Received::WouldBlock)
            },
            ReadReply::Failed(e) => {
                &&& reply@ == Received::Failed(e)
                &&& IoReply::Read(reply)@ == Event::Read(Received::Failed(e))
            },
        },
        IoReply::Write(write)@ == Event::Write(write),
{
}

} // verus!
