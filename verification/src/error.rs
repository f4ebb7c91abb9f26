//! What can go wrong on a connection.

use vstd::prelude::*;
use vstd::string::*;

verus! {

/// `std::io::Error`, carried as it came from a socket.
#[verifier::external_type_specification]
#[verifier::external_body]
pub struct ExIoError(std::io::Error);

#[derive(Debug)]
pub enum Error {
    /// Failed to read
    ReadError(std::io::Error),
    /// Failed to write
    WriteError(std::io::Error),
    /// Blocked
    Blocked,
    /// Receive timed out
    RecvTimeout,
    /// Not connected to peer
    ConnectionBroken,
    /// Connection could not be (re-)established
    ConnectionError,
    /// Failed to bind
    BindError,
    /// Failed to poll
    PollError,
    /// Failed to accept
    AcceptError,
    /// Failed to register socket with poller
    RegisterError,
    /// Failed to query socket metadata
    SocketError,
    /// server is not bound to a socket
    NotConnected,
    /// Stream is sending too fast
    BurstError,
}

impl Error {
    /// The text that stands for the error, None where the operating system words it.
    pub open spec fn wording(self) -> Option<Seq<char>> {
        match self {
            Error::ReadError(_) => None,
            Error::WriteError(_) => None,
            Error::RecvTimeout => Some("Packet receive timeout"@),
            Error::ConnectionBroken => Some("connection to peer node is broken"@),
            Error::ConnectionError => Some("connection to peer could not be (re-)established"@),
            Error::BindError => Some("Failed to bind to the given address"@),
            Error::PollError => Some("Failed to poll"@),
            Error::AcceptError => Some("Failed to accept connection"@),
            Error::RegisterError => Some("Failed to register socket with poller"@),
            Error::SocketError => Some("Socket error"@),
            Error::NotConnected => Some("Not connected to peer network"@),
            Error::Blocked => Some("EWOULDBLOCK"@),
            Error::BurstError => Some("Stream is sending too much data"@),
        }
    }

    /// The I/O error behind the error.
    pub open spec fn source(self) -> Option<std::io::Error> {
        match self {
            Error::ReadError(io) => Some(io),
            Error::WriteError(io) => Some(io),
            _ => None,
        }
    }

    /// The error in words.  A failed read or write is worded as its I/O error words itself.
    pub fn message(&self) -> (r: String)
        ensures
            self.wording() matches Some(text) ==> r@ == text,
            self.source() matches Some(io) ==> to_string_from_display_ensures::<std::io::Error>(
                &io,
                r,
            ),
    {
        match self {
            Error::ReadError(io) => io.to_string(),
            Error::WriteError(io) => io.to_string(),
            Error::RecvTimeout => "Packet receive timeout".to_owned(),
            Error::ConnectionBroken => "connection to peer node is broken".to_owned(),
            Error::ConnectionError => "connection to peer could not be (re-)established".to_owned(),
            Error::BindError => "Failed to bind to the given address".to_owned(),
            Error::PollError => "Failed to poll".to_owned(),
            Error::AcceptError => "Failed to accept connection".to_owned(),
            Error::RegisterError => "Failed to register socket with poller".to_owned(),
            Error::SocketError => "Socket error".to_owned(),
            Error::NotConnected => "Not connected to peer network".to_owned(),
            Error::Blocked => "EWOULDBLOCK".to_owned(),
            Error::BurstError => "Stream is sending too much data".to_owned(),
        }
    }

    /// The I/O error that a failed read or write came from.
    pub fn cause(&self) -> (r: Option<&std::io::Error>)
        ensures
            r is Some <==> self.source() is Some,
            r matches Some(io) ==> self.source() == Some(*io),
    {
        match self {
            Error::ReadError(io) => Some(io),
            Error::WriteError(io) => Some(io),
            _ => None,
        }
    }
}

/// An error has words of its own, or an I/O error behind it that has; exactly failed reads and
/// failed writes have one.
pub proof fn law_errors_are_worded_once(error: Error, io: std::io::Error)
    ensures
        error.wording() is Some <==> error.source() is None,
        error.source() == Some(io) <==> error == Error::ReadError(io) || error == Error::WriteError(
            io,
        ),
{
}

} // verus!
