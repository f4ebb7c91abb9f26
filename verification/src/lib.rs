//! A firewall for Bitcoin peer-to-peer messages.
//!
//! It stands between clients and a bitcoind, and passes on the messages of the clients that its
//! rules let pass.  This library holds everything that the firewall decides: what a message is,
//! which messages pass, how bytes are gathered and passed on, which sockets belong together, and
//! when they are closed.  It does no I/O of its own: it says what to read and write, and takes in
//! what came of it.

pub mod clock;
pub mod command;
pub mod error;
pub mod flow;
pub mod forward;
pub mod io;
pub mod log;
pub mod network;
pub mod options;
pub mod preamble;
pub mod proxy;
pub mod ready;
pub mod relay;
pub mod session;
pub mod table;
