//! Firewall forwarding state.

use crate::clock::get_epoch_time_ms;
use crate::command::BitcoinCommand;
use crate::error::Error;
use crate::flow::{Flow, MAX_MSG_BUF_LEN};
use crate::io::{ReadReply, Turn, WriteReply, BUF_SIZE};
use crate::preamble::{decode_header, read_le32, BitcoinPreamble, PREAMBLE_LEN};
use crate::proxy::{rules, BitcoinProxy};
use std::collections::VecDeque;
use vstd::prelude::*;
use vstd::slice::slice_subrange;

verus! {

/// A socket that moves nothing for longer than this many milliseconds is closed.
pub const IDLE_TIMEOUT: u128 = 30_000;

/// Firewall forwarding state.
/// Used both for relaying messages from downstream clients to the upstream bitcoind,
/// and from the upstream bitcoind back down to a downstream client.
pub struct ForwardState {
    /// Buffer to store an incoming Bitcoin message header ("preamble")
    preamble_buf: Vec<u8>,
    /// Buffer to store outgoing bytes to be sent (preamble and payload)
    recv_buf: Vec<u8>,
    /// List of messages received that need to be sent upstream
    messages_to_send: VecDeque<Vec<u8>>,
    /// Pointer into the head of the messages_to_send list
    send_ptr: usize,
    /// Parsed Bitcoin message header.  Instantiated only if we're reading the payload.
    preamble: Option<BitcoinPreamble>,
    /// Number of bytes consumed from the message payload.
    num_read: u64,
    /// Whether or not the message will be dropped.
    filtered: bool,
    /// Whether or not the message has been considered for filtration
    filter_considered: bool,
    /// Timestamp, in milliseconds since the Epoch, when we last read or wrote at least 1 byte
    /// using this forwarding state.
    last_io_at: u128,
    /// Forwarding state is associated with *two* sockets -- the downstream client socket, and the
    /// upstream bitcoind socket.  This is the event ID of the _other_ socket this forwarding state
    /// is bound to in the BitcoinProxy struct.
    pair_event_id: usize,
}

/// The messages of a queue, as sequences.
pub open spec fn messages(queue: Seq<Vec<u8>>) -> Seq<Seq<u8>> {
    queue.map_values(|message: Vec<u8>| message@)
}

impl View for ForwardState {
    type V = Flow;

    closed spec fn view(&self) -> Flow {
        Flow {
            preamble_buf: self.preamble_buf@,
            recv_buf: self.recv_buf@,
            queue: messages(self.messages_to_send@),
            send_ptr: self.send_ptr as int,
            preamble: match self.preamble {
                Some(preamble) => Some(preamble@),
                None => None,
            },
            num_read: self.num_read as int,
            filtered: self.filtered,
            filter_considered: self.filter_considered,
            last_io_at: self.last_io_at,
            pair_event_id: self.pair_event_id,
        }
    }
}

impl ForwardState {
    /// A forwarding state that has done nothing yet, as of the given time.
    pub fn new_at(now: u128) -> (r: ForwardState)
        ensures
            r@ == Flow::fresh(now),
            r@.wf(),
    {
        let r = ForwardState {
            preamble_buf: Vec::new(),
            recv_buf: Vec::new(),
            messages_to_send: VecDeque::new(),
            send_ptr: 0,
            preamble: None,
            num_read: 0,
            filtered: false,
            filter_considered: false,
            last_io_at: now,
            pair_event_id: 0,
        };
        assert(r@ =~= Flow::fresh(now));
        r
    }

    /// A forwarding state that has done nothing yet, as of what the clock says.  None if it says
    /// nothing.
    pub fn new_by(reading: Option<u128>) -> (r: Option<ForwardState>)
        ensures
            r is Some <==> reading is Some,
            r matches Some(forward) ==> reading matches Some(now) && forward@ == Flow::fresh(now)
                && forward@.wf(),
    {
        match reading {
            Some(now) => Some(ForwardState::new_at(now)),
            None => None,
        }
    }

    /// A forwarding state that has done nothing yet, as of now.  None if the clock is set before
    /// the Epoch.  Which of the two, and as of when, is up to the clock alone.
    pub fn new() -> (r: Option<ForwardState>)
        ensures
            r matches Some(forward) ==> forward@ == Flow::fresh(forward@.last_io_at)
                && forward@.wf(),
    {
        ForwardState::new_by(get_epoch_time_ms())
    }

    /// The event ID of the other socket.
    pub fn pair_event_id(&self) -> (r: usize)
        ensures
            r == self@.pair_event_id,
    {
        self.pair_event_id
    }

    /// Bind the forwarding state to the other socket.
    pub fn set_pair_event_id(&mut self, pair_event_id: usize)
        ensures
            final(self)@ == (Flow { pair_event_id, ..old(self)@ }),
    {
        self.pair_event_id = pair_event_id;
    }

    /// The header of the message whose payload is being read.
    pub fn preamble(&self) -> (r: Option<&BitcoinPreamble>)
        ensures
            r is Some <==> self@.preamble is Some,
            r matches Some(preamble) ==> self@.preamble == Some(preamble@),
    {
        self.preamble.as_ref()
    }

    /// The part of a header that has been read.
    pub fn preamble_buf(&self) -> (r: &[u8])
        ensures
            r@ == self@.preamble_buf,
    {
        self.preamble_buf.as_slice()
    }

    /// How much of the payload has been read.
    pub fn num_read(&self) -> (r: u64)
        ensures
            r == self@.num_read,
    {
        self.num_read
    }

    /// Whether or not the message that is being read will be dropped.
    pub fn filtered(&self) -> (r: bool)
        ensures
            r == self@.filtered,
    {
        self.filtered
    }

    /// When at least 1 byte was last read or written, in milliseconds since the Epoch.
    pub fn last_io_at(&self) -> (r: u128)
        ensures
            r == self@.last_io_at,
    {
        self.last_io_at
    }

    /// How many messages wait to be sent.
    pub fn pending(&self) -> (r: usize)
        ensures
            r == self@.queue.len(),
    {
        self.messages_to_send.len()
    }

    /// Reset the forwarding state.  Called each time we send a whole message.
    pub fn reset_write(&mut self)
        requires
            old(self)@.wf(),
        ensures
            final(self)@ == old(self)@.reset_write(),
            final(self)@.wf(),
    {
        let _ = self.messages_to_send.pop_front();
        self.send_ptr = 0;
        assert(self@ =~= old(self)@.reset_write());
    }

    /// Take what was read to the end of the messages to send, unless it is filtered.  Called each
    /// time we read a whole message.
    pub fn reset_read(&mut self) -> (r: Result<(), Error>)
        requires
            old(self)@.wf(),
        ensures
            final(self)@ == old(self)@.reset_read(),
            final(self)@.wf(),
            old(self)@.bursts() ==> r == Err::<(), Error>(Error::BurstError),
            !old(self)@.bursts() ==> r == Ok::<(), Error>(()),
    {
        if !self.filtered {
            if self.messages_to_send.len() > MAX_MSG_BUF_LEN {
                return Err(Error::BurstError);
            }
            let mut buf: Vec<u8> = Vec::new();
            std::mem::swap(&mut self.recv_buf, &mut buf);
            self.messages_to_send.push_back(buf);
        } else {
            self.recv_buf.clear();
        }
        self.preamble_buf.clear();
        self.preamble = None;
        self.num_read = 0;
        self.filtered = false;
        self.filter_considered = false;
        assert(self@ =~= old(self)@.reset_read());
        Ok(())
    }

    /// Given the expected magic and byte buffer encoding a Bitcoin message header, parse it out.
    /// Returns None if the bytes do not encode a well-formed header.
    /// The checksum field is not checked.
    pub fn parse_preamble(magic: u32, buf: &[u8]) -> (r: Option<BitcoinPreamble>)
        ensures
            r is Some <==> decode_header(magic, buf@) is Some,
            r matches Some(preamble) ==> decode_header(magic, buf@) == Some(preamble@),
    {
        if buf.len() < PREAMBLE_LEN {
            return None;
        }
        let msg_magic: u32 = read_le32(buf, 0);
        if msg_magic != magic {
            return None;
        }
        let command = BitcoinCommand(
            [
                buf[4],
                buf[5],
                buf[6],
                buf[7],
                buf[8],
                buf[9],
                buf[10],
                buf[11],
                buf[12],
                buf[13],
                buf[14],
                buf[15],
            ],
        );
        assert(command@ =~= buf@.subrange(4, 16));
        let length: u32 = read_le32(buf, 16);
        let checksum: u32 = read_le32(buf, 20);
        Some(BitcoinPreamble { magic, command, length, checksum })
    }

    /// How many bytes to read next: up to, but not over, the number of bytes in a Bitcoin message
    /// header, or, once the header is there, in its payload.  None if there is a whole header that
    /// does not parse: the connection is broken.
    pub fn read_size(&self) -> (r: Option<usize>)
        requires
            self@.wf(),
        ensures
            r is Some <==> self@.read_size() is Some,
            r matches Some(size) ==> self@.read_size() == Some(size as int),
    {
        match &self.preamble {
            None => {
                if self.preamble_buf.len() >= PREAMBLE_LEN {
                    None
                } else {
                    Some(PREAMBLE_LEN - self.preamble_buf.len())
                }
            },
            Some(preamble) => {
                let to_read: u64 = preamble.length as u64 - self.num_read;
                if to_read < BUF_SIZE as u64 {
                    Some(to_read as usize)
                } else {
                    Some(BUF_SIZE)
                }
            },
        }
    }

    /// The bytes to write next, None if there is no write to make.
    pub fn due(&self) -> (r: Option<&[u8]>)
        requires
            self@.wf(),
        ensures
            r is Some <==> self@.due() is Some,
            r matches Some(bytes) ==> self@.due() == Some(bytes@),
    {
        if self.messages_to_send.len() == 0 {
            return None;
        }
        let write_buf: &Vec<u8> = &self.messages_to_send[0];
        if self.send_ptr >= write_buf.len() {
            return None;
        }
        let left: usize = write_buf.len() - self.send_ptr;
        let max_write: usize = if BUF_SIZE < left {
            BUF_SIZE
        } else {
            left
        };
        let bytes = slice_subrange(write_buf.as_slice(), self.send_ptr, self.send_ptr + max_write);
        assert(self@.queue[0] == write_buf@);
        assert(self@.due() == Some(bytes@));
        Some(bytes)
    }

    /// Take in what a write of the [`due`](ForwardState::due) bytes came back with.  Returns
    /// Ok(true) if we drain the buffer, Ok(false) if there are bytes remaining, or Err(...) on
    /// network error.
    pub fn try_flush(&mut self, reply: Option<WriteReply>) -> (r: Result<bool, Error>)
        requires
            old(self)@.wf(),
            old(self)@.accepts_write(reply),
        ensures
            (final(self)@, r) == old(self)@.try_flush(reply),
            final(self)@.wf(),
    {
        if self.messages_to_send.len() == 0 {
            return Ok(true);
        }
        let len: usize = self.messages_to_send[0].len();
        assert(self@.queue[0].len() == len);
        if self.send_ptr >= len {
            self.reset_write();
            return Ok(self.messages_to_send.len() == 0);
        }
        match reply {
            None => Ok(false),
            Some(WriteReply::WouldBlock) => Err(Error::Blocked),
            Some(WriteReply::Failed(e)) => Err(Error::WriteError(e)),
            Some(WriteReply::Written { count, at }) => {
                if count > 0 {
                    self.last_io_at = at;
                }
                self.send_ptr = self.send_ptr + count;
                if self.send_ptr >= len {
                    self.reset_write();
                    Ok(self.messages_to_send.len() == 0)
                } else {
                    Ok(false)
                }
            },
        }
    }

    /// Take in what a read of a Bitcoin message header, with the given magic bytes, came back
    /// with.
    /// If we get enough bytes to form a Bitcoin message header, and if we successfully parse it
    /// into a BitcoinPreamble, then return Ok(true) so we can proceed to read the payload.
    /// Return Ok(false) if we don't have enough bytes to form a BitcoinPreamble.
    /// Return Err(...) on network error, or if we can't parse a BitcoinPreamble (indicates to the
    /// network poll loop to disconnect this socket).
    pub fn read_preamble(&mut self, magic: u32, reply: ReadReply) -> (r: Result<bool, Error>)
        requires
            old(self)@.wf(),
            old(self)@.preamble is None,
            old(self)@.accepts(reply@),
        ensures
            (final(self)@, r) == old(self)@.read_preamble(magic, reply@),
            final(self)@.wf(),
    {
        if self.preamble_buf.len() >= PREAMBLE_LEN {
            return Err(Error::ConnectionBroken);
        }
        match reply {
            ReadReply::WouldBlock => Err(Error::Blocked),
            ReadReply::Failed(e) => Err(Error::ReadError(e)),
            ReadReply::Data { bytes, at } => {
                let mut bytes = bytes;
                if bytes.len() == 0 {
                    return Err(Error::ConnectionBroken);
                }
                self.last_io_at = at;
                self.preamble_buf.append(&mut bytes);
                if self.preamble_buf.len() == PREAMBLE_LEN {
                    match ForwardState::parse_preamble(magic, self.preamble_buf.as_slice()) {
                        None => Err(Error::ConnectionBroken),
                        Some(preamble) => {
                            // forward preamble upstream
                            let mut header: Vec<u8> = Vec::new();
                            std::mem::swap(&mut self.preamble_buf, &mut header);
                            self.recv_buf.append(&mut header);
                            self.preamble = Some(preamble);
                            Ok(true)
                        },
                    }
                } else {
                    Ok(false)
                }
            },
        }
    }

    /// Take in what a read of a Bitcoin message payload came back with.
    /// Buffers up the bytes; once the payload is complete the message joins those to send, so a
    /// subsequent write can send it to the paired socket.
    /// Returns the number of bytes read on success.  Returns Err(...) on network error, in which
    /// case the underlying socket is to be closed.
    pub fn read_payload(&mut self, reply: ReadReply) -> (r: Result<usize, Error>)
        requires
            old(self)@.wf(),
            old(self)@.preamble is Some,
            old(self)@.accepts(reply@),
        ensures
            (final(self)@, r) == old(self)@.read_payload(reply@),
            final(self)@.wf(),
    {
        let length: u64 = match &self.preamble {
            Some(preamble) => preamble.length as u64,
            None => 0,
        };
        match reply {
            ReadReply::WouldBlock => Err(Error::Blocked),
            ReadReply::Failed(e) => Err(Error::ReadError(e)),
            ReadReply::Data { bytes, at } => {
                let mut bytes = bytes;
                let nr: usize = bytes.len();
                if nr == 0 {
                    // a zero-length message may be expected.
                    // Can happen with `verack`, for example.
                    if self.num_read < length {
                        return Err(Error::ConnectionBroken);
                    }
                } else {
                    self.last_io_at = at;
                }
                self.recv_buf.append(&mut bytes);
                self.num_read = self.num_read + nr as u64;
                if self.num_read >= length {
                    match self.reset_read() {
                        Ok(_) => {},
                        Err(e) => {
                            return Err(e);
                        },
                    }
                }
                Ok(nr)
            },
        }
    }

    /// Take in what a read came back with, of a preamble or of a payload, whichever is being
    /// read, and say whether to read on: read preambles and messages until blocked.
    pub fn read_until_blocked(
        &mut self,
        magic: u32,
        reply: ReadReply,
        allow_list: &Vec<BitcoinCommand>,
        deny_list: &Vec<BitcoinCommand>,
    ) -> (r: Turn)
        requires
            old(self)@.wf(),
            old(self)@.accepts(reply@),
        ensures
            (final(self)@, r) == old(self)@.read_turn(
                magic,
                rules(allow_list@, deny_list@),
                reply@,
            ),
            final(self)@.wf(),
    {
        let drops: bool = match &self.preamble {
            None => {
                return match self.read_preamble(magic, reply) {
                    Ok(_) => Turn::Again,
                    Err(Error::Blocked) => Turn::Stop(true),
                    Err(_) => Turn::Stop(false),
                };
            },
            Some(preamble) => BitcoinProxy::<()>::filter(preamble, allow_list, deny_list),
        };
        if !self.filtered && drops {
            self.filtered = true;
        }
        if !self.filtered && !self.filter_considered {
            self.filter_considered = true;
        }
        match self.read_payload(reply) {
            Ok(_) => Turn::Again,
            Err(Error::Blocked) => Turn::Stop(true),
            Err(_) => Turn::Stop(false),
        }
    }

    /// Take in what a write came back with, and say whether to write on: send out messages until
    /// blocked.
    pub fn write_until_blocked(&mut self, reply: Option<WriteReply>) -> (r: Turn)
        requires
            old(self)@.wf(),
            old(self)@.accepts_write(reply),
        ensures
            (final(self)@, r) == old(self)@.write_turn(reply),
            final(self)@.wf(),
    {
        match self.try_flush(reply) {
            Ok(drained) => {
                if drained {
                    // nothing more to send
                    Turn::Stop(true)
                } else {
                    Turn::Again
                }
            },
            Err(Error::Blocked) => Turn::Stop(true),
            Err(_) => Turn::Stop(false),
        }
    }

    /// Has the socket gone, at the given time, more than IDLE_TIMEOUT milliseconds without reading
    /// or writing anything?  Used to disconnect idle sockets.
    pub fn is_idle_at(&self, now: u128) -> (r: bool)
        ensures
            r == self@.idle(IDLE_TIMEOUT, now),
    {
        now > IDLE_TIMEOUT && self.last_io_at < now - IDLE_TIMEOUT
    }

    /// Has the socket gone, by what the clock says, more than IDLE_TIMEOUT milliseconds without
    /// reading or writing anything?  None if the clock says nothing.
    pub fn is_idle_by(&self, reading: Option<u128>) -> (r: Option<bool>)
        ensures
            r == match reading {
                Some(now) => Some(self@.idle(IDLE_TIMEOUT, now)),
                None => None::<bool>,
            },
    {
        match reading {
            Some(now) => Some(self.is_idle_at(now)),
            None => None,
        }
    }

    /// Has the socket gone more than IDLE_TIMEOUT milliseconds without reading or writing
    /// anything?  Used to disconnect idle sockets.  None if the clock is set before the Epoch.
    /// What the clock says is up to the clock alone.
    pub fn is_idle_timeout(&self) -> (r: Option<bool>)
        ensures
            r matches Some(idle) ==> exists|now: u128| idle == self@.idle(IDLE_TIMEOUT, now),
    {
        self.is_idle_by(get_epoch_time_ms())
    }
}

} // verus!
