//! The model of a forwarding state: what it holds, and what each reply of a socket makes of it.

use crate::error::Error;
use crate::io::{Event, IoAction, Received, Turn, WriteReply, BUF_SIZE};
use crate::preamble::{decode_header, Header, PREAMBLE_LEN};
use vstd::prelude::*;

verus! {

/// Messages that may wait to be sent before another one is held to be too many.
pub const MAX_MSG_BUF_LEN: usize = 128;

/// Which commands pass the firewall.
pub struct Rules {
    pub allow: Seq<Seq<u8>>,
    pub deny: Seq<Seq<u8>>,
}

impl Rules {
    /// Is a message with this command dropped?  If anything is allowed by name, all else is
    /// dropped; if not, what is denied by name is dropped.
    pub open spec fn drops(self, command: Seq<u8>) -> bool {
        if self.allow.len() > 0 {
            !self.allow.contains(command)
        } else {
            self.deny.contains(command)
        }
    }
}

/// What a forwarding state holds.
#[verifier::ext_equal]
pub struct Flow {
    /// The part of a header that has been read.
    pub preamble_buf: Seq<u8>,
    /// The header and the part of the payload that have been read.
    pub recv_buf: Seq<u8>,
    /// The messages to send.
    pub queue: Seq<Seq<u8>>,
    /// How much of the first message has been sent.
    pub send_ptr: int,
    /// The header of the message whose payload is being read.
    pub preamble: Option<Header>,
    /// How much of the payload has been read.
    pub num_read: int,
    pub filtered: bool,
    pub filter_considered: bool,
    pub last_io_at: u128,
    pub pair_event_id: usize,
}

impl Flow {
    /// Nothing read, nothing to send.
    pub open spec fn fresh(now: u128) -> Flow {
        Flow {
            preamble_buf: seq![],
            recv_buf: seq![],
            queue: seq![],
            send_ptr: 0,
            preamble: None,
            num_read: 0,
            filtered: false,
            filter_considered: false,
            last_io_at: now,
            pair_event_id: 0,
        }
    }

    /// Nothing read and nothing to send yet, whichever socket the state is paired with.
    pub open spec fn is_fresh(self) -> bool {
        self == Flow { pair_event_id: self.pair_event_id, ..Flow::fresh(self.last_io_at) }
    }

    /// What holds of every forwarding state.
    pub open spec fn wf(self) -> bool {
        &&& match self.preamble {
            None => {
                &&& self.preamble_buf.len() <= PREAMBLE_LEN
                &&& self.recv_buf.len() == 0
                &&& self.num_read == 0
                &&& !self.filtered
                &&& !self.filter_considered
            },
            Some(h) => {
                &&& self.preamble_buf.len() == 0
                &&& 0 <= self.num_read <= h.length
                &&& self.recv_buf.len() == PREAMBLE_LEN + self.num_read
            },
        }
        &&& 0 <= self.send_ptr
        &&& if self.queue.len() == 0 {
            self.send_ptr == 0
        } else {
            self.send_ptr <= self.queue[0].len()
        }
        &&& self.queue.len() <= MAX_MSG_BUF_LEN + 1
    }

    /// The first message is sent, or given up.
    pub open spec fn reset_write(self) -> Flow {
        Flow {
            queue: if self.queue.len() > 0 {
                self.queue.drop_first()
            } else {
                self.queue
            },
            send_ptr: 0,
            ..self
        }
    }

    /// Are there too many messages waiting to take the one that was read?
    pub open spec fn bursts(self) -> bool {
        !self.filtered && self.queue.len() > MAX_MSG_BUF_LEN
    }

    /// What was read goes to the end of the queue, or away if it is filtered.
    pub open spec fn reset_read(self) -> Flow {
        if self.bursts() {
            self
        } else {
            Flow {
                preamble_buf: seq![],
                recv_buf: seq![],
                queue: if self.filtered {
                    self.queue
                } else {
                    self.queue.push(self.recv_buf)
                },
                preamble: None,
                num_read: 0,
                filtered: false,
                filter_considered: false,
                ..self
            }
        }
    }

    /// How many bytes the next read asks for: the rest of the header, or of the payload as far as
    /// one read goes.  None if a whole header is there that could not be parsed.
    pub open spec fn read_size(self) -> Option<int> {
        match self.preamble {
            None => if self.preamble_buf.len() >= PREAMBLE_LEN {
                None
            } else {
                Some(PREAMBLE_LEN - self.preamble_buf.len())
            },
            Some(h) => Some(
                if h.length - self.num_read < BUF_SIZE {
                    h.length - self.num_read
                } else {
                    BUF_SIZE as int
                },
            ),
        }
    }

    /// A reply holds no more bytes than were asked for.
    pub open spec fn accepts(self, reply: Received) -> bool {
        match (self.read_size(), reply) {
            (Some(size), Received::Data { bytes, at }) => bytes.len() <= size,
            _ => true,
        }
    }

    /// The time of the last I/O, once `count` bytes have moved at `at`.
    pub open spec fn touched(self, count: int, at: u128) -> u128 {
        if count > 0 {
            at
        } else {
            self.last_io_at
        }
    }

    /// What a reply to a read of the header makes of the state, and the outcome: true once the
    /// header is complete.
    pub open spec fn read_preamble(self, magic: u32, reply: Received) -> (Flow, Result<
        bool,
        Error,
    >) {
        if self.preamble_buf.len() >= PREAMBLE_LEN {
            (self, Err(Error::ConnectionBroken))
        } else {
            match reply {
                Received::WouldBlock => (self, Err(Error::Blocked)),
                Received::Failed(e) => (self, Err(Error::ReadError(e))),
                Received::Data { bytes, at } => {
                    let got = self.preamble_buf + bytes;
                    let next = Flow { preamble_buf: got, last_io_at: at, ..self };
                    if bytes.len() == 0 {
                        (self, Err(Error::ConnectionBroken))
                    } else if got.len() < PREAMBLE_LEN {
                        (next, Ok(false))
                    } else {
                        match decode_header(magic, got) {
                            None => (next, Err(Error::ConnectionBroken)),
                            Some(h) => (
                                Flow {
                                    preamble_buf: seq![],
                                    recv_buf: self.recv_buf + got,
                                    preamble: Some(h),
                                    ..next
                                },
                                Ok(true),
                            ),
                        }
                    }
                },
            }
        }
    }

    /// What a reply to a read of the payload makes of the state, and the outcome: how many bytes
    /// were read.
    pub open spec fn read_payload(self, reply: Received) -> (Flow, Result<usize, Error>) {
        match reply {
            Received::WouldBlock => (self, Err(Error::Blocked)),
            Received::Failed(e) => (self, Err(Error::ReadError(e))),
            Received::Data { bytes, at } => {
                let next = Flow {
                    recv_buf: self.recv_buf + bytes,
                    num_read: self.num_read + bytes.len(),
                    last_io_at: self.touched(bytes.len() as int, at),
                    ..self
                };
                if bytes.len() == 0 && self.read_size() != Some(0int) {
                    (self, Err(Error::ConnectionBroken))
                } else if next.num_read < self.preamble->0.length {
                    (next, Ok(bytes.len() as usize))
                } else if next.bursts() {
                    (next, Err(Error::BurstError))
                } else {
                    (next.reset_read(), Ok(bytes.len() as usize))
                }
            },
        }
    }

    /// The message whose header has been read is held against the rules.
    pub open spec fn considered(self, rules: Rules) -> Flow {
        let filtered = self.filtered || rules.drops(self.preamble->0.command);
        Flow { filtered, filter_considered: self.filter_considered || !filtered, ..self }
    }

    /// What a reply to a read, of the header or of the payload as the state has it, makes of the
    /// state, and whether to read on.
    pub open spec fn read_turn(self, magic: u32, rules: Rules, reply: Received) -> (Flow, Turn) {
        if self.preamble is None {
            let (next, r) = self.read_preamble(magic, reply);
            (
                next,
                match r {
                    Ok(_) => Turn::Again,
                    Err(Error::Blocked) => Turn::Stop(true),
                    Err(_) => Turn::Stop(false),
                },
            )
        } else {
            let (next, r) = self.considered(rules).read_payload(reply);
            (
                next,
                match r {
                    Ok(_) => Turn::Again,
                    Err(Error::Blocked) => Turn::Stop(true),
                    Err(_) => Turn::Stop(false),
                },
            )
        }
    }

    /// The bytes that the next write offers: what is left of the first message, as far as one
    /// write goes.  None if there is no message, or nothing left of the first one.
    pub open spec fn due(self) -> Option<Seq<u8>> {
        if self.queue.len() == 0 || self.send_ptr >= self.queue[0].len() {
            None
        } else {
            let rest = self.queue[0].skip(self.send_ptr);
            Some(
                if rest.len() > BUF_SIZE {
                    rest.take(BUF_SIZE as int)
                } else {
                    rest
                },
            )
        }
    }

    /// There is a reply exactly where a write was due, and the socket took no more bytes than it
    /// was offered.
    pub open spec fn accepts_write(self, reply: Option<WriteReply>) -> bool {
        match (self.due(), reply) {
            (Some(offered), Some(WriteReply::Written { count, at })) => count <= offered.len(),
            (Some(_), Some(_)) => true,
            (None, None) => true,
            _ => false,
        }
    }

    /// What the reply to a write makes of the state, and the outcome: true once nothing is left
    /// to send.
    pub open spec fn try_flush(self, reply: Option<WriteReply>) -> (Flow, Result<bool, Error>) {
        if self.queue.len() == 0 {
            (self, Ok(true))
        } else if self.send_ptr >= self.queue[0].len() {
            (self.reset_write(), Ok(self.queue.len() == 1))
        } else {
            match reply->0 {
                WriteReply::WouldBlock => (self, Err(Error::Blocked)),
                WriteReply::Failed(e) => (self, Err(Error::WriteError(e))),
                WriteReply::Written { count, at } => {
                    let next = Flow {
                        send_ptr: self.send_ptr + count,
                        last_io_at: self.touched(count as int, at),
                        ..self
                    };
                    if next.send_ptr < self.queue[0].len() {
                        (next, Ok(false))
                    } else {
                        (next.reset_write(), Ok(self.queue.len() == 1))
                    }
                },
            }
        }
    }

    /// What the reply to a write makes of the state, and whether to write on.
    pub open spec fn write_turn(self, reply: Option<WriteReply>) -> (Flow, Turn) {
        let (next, r) = self.try_flush(reply);
        (
            next,
            match r {
                Ok(true) => Turn::Stop(true),
                Ok(false) => Turn::Again,
                Err(Error::Blocked) => Turn::Stop(true),
                Err(_) => Turn::Stop(false),
            },
        )
    }

    /// The reply answers what was asked.
    pub open spec fn accepts_event(self, event: Event) -> bool {
        match event {
            Event::Read(reply) => self.accepts(reply),
            Event::Write(reply) => self.accepts_write(reply),
        }
    }

    /// The next read, or the end if there is none to make.
    pub open spec fn read_action(self) -> IoAction {
        match self.read_size() {
            Some(size) => IoAction::Read(size as usize),
            None => IoAction::Done(false),
        }
    }

    /// What a reply makes of the state, and what to do next: read until the inbound socket would
    /// block, then write until the outbound socket would block.
    pub open spec fn io_turn(self, magic: u32, rules: Rules, event: Event) -> (Flow, IoAction) {
        match event {
            Event::Read(reply) => {
                let (next, turn) = self.read_turn(magic, rules, reply);
                (
                    next,
                    match turn {
                        Turn::Again => next.read_action(),
                        Turn::Stop(true) => IoAction::Write,
                        Turn::Stop(false) => IoAction::Done(false),
                    },
                )
            },
            Event::Write(reply) => {
                let (next, turn) = self.write_turn(reply);
                (
                    next,
                    match turn {
                        Turn::Again => IoAction::Write,
                        Turn::Stop(alive) => IoAction::Done(alive),
                    },
                )
            },
        }
    }

    /// Has more than `timeout` milliseconds passed since the last I/O?
    pub open spec fn idle(self, timeout: u128, now: u128) -> bool {
        self.last_io_at + timeout < now
    }
}

/// If anything is allowed by name, it does not matter what is denied.
pub proof fn law_allow_list_is_preferred(
    allow: Seq<Seq<u8>>,
    deny: Seq<Seq<u8>>,
    command: Seq<u8>,
)
    requires
        allow.len() > 0,
    ensures
        (Rules { allow, deny }).drops(command) == !allow.contains(command),
{
}

/// A command may stand in a list more than once: that changes nothing.
pub proof fn law_duplicates_do_not_matter(rules: Rules, command: Seq<u8>, other: Seq<u8>)
    ensures
        rules.allow.contains(command) ==> (Rules {
            allow: rules.allow.push(command),
            ..rules
        }).drops(other) == rules.drops(other),
        rules.deny.contains(command) ==> (Rules { deny: rules.deny.push(command), ..rules }).drops(
            other,
        ) == rules.drops(other),
{
    vstd::seq_lib::lemma_seq_contains_after_push(rules.allow, command, other);
    vstd::seq_lib::lemma_seq_contains_after_push(rules.deny, command, other);
}

/// An idle connection stays idle until something moves.
pub proof fn law_idle_until_something_moves(flow: Flow, timeout: u128, now: u128, later: u128)
    requires
        flow.idle(timeout, now),
        now <= later,
    ensures
        flow.idle(timeout, later),
{
}

/// A reply that answers what was asked leaves a proper forwarding state.
pub proof fn law_io_keeps_wf(flow: Flow, magic: u32, rules: Rules, event: Event)
    requires
        flow.wf(),
        flow.accepts_event(event),
    ensures
        flow.io_turn(magic, rules, event).0.wf(),
{
}

/// Whether a message passes depends on its command and the two lists alone: if any command is
/// allowed by name, the command must be one of them; if none is, it must not be one of those denied.
pub proof fn law_what_passes(rules: Rules, command: Seq<u8>)
    ensures
        rules.allow.len() > 0 ==> (rules.drops(command) <==> forall|i: int|
            0 <= i < rules.allow.len() ==> rules.allow[i] != command),
        rules.allow.len() == 0 ==> (rules.drops(command) <==> exists|i: int|
            0 <= i < rules.deny.len() && rules.deny[i] == command),
{
}

/// A state is fresh exactly if no byte has been read or waits to be sent; a new one is, from the
/// time that it was made.
pub proof fn law_fresh_states_hold_nothing(flow: Flow, now: u128)
    ensures
        flow.is_fresh() <==> {
            &&& flow.preamble_buf.len() == 0
            &&& flow.recv_buf.len() == 0
            &&& flow.queue.len() == 0
            &&& flow.send_ptr == 0
            &&& flow.preamble is None
            &&& flow.num_read == 0
            &&& !flow.filtered
            &&& !flow.filter_considered
        },
        Flow::fresh(now).is_fresh(),
        Flow::fresh(now).wf(),
        Flow::fresh(now).last_io_at == now,
        Flow::fresh(now).pair_event_id == 0,
{
    if flow.preamble_buf.len() == 0 && flow.recv_buf.len() == 0 && flow.queue.len() == 0
        && flow.send_ptr == 0 && flow.preamble is None && flow.num_read == 0 && !flow.filtered
        && !flow.filter_considered {
        assert(flow =~= Flow {
            pair_event_id: flow.pair_event_id,
            ..Flow::fresh(flow.last_io_at)
        });
    }
}

/// What a state may be: before the header is there, it holds up to 24 bytes of it and nothing else
/// of the message; then, the header and as much of the payload as was read.  Of the messages that
/// wait, up to 129, no more of the first is sent than it has.
pub proof fn law_what_states_there_are(flow: Flow)
    ensures
        flow.wf() <==> {
            &&& flow.preamble is None ==> {
                &&& flow.preamble_buf.len() <= 24
                &&& flow.recv_buf.len() == 0
                &&& flow.num_read == 0
                &&& !flow.filtered && !flow.filter_considered
            }
            &&& flow.preamble matches Some(h) ==> {
                &&& flow.preamble_buf.len() == 0
                &&& 0 <= flow.num_read <= h.length
                &&& flow.recv_buf.len() == 24 + flow.num_read
            }
            &&& flow.queue.len() <= 129
            &&& 0 <= flow.send_ptr
            &&& flow.queue.len() == 0 ==> flow.send_ptr == 0
            &&& flow.queue.len() > 0 ==> flow.send_ptr <= flow.queue[0].len()
        },
{
}

/// A message that is done with leaves the others waiting in their order, none of the first sent;
/// nothing else changes.
pub proof fn law_messages_leave_from_the_front(flow: Flow)
    ensures
        flow.queue.len() == 0 ==> flow.reset_write().queue.len() == 0,
        flow.queue.len() > 0 ==> seq![flow.queue[0]] + flow.reset_write().queue == flow.queue,
        flow.reset_write().send_ptr == 0,
        (Flow { queue: flow.queue, send_ptr: flow.send_ptr, ..flow.reset_write() }) == flow,
{
    if flow.queue.len() > 0 {
        assert(seq![flow.queue[0]] + flow.reset_write().queue =~= flow.queue);
    }
}

/// A message that has been read joins those that wait, behind them and whole, unless it is filtered
/// or 129 or more wait already; the next message is then read from its start.  If 129 or more wait,
/// nothing changes.  What waits, the time of the last I/O and the pair are not touched.
pub proof fn law_messages_join_at_the_end(flow: Flow)
    ensures
        flow.bursts() <==> !flow.filtered && flow.queue.len() >= 129,
        flow.bursts() ==> flow.reset_read() == flow,
        !flow.bursts() ==> {
            let next = flow.reset_read();
            &&& flow.filtered ==> next.queue == flow.queue
            &&& !flow.filtered ==> {
                &&& next.queue.len() == flow.queue.len() + 1
                &&& next.queue.last() == flow.recv_buf
                &&& next.queue.drop_last() == flow.queue
            }
            &&& next.preamble is None
            &&& next.preamble_buf.len() == 0
            &&& next.recv_buf.len() == 0
            &&& next.num_read == 0
            &&& !next.filtered
            &&& !next.filter_considered
            &&& next.send_ptr == flow.send_ptr
            &&& next.last_io_at == flow.last_io_at
            &&& next.pair_event_id == flow.pair_event_id
        },
{
    if !flow.bursts() && !flow.filtered {
        assert(flow.reset_read().queue.drop_last() =~= flow.queue);
    }
}

/// A read asks for all that is missing of the header, then for all that is missing of the payload,
/// but for no more than 65536 bytes at a time; once a whole header did not parse, for nothing.
pub proof fn law_reads_ask_for_what_is_missing(flow: Flow)
    requires
        flow.wf(),
    ensures
        flow.preamble is None ==> match flow.read_size() {
            Some(size) => size > 0 && size + flow.preamble_buf.len() == 24,
            None => flow.preamble_buf.len() == 24,
        },
        flow.preamble matches Some(h) ==> match flow.read_size() {
            Some(size) => {
                let missing = h.length - flow.num_read;
                &&& 0 <= size <= missing
                &&& size <= 65536
                &&& size == missing || size == 65536
            },
            None => false,
        },
        match flow.read_action() {
            IoAction::Read(size) => flow.read_size() == Some(size as int),
            IoAction::Write => false,
            IoAction::Done(alive) => flow.read_size() is None && !alive,
        },
{
}

/// Any reply answers a read that brought no more bytes than were asked for.
pub proof fn law_what_answers_a_read(flow: Flow, reply: Received)
    ensures
        flow.accepts(reply) <==> (reply matches Received::Data { bytes, at } ==> (
        flow.read_size() matches Some(size) ==> bytes.len() <= size)),
        flow.accepts_event(Event::Read(reply)) == flow.accepts(reply),
{
}

/// A read of the header keeps every byte in its order, and touches neither what waits nor the pair.
/// The header is there exactly once it has 24 bytes; then it is what these bytes hold, or, if they
/// hold none, the connection is broken.
pub proof fn law_headers_are_gathered(flow: Flow, magic: u32, reply: Received)
    requires
        flow.wf(),
        flow.preamble is None,
        flow.accepts(reply),
    ensures
        ({
            let (next, r) = flow.read_preamble(magic, reply);
            let broken = Err::<bool, Error>(Error::ConnectionBroken);
            if flow.preamble_buf.len() == 24 {
                next == flow && r == broken
            } else {
                match reply {
                    Received::WouldBlock => next == flow && r == Err::<bool, Error>(Error::Blocked),
                    Received::Failed(e) => next == flow && r == Err::<bool, Error>(
                        Error::ReadError(e),
                    ),
                    Received::Data { bytes, at } => if bytes.len() == 0 {
                        next == flow && r == broken
                    } else {
                        let got = flow.preamble_buf + bytes;
                        &&& next.preamble_buf + next.recv_buf == got
                        &&& next.last_io_at == at
                        &&& next.queue == flow.queue
                        &&& next.send_ptr == flow.send_ptr
                        &&& next.pair_event_id == flow.pair_event_id
                        &&& next.num_read == 0
                        &&& !next.filtered && !next.filter_considered
                        &&& r == Ok::<bool, Error>(false) <==> got.len() < 24
                        &&& r == Ok::<bool, Error>(true) <==> got.len() == 24 && decode_header(
                            magic,
                            got,
                        ) is Some
                        &&& r == broken <==> got.len() == 24 && decode_header(magic, got) is None
                        &&& next.preamble == if got.len() == 24 {
                            decode_header(magic, got)
                        } else {
                            None
                        }
                        &&& next.recv_buf.len() == if next.preamble is Some {
                            24int
                        } else {
                            0
                        }
                    },
                }
            }
        }),
{
    let (next, r) = flow.read_preamble(magic, reply);
    if let Received::Data { bytes, at } = reply {
        if flow.preamble_buf.len() < 24 && bytes.len() > 0 {
            assert(next.preamble_buf + next.recv_buf =~= flow.preamble_buf + bytes);
        }
    }
}

/// A read of the payload keeps every byte in its order, and touches neither what waits nor the pair.
/// Once the payload has as many bytes as the header says, the message is complete: it joins those
/// that wait, goes away if it is filtered, or, if too many wait, is one too many.
pub proof fn law_payloads_are_gathered(flow: Flow, reply: Received)
    requires
        flow.wf(),
        flow.preamble is Some,
        flow.accepts(reply),
    ensures
        ({
            let (next, r) = flow.read_payload(reply);
            let length = flow.preamble->0.length;
            match reply {
                Received::WouldBlock => next == flow && r == Err::<usize, Error>(Error::Blocked),
                Received::Failed(e) => next == flow && r == Err::<usize, Error>(
                    Error::ReadError(e),
                ),
                Received::Data { bytes, at } => if bytes.len() == 0 && flow.num_read < length {
                    next == flow && r == Err::<usize, Error>(Error::ConnectionBroken)
                } else {
                    let got = flow.recv_buf + bytes;
                    let complete = flow.num_read + bytes.len() == length;
                    let burst = complete && !flow.filtered && flow.queue.len() >= 129;
                    &&& next.last_io_at == if bytes.len() > 0 {
                        at
                    } else {
                        flow.last_io_at
                    }
                    &&& next.send_ptr == flow.send_ptr
                    &&& next.pair_event_id == flow.pair_event_id
                    &&& next.preamble_buf.len() == 0
                    &&& r == Err::<usize, Error>(Error::BurstError) <==> burst
                    &&& r == Ok::<usize, Error>(bytes.len() as usize) <==> !burst
                    &&& !complete || burst ==> {
                        &&& next.recv_buf == got
                        &&& next.num_read == flow.num_read + bytes.len()
                        &&& next.preamble == flow.preamble
                        &&& next.filtered == flow.filtered
                        &&& next.filter_considered == flow.filter_considered
                        &&& next.queue == flow.queue
                    }
                    &&& complete && !burst ==> {
                        &&& next.recv_buf.len() == 0
                        &&& next.num_read == 0
                        &&& next.preamble is None
                        &&& !next.filtered && !next.filter_considered
                        &&& next.queue == if flow.filtered {
                            flow.queue
                        } else {
                            flow.queue + seq![got]
                        }
                    }
                },
            }
        }),
{
    let (next, r) = flow.read_payload(reply);
    if let Received::Data { bytes, at } = reply {
        let got = flow.recv_buf + bytes;
        if !flow.filtered && flow.queue.len() < 129 {
            assert(flow.queue.push(got) =~= flow.queue + seq![got]);
        }
    }
}

/// A message is held against the rules before its payload is read: it is filtered from then on if
/// its command is dropped, or if it was filtered before, and nothing else about it changes.
pub proof fn law_messages_are_held_against_the_rules(flow: Flow, rules: Rules)
    requires
        flow.preamble is Some,
    ensures
        ({
            let next = flow.considered(rules);
            &&& next.filtered <==> flow.filtered || rules.drops(flow.preamble->0.command)
            &&& next.filter_considered <==> flow.filter_considered || !next.filtered
            &&& (Flow {
                filtered: flow.filtered,
                filter_considered: flow.filter_considered,
                ..next
            }) == flow
        }),
{
}

/// What a reply to a read does: before the header is there it is a reply to a read of the header,
/// then to one of the payload of a message that was held against the rules.  Reading goes on unless
/// the reply was no success, and stops with the connection alive only where it would block.
pub proof fn law_reads_are_of_the_header_then_of_the_payload(
    flow: Flow,
    magic: u32,
    rules: Rules,
    reply: Received,
)
    ensures
        ({
            let (next, turn) = flow.read_turn(magic, rules, reply);
            let (of_header, header) = flow.read_preamble(magic, reply);
            let (of_payload, payload) = flow.considered(rules).read_payload(reply);
            &&& flow.preamble is None ==> {
                &&& next == of_header
                &&& turn == Turn::Again <==> header is Ok
                &&& turn == Turn::Stop(true) <==> header == Err::<bool, Error>(Error::Blocked)
            }
            &&& flow.preamble is Some ==> {
                &&& next == of_payload
                &&& turn == Turn::Again <==> payload is Ok
                &&& turn == Turn::Stop(true) <==> payload == Err::<usize, Error>(Error::Blocked)
            }
        }),
{
}

/// What a write offers: the bytes of the first message from where the last write left off, all that
/// are left of it, but for no more than 65536 at a time.  There is a write to make exactly if there
/// are such bytes.
pub proof fn law_writes_offer_what_is_left(flow: Flow)
    requires
        flow.wf(),
    ensures
        flow.due() is Some <==> flow.queue.len() > 0 && flow.send_ptr < flow.queue[0].len(),
        flow.due() matches Some(offered) ==> {
            let left = flow.queue[0].len() - flow.send_ptr;
            &&& 0 < offered.len() <= left
            &&& offered.len() <= 65536
            &&& offered.len() == left || offered.len() == 65536
            &&& forall|i: int|
                0 <= i < offered.len() ==> #[trigger] offered[i] == flow.queue[0][flow.send_ptr + i]
        },
{
}

/// A write has a reply exactly if there was one to make, and takes no more bytes than it was
/// offered.
pub proof fn law_what_answers_a_write(flow: Flow, reply: Option<WriteReply>)
    ensures
        flow.accepts_write(reply) <==> {
            &&& reply is Some <==> flow.due() is Some
            &&& reply matches Some(WriteReply::Written { count, at }) ==> count
                <= flow.due()->0.len()
        },
        flow.accepts_event(Event::Write(reply)) == flow.accepts_write(reply),
{
}

/// What a reply to a write does: the bytes that were taken are sent, and a message of which all is
/// sent leaves; all is drained exactly if none is left then.  What is being read, and the pair, are
/// not touched.
pub proof fn law_what_is_taken_is_sent(flow: Flow, reply: Option<WriteReply>)
    requires
        flow.wf(),
        flow.accepts_write(reply),
    ensures
        ({
            let (next, r) = flow.try_flush(reply);
            let first = flow.queue[0];
            let taken: int = match reply {
                Some(WriteReply::Written { count, at }) => count as int,
                _ => 0,
            };
            let failed = reply matches Some(WriteReply::Failed(_)) || reply == Some(
                WriteReply::WouldBlock,
            );
            let whole = flow.queue.len() > 0 && !failed && flow.send_ptr + taken >= first.len();
            &&& next.queue == if whole {
                flow.queue.subrange(1, flow.queue.len() as int)
            } else {
                flow.queue
            }
            &&& next.send_ptr == if whole {
                0
            } else {
                flow.send_ptr + taken
            }
            &&& next.last_io_at == match reply {
                Some(WriteReply::Written { count, at }) => if count > 0 {
                    at
                } else {
                    flow.last_io_at
                },
                _ => flow.last_io_at,
            }
            &&& next.preamble_buf == flow.preamble_buf
            &&& next.recv_buf == flow.recv_buf
            &&& next.preamble == flow.preamble
            &&& next.num_read == flow.num_read
            &&& next.filtered == flow.filtered
            &&& next.filter_considered == flow.filter_considered
            &&& next.pair_event_id == flow.pair_event_id
            &&& match reply {
                Some(WriteReply::WouldBlock) => r == Err::<bool, Error>(Error::Blocked),
                Some(WriteReply::Failed(e)) => r == Err::<bool, Error>(Error::WriteError(e)),
                _ => r == Ok::<bool, Error>(next.queue.len() == 0),
            }
        }),
{
    if flow.queue.len() > 0 {
        assert(flow.queue.drop_first() =~= flow.queue.subrange(1, flow.queue.len() as int));
    }
}

/// Writing stops once all is drained or the socket would block, with the connection alive, or once
/// it failed, with the connection broken; else it goes on.
pub proof fn law_writing_goes_on_until_drained(flow: Flow, reply: Option<WriteReply>)
    requires
        flow.wf(),
        flow.accepts_write(reply),
    ensures
        ({
            let (next, turn) = flow.write_turn(reply);
            &&& next == flow.try_flush(reply).0
            &&& turn == match reply {
                Some(WriteReply::WouldBlock) => Turn::Stop(true),
                Some(WriteReply::Failed(_)) => Turn::Stop(false),
                _ => if next.queue.len() == 0 {
                    Turn::Stop(true)
                } else {
                    Turn::Again
                },
            }
        }),
{
}

/// Reading that stops with the connection alive is always followed by writing, whatever waits; and
/// the I/O ends with the connection alive only out of a write, once nothing is left to send or the
/// outbound socket would block.
pub proof fn law_reading_is_followed_by_writing(
    flow: Flow,
    magic: u32,
    rules: Rules,
    event: Event,
)
    requires
        flow.wf(),
        flow.accepts_event(event),
    ensures
        ({
            let (next, action) = flow.io_turn(magic, rules, event);
            match event {
                Event::Read(reply) => {
                    let (flow_read, turn) = flow.read_turn(magic, rules, reply);
                    &&& next == flow_read
                    &&& action == IoAction::Write <==> turn == Turn::Stop(true)
                    &&& turn == Turn::Stop(false) ==> action == IoAction::Done(false)
                    &&& turn == Turn::Again ==> action == next.read_action()
                    &&& action != IoAction::Done(true)
                },
                Event::Write(reply) => {
                    let (flow_written, turn) = flow.write_turn(reply);
                    &&& next == flow_written
                    &&& action == IoAction::Write <==> turn == Turn::Again
                    &&& action == IoAction::Done(false) <==> turn == Turn::Stop(false)
                    &&& action == IoAction::Done(true) <==> turn == Turn::Stop(true)
                    &&& action == IoAction::Done(true) ==> next.queue.len() == 0 || reply == Some(
                        WriteReply::WouldBlock,
                    )
                },
            }
        }),
{
}

/// A state is idle exactly if more than the timeout has passed since its last I/O.  When that was
/// does not matter, only how long it is ago, and whatever else the state holds does not matter
/// either; sooner or later every state is idle, if nothing moves.
pub proof fn law_idle_is_a_matter_of_time_passed(
    flow: Flow,
    other: Flow,
    timeout: u128,
    now: u128,
    other_now: u128,
)
    ensures
        flow.idle(timeout, now) <==> now - flow.last_io_at > timeout,
        now - flow.last_io_at == other_now - other.last_io_at ==> flow.idle(timeout, now)
            == other.idle(timeout, other_now),
        flow.last_io_at + timeout < u128::MAX ==> flow.idle(
            timeout,
            (flow.last_io_at + timeout + 1) as u128,
        ),
        !flow.idle(timeout, flow.last_io_at),
{
}

} // verus!
