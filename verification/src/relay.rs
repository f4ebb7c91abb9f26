//! What a forwarding state does to a stream of bytes, over any number of reads and writes.

use crate::flow::{Flow, Rules, MAX_MSG_BUF_LEN};
use crate::io::{Event, Received, Turn, WriteReply};
use crate::preamble::{decode_header, law_header_needs_24_bytes, PREAMBLE_LEN};
use vstd::prelude::*;

verus! {

/// How long the message is that a stream starts with.  None if it does not start with a whole
/// message.
pub open spec fn frame_len(magic: u32, stream: Seq<u8>) -> Option<int> {
    match decode_header(magic, stream) {
        Some(h) => if PREAMBLE_LEN + h.length <= stream.len() {
            Some(PREAMBLE_LEN + h.length)
        } else {
            None
        },
        None => None,
    }
}

/// The whole messages that a stream starts with, each with its header.
pub open spec fn frames(magic: u32, stream: Seq<u8>) -> Seq<Seq<u8>>
    decreases stream.len(),
{
    match frame_len(magic, stream) {
        Some(n) => seq![stream.take(n)] + frames(magic, stream.skip(n)),
        None => seq![],
    }
}

/// What follows the whole messages that a stream starts with.
pub open spec fn remainder(magic: u32, stream: Seq<u8>) -> Seq<u8>
    decreases stream.len(),
{
    match frame_len(magic, stream) {
        Some(n) => remainder(magic, stream.skip(n)),
        None => stream,
    }
}

/// The command of a message.
pub open spec fn command_of(message: Seq<u8>) -> Seq<u8> {
    message.subrange(4, 16)
}

/// The messages that the rules let pass, in their order.
pub open spec fn kept(rules: Rules, messages: Seq<Seq<u8>>) -> Seq<Seq<u8>> {
    messages.filter(|message: Seq<u8>| !rules.drops(command_of(message)))
}

/// A forwarding state, with all the bytes that were read and all that were written on its way.
pub struct Record {
    pub flow: Flow,
    pub input: Seq<u8>,
    pub output: Seq<u8>,
}

/// The record after one more reply.  None if the reply does not answer what was asked, or if it
/// ends the connection.
pub open spec fn after(magic: u32, rules: Rules, record: Record, event: Event) -> Option<Record> {
    match event {
        Event::Read(reply) => {
            let (flow, turn) = record.flow.read_turn(magic, rules, reply);
            if !record.flow.accepts(reply) || turn == Turn::Stop(false) {
                None
            } else {
                Some(
                    Record {
                        flow,
                        input: match reply {
                            Received::Data { bytes, at } => record.input + bytes,
                            _ => record.input,
                        },
                        output: record.output,
                    },
                )
            }
        },
        Event::Write(reply) => {
            let (flow, turn) = record.flow.write_turn(reply);
            if !record.flow.accepts_write(reply) || turn == Turn::Stop(false) {
                None
            } else {
                Some(
                    Record {
                        flow,
                        input: record.input,
                        output: match reply {
                            Some(WriteReply::Written { count, at }) => record.output
                                + record.flow.due()->0.take(count as int),
                            _ => record.output,
                        },
                    },
                )
            }
        },
    }
}

/// The record of a forwarding state that started out as `start`, after some replies.  None if one
/// of them ended the connection.
pub open spec fn run(magic: u32, rules: Rules, start: Flow, events: Seq<Event>) -> Option<Record>
    decreases events.len(),
{
    if events.len() == 0 {
        Some(Record { flow: start, input: seq![], output: seq![] })
    } else {
        match run(magic, rules, start, events.drop_last()) {
            None => None,
            Some(record) => after(magic, rules, record, events.last()),
        }
    }
}

/// What waits to be written.
pub open spec fn unsent(flow: Flow) -> Seq<u8> {
    flow.queue.flatten().skip(flow.send_ptr)
}

/// The message that is all there, but for which one more read (of no bytes) is owed, if it passes.
pub open spec fn awaiting(rules: Rules, flow: Flow) -> Seq<u8> {
    match flow.preamble {
        Some(h) => if flow.num_read == h.length && !rules.drops(h.command) {
            flow.recv_buf
        } else {
            seq![]
        },
        None => seq![],
    }
}

/// The part of a message that has been read.
spec fn current(flow: Flow) -> Seq<u8> {
    flow.preamble_buf + flow.recv_buf
}

/// What was read before the message that is being read.
spec fn settled(record: Record) -> Seq<u8> {
    record.input.take(record.input.len() - current(record.flow).len())
}

/// What links the state to what has been read and written.
spec fn inv(magic: u32, rules: Rules, record: Record) -> bool {
    let flow = record.flow;
    &&& flow.wf()
    &&& record.input == settled(record) + current(flow)
    &&& remainder(magic, settled(record)) == Seq::<u8>::empty()
    &&& kept(rules, frames(magic, settled(record))).flatten() == record.output + unsent(flow)
    &&& match flow.preamble {
        None => flow.preamble_buf.len() < PREAMBLE_LEN,
        Some(h) => {
            &&& decode_header(magic, flow.recv_buf) == Some(h)
            &&& flow.filtered ==> rules.drops(h.command)
        },
    }
}

/// Whole messages followed by a stream are the messages, then those of the stream.
proof fn lemma_frames_append(magic: u32, whole: Seq<u8>, stream: Seq<u8>)
    requires
        remainder(magic, whole) == Seq::<u8>::empty(),
    ensures
        frames(magic, whole + stream) == frames(magic, whole) + frames(magic, stream),
        remainder(magic, whole + stream) == remainder(magic, stream),
    decreases whole.len(),
{
    match frame_len(magic, whole) {
        Some(n) => {
            law_header_needs_24_bytes(magic, whole, stream);
            assert(frame_len(magic, whole + stream) == Some(n));
            assert((whole + stream).skip(n) =~= whole.skip(n) + stream);
            assert((whole + stream).take(n) =~= whole.take(n));
            lemma_frames_append(magic, whole.skip(n), stream);
            assert(frames(magic, whole + stream) =~= frames(magic, whole) + frames(magic, stream));
        },
        None => {
            assert(whole + stream =~= stream);
            assert(frames(magic, whole + stream) =~= frames(magic, whole) + frames(magic, stream));
        },
    }
}

/// A stream that is one whole message.
proof fn lemma_one_frame(magic: u32, message: Seq<u8>)
    requires
        frame_len(magic, message) == Some(message.len() as int),
    ensures
        frames(magic, message) == seq![message],
        remainder(magic, message) == Seq::<u8>::empty(),
{
    let rest = message.skip(message.len() as int);
    assert(rest =~= seq![]);
    assert(message.take(message.len() as int) =~= message);
    assert(frame_len(magic, rest) is None);
    reveal_with_fuel(frames, 2);
    reveal_with_fuel(remainder, 2);
    assert(frames(magic, message) =~= seq![message]);
}

/// One more message is kept, or not, at the end.
proof fn lemma_kept_push(rules: Rules, messages: Seq<Seq<u8>>, message: Seq<u8>)
    ensures
        kept(rules, messages + seq![message]) == if rules.drops(command_of(message)) {
            kept(rules, messages)
        } else {
            kept(rules, messages).push(message)
        },
{
    reveal(Seq::filter);
    assert((messages + seq![message]).drop_last() =~= messages);
}

proof fn lemma_flatten_starts_with_first(queue: Seq<Seq<u8>>)
    requires
        queue.len() > 0,
    ensures
        queue.flatten() == queue[0] + queue.drop_first().flatten(),
{
}

proof fn lemma_read_keeps_inv(magic: u32, rules: Rules, record: Record, reply: Received)
    requires
        inv(magic, rules, record),
        after(magic, rules, record, Event::Read(reply)) is Some,
    ensures
        inv(magic, rules, after(magic, rules, record, Event::Read(reply))->0),
{
    let next = after(magic, rules, record, Event::Read(reply))->0;
    let flow = record.flow;
    match reply {
        Received::Data { bytes, at } => {
            let base = settled(record);
            assert(next.input =~= base + (current(flow) + bytes));
            match flow.preamble {
                None => {
                    assert(current(next.flow) =~= current(flow) + bytes);
                    assert(settled(next) =~= base);
                },
                Some(h) => {
                    let got = flow.recv_buf + bytes;
                    law_header_needs_24_bytes(magic, flow.recv_buf, bytes);
                    assert(current(flow) + bytes =~= got);
                    if flow.num_read + bytes.len() < h.length {
                        assert(current(next.flow) =~= got);
                        assert(settled(next) =~= base);
                    } else {
                        assert(current(next.flow) =~= seq![]);
                        assert(settled(next) =~= base + got);
                        lemma_frames_append(magic, base, got);
                        lemma_one_frame(magic, got);
                        lemma_kept_push(rules, frames(magic, base), got);
                        assert(command_of(got) == h.command);
                        if !rules.drops(h.command) {
                            flow.queue.lemma_flatten_push(got);
                            kept(rules, frames(magic, base)).lemma_flatten_push(got);
                            if flow.queue.len() > 0 {
                                lemma_flatten_starts_with_first(flow.queue);
                            }
                            assert(unsent(next.flow) =~= unsent(flow) + got);
                        }
                        assert(kept(rules, frames(magic, settled(next))).flatten() =~= next.output
                            + unsent(next.flow));
                    }
                },
            }
        },
        _ => {
            assert(current(next.flow) =~= current(flow));
            assert(settled(next) =~= settled(record));
        },
    }
}

proof fn lemma_write_keeps_inv(
    magic: u32,
    rules: Rules,
    record: Record,
    reply: Option<WriteReply>,
)
    requires
        inv(magic, rules, record),
        after(magic, rules, record, Event::Write(reply)) is Some,
    ensures
        inv(magic, rules, after(magic, rules, record, Event::Write(reply))->0),
{
    let next = after(magic, rules, record, Event::Write(reply))->0;
    let flow = record.flow;
    assert(current(next.flow) =~= current(flow));
    assert(settled(next) =~= settled(record));
    if flow.queue.len() > 0 {
        lemma_flatten_starts_with_first(flow.queue);
        if flow.send_ptr >= flow.queue[0].len() {
            assert(unsent(next.flow) =~= unsent(flow));
        } else {
            if let Some(WriteReply::Written { count, at }) = reply {
                let sent = flow.due()->0.take(count as int);
                assert(unsent(flow) =~= sent + unsent(next.flow));
                assert(next.output + unsent(next.flow) =~= record.output + unsent(flow));
            }
        }
    }
}

proof fn lemma_run_inv(magic: u32, rules: Rules, start: Flow, events: Seq<Event>)
    requires
        start.is_fresh(),
    ensures
        run(magic, rules, start, events) matches Some(record) ==> inv(magic, rules, record),
    decreases events.len(),
{
    if events.len() == 0 {
        let record = run(magic, rules, start, events)->0;
        assert(current(record.flow) =~= seq![]);
        assert(settled(record) =~= seq![]);
        assert(frame_len(magic, seq![]) is None);
        reveal(Seq::filter);
        assert(kept(rules, frames(magic, settled(record))) =~= seq![]);
        assert(kept(rules, frames(magic, settled(record))).flatten() =~= record.output + unsent(
            record.flow,
        ));
        assert(record.input =~= settled(record) + current(record.flow));
    } else {
        lemma_run_inv(magic, rules, start, events.drop_last());
        if let Some(record) = run(magic, rules, start, events.drop_last()) {
            if after(magic, rules, record, events.last()) is Some {
                match events.last() {
                    Event::Read(reply) => lemma_read_keeps_inv(magic, rules, record, reply),
                    Event::Write(reply) => lemma_write_keeps_inv(magic, rules, record, reply),
                }
            }
        }
    }
}

/// Whatever the sizes of the reads and writes and however they follow each other: what was
/// written, then what waits to be written, then the message that awaits one more read, are the
/// messages that were read and that the rules let pass, in their order and byte for byte.
pub proof fn law_relays_what_the_rules_let_pass(
    magic: u32,
    rules: Rules,
    start: Flow,
    events: Seq<Event>,
)
    requires
        start.is_fresh(),
    ensures
        run(magic, rules, start, events) matches Some(record) ==> kept(
            rules,
            frames(magic, record.input),
        ).flatten() == record.output + unsent(record.flow) + awaiting(rules, record.flow),
{
    lemma_run_inv(magic, rules, start, events);
    if let Some(record) = run(magic, rules, start, events) {
        let flow = record.flow;
        let base = settled(record);
        let cur = current(flow);
        lemma_frames_append(magic, base, cur);
        match flow.preamble {
            None => {
                assert(frame_len(magic, cur) is None);
                assert(frames(magic, record.input) =~= frames(magic, base));
            },
            Some(h) => {
                assert(cur =~= flow.recv_buf);
                if flow.num_read == h.length {
                    lemma_one_frame(magic, cur);
                    lemma_kept_push(rules, frames(magic, base), cur);
                    kept(rules, frames(magic, base)).lemma_flatten_push(cur);
                    assert(command_of(cur) == h.command);
                } else {
                    assert(frame_len(magic, cur) is None);
                    assert(frames(magic, record.input) =~= frames(magic, base));
                }
            },
        }
        assert(kept(rules, frames(magic, record.input)).flatten() =~= record.output + unsent(flow)
            + awaiting(rules, flow));
    }
}

/// What the rules drop is never written: all that is written starts off the messages that were
/// read and that the rules let pass, and none of these has a command that is dropped.
pub proof fn law_never_writes_what_the_rules_drop(
    magic: u32,
    rules: Rules,
    start: Flow,
    events: Seq<Event>,
)
    requires
        start.is_fresh(),
    ensures
        run(magic, rules, start, events) matches Some(record) ==> record.output.is_prefix_of(
            kept(rules, frames(magic, record.input)).flatten(),
        ) && forall|i: int|
            0 <= i < kept(rules, frames(magic, record.input)).len() ==> !rules.drops(
                command_of(#[trigger] kept(rules, frames(magic, record.input))[i]),
            ),
{
    law_relays_what_the_rules_let_pass(magic, rules, start, events);
    if let Some(record) = run(magic, rules, start, events) {
        let messages = frames(magic, record.input);
        let passes = |message: Seq<u8>| !rules.drops(command_of(message));
        assert forall|i: int| 0 <= i < kept(rules, messages).len() implies !rules.drops(
            command_of(#[trigger] kept(rules, messages)[i]),
        ) by {
            messages.lemma_filter_pred(passes, i);
        }
    }
}

/// Once all is written that was to be written, the messages that pass have arrived whole.
pub proof fn law_delivers_everything_that_passes(
    magic: u32,
    rules: Rules,
    start: Flow,
    events: Seq<Event>,
)
    requires
        start.is_fresh(),
    ensures
        run(magic, rules, start, events) matches Some(record) ==> record.flow.queue.len() == 0
            && record.flow.preamble is None ==> record.output == kept(
            rules,
            frames(magic, record.input),
        ).flatten(),
{
    law_relays_what_the_rules_let_pass(magic, rules, start, events);
    lemma_run_inv(magic, rules, start, events);
    if let Some(record) = run(magic, rules, start, events) {
        if record.flow.queue.len() == 0 && record.flow.preamble is None {
            assert(unsent(record.flow) =~= seq![]);
            assert(record.output =~= record.output + unsent(record.flow) + awaiting(
                rules,
                record.flow,
            ));
        }
    }
}

/// It does not matter in what pieces a stream arrives: two forwarding states that have read the
/// same bytes have the same bytes to pass on, written or not.
pub proof fn law_pieces_do_not_matter(
    magic: u32,
    rules: Rules,
    start_a: Flow,
    events_a: Seq<Event>,
    start_b: Flow,
    events_b: Seq<Event>,
)
    requires
        start_a.is_fresh(),
        start_b.is_fresh(),
    ensures
        run(magic, rules, start_a, events_a) matches Some(a) ==> (run(
            magic,
            rules,
            start_b,
            events_b,
        ) matches Some(b) ==> a.input == b.input ==> a.output + unsent(a.flow) + awaiting(
            rules,
            a.flow,
        ) == b.output + unsent(b.flow) + awaiting(rules, b.flow)),
{
    law_relays_what_the_rules_let_pass(magic, rules, start_a, events_a);
    law_relays_what_the_rules_let_pass(magic, rules, start_b, events_b);
}

/// A stream is its whole messages and what follows them.
pub proof fn law_frames_make_the_stream(magic: u32, stream: Seq<u8>)
    ensures
        frames(magic, stream).flatten() + remainder(magic, stream) == stream,
    decreases stream.len(),
{
    match frame_len(magic, stream) {
        Some(n) => {
            law_frames_make_the_stream(magic, stream.skip(n));
            let rest = frames(magic, stream.skip(n));
            assert(frames(magic, stream).drop_first() =~= rest);
            assert(stream =~= stream.take(n) + stream.skip(n));
            assert(frames(magic, stream).flatten() + remainder(magic, stream) =~= stream);
        },
        None => {
            assert(frames(magic, stream).flatten() + remainder(magic, stream) =~= stream);
        },
    }
}

/// Without rules nothing is dropped.
proof fn lemma_no_rules_keep_all(rules: Rules, messages: Seq<Seq<u8>>)
    requires
        rules.allow.len() == 0,
        rules.deny.len() == 0,
    ensures
        kept(rules, messages) == messages,
    decreases messages.len(),
{
    reveal(Seq::filter);
    if messages.len() > 0 {
        lemma_no_rules_keep_all(rules, messages.drop_last());
        assert(!rules.drops(command_of(messages.last())));
        assert(messages.drop_last().push(messages.last()) =~= messages);
    }
    assert(kept(rules, messages) =~= messages);
}

/// Without rules the bytes that are written are the bytes that were read, from the first one on.
pub proof fn law_without_rules_passes_all(
    magic: u32,
    rules: Rules,
    start: Flow,
    events: Seq<Event>,
)
    requires
        start.is_fresh(),
        rules.allow.len() == 0,
        rules.deny.len() == 0,
    ensures
        run(magic, rules, start, events) matches Some(record) ==> record.output.is_prefix_of(
            record.input,
        ),
{
    law_relays_what_the_rules_let_pass(magic, rules, start, events);
    if let Some(record) = run(magic, rules, start, events) {
        lemma_no_rules_keep_all(rules, frames(magic, record.input));
        law_frames_make_the_stream(magic, record.input);
        let whole = frames(magic, record.input).flatten();
        assert(record.output.is_prefix_of(whole));
        assert(whole.is_prefix_of(record.input));
    }
}

/// However fast a stream is read and however slowly it is written, only so many messages wait.
pub proof fn law_only_so_many_wait(magic: u32, rules: Rules, start: Flow, events: Seq<Event>)
    requires
        start.is_fresh(),
    ensures
        run(magic, rules, start, events) matches Some(record) ==> record.flow.queue.len()
            <= MAX_MSG_BUF_LEN + 1,
{
    lemma_run_inv(magic, rules, start, events);
}

/// Does a reply to a read break the connection?  It does if a header is left over that did not
/// parse, if the socket failed, if the stream ended, if the header is now there and does not parse,
/// or if the message is now there, passes, and too many wait before it.
pub open spec fn breaks(magic: u32, rules: Rules, flow: Flow, reply: Received) -> bool {
    ||| flow.read_size() is None
    ||| reply is Failed
    ||| reply matches Received::Data { bytes, at } && {
        ||| bytes.len() == 0 && flow.read_size() != Some(0int)
        ||| match flow.preamble {
            None => {
                let got = flow.preamble_buf + bytes;
                got.len() == PREAMBLE_LEN && decode_header(magic, got) is None
            },
            Some(h) => {
                &&& flow.num_read + bytes.len() == h.length
                &&& !flow.filtered
                &&& !rules.drops(h.command)
                &&& flow.queue.len() > MAX_MSG_BUF_LEN
            },
        }
    }
}

/// Reading goes on until the socket would block, or the connection breaks.
pub proof fn law_reads_until_blocked(flow: Flow, magic: u32, rules: Rules, reply: Received)
    requires
        flow.wf(),
        flow.accepts(reply),
    ensures
        flow.read_turn(magic, rules, reply).1 == Turn::Stop(true) <==> reply is WouldBlock
            && flow.read_size() is Some,
        flow.read_turn(magic, rules, reply).1 == Turn::Stop(false) <==> breaks(
            magic,
            rules,
            flow,
            reply,
        ),
{
}

/// Writing goes on until the socket would block, nothing is left to send, or the connection
/// breaks.
pub proof fn law_writes_until_blocked(flow: Flow, reply: Option<WriteReply>)
    requires
        flow.wf(),
        flow.accepts_write(reply),
    ensures
        flow.write_turn(reply).1 == Turn::Stop(true) <==> reply == Some(WriteReply::WouldBlock)
            || flow.write_turn(reply).0.queue.len() == 0,
        flow.write_turn(reply).1 == Turn::Stop(false) <==> (reply matches Some(
            WriteReply::Failed(_),
        )),
{
}

/// A reply that answers what was asked, from a socket that neither failed nor is at its end.
pub open spec fn sound_reply(flow: Flow, event: Event) -> bool {
    match event {
        Event::Read(Received::Data { bytes, at }) => flow.accepts(Received::Data { bytes, at }) && (
        bytes.len() > 0 || flow.read_size() == Some(0int)),
        Event::Read(Received::WouldBlock) => true,
        Event::Read(Received::Failed(_)) => false,
        Event::Write(reply) => flow.accepts_write(reply) && !(reply matches Some(
            WriteReply::Failed(_),
        )),
    }
}

/// All replies are sound, each for the state that it meets.
pub open spec fn sound_replies(
    magic: u32,
    rules: Rules,
    start: Flow,
    events: Seq<Event>,
) -> bool {
    forall|i: int|
        0 <= i < events.len() ==> (run(magic, rules, start, events.take(i)) matches Some(record)
            ==> sound_reply(record.flow, #[trigger] events[i]))
}

/// The bytes that some replies brought.
pub open spec fn bytes_read(events: Seq<Event>) -> Seq<u8>
    decreases events.len(),
{
    if events.len() == 0 {
        seq![]
    } else {
        let before = bytes_read(events.drop_last());
        match events.last() {
            Event::Read(Received::Data { bytes, at }) => before + bytes,
            _ => before,
        }
    }
}

/// The stream is whole messages and the beginning of another, all with the right magic as far as
/// their headers are there.
pub open spec fn well_framed(magic: u32, stream: Seq<u8>) -> bool {
    let rest = remainder(magic, stream);
    rest.len() < PREAMBLE_LEN || decode_header(magic, rest) is Some
}

/// What a stream starts with is well framed if the stream is, and holds no more messages.
proof fn lemma_beginning_is_well_framed(magic: u32, rules: Rules, a: Seq<u8>, b: Seq<u8>)
    requires
        well_framed(magic, a + b),
    ensures
        well_framed(magic, a),
        kept(rules, frames(magic, a)).len() <= kept(rules, frames(magic, a + b)).len(),
    decreases a.len(),
{
    let passes = |message: Seq<u8>| !rules.drops(command_of(message));
    match frame_len(magic, a) {
        Some(n) => {
            law_header_needs_24_bytes(magic, a, b);
            assert(frame_len(magic, a + b) == Some(n));
            assert((a + b).skip(n) =~= a.skip(n) + b);
            assert((a + b).take(n) =~= a.take(n));
            lemma_beginning_is_well_framed(magic, rules, a.skip(n), b);
            let first = seq![a.take(n)];
            Seq::filter_distributes_over_add(first, frames(magic, a.skip(n)), passes);
            Seq::filter_distributes_over_add(first, frames(magic, a.skip(n) + b), passes);
        },
        None => {
            reveal(Seq::filter);
            assert(kept(rules, frames(magic, a)).len() == 0);
            if a.len() >= PREAMBLE_LEN {
                law_header_needs_24_bytes(magic, a, b);
            }
        },
    }
}

/// What waits are the last of the messages that pass; all of them if nothing was ever written.
proof fn lemma_run_queue(magic: u32, rules: Rules, start: Flow, events: Seq<Event>)
    requires
        start.is_fresh(),
    ensures
        run(magic, rules, start, events) matches Some(record) ==> {
            let passed = kept(rules, frames(magic, settled(record)));
            &&& record.flow.queue.len() <= passed.len()
            &&& (forall|i: int| 0 <= i < events.len() ==> #[trigger] events[i] is Read)
                ==> record.flow.queue == passed
            &&& record.input == bytes_read(events)
        },
    decreases events.len(),
{
    lemma_run_inv(magic, rules, start, events);
    if events.len() == 0 {
        let record = run(magic, rules, start, events)->0;
        assert(settled(record) =~= seq![]);
        assert(frame_len(magic, seq![]) is None);
        reveal(Seq::filter);
        assert(kept(rules, frames(magic, settled(record))) =~= seq![]);
    } else {
        let before = events.drop_last();
        lemma_run_queue(magic, rules, start, before);
        lemma_run_inv(magic, rules, start, before);
        if let Some(record) = run(magic, rules, start, before) {
            if let Some(next) = after(magic, rules, record, events.last()) {
                if forall|i: int| 0 <= i < events.len() ==> #[trigger] events[i] is Read {
                    assert(events[events.len() - 1] is Read);
                    assert forall|i: int| 0 <= i < before.len() implies #[trigger] before[i] is Read by {
                        assert(events[i] is Read);
                    }
                }
                lemma_step_queue(magic, rules, record, events.last());
            }
        }
    }
}

/// One reply takes a message to the end of those that wait, exactly if it is then read and passes;
/// a write takes one from their beginning, or none.
proof fn lemma_step_queue(magic: u32, rules: Rules, record: Record, event: Event)
    requires
        inv(magic, rules, record),
        after(magic, rules, record, event) is Some,
        record.flow.queue.len() <= kept(rules, frames(magic, settled(record))).len(),
    ensures
        ({
            let next = after(magic, rules, record, event)->0;
            let passed = kept(rules, frames(magic, settled(next)));
            &&& next.flow.queue.len() <= passed.len()
            &&& event is Read && record.flow.queue == kept(rules, frames(magic, settled(record)))
                ==> next.flow.queue == passed
        }),
{
    let next = after(magic, rules, record, event)->0;
    let flow = record.flow;
    let base = settled(record);
    match event {
        Event::Read(Received::Data { bytes, at }) => {
            assert(next.input =~= base + (current(flow) + bytes));
            match flow.preamble {
                None => {
                    assert(current(next.flow) =~= current(flow) + bytes);
                    assert(settled(next) =~= base);
                },
                Some(h) => {
                    let got = flow.recv_buf + bytes;
                    assert(current(flow) + bytes =~= got);
                    if flow.num_read + bytes.len() < h.length {
                        assert(current(next.flow) =~= got);
                        assert(settled(next) =~= base);
                    } else {
                        lemma_message_is_there(magic, rules, record, bytes);
                        assert(current(next.flow) =~= seq![]);
                        assert(settled(next) =~= base + got);
                    }
                },
            }
        },
        _ => {
            assert(current(next.flow) =~= current(flow));
            assert(settled(next) =~= base);
        },
    }
}

/// The last bytes of a message make it one more message of the stream.
proof fn lemma_message_is_there(magic: u32, rules: Rules, record: Record, bytes: Seq<u8>)
    requires
        inv(magic, rules, record),
        record.flow.preamble matches Some(h) && record.flow.num_read + bytes.len() == h.length,
    ensures
        ({
            let base = settled(record);
            let got = record.flow.recv_buf + bytes;
            let passed = kept(rules, frames(magic, base));
            &&& record.input + bytes == base + got
            &&& remainder(magic, base + got) == Seq::<u8>::empty()
            &&& kept(rules, frames(magic, base + got)) == if rules.drops(
                record.flow.preamble->0.command,
            ) {
                passed
            } else {
                passed.push(got)
            }
        }),
{
    let flow = record.flow;
    let base = settled(record);
    let got = flow.recv_buf + bytes;
    law_header_needs_24_bytes(magic, flow.recv_buf, bytes);
    assert(record.input + bytes =~= base + got);
    lemma_frames_append(magic, base, got);
    lemma_one_frame(magic, got);
    lemma_kept_push(rules, frames(magic, base), got);
    assert(command_of(got) == flow.preamble->0.command);
}

/// One more sound reply does not break a connection whose stream is well framed and brings few
/// enough messages.
proof fn lemma_sound_reply_breaks_nothing(magic: u32, rules: Rules, record: Record, event: Event)
    requires
        inv(magic, rules, record),
        record.flow.queue.len() <= kept(rules, frames(magic, settled(record))).len(),
        sound_reply(record.flow, event),
        ({
            let input = match event {
                Event::Read(Received::Data { bytes, at }) => record.input + bytes,
                _ => record.input,
            };
            &&& well_framed(magic, input)
            &&& kept(rules, frames(magic, input)).len() <= MAX_MSG_BUF_LEN + 1
        }),
    ensures
        after(magic, rules, record, event) is Some,
{
    let flow = record.flow;
    if let Event::Read(reply) = event {
        law_reads_until_blocked(flow, magic, rules, reply);
        if let Received::Data { bytes, at } = reply {
            match flow.preamble {
                None => {
                    let got = flow.preamble_buf + bytes;
                    assert(record.input + bytes =~= settled(record) + got);
                    lemma_frames_append(magic, settled(record), got);
                },
                Some(h) => {
                    if flow.num_read + bytes.len() == h.length {
                        lemma_message_is_there(magic, rules, record, bytes);
                    }
                },
            }
        }
    }
}

/// The state holds the beginning of the message that is being read, and, if nothing was written
/// yet, all messages that pass; but for a message that is all there while one more read (of no
/// bytes) is owed.
pub open spec fn holds_what_is_left(
    magic: u32,
    rules: Rules,
    events: Seq<Event>,
    record: Record,
) -> bool {
    let flow = record.flow;
    &&& record.input == bytes_read(events)
    &&& flow.read_size() is Some
    &&& flow.read_size() != Some(0int) ==> flow.preamble_buf + flow.recv_buf == remainder(
        magic,
        record.input,
    )
    &&& flow.read_size() != Some(0int) && (forall|i: int|
        0 <= i < events.len() ==> #[trigger] events[i] is Read) ==> flow.queue == kept(
        rules,
        frames(magic, record.input),
    )
}

/// A connection that is alive holds the beginning of the message that is being read, and, if
/// nothing was written yet, all messages that pass; but for a message that is all there while one
/// more read (of no bytes) is owed.
pub proof fn law_holds_what_is_left(magic: u32, rules: Rules, start: Flow, events: Seq<Event>)
    requires
        start.is_fresh(),
    ensures
        run(magic, rules, start, events) matches Some(record) ==> holds_what_is_left(
            magic,
            rules,
            events,
            record,
        ),
{
    lemma_run_inv(magic, rules, start, events);
    lemma_run_queue(magic, rules, start, events);
    if let Some(record) = run(magic, rules, start, events) {
        let flow = record.flow;
        if flow.read_size() != Some(0int) {
            lemma_frames_append(magic, settled(record), current(flow));
            assert(flow.preamble is Some ==> current(flow) =~= flow.recv_buf);
            assert(frame_len(magic, current(flow)) is None);
            assert(frames(magic, record.input) =~= frames(magic, settled(record)));
        }
    }
}

/// A sound connection is not broken: if what is read is whole messages with the right magic and the
/// beginning of another, in whatever pieces, if the sockets neither fail nor end, and if no more
/// messages pass than may wait, then every reply leaves the connection alive.
proof fn lemma_sound_connections_live(magic: u32, rules: Rules, start: Flow, events: Seq<Event>)
    requires
        start.is_fresh(),
        sound_replies(magic, rules, start, events),
        well_framed(magic, bytes_read(events)),
        kept(rules, frames(magic, bytes_read(events))).len() <= MAX_MSG_BUF_LEN + 1,
    ensures
        run(magic, rules, start, events) is Some,
    decreases events.len(),
{
    if events.len() > 0 {
        let before = events.drop_last();
        let more = match events.last() {
            Event::Read(Received::Data { bytes, at }) => bytes,
            _ => seq![],
        };
        assert(bytes_read(events) =~= bytes_read(before) + more);
        lemma_beginning_is_well_framed(magic, rules, bytes_read(before), more);
        assert forall|i: int| 0 <= i < before.len() implies (run(
            magic,
            rules,
            start,
            before.take(i),
        ) matches Some(record) ==> sound_reply(record.flow, #[trigger] before[i])) by {
            assert(before.take(i) =~= events.take(i));
            assert(before[i] == events[i]);
        }
        lemma_sound_connections_live(magic, rules, start, before);
        lemma_run_inv(magic, rules, start, before);
        lemma_run_queue(magic, rules, start, before);
        let record = run(magic, rules, start, before)->0;
        assert(events.take(events.len() - 1) =~= before);
        assert(sound_reply(record.flow, events[events.len() - 1]));
        lemma_sound_reply_breaks_nothing(magic, rules, record, events.last());
    }
}

/// A sound connection is not broken: if what is read is whole messages with the right magic and the
/// beginning of another, in whatever pieces, if the sockets neither fail nor end, and if no more
/// messages pass than may wait, then every reply leaves the connection alive.  It then holds the
/// beginning of the last message, and, if nothing was written yet, all messages that pass; but for
/// a message that is all there while one more read (of no bytes) is owed.
pub proof fn law_sound_connections_live(
    magic: u32,
    rules: Rules,
    start: Flow,
    events: Seq<Event>,
)
    requires
        start.is_fresh(),
        sound_replies(magic, rules, start, events),
        well_framed(magic, bytes_read(events)),
        kept(rules, frames(magic, bytes_read(events))).len() <= MAX_MSG_BUF_LEN + 1,
    ensures
        run(magic, rules, start, events) is Some,
        run(magic, rules, start, events) matches Some(record) ==> holds_what_is_left(
            magic,
            rules,
            events,
            record,
        ),
{
    lemma_sound_connections_live(magic, rules, start, events);
    law_holds_what_is_left(magic, rules, start, events);
}

/// The most writes that it takes to send all that waits, if each takes at least one byte.
pub open spec fn writes_left(flow: Flow) -> nat {
    unsent(flow).len() + flow.queue.len()
}

/// A reply to a write of which the socket took at least one byte, or none where no write was due.
pub open spec fn takes_some(flow: Flow, reply: Option<WriteReply>) -> bool {
    &&& flow.accepts_write(reply)
    &&& match reply {
        Some(WriteReply::Written { count, at }) => count > 0,
        Some(_) => false,
        None => true,
    }
}

/// Replies to writes, as events.
pub open spec fn as_writes(replies: Seq<Option<WriteReply>>) -> Seq<Event> {
    replies.map_values(|reply: Option<WriteReply>| Event::Write(reply))
}

/// One write that takes something leaves less to write, and ends the writing exactly when nothing
/// is left.
pub proof fn law_writes_make_progress(flow: Flow, reply: Option<WriteReply>)
    requires
        flow.wf(),
        takes_some(flow, reply),
    ensures
        ({
            let (next, turn) = flow.write_turn(reply);
            &&& next.wf()
            &&& turn == if next.queue.len() == 0 {
                Turn::Stop(true)
            } else {
                Turn::Again
            }
            &&& flow.queue.len() > 0 ==> writes_left(next) < writes_left(flow)
            &&& unsent(flow) == (match reply {
                Some(WriteReply::Written { count, at }) => flow.due()->0.take(count as int),
                _ => seq![],
            }) + unsent(next)
        }),
{
    let (next, turn) = flow.write_turn(reply);
    if flow.queue.len() > 0 {
        lemma_flatten_starts_with_first(flow.queue);
        if flow.send_ptr >= flow.queue[0].len() {
            assert(unsent(next) =~= unsent(flow));
            assert(unsent(flow) =~= Seq::<u8>::empty() + unsent(next));
        } else {
            if let Some(WriteReply::Written { count, at }) = reply {
                assert(unsent(flow) =~= flow.due()->0.take(count as int) + unsent(next));
            }
        }
    } else {
        assert(unsent(flow) =~= Seq::<u8>::empty() + unsent(next));
    }
}

/// Writing drains: if every write takes at least one byte, the connection stays alive, what was
/// written and what waits is what waited at first, and once there were as many writes as it takes
/// at most, nothing waits and exactly what waited at first is written.
pub proof fn law_writing_drains(
    magic: u32,
    rules: Rules,
    start: Flow,
    replies: Seq<Option<WriteReply>>,
)
    requires
        start.wf(),
        forall|i: int|
            0 <= i < replies.len() ==> (run(
                magic,
                rules,
                start,
                as_writes(replies.take(i)),
            ) matches Some(record) ==> takes_some(record.flow, #[trigger] replies[i])),
    ensures
        run(magic, rules, start, as_writes(replies)) is Some,
        run(magic, rules, start, as_writes(replies)) matches Some(record) ==> {
            &&& record.flow.wf()
            &&& record.input == Seq::<u8>::empty()
            &&& record.output + unsent(record.flow) == unsent(start)
            &&& record.flow.queue.len() > 0 ==> writes_left(record.flow) + replies.len()
                <= writes_left(start)
            &&& replies.len() >= writes_left(start) ==> record.flow.queue.len() == 0
                && record.output == unsent(start)
        },
    decreases replies.len(),
{
    if replies.len() == 0 {
        let record = run(magic, rules, start, as_writes(replies))->0;
        assert(record.output + unsent(record.flow) =~= unsent(start));
    } else {
        let before = replies.drop_last();
        assert forall|i: int| 0 <= i < before.len() implies (run(
            magic,
            rules,
            start,
            as_writes(before.take(i)),
        ) matches Some(record) ==> takes_some(record.flow, #[trigger] before[i])) by {
            assert(before.take(i) =~= replies.take(i));
            assert(before[i] == replies[i]);
        }
        law_writing_drains(magic, rules, start, before);
        assert(as_writes(replies).drop_last() =~= as_writes(before));
        assert(replies.take(replies.len() - 1) =~= before);
        let record = run(magic, rules, start, as_writes(before))->0;
        let reply = replies[replies.len() - 1];
        assert(takes_some(record.flow, reply));
        law_writes_make_progress(record.flow, reply);
        assert(as_writes(replies).last() == Event::Write(reply));
        let next = run(magic, rules, start, as_writes(replies))->0;
        assert(next.output + unsent(next.flow) =~= record.output + unsent(record.flow));
    }
    let record = run(magic, rules, start, as_writes(replies))->0;
    if record.flow.queue.len() == 0 {
        assert(unsent(record.flow) =~= Seq::<u8>::empty());
        assert(record.output =~= record.output + unsent(record.flow));
    }
}

/// The time of the last I/O is that of the last reply that moved at least one byte.
pub proof fn law_only_bytes_count_as_io(
    flow: Flow,
    magic: u32,
    rules: Rules,
    read: Received,
    write: Option<WriteReply>,
)
    requires
        flow.wf(),
        flow.accepts_write(write),
        flow.read_size() is Some,
    ensures
        flow.read_turn(magic, rules, read).0.last_io_at == match read {
            Received::Data { bytes, at } => if bytes.len() > 0 {
                at
            } else {
                flow.last_io_at
            },
            _ => flow.last_io_at,
        },
        flow.write_turn(write).0.last_io_at == match write {
            Some(WriteReply::Written { count, at }) => if count > 0 {
                at
            } else {
                flow.last_io_at
            },
            _ => flow.last_io_at,
        },
{
}

} // verus!
