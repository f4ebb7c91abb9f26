//! Event IDs, and what one look at the poller brings.

use crate::error::Error;
use std::collections::HashMap;
use vstd::prelude::*;

verus! {

/// The event ID of the server's own socket.
pub const SERVER: usize = 0;

/// Polling state from the network.
/// Binds event IDs to newly-accepted sockets.
/// Lists event IDs with I/O readiness.
pub struct NetworkPollState<S> {
    pub new: HashMap<usize, S>,
    pub ready: Vec<usize>,
}

impl<S> NetworkPollState<S> {
    pub fn new() -> (r: NetworkPollState<S>)
        ensures
            r.new@ == Map::<usize, S>::empty(),
            r.ready@ == Seq::<usize>::empty(),
    {
        NetworkPollState { new: HashMap::new(), ready: Vec::new() }
    }
}

/// One event of the poller.
pub enum PollEvent<S> {
    /// New inbound connection(s): the sockets accepted, in their order, and whether accepting
    /// ended in a failure other than that there are no more.
    Server { accepted: Vec<S>, failed: bool },
    /// I/O available on the socket with this event ID.
    Io(usize),
}

impl<S> PollEvent<S> {
    /// The sockets that the event brings.
    pub open spec fn sockets(self) -> Seq<S> {
        match self {
            PollEvent::Server { accepted, failed } => accepted@,
            PollEvent::Io(_) => seq![],
        }
    }

    /// The socket that the event says is ready.
    pub open spec fn readied(self) -> Seq<usize> {
        match self {
            PollEvent::Server { accepted, failed } => seq![],
            PollEvent::Io(event_id) => seq![event_id],
        }
    }

    pub open spec fn fails(self) -> bool {
        match self {
            PollEvent::Server { accepted, failed } => failed,
            PollEvent::Io(_) => false,
        }
    }
}

/// All the sockets that some events bring.
pub open spec fn all_sockets<S>(events: Seq<PollEvent<S>>) -> Seq<S> {
    events.map_values(|event: PollEvent<S>| event.sockets()).flatten()
}

/// All that some events say is ready.
pub open spec fn all_ready<S>(events: Seq<PollEvent<S>>) -> Seq<usize> {
    events.map_values(|event: PollEvent<S>| event.readied()).flatten()
}

/// Sockets under consecutive event IDs.
pub open spec fn numbered<S>(first: int, sockets: Seq<S>) -> Map<usize, S> {
    Map::new(
        |event_id: usize| first <= event_id < first + sockets.len(),
        |event_id: usize| sockets[event_id - first],
    )
}

/// Do none of the events fail?
pub open spec fn none_fails<S>(events: Seq<PollEvent<S>>) -> bool {
    forall|i: int| 0 <= i < events.len() ==> !(#[trigger] events[i]).fails()
}

/// The events that are looked at: those up to the first that fails, and that one.
pub open spec fn heard<S>(events: Seq<PollEvent<S>>) -> Seq<PollEvent<S>>
    decreases events.len(),
{
    if events.len() == 0 || none_fails(events.drop_last()) {
        events
    } else {
        heard(events.drop_last())
    }
}

/// The first of the sockets, as many as there is room for.
pub open spec fn admitted<S>(room: int, sockets: Seq<S>) -> Seq<S> {
    if sockets.len() <= room {
        sockets
    } else {
        sockets.take(room)
    }
}

/// Nothing is looked at behind an event that fails.
proof fn lemma_heard_up_to_failure<S>(events: Seq<PollEvent<S>>, at: int)
    requires
        0 <= at < events.len(),
        events[at].fails(),
        none_fails(events.take(at)),
    ensures
        heard(events) == events.take(at + 1),
    decreases events.len(),
{
    let before = events.drop_last();
    if at == events.len() - 1 {
        assert(before =~= events.take(at));
        assert(events.take(at + 1) =~= events);
    } else {
        assert(before[at].fails());
        assert(before.take(at) =~= events.take(at));
        lemma_heard_up_to_failure(before, at);
        assert(before.take(at + 1) =~= events.take(at + 1));
    }
}

/// If nothing fails, everything is looked at.
proof fn lemma_all_heard<S>(events: Seq<PollEvent<S>>)
    requires
        none_fails(events),
    ensures
        heard(events) == events,
{
    if events.len() > 0 {
        assert forall|i: int| 0 <= i < events.drop_last().len() implies !(
        #[trigger] events.drop_last()[i]).fails() by {
            assert(!events[i].fails());
        }
    }
}

/// What is looked at are the first events, and an event that no failure stands before is one.
proof fn lemma_heard_covers<S>(events: Seq<PollEvent<S>>, at: int)
    requires
        0 <= at < events.len(),
        none_fails(events.take(at)),
    ensures
        at < heard(events).len() <= events.len(),
        heard(events) == events.take(heard(events).len() as int),
    decreases events.len(),
{
    let before = events.drop_last();
    if none_fails(before) {
        assert(events.take(events.len() as int) =~= events);
    } else {
        if at == events.len() - 1 {
            assert(before =~= events.take(at));
        }
        assert(before.take(at) =~= events.take(at));
        lemma_heard_covers(before, at);
        let n = heard(before).len() as int;
        assert(before.take(n) =~= events.take(n));
    }
}

/// One more event brings its sockets after those of the others, and its readiness likewise.
proof fn lemma_one_more<S>(events: Seq<PollEvent<S>>, at: int)
    requires
        0 <= at < events.len(),
    ensures
        all_sockets(events.take(at + 1)) == all_sockets(events.take(at)) + events[at].sockets(),
        all_ready(events.take(at + 1)) == all_ready(events.take(at)) + events[at].readied(),
{
    let sockets = |event: PollEvent<S>| event.sockets();
    let readied = |event: PollEvent<S>| event.readied();
    assert(events.take(at + 1).map_values(sockets) =~= events.take(at).map_values(sockets).push(
        events[at].sockets(),
    ));
    assert(events.take(at + 1).map_values(readied) =~= events.take(at).map_values(readied).push(
        events[at].readied(),
    ));
    events.take(at).map_values(sockets).lemma_flatten_push(events[at].sockets());
    events.take(at).map_values(readied).lemma_flatten_push(events[at].readied());
}

/// The first events bring no more sockets than all of them.
proof fn lemma_first_bring_no_more<S>(events: Seq<PollEvent<S>>, at: int)
    requires
        0 <= at <= events.len(),
    ensures
        all_sockets(events.take(at)).len() <= all_sockets(events).len(),
    decreases events.len() - at,
{
    if at < events.len() {
        lemma_first_bring_no_more(events, at + 1);
        lemma_one_more(events, at);
    } else {
        assert(events.take(at) =~= events);
    }
}

/// One more event that no failure stands before: its sockets are admitted as far as the others
/// left room, and all of these are among those accepted in the end.
proof fn lemma_one_more_admitted<S>(events: Seq<PollEvent<S>>, at: int, room: int)
    requires
        0 <= at < events.len(),
        0 <= room,
        none_fails(events.take(at)),
    ensures
        ({
            let taken = admitted(room, all_sockets(events.take(at)));
            let more = admitted(room - taken.len(), events[at].sockets());
            &&& admitted(room, all_sockets(events.take(at + 1))) == taken + more
            &&& (taken + more).len() <= admitted(room, all_sockets(heard(events))).len()
        }),
        none_fails(events.take(at + 1)) <==> !events[at].fails(),
{
    let before = all_sockets(events.take(at));
    let taken = admitted(room, before);
    let more = admitted(room - taken.len(), events[at].sockets());
    lemma_one_more(events, at);
    assert(admitted(room, before + events[at].sockets()) =~= taken + more);
    lemma_heard_covers(events, at);
    assert(heard(events).take(at + 1) =~= events.take(at + 1));
    lemma_first_bring_no_more(heard(events), at + 1);
    assert(events.take(at + 1)[at] == events[at]);
    if !events[at].fails() {
        assert forall|i: int| 0 <= i < at + 1 implies !(#[trigger] events.take(at + 1)[i]).fails() by {
            if i < at {
                assert(events.take(at + 1)[i] == events.take(at)[i]);
            }
        }
    }
}

/// Which event IDs have been given out, and how many more sockets may be accepted.
#[verifier::ext_equal]
pub struct Ids {
    /// The next event ID.
    pub next: int,
    /// How many more sockets may be accepted.
    pub room: int,
}

/// The sockets that are accepted of those that some events bring.
pub open spec fn accepted<S>(room: int, events: Seq<PollEvent<S>>) -> Seq<S> {
    admitted(room, all_sockets(heard(events)))
}

impl Ids {
    /// What one look at the poller makes of the event IDs and of the room.
    pub open spec fn polled<S>(self, events: Seq<PollEvent<S>>) -> Ids {
        Ids {
            next: self.next + accepted(self.room, events).len(),
            room: self.room - accepted(self.room, events).len(),
        }
    }
}

/// State of the network: which event IDs have been given out, and how many more sockets may be
/// accepted.
pub struct NetworkState {
    count: usize,
    room: usize,
}

impl View for NetworkState {
    type V = Ids;

    closed spec fn view(&self) -> Ids {
        Ids { next: self.count as int, room: self.room as int }
    }
}

impl NetworkState {
    /// No event ID is taken but the server's own, and at most `capacity` sockets will be accepted.
    pub fn new(capacity: usize) -> (r: NetworkState)
        ensures
            r@ == (Ids { next: SERVER + 1, room: capacity as int }),
    {
        NetworkState { count: 1, room: capacity }
    }

    /// How many more event IDs there are.
    pub fn event_ids_left(&self) -> (r: usize)
        ensures
            r == usize::MAX - self@.next,
    {
        usize::MAX - self.count
    }

    /// How many more sockets may be accepted.
    pub fn room(&self) -> (r: usize)
        ensures
            r == self@.room,
    {
        self.room
    }

    /// Allocate the next unused network ID.  Note that there is no roll-over logic (but on 64-bit
    /// systems, usize is a 64-bit integer, so this really shouldn't be a problem).
    pub fn next_event_id(&mut self) -> (r: usize)
        requires
            old(self)@.next < usize::MAX,
        ensures
            r == old(self)@.next,
            final(self)@ == (Ids { next: old(self)@.next + 1, ..old(self)@ }),
    {
        let cnt: usize = self.count;
        self.count = self.count + 1;
        cnt
    }

    /// Gives each of the sockets that there is room for an event ID, and lets go of the others.
    fn number_sockets<S>(&mut self, accepted: Vec<S>, new: &mut HashMap<usize, S>)
        requires
            old(self)@.next + admitted(old(self)@.room, accepted@).len() <= usize::MAX,
        ensures
            ({
                let taken = admitted(old(self)@.room, accepted@);
                &&& final(self)@.next == old(self)@.next + taken.len()
                &&& final(self)@.room == old(self)@.room - taken.len()
                &&& final(new)@ == old(new)@.union_prefer_right(numbered(old(self)@.next, taken))
            }),
    {
        let ghost all = accepted@;
        let ghost first = self@.next;
        let ghost room = self@.room;
        assert(all.take(0) =~= admitted(room, all.take(0)));
        assert(new@ =~= old(new)@.union_prefer_right(numbered(first, all.take(0))));
        for socket in iter: accepted
            invariant
                iter.seq() == all,
                0 <= room,
                first + admitted(room, all).len() <= usize::MAX,
                self@.next == first + admitted(room, all.take(iter.index() as int)).len(),
                self@.room == room - admitted(room, all.take(iter.index() as int)).len(),
                new@ == old(new)@.union_prefer_right(
                    numbered(first, admitted(room, all.take(iter.index() as int))),
                ),
        {
            let ghost at = iter.index() as int;
            let ghost before = new@;
            let ghost taken = admitted(room, all.take(at));
            if self.room > 0 {
                let cnt: usize = self.next_event_id();
                self.room = self.room - 1;
                new.insert(cnt, socket);
                assert(admitted(room, all.take(at + 1)) =~= taken.push(all[at]));
                assert(before.insert(cnt, all[at]) =~= old(new)@.union_prefer_right(
                    numbered(first, taken.push(all[at])),
                ));
            } else {
                assert(admitted(room, all.take(at + 1)) =~= taken);
            }
        }
        assert(all.take(all.len() as int) =~= all);
    }

    /// Gives each newly-accepted socket an event ID, and lists the ready sockets.  Lets go of
    /// sockets that there is no room for.  Fails as soon as accepting failed; what was accepted by
    /// then stays counted, and its event IDs stay taken.
    #[verifier::rlimit(30)]
    pub fn poll<S>(&mut self, events: Vec<PollEvent<S>>) -> (r: Result<NetworkPollState<S>, Error>)
        requires
            old(self)@.polled(events@).next <= usize::MAX,
        ensures
            final(self)@ == old(self)@.polled(events@),
            r is Ok <==> none_fails(events@),
            r matches Ok(state) ==> {
                &&& state.new@ == numbered(
                    old(self)@.next,
                    admitted(old(self)@.room, all_sockets(events@)),
                )
                &&& state.ready@ == all_ready(events@)
            },
            r matches Err(e) ==> e == Error::AcceptError,
    {
        let mut state: NetworkPollState<S> = NetworkPollState::new();
        let ghost all = events@;
        let ghost start = self@;
        proof {
            assert(all.take(0).map_values(|event: PollEvent<S>| event.sockets()) =~= seq![]);
            assert(all.take(0).map_values(|event: PollEvent<S>| event.readied()) =~= seq![]);
            assert(state.new@ =~= numbered(
                start.next,
                admitted(start.room, all_sockets(all.take(0))),
            ));
        }
        for event in iter: events
            invariant
                iter.seq() == all,
                start == old(self)@,
                0 <= start.room,
                start.polled(all).next <= usize::MAX,
                state.new@ == numbered(
                    start.next,
                    admitted(start.room, all_sockets(all.take(iter.index() as int))),
                ),
                state.ready@ == all_ready(all.take(iter.index() as int)),
                self@.next == start.next + admitted(
                    start.room,
                    all_sockets(all.take(iter.index() as int)),
                ).len(),
                self@.room == start.room - admitted(
                    start.room,
                    all_sockets(all.take(iter.index() as int)),
                ).len(),
                none_fails(all.take(iter.index() as int)),
        {
            let ghost at = iter.index() as int;
            let ghost taken = admitted(start.room, all_sockets(all.take(at)));
            let ghost more = admitted(self@.room, event.sockets());
            assert(event == all[at]);
            proof {
                lemma_one_more(all, at);
                lemma_one_more_admitted(all, at, start.room);
            }
            match event {
                PollEvent::Server { accepted, failed } => {
                    self.number_sockets(accepted, &mut state.new);
                    assert(state.new@ =~= numbered(start.next, taken + more));
                    assert(state.ready@ =~= all_ready(all.take(at + 1)));
                    if failed {
                        proof {
                            lemma_heard_up_to_failure(all, at);
                            assert(self@ =~= start.polled(all));
                            assert(all[at].fails());
                        }
                        return Err(Error::AcceptError);
                    }
                },
                PollEvent::Io(event_id) => {
                    state.ready.push(event_id);
                    assert(taken + more =~= taken);
                    assert(state.ready@ =~= all_ready(all.take(at + 1)));
                },
            }
        }
        proof {
            assert(all.take(all.len() as int) =~= all);
            lemma_all_heard(all);
            assert(self@ =~= start.polled(all));
        }
        Ok(state)
    }
}

/// How much room some looks at the poller leave.
pub open spec fn room_after<S>(room: int, polls: Seq<Seq<PollEvent<S>>>) -> int
    decreases polls.len(),
{
    if polls.len() == 0 {
        room
    } else {
        let before = room_after(room, polls.drop_last());
        before - accepted(before, polls.last()).len()
    }
}

/// How many sockets are accepted over some looks at the poller.
pub open spec fn accepted_over<S>(room: int, polls: Seq<Seq<PollEvent<S>>>) -> int
    decreases polls.len(),
{
    if polls.len() == 0 {
        0
    } else {
        let before = room_after(room, polls.drop_last());
        accepted_over(room, polls.drop_last()) + accepted(before, polls.last()).len()
    }
}

/// However many clients connect, however often the poller is looked at, and whatever event IDs are
/// given out meanwhile, the sockets accepted over all looks number at most the capacity.
pub proof fn law_accepts_at_most_capacity<S>(capacity: usize, polls: Seq<Seq<PollEvent<S>>>)
    ensures
        accepted_over(capacity as int, polls) <= capacity,
        accepted_over(capacity as int, polls) == capacity - room_after(capacity as int, polls),
        0 <= room_after(capacity as int, polls),
    decreases polls.len(),
{
    if polls.len() > 0 {
        law_accepts_at_most_capacity(capacity, polls.drop_last());
    }
}

/// As long as there is room, every socket that comes is accepted.
pub proof fn law_accepts_while_there_is_room<S>(room: int, events: Seq<PollEvent<S>>)
    requires
        none_fails(events),
        all_sockets(events).len() <= room,
    ensures
        accepted(room, events) == all_sockets(events),
{
    lemma_all_heard(events);
}

/// What an event brings: the sockets that were accepted, all of them and in their order, or one
/// socket that is ready; and whether it fails.
pub proof fn law_what_events_bring<S>(accepted: Vec<S>, failed: bool, event_id: usize)
    ensures
        ({
            let server = PollEvent::Server { accepted, failed };
            &&& server.sockets() == accepted@
            &&& server.readied().len() == 0
            &&& server.fails() == failed
        }),
        PollEvent::<S>::Io(event_id).sockets().len() == 0,
        PollEvent::<S>::Io(event_id).readied() == seq![event_id],
        !PollEvent::<S>::Io(event_id).fails(),
{
}

/// Events bring what they bring one after the other: nothing is lost, added or reordered.
pub proof fn law_events_add_up<S>(a: Seq<PollEvent<S>>, b: Seq<PollEvent<S>>, event: PollEvent<S>)
    ensures
        all_sockets(a + b) == all_sockets(a) + all_sockets(b),
        all_ready(a + b) == all_ready(a) + all_ready(b),
        all_sockets(seq![event]) == event.sockets(),
        all_ready(seq![event]) == event.readied(),
        all_sockets(Seq::<PollEvent<S>>::empty()).len() == 0,
        all_ready(Seq::<PollEvent<S>>::empty()).len() == 0,
{
    let sockets = |event: PollEvent<S>| event.sockets();
    let readied = |event: PollEvent<S>| event.readied();
    assert((a + b).map_values(sockets) =~= a.map_values(sockets) + b.map_values(sockets));
    assert((a + b).map_values(readied) =~= a.map_values(readied) + b.map_values(readied));
    vstd::seq_lib::lemma_flatten_concat(a.map_values(sockets), b.map_values(sockets));
    vstd::seq_lib::lemma_flatten_concat(a.map_values(readied), b.map_values(readied));
    let one = seq![event];
    assert(one.map_values(sockets) =~= seq![event.sockets()]);
    assert(one.map_values(readied) =~= seq![event.readied()]);
    one.map_values(sockets).lemma_flatten_one_element();
    one.map_values(readied).lemma_flatten_one_element();
}

/// Sockets get consecutive event IDs, in their order.
pub proof fn law_sockets_are_numbered_in_order<S>(first: int, sockets: Seq<S>, event_id: usize)
    ensures
        numbered(first, sockets).contains_key(event_id) <==> 0 <= event_id - first < sockets.len(),
        numbered(first, sockets).contains_key(event_id) ==> numbered(first, sockets)[event_id]
            == sockets[event_id - first],
{
}

/// All events are looked at if none fails; if one does, those before the first such one and this
/// one.
pub proof fn law_a_failure_ends_the_look<S>(events: Seq<PollEvent<S>>, at: int)
    ensures
        none_fails(events) <==> forall|i: int|
            0 <= i < events.len() ==> !(#[trigger] events[i]).fails(),
        none_fails(events) ==> heard(events) == events,
        0 <= at < events.len() && events[at].fails() && (forall|i: int|
            0 <= i < at ==> !(#[trigger] events[i]).fails()) ==> heard(events) == events.take(
            at + 1,
        ),
{
    if none_fails(events) {
        lemma_all_heard(events);
    }
    if 0 <= at < events.len() && events[at].fails() && (forall|i: int|
        0 <= i < at ==> !(#[trigger] events[i]).fails()) {
        assert forall|i: int| 0 <= i < events.take(at).len() implies !(#[trigger] events.take(
            at,
        )[i]).fails() by {
            assert(!events[i].fails());
        }
        lemma_heard_up_to_failure(events, at);
    }
}

/// Sockets are accepted first come, first served, as many as there is room for; each takes an event
/// ID and a place.
pub proof fn law_first_come_first_served<S>(ids: Ids, sockets: Seq<S>, events: Seq<PollEvent<S>>)
    requires
        0 <= ids.room,
    ensures
        admitted(ids.room, sockets).is_prefix_of(sockets),
        admitted(ids.room, sockets).len() <= ids.room,
        admitted(ids.room, sockets).len() < sockets.len() ==> admitted(ids.room, sockets).len()
            == ids.room,
        ({
            let taken = admitted(ids.room, all_sockets(heard(events)));
            &&& ids.polled(events).next - ids.next == taken.len()
            &&& ids.room - ids.polled(events).room == taken.len()
        }),
{
}

} // verus!
