//! The firewall: pairs of sockets, and what passes between them.

use crate::command::BitcoinCommand;
use crate::error::Error;
use crate::flow::{Flow, Rules};
use crate::forward::{ForwardState, IDLE_TIMEOUT};
use crate::io::{IoAction, IoReply, Turn};
use crate::network::{admitted, all_ready, all_sockets, none_fails, numbered};
use crate::network::{Ids, NetworkPollState, NetworkState, PollEvent};
use crate::options::{all_fit, commands, commands_named, first_too_long, Options};
use crate::preamble::BitcoinPreamble;
use crate::table::{law_events_go_all_at_once, lists_idle, Route, Side, Tables};
use std::collections::HashMap;
use vstd::prelude::*;

verus! {

/// The commands of a list, as bytes.
pub open spec fn names(list: Seq<BitcoinCommand>) -> Seq<Seq<u8>> {
    list.map_values(|command: BitcoinCommand| command@)
}

/// The rules that an allow list and a deny list make.
pub open spec fn rules(allow_list: Seq<BitcoinCommand>, deny_list: Seq<BitcoinCommand>) -> Rules {
    Rules { allow: names(allow_list), deny: names(deny_list) }
}

/// What forwarding states hold.
pub open spec fn flows(states: Map<usize, ForwardState>) -> Map<usize, Flow> {
    states.map_values(|state: ForwardState| state@)
}

/// Does the list hold the command?
fn listed(list: &Vec<BitcoinCommand>, command: &BitcoinCommand) -> (r: bool)
    ensures
        r == names(list@).contains(command@),
{
    let mut i: usize = 0;
    while i < list.len()
        invariant
            i <= list@.len(),
            forall|j: int| 0 <= j < i ==> names(list@)[j] != command@,
        decreases list@.len() - i,
    {
        if list[i] == *command {
            assert(names(list@)[i as int] == command@);
            return true;
        }
        i = i + 1;
    }
    false
}

/// The event IDs that a map has an entry for, each once, in the order in which the map is walked.
fn event_ids<V>(map: &HashMap<usize, V>) -> (r: Vec<usize>)
    ensures
        r@.no_duplicates(),
        r@.to_set() == map@.dom(),
{
    let mut ids: Vec<usize> = Vec::new();
    for id in iter: map.keys()
        invariant
            iter.seq().no_duplicates(),
            iter.seq().unref().to_set() == map@.dom(),
            ids@ == iter.seq().unref().take(iter.index() as int),
            iter.index() == iter.seq().len() ==> ids@ == iter.seq().unref(),
    {
        ids.push(*id);
        assert(ids@ =~= iter.seq().unref().take(iter.index() + 1));
    }
    ids
}

/// The event IDs of the forwarding states that are idle at the given time.
fn idle_events(states: &HashMap<usize, ForwardState>, now: u128) -> (r: Vec<usize>)
    ensures
        lists_idle(flows(states@), IDLE_TIMEOUT, now, r@),
{
    let ids = event_ids(states);
    let mut idle: Vec<usize> = Vec::new();
    let mut i: usize = 0;
    while i < ids.len()
        invariant
            i <= ids@.len(),
            ids@.no_duplicates(),
            ids@.to_set() == states@.dom(),
            idle@.no_duplicates(),
            forall|id: usize| #[trigger]
                idle@.contains(id) <==> ids@.take(i as int).contains(id) && states@[id]@.idle(
                    IDLE_TIMEOUT,
                    now,
                ),
        decreases ids@.len() - i,
    {
        let id: usize = ids[i];
        let ghost before = idle@;
        assert(ids@.to_set().contains(id));
        match states.get(&id) {
            Some(state) => {
                if state.is_idle_at(now) {
                    idle.push(id);
                }
            },
            None => {},
        }
        proof {
            assert(ids@.take(i + 1) =~= ids@.take(i as int).push(id));
            assert(!ids@.take(i as int).contains(id));
            assert forall|j: int| 0 <= j < before.len() implies before[j] != id by {
                assert(before.contains(before[j]));
            }
            assert forall|other: usize| #[trigger] idle@.contains(other) <==> ids@.take(
                i + 1,
            ).contains(other) && states@[other]@.idle(IDLE_TIMEOUT, now) by {
                vstd::seq_lib::lemma_seq_contains_after_push(before, id, other);
                vstd::seq_lib::lemma_seq_contains_after_push(ids@.take(i as int), id, other);
            }
        }
        i = i + 1;
    }
    assert(ids@.take(ids@.len() as int) =~= ids@);
    idle
}

/// Every entry of a map, each once, in any order.
pub open spec fn hands_out<S>(map: Map<usize, S>, entries: Seq<(usize, S)>) -> bool {
    &&& entries.map_values(|entry: (usize, S)| entry.0).no_duplicates()
    &&& entries.map_values(|entry: (usize, S)| entry.0).to_set() == map.dom()
    &&& forall|i: int| 0 <= i < entries.len() ==> (#[trigger] entries[i]).1 == map[entries[i].0]
}

/// Clients that the firewall accepts at most.
pub const CAPACITY: usize = 1000;

/// What becomes of a message, and why.
#[derive(Debug, Clone, Copy, PartialEq, Eq, Structural)]
pub enum Verdict {
    /// It passes.
    Allow,
    /// It is dropped: commands are allowed by name, and its command is not.
    NotAllowListed,
    /// It is dropped: its command is denied by name.
    DenyListed,
}

/// Whether the poller took both sockets of a pair.
#[derive(Debug, Clone, Copy, PartialEq, Eq, Structural)]
pub enum Registration {
    /// It watches both.
    Both,
    /// It refused the client's socket.
    DownstreamRefused,
    /// It watches the client's socket, and refused the one to bitcoind.
    UpstreamRefused,
}

/// A pair of sockets that is not to be.
pub struct Refusal<S> {
    pub error: Error,
    /// A socket that the poller still watches.
    pub deregister: Option<S>,
}

/// The firewall.  Its sockets are of any type: it only keeps them.
#[verifier::reject_recursive_types(S)]
pub struct BitcoinProxy<S> {
    /// What are the expected magic bytes in each Bitcoin message?
    magic: u32,
    /// Network I/O state
    network: NetworkState,
    /// List of Bitcoin commands that are prohibited.  All else are allowed.  If this has items,
    /// then allow_list will be empty.
    deny_list: Vec<BitcoinCommand>,
    /// List of Bitcoin commands that are allowed.  All else are prohibited.  If this has items,
    /// then deny_list will be empty.
    allow_list: Vec<BitcoinCommand>,
    /// Map event IDs to their downstream sockets and their forwarding states.
    downstream: HashMap<usize, S>,
    messages_downstream: HashMap<usize, ForwardState>,
    /// Map event IDs to their upstream sockets and their forwarding states.
    upstream: HashMap<usize, S>,
    messages_upstream: HashMap<usize, ForwardState>,
}

impl<S> View for BitcoinProxy<S> {
    type V = Tables<S>;

    closed spec fn view(&self) -> Tables<S> {
        Tables {
            magic: self.magic,
            ids: self.network@,
            rules: rules(self.allow_list@, self.deny_list@),
            downstream: self.downstream@,
            messages_downstream: flows(self.messages_downstream@),
            upstream: self.upstream@,
            messages_upstream: flows(self.messages_upstream@),
        }
    }
}

impl<S> BitcoinProxy<S> {
    /// A firewall for messages with the given magic, without sockets and without rules.
    pub fn new(magic: u32) -> (r: BitcoinProxy<S>)
        ensures
            r@ == Tables::<S>::initial(magic),
            r@.wf(),
    {
        let r = BitcoinProxy {
            magic,
            network: NetworkState::new(CAPACITY),
            deny_list: Vec::new(),
            allow_list: Vec::new(),
            downstream: HashMap::new(),
            messages_downstream: HashMap::new(),
            upstream: HashMap::new(),
            messages_upstream: HashMap::new(),
        };
        assert(names(r.allow_list@) =~= seq![]);
        assert(names(r.deny_list@) =~= seq![]);
        assert(r@ =~= Tables::<S>::initial(magic));
        r
    }

    /// Add a command to the firewall allow_list.
    /// Duplicates are not checked.
    pub fn add_allow_list(&mut self, cmd: BitcoinCommand)
        ensures
            final(self)@ == (Tables {
                rules: Rules { allow: old(self)@.rules.allow.push(cmd@), ..old(self)@.rules },
                ..old(self)@
            }),
    {
        self.allow_list.push(cmd);
        assert(names(self.allow_list@) =~= old(self)@.rules.allow.push(cmd@));
    }

    /// Adds a command to the firewall deny list.
    /// Duplicates are not checked.
    pub fn add_deny_list(&mut self, cmd: BitcoinCommand)
        ensures
            final(self)@ == (Tables {
                rules: Rules { deny: old(self)@.rules.deny.push(cmd@), ..old(self)@.rules },
                ..old(self)@
            }),
    {
        self.deny_list.push(cmd);
        assert(names(self.deny_list@) =~= old(self)@.rules.deny.push(cmd@));
    }

    /// Adds the commands that the command line names to the lists, to both or, if a name is too
    /// long for a command, to none.  Fails with the first such name, of those to allow or else of
    /// those to deny.
    pub fn add_lists(&mut self, options: &Options) -> (r: Result<(), String>)
        ensures
            r is Ok <==> options@.rules() is Some,
            r is Ok ==> final(self)@ == (Tables {
                rules: Rules {
                    allow: old(self)@.rules.allow + commands_named(options@.allow_list),
                    deny: old(self)@.rules.deny + commands_named(options@.deny_list),
                },
                ..old(self)@
            }),
            r matches Err(name) ==> {
                &&& final(self)@ == old(self)@
                &&& if all_fit(options@.allow_list) {
                    first_too_long(options@.deny_list, name@)
                } else {
                    first_too_long(options@.allow_list, name@)
                }
            },
    {
        let mut allowed = match commands(&options.allow_list) {
            Ok(allowed) => allowed,
            Err(name) => {
                return Err(name);
            },
        };
        let mut denied = match commands(&options.deny_list) {
            Ok(denied) => denied,
            Err(name) => {
                return Err(name);
            },
        };
        let ghost (allow, deny) = (names(allowed@), names(denied@));
        self.allow_list.append(&mut allowed);
        self.deny_list.append(&mut denied);
        assert(names(self.allow_list@) =~= old(self)@.rules.allow + allow);
        assert(names(self.deny_list@) =~= old(self)@.rules.deny + deny);
        Ok(())
    }

    /// Given a preamble, a allow list, and a deny list, determine whether or not to filter the
    /// Bitcoin message (returns true to filter; false not to).
    /// While this is not checked, either allow_list, deny_list, or both must have zero entries for
    /// this to work as expected.  If both lists are non-empty, the allow_list is preferred.
    pub fn filter(
        preamble: &BitcoinPreamble,
        allow_list: &Vec<BitcoinCommand>,
        deny_list: &Vec<BitcoinCommand>,
    ) -> (r: bool)
        ensures
            r == rules(allow_list@, deny_list@).drops(preamble@.command),
    {
        if allow_list.len() > 0 {
            return !listed(allow_list, &preamble.command);
        }
        if deny_list.len() > 0 {
            return listed(deny_list, &preamble.command);
        }
        false
    }

    /// Take in what one look at the poller brought: give each newly-accepted socket an event ID,
    /// and list the ready sockets.  Lets go of sockets that there is no room for.
    pub fn poll(&mut self, events: Vec<PollEvent<S>>) -> (r: Result<NetworkPollState<S>, Error>)
        requires
            old(self)@.ids.polled(events@).next <= usize::MAX,
        ensures
            final(self)@ == (Tables { ids: old(self)@.ids.polled(events@), ..old(self)@ }),
            r is Ok <==> none_fails(events@),
            r matches Ok(state) ==> {
                &&& state.new@ == numbered(
                    old(self)@.ids.next,
                    admitted(old(self)@.ids.room, all_sockets(events@)),
                )
                &&& state.ready@ == all_ready(events@)
            },
            r matches Err(e) ==> e == Error::AcceptError,
    {
        self.network.poll(events)
    }

    /// How many more event IDs there are.
    pub fn event_ids_left(&self) -> (r: usize)
        ensures
            r == usize::MAX - self@.ids.next,
    {
        self.network.event_ids_left()
    }

    /// How many more clients may be accepted.
    pub fn room(&self) -> (r: usize)
        ensures
            r == self@.ids.room,
    {
        self.network.room()
    }

    /// Allocate the event ID of a socket to bitcoind.
    pub fn next_event_id(&mut self) -> (r: usize)
        requires
            old(self)@.ids.next < usize::MAX,
        ensures
            r == old(self)@.ids.next,
            final(self)@ == (Tables {
                ids: Ids { next: old(self)@.ids.next + 1, ..old(self)@.ids },
                ..old(self)@
            }),
    {
        self.network.next_event_id()
    }

    /// Register a downstream client connection.
    /// This is called to handle a recently-accepted socket, once there is an associated socket to
    /// the upstream bitcoind, so that messages from this socket are sent out to bitcoind if they
    /// are not filtered, and the poller has been asked to watch both.
    /// Creates forwarding state for both.
    /// Each socket's forwarding state contains the other's event ID, which will be
    /// necessary to find the right socket to ferry bytes to when processing socket I/O.
    pub fn register_socket(
        &mut self,
        event_id: usize,
        socket: S,
        upstream_event_id: usize,
        upstream: S,
        registration: Registration,
        now: u128,
    ) -> (r: Result<(), Refusal<S>>)
        requires
            old(self)@.wf(),
        ensures
            final(self)@.wf(),
            r is Ok <==> registration == Registration::Both,
            r is Ok ==> final(self)@ == old(self)@.paired(
                event_id,
                socket,
                upstream_event_id,
                upstream,
                now,
            ),
            r matches Err(refusal) ==> {
                &&& final(self)@ == old(self)@
                &&& refusal.error == Error::RegisterError
                &&& refusal.deregister == if registration == Registration::UpstreamRefused {
                    Some(socket)
                } else {
                    None
                }
            },
    {
        match registration {
            Registration::DownstreamRefused => {
                return Err(Refusal { error: Error::RegisterError, deregister: None });
            },
            Registration::UpstreamRefused => {
                return Err(Refusal { error: Error::RegisterError, deregister: Some(socket) });
            },
            Registration::Both => {},
        }
        let mut forward = ForwardState::new_at(now);
        let mut backward = ForwardState::new_at(now);
        forward.set_pair_event_id(upstream_event_id);
        backward.set_pair_event_id(event_id);

        self.messages_downstream.insert(event_id, forward);
        self.downstream.insert(event_id, socket);

        self.messages_upstream.insert(upstream_event_id, backward);
        self.upstream.insert(upstream_event_id, upstream);
        assert(self@ =~= old(self)@.paired(event_id, socket, upstream_event_id, upstream, now));
        Ok(())
    }

    /// Free up an event's forwarding state, and its socket and the paired socket.  Returns the
    /// sockets, to be disconnected from the poller and closed.
    pub fn deregister_socket(&mut self, event_id: usize) -> (r: Vec<S>)
        requires
            old(self)@.wf(),
        ensures
            final(self)@.wf(),
            final(self)@ == old(self)@.without(event_id),
            r@ == old(self)@.hangup(event_id),
    {
        let mut closed: Vec<S> = Vec::new();
        if let Some(fwd) = self.messages_downstream.remove(&event_id) {
            let pair_event_id: usize = fwd.pair_event_id();
            if let Some(sock) = self.downstream.remove(&event_id) {
                closed.push(sock);
            }
            if let Some(sock) = self.upstream.remove(&pair_event_id) {
                closed.push(sock);
            }
        }
        let ghost middle = self@;
        assert(middle =~= old(self)@.without_downstream(event_id));
        assert(closed@ =~= old(self)@.hangup_downstream(event_id));
        if let Some(fwd) = self.messages_upstream.remove(&event_id) {
            let pair_event_id: usize = fwd.pair_event_id();
            if let Some(sock) = self.upstream.remove(&event_id) {
                closed.push(sock);
            }
            if let Some(sock) = self.downstream.remove(&pair_event_id) {
                closed.push(sock);
            }
        }
        assert(self@ =~= middle.without_upstream(event_id));
        assert(closed@ =~= old(self)@.hangup(event_id));
        closed
    }

    /// Hand out all new downstream clients, each with its event ID, for an upstream socket to
    /// bitcoind to be opened for each one.
    pub fn process_new_sockets(pollstate: &mut NetworkPollState<S>) -> (r: Vec<(usize, S)>)
        ensures
            final(pollstate).new@ == Map::<usize, S>::empty(),
            final(pollstate).ready@ == old(pollstate).ready@,
            hands_out(old(pollstate).new@, r@),
    {
        let ids = event_ids(&pollstate.new);
        let ghost all = pollstate.new@;
        let mut handed: Vec<(usize, S)> = Vec::new();
        let mut i: usize = 0;
        while i < ids.len()
            invariant
                i <= ids@.len(),
                ids@.no_duplicates(),
                ids@.to_set() == all.dom(),
                pollstate.ready@ == old(pollstate).ready@,
                pollstate.new@ =~= all.remove_keys(ids@.take(i as int).to_set()),
                handed@.len() == i,
                forall|j: int|
                    0 <= j < i ==> (#[trigger] handed@[j]).0 == ids@[j] && handed@[j].1
                        == all[ids@[j]],
            decreases ids@.len() - i,
        {
            let id: usize = ids[i];
            let ghost before = pollstate.new@;
            let ghost gone = ids@.take(i as int);
            proof {
                assert(ids@.to_set().contains(id));
                assert(!gone.contains(id));
                assert(ids@.take(i + 1) =~= gone.push(id));
                gone.lemma_push_to_set_commute(id);
                assert(before.remove(id) =~= all.remove_keys(gone.push(id).to_set()));
            }
            match pollstate.new.remove(&id) {
                Some(socket) => {
                    handed.push((id, socket));
                },
                None => {},
            }
            i = i + 1;
        }
        proof {
            assert(ids@.take(ids@.len() as int) =~= ids@);
            assert(pollstate.new@ =~= Map::<usize, S>::empty());
            assert(handed@.map_values(|entry: (usize, S)| entry.0) =~= ids@);
        }
        handed
    }

    /// Where to read from and to write to for each ready socket: from downstream clients to their
    /// upstream sockets, and from upstream sockets to downstream clients.  A socket whose pair is
    /// gone is passed over.
    pub fn ready_routes(&self, pollstate: &NetworkPollState<S>) -> (r: Vec<Route>)
        requires
            self@.wf(),
        ensures
            r@ == self@.routes(pollstate.ready@),
    {
        let mut routes: Vec<Route> = Vec::new();
        let mut i: usize = 0;
        while i < pollstate.ready.len()
            invariant
                i <= pollstate.ready@.len(),
                routes@ == self@.routes(pollstate.ready@.take(i as int)),
            decreases pollstate.ready@.len() - i,
        {
            let event_id: usize = pollstate.ready[i];
            proof {
                let next = pollstate.ready@.take(i + 1);
                assert(next.drop_last() =~= pollstate.ready@.take(i as int));
            }
            if let Some(route) = self.route(event_id) {
                routes.push(route);
            }
            i = i + 1;
        }
        assert(pollstate.ready@.take(pollstate.ready@.len() as int) =~= pollstate.ready@);
        routes
    }

    /// Where to read from and to write to if the socket with this event ID is ready.
    fn route(&self, event_id: usize) -> (r: Option<Route>)
        ensures
            r == self@.route(event_id),
    {
        if self.downstream.contains_key(&event_id) {
            match self.messages_downstream.get(&event_id) {
                Some(fwd) => {
                    let pair_event_id: usize = fwd.pair_event_id();
                    if self.upstream.contains_key(&pair_event_id) {
                        Some(Route { side: Side::Downstream, event_id, pair_event_id })
                    } else {
                        None
                    }
                },
                None => None,
            }
        } else if self.upstream.contains_key(&event_id) {
            match self.messages_upstream.get(&event_id) {
                Some(fwd) => {
                    let pair_event_id: usize = fwd.pair_event_id();
                    if self.downstream.contains_key(&pair_event_id) {
                        Some(Route { side: Side::Upstream, event_id, pair_event_id })
                    } else {
                        None
                    }
                },
                None => None,
            }
        } else {
            None
        }
    }

    /// The socket with this event ID, on the given side.
    pub fn socket(&self, side: Side, event_id: usize) -> (r: Option<&S>)
        ensures
            side == Side::Downstream ==> match r {
                Some(socket) => self@.downstream.contains_key(event_id)
                    && self@.downstream[event_id] == *socket,
                None => !self@.downstream.contains_key(event_id),
            },
            side == Side::Upstream ==> match r {
                Some(socket) => self@.upstream.contains_key(event_id) && self@.upstream[event_id]
                    == *socket,
                None => !self@.upstream.contains_key(event_id),
            },
    {
        match side {
            Side::Downstream => self.downstream.get(&event_id),
            Side::Upstream => self.upstream.get(&event_id),
        }
    }

    /// The sockets of a route: the one to read from, and the one to write to.  None if one of them
    /// is gone.
    pub fn sockets(&self, route: Route) -> (r: Option<(&S, &S)>)
        ensures
            r is Some <==> self@.has_sockets(route),
            r matches Some(pair) ==> (*pair.0, *pair.1) == self@.sockets(route),
    {
        let (inbound, outbound) = match route.side {
            Side::Downstream => (Side::Downstream, Side::Upstream),
            Side::Upstream => (Side::Upstream, Side::Downstream),
        };
        match (self.socket(inbound, route.event_id), self.socket(outbound, route.pair_event_id)) {
            (Some(from), Some(to)) => Some((from, to)),
            _ => None,
        }
    }

    /// The forwarding state for a route.
    pub fn forward(&self, route: Route) -> (r: Option<&ForwardState>)
        ensures
            r is Some <==> self@.has_flow(route),
            r matches Some(forward) ==> forward@ == self@.flow(route),
    {
        match route.side {
            Side::Downstream => self.messages_downstream.get(&route.event_id),
            Side::Upstream => self.messages_upstream.get(&route.event_id),
        }
    }

    /// What becomes of a message with this header on a route.  The filter will only be applied to
    /// messages coming from downstream clients.
    pub fn verdict(&self, route: Route, preamble: &BitcoinPreamble) -> (r: Verdict)
        ensures
            ({
                let rules = self@.rules_for(route);
                r == if !rules.drops(preamble@.command) {
                    Verdict::Allow
                } else if rules.allow.len() > 0 {
                    Verdict::NotAllowListed
                } else {
                    Verdict::DenyListed
                }
            }),
    {
        match route.side {
            Side::Upstream => Verdict::Allow,
            Side::Downstream => {
                if !Self::filter(preamble, &self.allow_list, &self.deny_list) {
                    Verdict::Allow
                } else if self.allow_list.len() > 0 {
                    Verdict::NotAllowListed
                } else {
                    Verdict::DenyListed
                }
            },
        }
    }

    /// The first thing to do for a forwarding state whose sockets are ready.
    pub fn start_socket_io(forward: &ForwardState) -> (r: IoAction)
        requires
            forward@.wf(),
        ensures
            r == forward@.read_action(),
    {
        match forward.read_size() {
            Some(size) => IoAction::Read(size),
            None => IoAction::Done(false),
        }
    }

    /// Handle socket I/O from one socket (inbound) to another (outbound), filtering messages as
    /// needed.  Handles as many bytes as possible, bufferring them up into the inbound socket's
    /// forwarding state as needed.  Takes in what the last read or write came back with, and says
    /// what to do next, until encountering EWOULDBLOCK on both inbound and outbound.
    pub fn process_socket_io(
        magic: u32,
        allow_list: &Vec<BitcoinCommand>,
        deny_list: &Vec<BitcoinCommand>,
        forward: &mut ForwardState,
        reply: IoReply,
    ) -> (r: IoAction)
        requires
            old(forward)@.wf(),
            old(forward)@.accepts_event(reply@),
        ensures
            (final(forward)@, r) == old(forward)@.io_turn(
                magic,
                rules(allow_list@, deny_list@),
                reply@,
            ),
            final(forward)@.wf(),
    {
        match reply {
            IoReply::Read(reply) => {
                match forward.read_until_blocked(magic, reply, allow_list, deny_list) {
                    Turn::Again => Self::start_socket_io(forward),
                    Turn::Stop(true) => IoAction::Write,
                    Turn::Stop(false) => IoAction::Done(false),
                }
            },
            IoReply::Write(reply) => {
                match forward.write_until_blocked(reply) {
                    Turn::Again => IoAction::Write,
                    Turn::Stop(alive) => IoAction::Done(alive),
                }
            },
        }
    }

    /// Handle I/O on a route: take in what the last read or write came back with, and say what to
    /// do next.  The filter will only be applied to messages coming from downstream clients.
    pub fn process_route_io(&mut self, route: Route, reply: IoReply) -> (r: IoAction)
        requires
            old(self)@.wf(),
            old(self)@.has_flow(route),
            old(self)@.flow(route).accepts_event(reply@),
        ensures
            final(self)@.wf(),
            ({
                let (flow, action) = old(self)@.flow(route).io_turn(
                    old(self)@.magic,
                    old(self)@.rules_for(route),
                    reply@,
                );
                &&& r == action
                &&& final(self)@ == old(self)@.with_flow(route, flow)
            }),
    {
        match route.side {
            Side::Downstream => match self.messages_downstream.remove(&route.event_id) {
                Some(forward) => {
                    let mut forward = forward;
                    let action = Self::process_socket_io(
                        self.magic,
                        &self.allow_list,
                        &self.deny_list,
                        &mut forward,
                        reply,
                    );
                    self.messages_downstream.insert(route.event_id, forward);
                    assert(self@ =~= old(self)@.with_flow(route, forward@));
                    action
                },
                None => IoAction::Done(false),
            },
            Side::Upstream => match self.messages_upstream.remove(&route.event_id) {
                Some(forward) => {
                    let mut forward = forward;
                    let no_list: Vec<BitcoinCommand> = Vec::new();
                    let action = Self::process_socket_io(
                        self.magic,
                        &no_list,
                        &no_list,
                        &mut forward,
                        reply,
                    );
                    self.messages_upstream.insert(route.event_id, forward);
                    assert(names(no_list@) =~= seq![]);
                    assert(self@ =~= old(self)@.with_flow(route, forward@));
                    action
                },
                None => IoAction::Done(false),
            },
        }
    }

    /// Deregister events, one after the other.  Returns their sockets, to be disconnected from the
    /// poller and closed.
    pub fn deregister_sockets(&mut self, event_ids: &Vec<usize>) -> (r: Vec<S>)
        requires
            old(self)@.wf(),
        ensures
            final(self)@.wf(),
            final(self)@ == old(self)@.without_all(event_ids@),
            r@ == old(self)@.hangup_all(event_ids@),
    {
        let mut closed: Vec<S> = Vec::new();
        let mut i: usize = 0;
        while i < event_ids.len()
            invariant
                i <= event_ids@.len(),
                self@.wf(),
                self@ == old(self)@.without_all(event_ids@.take(i as int)),
                closed@ == old(self)@.hangup_all(event_ids@.take(i as int)),
            decreases event_ids@.len() - i,
        {
            proof {
                let next = event_ids@.take(i + 1);
                assert(next.drop_last() =~= event_ids@.take(i as int));
            }
            let mut sockets = self.deregister_socket(event_ids[i]);
            closed.append(&mut sockets);
            i = i + 1;
        }
        assert(event_ids@.take(event_ids@.len() as int) =~= event_ids@);
        closed
    }

    /// Find idle sockets and deregister them, those of downstream clients first.  Returns the
    /// sockets, to be disconnected from the poller and closed.
    pub fn process_dead_sockets(&mut self, now: u128) -> (r: Vec<S>)
        requires
            old(self)@.wf(),
        ensures
            final(self)@.wf(),
            final(self)@ == old(self)@.without_set(old(self)@.idle_set(IDLE_TIMEOUT, now)),
            exists|d: Seq<usize>, u: Seq<usize>|
                {
                    &&& #[trigger] lists_idle(
                        old(self)@.messages_downstream,
                        IDLE_TIMEOUT,
                        now,
                        d,
                    )
                    &&& #[trigger] lists_idle(old(self)@.messages_upstream, IDLE_TIMEOUT, now, u)
                    &&& r@ == old(self)@.hangup_all(d + u)
                },
    {
        let mut timedout: Vec<usize> = idle_events(&self.messages_downstream, now);
        let ghost d = timedout@;
        let mut more: Vec<usize> = idle_events(&self.messages_upstream, now);
        let ghost u = more@;
        timedout.append(&mut more);
        assert(timedout@ == d + u);
        let closed = self.deregister_sockets(&timedout);
        assert(lists_idle(old(self)@.messages_downstream, IDLE_TIMEOUT, now, d));
        assert(lists_idle(old(self)@.messages_upstream, IDLE_TIMEOUT, now, u));
        proof {
            law_events_go_all_at_once(old(self)@, d + u);
            assert forall|id: usize| (d + u).to_set().contains(id) == #[trigger] old(
                self,
            )@.idle_set(IDLE_TIMEOUT, now).contains(id) by {
                vstd::seq_lib::lemma_seq_concat_contains_all_elements(d, u, id);
            }
            assert((d + u).to_set() =~= old(self)@.idle_set(IDLE_TIMEOUT, now));
        }
        closed
    }
}

/// What two lists of commands let pass, by the bytes of the commands: if the first list has any,
/// exactly the commands in it; if not, exactly the commands that are not in the second.
pub proof fn law_lists_of_commands_are_the_rules(
    allow_list: Seq<BitcoinCommand>,
    deny_list: Seq<BitcoinCommand>,
    command: Seq<u8>,
)
    ensures
        allow_list.len() > 0 ==> (rules(allow_list, deny_list).drops(command) <==> forall|i: int|
            0 <= i < allow_list.len() ==> (#[trigger] allow_list[i]).0@ != command),
        allow_list.len() == 0 ==> (rules(allow_list, deny_list).drops(command) <==> exists|i: int|
            0 <= i < deny_list.len() && (#[trigger] deny_list[i]).0@ == command),
{
    let made = rules(allow_list, deny_list);
    assert forall|i: int| 0 <= i < allow_list.len() implies (#[trigger] allow_list[i]).0@
        == made.allow[i] by {}
    assert forall|i: int| 0 <= i < deny_list.len() implies (#[trigger] deny_list[i]).0@
        == made.deny[i] by {}
    if allow_list.len() > 0 {
        if forall|i: int| 0 <= i < allow_list.len() ==> (#[trigger] allow_list[i]).0@ != command {
            assert forall|i: int| 0 <= i < made.allow.len() implies made.allow[i] != command by {
                assert(allow_list[i].0@ == made.allow[i]);
            }
        } else {
            let i = choose|i: int|
                0 <= i < allow_list.len() && (#[trigger] allow_list[i]).0@ == command;
            assert(made.allow[i] == command);
        }
    } else {
        if exists|i: int| 0 <= i < deny_list.len() && (#[trigger] deny_list[i]).0@ == command {
            let i = choose|i: int|
                0 <= i < deny_list.len() && (#[trigger] deny_list[i]).0@ == command;
            assert(made.deny[i] == command);
        } else {
            assert forall|i: int| 0 <= i < made.deny.len() implies made.deny[i] != command by {
                assert(deny_list[i].0@ == made.deny[i]);
            }
        }
    }
}

/// The commands of a list, one by one, and the forwarding states of a map, one by one.
pub proof fn law_nothing_is_left_out(
    list: Seq<BitcoinCommand>,
    deny_list: Seq<BitcoinCommand>,
    states: Map<usize, ForwardState>,
)
    ensures
        names(list).len() == list.len(),
        forall|i: int| 0 <= i < list.len() ==> #[trigger] names(list)[i] == list[i].0@,
        rules(list, deny_list).allow == names(list),
        rules(list, deny_list).deny == names(deny_list),
        forall|id: usize| #[trigger] flows(states).contains_key(id) == states.contains_key(id),
        forall|id: usize| states.contains_key(id) ==> #[trigger] flows(states)[id] == states[id]@,
{
}

/// A map is handed out entry by entry: what is handed out is in the map, what is in the map is
/// handed out, and nothing twice.
pub proof fn law_entries_are_handed_out_once<S>(map: Map<usize, S>, entries: Seq<(usize, S)>)
    ensures
        hands_out(map, entries) <==> {
            &&& forall|i: int|
                0 <= i < entries.len() ==> map.contains_key((#[trigger] entries[i]).0)
                    && map[entries[i].0] == entries[i].1
            &&& forall|i: int, j: int|
                0 <= i < j < entries.len() ==> (#[trigger] entries[i]).0 != (
                #[trigger] entries[j]).0
            &&& forall|id: usize| #[trigger]
                map.contains_key(id) ==> exists|i: int|
                    0 <= i < entries.len() && (#[trigger] entries[i]).0 == id
        },
{
    let ids = entries.map_values(|entry: (usize, S)| entry.0);
    assert forall|i: int| 0 <= i < entries.len() implies ids[i] == (#[trigger] entries[i]).0 by {}
    if hands_out(map, entries) {
        assert forall|i: int| 0 <= i < entries.len() implies map.contains_key(
            (#[trigger] entries[i]).0,
        ) && map[entries[i].0] == entries[i].1 by {
            assert(ids.to_set().contains(ids[i]));
        }
        assert forall|i: int, j: int| 0 <= i < j < entries.len() implies (#[trigger] entries[i]).0
            != (#[trigger] entries[j]).0 by {
            assert(ids[i] != ids[j]);
        }
        assert forall|id: usize| #[trigger] map.contains_key(id) implies exists|i: int|
            0 <= i < entries.len() && (#[trigger] entries[i]).0 == id by {
            assert(ids.to_set().contains(id));
            let i = choose|i: int| 0 <= i < ids.len() && ids[i] == id;
            assert(entries[i].0 == id);
        }
    }
    if {
        &&& forall|i: int|
            0 <= i < entries.len() ==> map.contains_key((#[trigger] entries[i]).0)
                && map[entries[i].0] == entries[i].1
        &&& forall|i: int, j: int|
            0 <= i < j < entries.len() ==> (#[trigger] entries[i]).0 != (#[trigger] entries[j]).0
        &&& forall|id: usize| #[trigger]
            map.contains_key(id) ==> exists|i: int|
                0 <= i < entries.len() && (#[trigger] entries[i]).0 == id
    } {
        assert forall|i: int, j: int|
            0 <= i < ids.len() && 0 <= j < ids.len() && i != j implies ids[i] != ids[j] by {
            assert(entries[i].0 == ids[i] && entries[j].0 == ids[j]);
            if i < j {
                assert(entries[i].0 != entries[j].0);
            } else {
                assert(entries[j].0 != entries[i].0);
            }
        }
        assert forall|id: usize| ids.to_set().contains(id) == #[trigger] map.dom().contains(id) by {
            if map.contains_key(id) {
                let i = choose|i: int| 0 <= i < entries.len() && (#[trigger] entries[i]).0 == id;
                assert(ids[i] == id);
            }
            if ids.contains(id) {
                let i = choose|i: int| 0 <= i < ids.len() && ids[i] == id;
                assert(map.contains_key(entries[i].0));
            }
        }
        assert(ids.to_set() =~= map.dom());
    }
}

} // verus!
