//! The model of the firewall: which sockets there are, and how they are paired.

use crate::flow::{Flow, Rules};
use crate::io::Event;
use crate::network::Ids;
use crate::proxy::CAPACITY;
use vstd::prelude::*;

verus! {

/// On which side of the firewall a socket is.
#[derive(Debug, Clone, Copy, PartialEq, Eq, Structural)]
pub enum Side {
    /// A client's socket.
    Downstream,
    /// A socket to the bitcoind behind the firewall.
    Upstream,
}

/// Which socket to read from, and which one to write to.
#[derive(Debug, Clone, Copy, PartialEq, Eq, Structural)]
pub struct Route {
    /// The side of the socket to read from.
    pub side: Side,
    /// The event ID of the socket to read from.
    pub event_id: usize,
    /// The event ID of the socket to write to.
    pub pair_event_id: usize,
}

/// What the firewall holds.
#[verifier::ext_equal]
#[verifier::reject_recursive_types(S)]
pub struct Tables<S> {
    /// The magic that every message starts with.
    pub magic: u32,
    /// Which event IDs have been given out, and how many more clients may be accepted.
    pub ids: Ids,
    /// What passes from downstream to upstream.
    pub rules: Rules,
    pub downstream: Map<usize, S>,
    pub messages_downstream: Map<usize, Flow>,
    pub upstream: Map<usize, S>,
    pub messages_upstream: Map<usize, Flow>,
}

/// The value under a key, as a sequence of one or none.
pub open spec fn entry<S>(map: Map<usize, S>, key: usize) -> Seq<S> {
    if map.contains_key(key) {
        seq![map[key]]
    } else {
        seq![]
    }
}

impl<S> Tables<S> {
    /// No sockets, no rules.
    pub open spec fn initial(magic: u32) -> Tables<S> {
        Tables {
            magic,
            ids: Ids { next: 1, room: CAPACITY as int },
            rules: Rules { allow: seq![], deny: seq![] },
            downstream: Map::empty(),
            messages_downstream: Map::empty(),
            upstream: Map::empty(),
            messages_upstream: Map::empty(),
        }
    }

    /// Every forwarding state is what a forwarding state is.
    pub open spec fn wf(self) -> bool {
        &&& forall|d: usize| #[trigger]
            self.messages_downstream.contains_key(d) ==> self.messages_downstream[d].wf()
        &&& forall|u: usize| #[trigger]
            self.messages_upstream.contains_key(u) ==> self.messages_upstream[u].wf()
    }

    /// Where to read from and to write to if the socket with this event ID is ready.  None if
    /// there is no such socket, or its pair is gone.
    pub open spec fn route(self, event_id: usize) -> Option<Route> {
        if self.downstream.contains_key(event_id) {
            let pair_event_id = self.messages_downstream[event_id].pair_event_id;
            if self.messages_downstream.contains_key(event_id) && self.upstream.contains_key(
                pair_event_id,
            ) {
                Some(Route { side: Side::Downstream, event_id, pair_event_id })
            } else {
                None
            }
        } else if self.upstream.contains_key(event_id) {
            let pair_event_id = self.messages_upstream[event_id].pair_event_id;
            if self.messages_upstream.contains_key(event_id) && self.downstream.contains_key(
                pair_event_id,
            ) {
                Some(Route { side: Side::Upstream, event_id, pair_event_id })
            } else {
                None
            }
        } else {
            None
        }
    }

    /// The routes of the sockets that are ready, in their order.
    pub open spec fn routes(self, ready: Seq<usize>) -> Seq<Route>
        decreases ready.len(),
    {
        if ready.len() == 0 {
            seq![]
        } else {
            let before = self.routes(ready.drop_last());
            match self.route(ready.last()) {
                Some(route) => before.push(route),
                None => before,
            }
        }
    }

    /// Are both sockets of the route there?
    pub open spec fn has_sockets(self, route: Route) -> bool {
        match route.side {
            Side::Downstream => self.downstream.contains_key(route.event_id)
                && self.upstream.contains_key(route.pair_event_id),
            Side::Upstream => self.upstream.contains_key(route.event_id)
                && self.downstream.contains_key(route.pair_event_id),
        }
    }

    /// The socket that a route reads from, and the one that it writes to.
    pub open spec fn sockets(self, route: Route) -> (S, S) {
        match route.side {
            Side::Downstream => (
                self.downstream[route.event_id],
                self.upstream[route.pair_event_id],
            ),
            Side::Upstream => (
                self.upstream[route.event_id],
                self.downstream[route.pair_event_id],
            ),
        }
    }

    /// Is there a forwarding state for the route?
    pub open spec fn has_flow(self, route: Route) -> bool {
        match route.side {
            Side::Downstream => self.messages_downstream.contains_key(route.event_id),
            Side::Upstream => self.messages_upstream.contains_key(route.event_id),
        }
    }

    /// The forwarding state for the route.
    pub open spec fn flow(self, route: Route) -> Flow {
        match route.side {
            Side::Downstream => self.messages_downstream[route.event_id],
            Side::Upstream => self.messages_upstream[route.event_id],
        }
    }

    /// What passes on the route: the rules hold for what comes from downstream only.
    pub open spec fn rules_for(self, route: Route) -> Rules {
        match route.side {
            Side::Downstream => self.rules,
            Side::Upstream => Rules { allow: seq![], deny: seq![] },
        }
    }

    /// The forwarding state for the route is another one.
    pub open spec fn with_flow(self, route: Route, flow: Flow) -> Tables<S> {
        match route.side {
            Side::Downstream => Tables {
                messages_downstream: self.messages_downstream.insert(route.event_id, flow),
                ..self
            },
            Side::Upstream => Tables {
                messages_upstream: self.messages_upstream.insert(route.event_id, flow),
                ..self
            },
        }
    }

    /// A client's socket and a socket to bitcoind are paired.
    pub open spec fn paired(
        self,
        event_id: usize,
        socket: S,
        upstream_event_id: usize,
        upstream: S,
        now: u128,
    ) -> Tables<S> {
        Tables {
            downstream: self.downstream.insert(event_id, socket),
            messages_downstream: self.messages_downstream.insert(
                event_id,
                Flow { pair_event_id: upstream_event_id, ..Flow::fresh(now) },
            ),
            upstream: self.upstream.insert(upstream_event_id, upstream),
            messages_upstream: self.messages_upstream.insert(
                upstream_event_id,
                Flow { pair_event_id: event_id, ..Flow::fresh(now) },
            ),
            ..self
        }
    }

    /// The forwarding state of a client's socket is gone, and with it the socket and its pair.
    pub open spec fn without_downstream(self, event_id: usize) -> Tables<S> {
        if self.messages_downstream.contains_key(event_id) {
            Tables {
                downstream: self.downstream.remove(event_id),
                messages_downstream: self.messages_downstream.remove(event_id),
                upstream: self.upstream.remove(self.messages_downstream[event_id].pair_event_id),
                ..self
            }
        } else {
            self
        }
    }

    /// The forwarding state of a socket to bitcoind is gone, and with it the socket and its pair.
    pub open spec fn without_upstream(self, event_id: usize) -> Tables<S> {
        if self.messages_upstream.contains_key(event_id) {
            Tables {
                upstream: self.upstream.remove(event_id),
                messages_upstream: self.messages_upstream.remove(event_id),
                downstream: self.downstream.remove(self.messages_upstream[event_id].pair_event_id),
                ..self
            }
        } else {
            self
        }
    }

    /// The event is gone, whichever side it is on.
    pub open spec fn without(self, event_id: usize) -> Tables<S> {
        self.without_downstream(event_id).without_upstream(event_id)
    }

    /// The sockets that go with a client's forwarding state: its own, then its pair.
    pub open spec fn hangup_downstream(self, event_id: usize) -> Seq<S> {
        if self.messages_downstream.contains_key(event_id) {
            entry(self.downstream, event_id) + entry(
                self.upstream,
                self.messages_downstream[event_id].pair_event_id,
            )
        } else {
            seq![]
        }
    }

    /// The sockets that go with a forwarding state on bitcoind's side: its own, then its pair.
    pub open spec fn hangup_upstream(self, event_id: usize) -> Seq<S> {
        if self.messages_upstream.contains_key(event_id) {
            entry(self.upstream, event_id) + entry(
                self.downstream,
                self.messages_upstream[event_id].pair_event_id,
            )
        } else {
            seq![]
        }
    }

    /// The sockets that go with an event.
    pub open spec fn hangup(self, event_id: usize) -> Seq<S> {
        self.hangup_downstream(event_id) + self.without_downstream(event_id).hangup_upstream(
            event_id,
        )
    }

    /// Some events are gone, one after the other.
    pub open spec fn without_all(self, event_ids: Seq<usize>) -> Tables<S>
        decreases event_ids.len(),
    {
        if event_ids.len() == 0 {
            self
        } else {
            self.without_all(event_ids.drop_last()).without(event_ids.last())
        }
    }

    /// Some events are gone, all at once: their forwarding states, their sockets, and the sockets
    /// paired with these.
    pub open spec fn without_set(self, gone: Set<usize>) -> Tables<S> {
        let (md, mu) = (self.messages_downstream, self.messages_upstream);
        Tables {
            downstream: self.downstream.remove_keys(
                Set::new(
                    |d: usize|
                        gone.contains(d) && md.contains_key(d) || exists|u: usize| #[trigger]
                            gone.contains(u) && mu.contains_key(u) && mu[u].pair_event_id == d,
                ),
            ),
            messages_downstream: md.remove_keys(gone),
            upstream: self.upstream.remove_keys(
                Set::new(
                    |u: usize|
                        gone.contains(u) && mu.contains_key(u) || exists|d: usize| #[trigger]
                            gone.contains(d) && md.contains_key(d) && md[d].pair_event_id == u,
                ),
            ),
            messages_upstream: mu.remove_keys(gone),
            ..self
        }
    }

    /// The events whose forwarding state has been idle for too long.
    pub open spec fn idle_set(self, timeout: u128, now: u128) -> Set<usize> {
        Set::new(
            |id: usize|
                self.messages_downstream.contains_key(id) && self.messages_downstream[id].idle(
                    timeout,
                    now,
                ) || self.messages_upstream.contains_key(id) && self.messages_upstream[id].idle(
                    timeout,
                    now,
                ),
        )
    }

    /// Live sockets come in pairs, and each of a pair is the other's pair.  A forwarding state
    /// that is left over from a pair that is gone leads to no live socket.  No event ID is used
    /// that has not been given out, and none on both sides.
    pub open spec fn linked(self) -> bool {
        let (md, mu) = (self.messages_downstream, self.messages_upstream);
        &&& forall|d: usize| #[trigger]
            self.downstream.contains_key(d) ==> {
                &&& md.contains_key(d)
                &&& self.upstream.contains_key(md[d].pair_event_id)
                &&& mu.contains_key(md[d].pair_event_id)
                &&& mu[md[d].pair_event_id].pair_event_id == d
            }
        &&& forall|u: usize| #[trigger]
            self.upstream.contains_key(u) ==> {
                &&& mu.contains_key(u)
                &&& self.downstream.contains_key(mu[u].pair_event_id)
                &&& md.contains_key(mu[u].pair_event_id)
                &&& md[mu[u].pair_event_id].pair_event_id == u
            }
        &&& forall|d: usize| #[trigger]
            md.contains_key(d) ==> {
                &&& 0 < d < self.ids.next
                &&& 0 < md[d].pair_event_id < self.ids.next
                &&& !mu.contains_key(d)
                &&& self.upstream.contains_key(md[d].pair_event_id) ==> self.downstream.contains_key(
                    d,
                )
            }
        &&& forall|u: usize| #[trigger]
            mu.contains_key(u) ==> {
                &&& 0 < u < self.ids.next
                &&& 0 < mu[u].pair_event_id < self.ids.next
                &&& self.downstream.contains_key(mu[u].pair_event_id) ==> self.upstream.contains_key(
                    u,
                )
            }
    }

    /// The event ID has been given out and is not in use, nor left over anywhere.
    pub open spec fn unused(self, event_id: usize) -> bool {
        let (md, mu) = (self.messages_downstream, self.messages_upstream);
        &&& 0 < event_id < self.ids.next
        &&& !md.contains_key(event_id)
        &&& !mu.contains_key(event_id)
        &&& forall|d: usize| #[trigger] md.contains_key(d) ==> md[d].pair_event_id != event_id
        &&& forall|u: usize| #[trigger] mu.contains_key(u) ==> mu[u].pair_event_id != event_id
    }

    /// The sockets that go with some events, in their order.
    pub open spec fn hangup_all(self, event_ids: Seq<usize>) -> Seq<S>
        decreases event_ids.len(),
    {
        if event_ids.len() == 0 {
            seq![]
        } else {
            self.hangup_all(event_ids.drop_last()) + self.without_all(
                event_ids.drop_last(),
            ).hangup(event_ids.last())
        }
    }
}

/// The event IDs of the forwarding states that have been idle for too long, each once, in any
/// order.
pub open spec fn lists_idle(
    flows: Map<usize, Flow>,
    timeout: u128,
    now: u128,
    event_ids: Seq<usize>,
) -> bool {
    &&& event_ids.no_duplicates()
    &&& forall|id: usize| #[trigger]
        event_ids.contains(id) <==> flows.contains_key(id) && flows[id].idle(timeout, now)
}

/// One more event gone.
proof fn lemma_without_one_more<S>(tables: Tables<S>, gone: Set<usize>, event_id: usize)
    ensures
        tables.without_set(gone).without(event_id) == tables.without_set(gone.insert(event_id)),
{
    let before = tables.without_set(gone);
    let after = tables.without_set(gone.insert(event_id));
    let (md, mu) = (tables.messages_downstream, tables.messages_upstream);
    if gone.contains(event_id) {
        assert(gone.insert(event_id) =~= gone);
        assert(before.without(event_id) =~= before);
    } else {
        let next = before.without(event_id);
        assert forall|d: usize| #[trigger] after.downstream.contains_key(d)
            == next.downstream.contains_key(d) by {
            if mu.contains_key(event_id) && mu[event_id].pair_event_id == d {
                assert(gone.insert(event_id).contains(event_id));
            }
            if exists|u: usize| #[trigger]
                gone.contains(u) && mu.contains_key(u) && mu[u].pair_event_id == d {
                let u = choose|u: usize| #[trigger]
                    gone.contains(u) && mu.contains_key(u) && mu[u].pair_event_id == d;
                assert(gone.insert(event_id).contains(u));
            }
            if exists|u: usize| #[trigger]
                gone.insert(event_id).contains(u) && mu.contains_key(u) && mu[u].pair_event_id
                    == d {
                let u = choose|u: usize| #[trigger]
                    gone.insert(event_id).contains(u) && mu.contains_key(u) && mu[u].pair_event_id
                        == d;
                assert(u == event_id || gone.contains(u));
            }
        }
        assert forall|u: usize| #[trigger] after.upstream.contains_key(u)
            == next.upstream.contains_key(u) by {
            if md.contains_key(event_id) && md[event_id].pair_event_id == u {
                assert(gone.insert(event_id).contains(event_id));
            }
            if exists|d: usize| #[trigger]
                gone.contains(d) && md.contains_key(d) && md[d].pair_event_id == u {
                let d = choose|d: usize| #[trigger]
                    gone.contains(d) && md.contains_key(d) && md[d].pair_event_id == u;
                assert(gone.insert(event_id).contains(d));
            }
            if exists|d: usize| #[trigger]
                gone.insert(event_id).contains(d) && md.contains_key(d) && md[d].pair_event_id
                    == u {
                let d = choose|d: usize| #[trigger]
                    gone.insert(event_id).contains(d) && md.contains_key(d) && md[d].pair_event_id
                        == u;
                assert(d == event_id || gone.contains(d));
            }
        }
        assert(next.downstream =~= after.downstream);
        assert(next.upstream =~= after.upstream);
        assert(next =~= after);
    }
}

/// To drop events one after the other is to drop them all at once.
pub proof fn law_events_go_all_at_once<S>(tables: Tables<S>, event_ids: Seq<usize>)
    ensures
        tables.without_all(event_ids) == tables.without_set(event_ids.to_set()),
    decreases event_ids.len(),
{
    if event_ids.len() == 0 {
        assert(tables.without_all(event_ids) =~= tables.without_set(event_ids.to_set()));
    } else {
        let before = event_ids.drop_last();
        law_events_go_all_at_once(tables, before);
        lemma_without_one_more(tables, before.to_set(), event_ids.last());
        before.lemma_push_to_set_commute(event_ids.last());
        assert(before.push(event_ids.last()) =~= event_ids);
    }
}

/// The order in which events are dropped does not matter, nor that one is dropped twice.
pub proof fn law_order_of_going_does_not_matter<S>(tables: Tables<S>, a: Seq<usize>, b: Seq<usize>)
    requires
        a.to_set() == b.to_set(),
    ensures
        tables.without_all(a) == tables.without_all(b),
{
    law_events_go_all_at_once(tables, a);
    law_events_go_all_at_once(tables, b);
}

/// A firewall starts out linked.
pub proof fn law_initially_linked<S>(magic: u32)
    ensures
        Tables::<S>::initial(magic).linked(),
{
}

/// A firewall stays linked when event IDs are given out.
pub proof fn law_giving_out_ids_keeps_links<S>(tables: Tables<S>, ids: Ids)
    requires
        tables.linked(),
        tables.ids.next <= ids.next,
    ensures
        (Tables { ids, ..tables }).linked(),
{
}

/// Event IDs that are given out, to accepted clients or otherwise, are not in use.
pub proof fn law_new_ids_are_unused<S>(tables: Tables<S>, ids: Ids, event_id: usize)
    requires
        tables.linked(),
        0 < tables.ids.next <= event_id < ids.next,
    ensures
        (Tables { ids, ..tables }).unused(event_id),
{
}

/// A firewall stays linked when a client is registered under event IDs that are not in use.
pub proof fn law_pairing_keeps_links<S>(
    tables: Tables<S>,
    event_id: usize,
    socket: S,
    upstream_event_id: usize,
    upstream: S,
    now: u128,
)
    requires
        tables.linked(),
        tables.unused(event_id),
        tables.unused(upstream_event_id),
        event_id != upstream_event_id,
    ensures
        tables.paired(event_id, socket, upstream_event_id, upstream, now).linked(),
{
}

/// A firewall stays linked when an event is dropped.
pub proof fn law_dropping_keeps_links<S>(tables: Tables<S>, event_id: usize)
    requires
        tables.linked(),
    ensures
        tables.without(event_id).linked(),
{
}

/// To drop either end of a live pair closes both its sockets, and no others.
pub proof fn law_pairs_close_together<S>(tables: Tables<S>, d: usize)
    requires
        tables.linked(),
        tables.downstream.contains_key(d),
    ensures
        ({
            let u = tables.messages_downstream[d].pair_event_id;
            &&& tables.hangup(d) == seq![tables.downstream[d], tables.upstream[u]]
            &&& tables.hangup(u) == seq![tables.upstream[u], tables.downstream[d]]
            &&& tables.without(d).downstream == tables.downstream.remove(d)
            &&& tables.without(d).upstream == tables.upstream.remove(u)
            &&& tables.without(u).downstream == tables.downstream.remove(d)
            &&& tables.without(u).upstream == tables.upstream.remove(u)
        }),
{
    let u = tables.messages_downstream[d].pair_event_id;
    assert(tables.upstream.contains_key(u));
    assert(tables.hangup(d) =~= seq![tables.downstream[d], tables.upstream[u]]);
    assert(tables.hangup(u) =~= seq![tables.upstream[u], tables.downstream[d]]);
}

/// Once the idle ones are dropped, none is idle.
pub proof fn law_no_idle_ones_stay<S>(tables: Tables<S>, timeout: u128, now: u128)
    ensures
        ({
            let next = tables.without_set(tables.idle_set(timeout, now));
            next.idle_set(timeout, now) == Set::<usize>::empty()
        }),
{
    let next = tables.without_set(tables.idle_set(timeout, now));
    assert(next.idle_set(timeout, now) =~= Set::<usize>::empty());
}

/// When some events are dropped, a live pair stays if neither of its ends is among them; if one is,
/// both its sockets go.
pub proof fn law_other_pairs_stay<S>(tables: Tables<S>, gone: Set<usize>, d: usize)
    requires
        tables.linked(),
        tables.downstream.contains_key(d),
    ensures
        ({
            let u = tables.messages_downstream[d].pair_event_id;
            let next = tables.without_set(gone);
            &&& next.downstream.contains_key(d) == (!gone.contains(d) && !gone.contains(u))
            &&& next.upstream.contains_key(u) == (!gone.contains(d) && !gone.contains(u))
        }),
{
    let (md, mu) = (tables.messages_downstream, tables.messages_upstream);
    let u = md[d].pair_event_id;
    assert(tables.upstream.contains_key(u));
    assert(mu.contains_key(u) && mu[u].pair_event_id == d);
    assert(md.contains_key(d));
    assert forall|other: usize| #[trigger]
        gone.contains(other) && mu.contains_key(other) && mu[other].pair_event_id == d implies other
        == u by {
        assert(tables.upstream.contains_key(other));
    }
    assert forall|other: usize| #[trigger]
        gone.contains(other) && md.contains_key(other) && md[other].pair_event_id == u implies other
        == d by {
        assert(tables.downstream.contains_key(other));
    }
}

/// A live pair stays when the idle ones are dropped, if both its directions have moved something
/// lately; if not, both its sockets go.
pub proof fn law_busy_pairs_stay<S>(tables: Tables<S>, timeout: u128, now: u128, d: usize)
    requires
        tables.linked(),
        tables.downstream.contains_key(d),
    ensures
        ({
            let u = tables.messages_downstream[d].pair_event_id;
            let busy = !tables.messages_downstream[d].idle(timeout, now)
                && !tables.messages_upstream[u].idle(timeout, now);
            let next = tables.without_set(tables.idle_set(timeout, now));
            &&& next.downstream.contains_key(d) == busy
            &&& next.upstream.contains_key(u) == busy
        }),
{
    let (md, mu) = (tables.messages_downstream, tables.messages_upstream);
    let u = md[d].pair_event_id;
    assert(md.contains_key(d) && mu.contains_key(u));
    assert(!mu.contains_key(d) && !md.contains_key(u));
    law_other_pairs_stay(tables, tables.idle_set(timeout, now), d);
}

/// Every live socket has somewhere to send what it receives: a client's to bitcoind, and back.
pub proof fn law_live_sockets_have_routes<S>(tables: Tables<S>, d: usize)
    requires
        tables.linked(),
        tables.downstream.contains_key(d),
    ensures
        ({
            let u = tables.messages_downstream[d].pair_event_id;
            &&& tables.route(d) == Some(
                Route { side: Side::Downstream, event_id: d, pair_event_id: u },
            )
            &&& tables.route(u) == Some(
                Route { side: Side::Upstream, event_id: u, pair_event_id: d },
            )
        }),
{
    let u = tables.messages_downstream[d].pair_event_id;
    assert(tables.upstream.contains_key(u));
    assert(!tables.downstream.contains_key(u)) by {
        if tables.downstream.contains_key(u) {
            assert(tables.messages_downstream.contains_key(u));
        }
    }
}

/// Every route has both its sockets.
pub proof fn law_routes_have_sockets<S>(tables: Tables<S>, event_id: usize)
    ensures
        tables.route(event_id) matches Some(route) ==> tables.has_sockets(route)
            && tables.has_flow(route) && route.event_id == event_id,
{
}

/// I/O on a route leaves the sockets, the links and all routes as they are.
pub proof fn law_io_keeps_routes<S>(tables: Tables<S>, route: Route, event: Event, event_id: usize)
    requires
        tables.has_flow(route),
    ensures
        ({
            let flow = tables.flow(route).io_turn(
                tables.magic,
                tables.rules_for(route),
                event,
            ).0;
            &&& tables.with_flow(route, flow).route(event_id) == tables.route(event_id)
            &&& tables.linked() ==> tables.with_flow(route, flow).linked()
        }),
{
    let flow = tables.flow(route).io_turn(tables.magic, tables.rules_for(route), event).0;
    assert(flow.pair_event_id == tables.flow(route).pair_event_id);
}

/// A new pair has read nothing and has nothing to send, in either direction.
pub proof fn law_pairs_start_fresh<S>(
    tables: Tables<S>,
    event_id: usize,
    socket: S,
    upstream_event_id: usize,
    upstream: S,
    now: u128,
)
    ensures
        ({
            let next = tables.paired(event_id, socket, upstream_event_id, upstream, now);
            &&& next.messages_downstream[event_id].is_fresh()
            &&& next.messages_upstream[upstream_event_id].is_fresh()
        }),
{
}

/// I/O on one route leaves the forwarding states of all other routes as they are.
pub proof fn law_routes_do_not_mix<S>(tables: Tables<S>, route: Route, other: Route, flow: Flow)
    requires
        route.side != other.side || route.event_id != other.event_id,
    ensures
        tables.with_flow(route, flow).has_flow(other) == tables.has_flow(other),
        tables.has_flow(other) ==> tables.with_flow(route, flow).flow(other) == tables.flow(other),
        tables.with_flow(route, flow).flow(route) == flow,
{
}

/// What comes from bitcoind is never dropped.
pub proof fn law_nothing_from_upstream_is_dropped<S>(
    tables: Tables<S>,
    route: Route,
    command: Seq<u8>,
)
    requires
        route.side == Side::Upstream,
    ensures
        !tables.rules_for(route).drops(command),
{
}

/// A new firewall has no sockets and no rules, expects the given magic, has given out no event ID
/// but the server's own, and has room for 1000 clients.
pub proof fn law_new_firewalls_are_empty<S>(magic: u32)
    ensures
        ({
            let new = Tables::<S>::initial(magic);
            &&& new.magic == magic
            &&& new.ids.next == 1
            &&& new.ids.room == 1000
            &&& new.rules.allow.len() == 0
            &&& new.rules.deny.len() == 0
            &&& forall|id: usize|
                {
                    &&& !(#[trigger] new.downstream.contains_key(id))
                    &&& !new.upstream.contains_key(id)
                    &&& !new.messages_downstream.contains_key(id)
                    &&& !new.messages_upstream.contains_key(id)
                }
        }),
{
}

/// A firewall is in order if all its forwarding states are, on both sides.
pub proof fn law_what_firewalls_there_are<S>(tables: Tables<S>)
    ensures
        tables.wf() <==> (forall|route: Route| #[trigger]
            tables.has_flow(route) ==> tables.flow(route).wf()),
{
    if forall|route: Route| #[trigger] tables.has_flow(route) ==> tables.flow(route).wf() {
        assert forall|d: usize| #[trigger] tables.messages_downstream.contains_key(d) implies
            tables.messages_downstream[d].wf() by {
            let route = Route { side: Side::Downstream, event_id: d, pair_event_id: 0 };
            assert(tables.has_flow(route));
        }
        assert forall|u: usize| #[trigger] tables.messages_upstream.contains_key(u) implies
            tables.messages_upstream[u].wf() by {
            let route = Route { side: Side::Upstream, event_id: u, pair_event_id: 0 };
            assert(tables.has_flow(route));
        }
    }
}

/// What a route's forwarding state and sockets are, on either side.
pub proof fn law_routes_by_side<S>(tables: Tables<S>, event_id: usize, pair_event_id: usize)
    ensures
        ({
            let there = Route { side: Side::Downstream, event_id, pair_event_id };
            let back = Route { side: Side::Upstream, event_id, pair_event_id };
            let (md, mu) = (tables.messages_downstream, tables.messages_upstream);
            &&& tables.has_flow(there) <==> md.contains_key(event_id)
            &&& tables.has_flow(back) <==> mu.contains_key(event_id)
            &&& tables.flow(there) == md[event_id]
            &&& tables.flow(back) == mu[event_id]
            &&& tables.has_sockets(there) <==> tables.downstream.contains_key(event_id)
                && tables.upstream.contains_key(pair_event_id)
            &&& tables.has_sockets(back) <==> tables.upstream.contains_key(event_id)
                && tables.downstream.contains_key(pair_event_id)
            &&& tables.sockets(there) == (
                tables.downstream[event_id],
                tables.upstream[pair_event_id],
            )
            &&& tables.sockets(back) == (
                tables.upstream[event_id],
                tables.downstream[pair_event_id],
            )
        }),
{
}

/// The firewall's own rules hold for what every client sends, whatever its event ID, and no rules
/// for what bitcoind sends.
pub proof fn law_rules_hold_for_all_clients<S>(tables: Tables<S>, route: Route)
    ensures
        route.side == Side::Downstream ==> tables.rules_for(route) == tables.rules,
        route.side == Side::Upstream ==> tables.rules_for(route).allow.len() == 0
            && tables.rules_for(route).deny.len() == 0,
{
}

/// When the forwarding state of a route changes, nothing else does.
pub proof fn law_only_the_route_changes<S>(tables: Tables<S>, route: Route, flow: Flow)
    ensures
        ({
            let next = tables.with_flow(route, flow);
            let (md, mu) = (tables.messages_downstream, tables.messages_upstream);
            &&& next.magic == tables.magic
            &&& next.ids == tables.ids
            &&& next.rules == tables.rules
            &&& next.downstream == tables.downstream
            &&& next.upstream == tables.upstream
            &&& route.side == Side::Downstream ==> next.messages_upstream == mu
                && next.messages_downstream.dom() == md.dom().insert(route.event_id)
                && next.messages_downstream[route.event_id] == flow && forall|id: usize|
                id != route.event_id && md.contains_key(id)
                    ==> #[trigger] next.messages_downstream[id] == md[id]
            &&& route.side == Side::Upstream ==> next.messages_downstream == md
                && next.messages_upstream.dom() == mu.dom().insert(route.event_id)
                && next.messages_upstream[route.event_id] == flow && forall|id: usize|
                id != route.event_id && mu.contains_key(id)
                    ==> #[trigger] next.messages_upstream[id] == mu[id]
        }),
{
}

/// A socket that is ready has a route exactly if it, its forwarding state and the socket that this
/// leads to are all there; the route then starts from it and leads there.  An event ID of a client
/// is looked for before one of bitcoind's side.
pub proof fn law_where_routes_lead<S>(tables: Tables<S>, event_id: usize)
    ensures
        ({
            let (md, mu) = (tables.messages_downstream, tables.messages_upstream);
            let (d, u) = (md[event_id].pair_event_id, mu[event_id].pair_event_id);
            let client = tables.downstream.contains_key(event_id);
            let there = client && md.contains_key(event_id) && tables.upstream.contains_key(d);
            let back = !client && tables.upstream.contains_key(event_id) && mu.contains_key(
                event_id,
            ) && tables.downstream.contains_key(u);
            &&& tables.route(event_id) is Some <==> there || back
            &&& tables.route(event_id) matches Some(route) ==> {
                &&& route.event_id == event_id
                &&& route.side == Side::Downstream <==> there
                &&& route.pair_event_id == tables.flow(route).pair_event_id
                &&& tables.has_flow(route)
                &&& tables.has_sockets(route)
            }
        }),
{
}

/// Every ready socket that has a route is served, once for each time that it is ready, in the order
/// in which the sockets became ready, and no others are.
pub proof fn law_all_ready_sockets_are_served<S>(
    tables: Tables<S>,
    a: Seq<usize>,
    b: Seq<usize>,
    event_id: usize,
)
    ensures
        tables.routes(a + b) == tables.routes(a) + tables.routes(b),
        tables.route(event_id) matches Some(route) ==> tables.routes(seq![event_id]) == seq![route],
        tables.route(event_id) is None ==> tables.routes(seq![event_id]).len() == 0,
        tables.routes(Seq::<usize>::empty()).len() == 0,
        a.contains(event_id) ==> (tables.route(event_id) matches Some(route) ==> tables.routes(
            a,
        ).contains(route)),
    decreases b.len(), a.len(),
{
    let one = seq![event_id];
    assert(one.drop_last() =~= seq![]);
    reveal_with_fuel(Tables::routes, 2);
    if let Some(route) = tables.route(event_id) {
        assert(tables.routes(one) =~= seq![route]);
    }
    if b.len() == 0 {
        assert(a + b =~= a);
        assert(tables.routes(a + b) =~= tables.routes(a) + tables.routes(b));
        if a.len() > 0 && a.contains(event_id) && tables.route(event_id) is Some {
            let before = a.drop_last();
            law_all_ready_sockets_are_served(tables, before, b, event_id);
            let at = choose|at: int| 0 <= at < a.len() && a[at] == event_id;
            let route = tables.route(event_id)->0;
            if at < a.len() - 1 {
                assert(before[at] == event_id);
                let i = choose|i: int|
                    0 <= i < tables.routes(before).len() && tables.routes(before)[i] == route;
                assert(tables.routes(a)[i] == route);
            } else {
                assert(tables.routes(a).last() == route);
            }
        }
    } else {
        law_all_ready_sockets_are_served(tables, a, b.drop_last(), event_id);
        assert((a + b).drop_last() =~= a + b.drop_last());
        assert((a + b).last() == b.last());
        assert(tables.routes(a + b) =~= tables.routes(a) + tables.routes(b));
    }
}

/// A pair is added as it is: each socket under its event ID, each with a state that leads to the
/// other and has done nothing since the given time.  All else stays.
pub proof fn law_pairs_are_added_as_they_are<S>(
    tables: Tables<S>,
    event_id: usize,
    socket: S,
    upstream_event_id: usize,
    upstream: S,
    now: u128,
)
    ensures
        ({
            let next = tables.paired(event_id, socket, upstream_event_id, upstream, now);
            let (forward, backward) = (
                next.messages_downstream[event_id],
                next.messages_upstream[upstream_event_id],
            );
            &&& next.magic == tables.magic
            &&& next.ids == tables.ids
            &&& next.rules == tables.rules
            &&& next.downstream == tables.downstream.insert(event_id, socket)
            &&& next.upstream == tables.upstream.insert(upstream_event_id, upstream)
            &&& next.messages_downstream == tables.messages_downstream.insert(event_id, forward)
            &&& next.messages_upstream == tables.messages_upstream.insert(
                upstream_event_id,
                backward,
            )
            &&& forward.is_fresh()
            &&& backward.is_fresh()
            &&& forward.pair_event_id == upstream_event_id
            &&& backward.pair_event_id == event_id
            &&& forward.last_io_at == now
            &&& backward.last_io_at == now
        }),
{
}

/// What goes with an event, whichever side it is on: its own forwarding state, its own socket, and
/// the socket that this state leads to.  Nothing else goes, and nothing else changes.
pub proof fn law_what_goes_with_an_event<S>(tables: Tables<S>, event_id: usize)
    ensures
        ({
            let next = tables.without(event_id);
            let (md, mu) = (tables.messages_downstream, tables.messages_upstream);
            let (client, server) = (md.contains_key(event_id), mu.contains_key(event_id));
            &&& next.magic == tables.magic
            &&& next.ids == tables.ids
            &&& next.rules == tables.rules
            &&& next.messages_downstream == md.remove(event_id)
            &&& next.messages_upstream == mu.remove(event_id)
            &&& forall|id: usize| #[trigger]
                next.downstream.contains_key(id) <==> {
                    &&& tables.downstream.contains_key(id)
                    &&& !(client && id == event_id)
                    &&& !(server && id == mu[event_id].pair_event_id)
                }
            &&& forall|id: usize| #[trigger]
                next.upstream.contains_key(id) <==> {
                    &&& tables.upstream.contains_key(id)
                    &&& !(server && id == event_id)
                    &&& !(client && id == md[event_id].pair_event_id)
                }
            &&& forall|id: usize|
                next.downstream.contains_key(id) ==> #[trigger] next.downstream[id]
                    == tables.downstream[id]
            &&& forall|id: usize|
                next.upstream.contains_key(id) ==> #[trigger] next.upstream[id]
                    == tables.upstream[id]
        }),
{
    assert(tables.without(event_id).messages_downstream =~= tables.messages_downstream.remove(
        event_id,
    ));
    assert(tables.without(event_id).messages_upstream =~= tables.messages_upstream.remove(event_id));
}

/// Which sockets are closed with an event that is on one side only, which is how event IDs are
/// given out: its own, then the one that it leads to, as far as they are there.
pub proof fn law_which_sockets_are_closed<S>(tables: Tables<S>, event_id: usize)
    ensures
        ({
            let (md, mu) = (tables.messages_downstream, tables.messages_upstream);
            let closed = tables.hangup(event_id);
            let of_client = md.contains_key(event_id) && !mu.contains_key(event_id);
            let of_server = mu.contains_key(event_id) && !md.contains_key(event_id);
            let (d, u) = (md[event_id].pair_event_id, mu[event_id].pair_event_id);
            &&& !md.contains_key(event_id) && !mu.contains_key(event_id) ==> closed.len() == 0
            &&& of_client ==> {
                let own = tables.downstream.contains_key(event_id);
                let other = tables.upstream.contains_key(d);
                &&& own && other ==> closed == seq![tables.downstream[event_id], tables.upstream[d]]
                &&& own && !other ==> closed == seq![tables.downstream[event_id]]
                &&& !own && other ==> closed == seq![tables.upstream[d]]
                &&& !own && !other ==> closed.len() == 0
            }
            &&& of_server ==> {
                let own = tables.upstream.contains_key(event_id);
                let other = tables.downstream.contains_key(u);
                &&& own && other ==> closed == seq![tables.upstream[event_id], tables.downstream[u]]
                &&& own && !other ==> closed == seq![tables.upstream[event_id]]
                &&& !own && other ==> closed == seq![tables.downstream[u]]
                &&& !own && !other ==> closed.len() == 0
            }
        }),
{
    let (md, mu) = (tables.messages_downstream, tables.messages_upstream);
    let (d, u) = (md[event_id].pair_event_id, mu[event_id].pair_event_id);
    assert(tables.hangup_downstream(event_id) + Seq::<S>::empty() =~= tables.hangup_downstream(
        event_id,
    ));
    assert(Seq::<S>::empty() + tables.hangup_upstream(event_id) =~= tables.hangup_upstream(
        event_id,
    ));
    if md.contains_key(event_id) {
        assert(tables.hangup_downstream(event_id) =~= entry(tables.downstream, event_id) + entry(
            tables.upstream,
            d,
        ));
    }
    if mu.contains_key(event_id) {
        assert(tables.hangup_upstream(event_id) =~= entry(tables.upstream, event_id) + entry(
            tables.downstream,
            u,
        ));
    }
}

/// How many sockets are gone: of the event itself and of the two that its states lead to, on the
/// sides where they were.
pub open spec fn number_gone<S>(before: Tables<S>, after: Tables<S>, event_id: usize) -> int {
    let d = before.messages_downstream[event_id].pair_event_id;
    let u = before.messages_upstream[event_id].pair_event_id;
    let gone_down = |id: usize|
        before.downstream.contains_key(id) && !after.downstream.contains_key(id);
    let gone_up = |id: usize| before.upstream.contains_key(id) && !after.upstream.contains_key(id);
    (if gone_down(event_id) {
        1int
    } else {
        0
    }) + (if u != event_id && gone_down(u) {
        1int
    } else {
        0
    }) + (if gone_up(event_id) {
        1int
    } else {
        0
    }) + (if d != event_id && gone_up(d) {
        1int
    } else {
        0
    })
}

/// An event ID that is on both sides closes the sockets of the client's state first, then what is
/// left of those of the other; every socket that goes is closed, and nothing else is.
pub proof fn law_sockets_that_go_are_closed<S>(tables: Tables<S>, event_id: usize, id: usize)
    ensures
        ({
            let next = tables.without(event_id);
            let closed = tables.hangup(event_id);
            &&& tables.downstream.contains_key(id) && !next.downstream.contains_key(id)
                ==> closed.contains(tables.downstream[id])
            &&& tables.upstream.contains_key(id) && !next.upstream.contains_key(id)
                ==> closed.contains(tables.upstream[id])
            &&& forall|socket: S| #[trigger]
                closed.contains(socket) ==> {
                    ||| exists|k: usize| #[trigger]
                        tables.downstream.contains_key(k) && !next.downstream.contains_key(k)
                            && tables.downstream[k] == socket
                    ||| exists|k: usize| #[trigger]
                        tables.upstream.contains_key(k) && !next.upstream.contains_key(k)
                            && tables.upstream[k] == socket
                }
            &&& tables.hangup_downstream(event_id).is_prefix_of(closed)
            &&& closed.len() == number_gone(tables, next, event_id)
        }),
{
    let (md, mu) = (tables.messages_downstream, tables.messages_upstream);
    let (d, u) = (md[event_id].pair_event_id, mu[event_id].pair_event_id);
    let middle = tables.without_downstream(event_id);
    let closed = tables.hangup(event_id);
    let first = tables.hangup_downstream(event_id);
    let second = middle.hangup_upstream(event_id);
    let parts = (
        entry(tables.downstream, event_id),
        entry(tables.upstream, d),
        entry(middle.upstream, event_id),
        entry(middle.downstream, u),
    );
    assert(middle.messages_upstream == mu);
    if md.contains_key(event_id) {
        assert(first == parts.0 + parts.1);
    }
    if mu.contains_key(event_id) {
        assert(second == parts.2 + parts.3);
    }
    if tables.downstream.contains_key(id) && !tables.without(event_id).downstream.contains_key(id) {
        if md.contains_key(event_id) && id == event_id {
            assert(first[0] == tables.downstream[id]);
            assert(closed[0] == tables.downstream[id]);
        } else {
            assert(parts.3 == seq![tables.downstream[id]]);
            assert(closed.last() == tables.downstream[id]);
        }
    }
    if tables.upstream.contains_key(id) && !tables.without(event_id).upstream.contains_key(id) {
        if md.contains_key(event_id) && id == d {
            assert(first.last() == tables.upstream[id]);
            assert(closed[first.len() - 1] == tables.upstream[id]);
        } else {
            assert(second[0] == tables.upstream[id]);
            assert(closed[first.len() as int] == tables.upstream[id]);
        }
    }
    assert forall|socket: S| #[trigger] closed.contains(socket) implies {
        ||| exists|k: usize| #[trigger]
            tables.downstream.contains_key(k) && !tables.without(event_id).downstream.contains_key(
                k,
            ) && tables.downstream[k] == socket
        ||| exists|k: usize| #[trigger]
            tables.upstream.contains_key(k) && !tables.without(event_id).upstream.contains_key(k)
                && tables.upstream[k] == socket
    } by {
        let i = choose|i: int| 0 <= i < closed.len() && closed[i] == socket;
        if i < first.len() {
            assert(first[i] == socket);
            if i < parts.0.len() {
                assert(tables.downstream.contains_key(event_id));
            } else {
                assert(tables.upstream.contains_key(d));
            }
        } else {
            assert(second[i - first.len()] == socket);
            if i - first.len() < parts.2.len() {
                assert(tables.upstream.contains_key(event_id));
            } else {
                assert(tables.downstream.contains_key(u));
            }
        }
    }
}

/// Events that go one after the other: first some, then, from what these leave, the others.
pub proof fn law_events_go_one_after_the_other<S>(
    tables: Tables<S>,
    a: Seq<usize>,
    b: Seq<usize>,
    event_id: usize,
)
    ensures
        tables.without_all(a + b) == tables.without_all(a).without_all(b),
        tables.hangup_all(a + b) == tables.hangup_all(a) + tables.without_all(a).hangup_all(b),
        tables.without_all(seq![event_id]) == tables.without(event_id),
        tables.hangup_all(seq![event_id]) == tables.hangup(event_id),
        tables.without_all(seq![]) == tables,
        tables.hangup_all(seq![]).len() == 0,
    decreases b.len(),
{
    let one = seq![event_id];
    assert(one.drop_last() =~= seq![]);
    reveal_with_fuel(Tables::without_all, 2);
    reveal_with_fuel(Tables::hangup_all, 2);
    assert(tables.hangup_all(one) =~= tables.hangup(event_id));
    if b.len() == 0 {
        assert(a + b =~= a);
        assert(tables.hangup_all(a + b) =~= tables.hangup_all(a) + tables.without_all(
            a,
        ).hangup_all(b));
    } else {
        law_events_go_one_after_the_other(tables, a, b.drop_last(), event_id);
        assert((a + b).drop_last() =~= a + b.drop_last());
        assert((a + b).last() == b.last());
        assert(tables.hangup_all(a + b) =~= tables.hangup_all(a) + tables.without_all(
            a,
        ).hangup_all(b));
    }
}

/// An event is idle exactly if a forwarding state under its ID, on either side, has moved nothing
/// for longer than the timeout; those of one side are listed all, and each once.
pub proof fn law_which_events_are_idle<S>(
    tables: Tables<S>,
    flows: Map<usize, Flow>,
    timeout: u128,
    now: u128,
    event_ids: Seq<usize>,
    id: usize,
)
    ensures
        ({
            let (md, mu) = (tables.messages_downstream, tables.messages_upstream);
            tables.idle_set(timeout, now).contains(id) <==> {
                ||| md.contains_key(id) && now - md[id].last_io_at > timeout
                ||| mu.contains_key(id) && now - mu[id].last_io_at > timeout
            }
        }),
        lists_idle(flows, timeout, now, event_ids) ==> {
            &&& event_ids.contains(id) <==> flows.contains_key(id) && now - flows[id].last_io_at
                > timeout
            &&& forall|i: int, j: int|
                0 <= i < j < event_ids.len() ==> event_ids[i] != event_ids[j]
        },
{
}

} // verus!
