//! One pass over the sockets that are ready: I/O on each in turn, then the broken ones go.

use crate::io::{Event, IoAction, IoReply};
use crate::network::NetworkPollState;
use crate::proxy::BitcoinProxy;
use crate::table::{Route, Tables};
use vstd::prelude::*;

verus! {

/// How far a pass has come.
pub struct ReadyPass {
    /// The routes to serve.
    routes: Vec<Route>,
    /// How many of them are done with.
    at: usize,
    /// The events whose connection broke.
    broken: Vec<usize>,
}

/// How far a pass has come, as sequences.
#[verifier::ext_equal]
pub struct Pass {
    pub routes: Seq<Route>,
    pub at: int,
    pub broken: Seq<usize>,
}

impl View for ReadyPass {
    type V = Pass;

    closed spec fn view(&self) -> Pass {
        Pass { routes: self.routes@, at: self.at as int, broken: self.broken@ }
    }
}

impl Pass {
    /// Every route is done with.
    pub open spec fn over(self) -> bool {
        self.at >= self.routes.len()
    }

    /// The route that is being served.
    pub open spec fn current(self) -> Route {
        self.routes[self.at]
    }

    /// The route that is being served is done with; if its connection is not alive, it is broken.
    pub open spec fn ended(self, alive: bool) -> Pass {
        Pass {
            at: self.at + 1,
            broken: if alive {
                self.broken
            } else {
                self.broken.push(self.current().event_id)
            },
            ..self
        }
    }

    /// Every route that is left has a forwarding state.
    pub open spec fn fits<S>(self, tables: Tables<S>) -> bool {
        &&& 0 <= self.at <= self.routes.len()
        &&& forall|i: int|
            self.at <= i < self.routes.len() ==> tables.has_flow(#[trigger] self.routes[i])
    }

    /// Only routes that are done with are broken.
    pub open spec fn blames_only_served(self) -> bool {
        forall|id: usize| #[trigger]
            self.broken.contains(id) ==> exists|i: int|
                0 <= i < self.at && i < self.routes.len() && (#[trigger] self.routes[i]).event_id
                    == id
    }
}

/// The pass at the first route, from the one that is to be served on, on which something is to be
/// done, and what that is.  None at the end.
pub open spec fn opened<S>(tables: Tables<S>, pass: Pass) -> (Pass, Option<(Route, IoAction)>)
    decreases pass.routes.len() - pass.at,
{
    if pass.over() {
        (pass, None)
    } else {
        match tables.flow(pass.current()).read_action() {
            IoAction::Done(alive) => opened(tables, pass.ended(alive)),
            action => (pass, Some((pass.current(), action))),
        }
    }
}

/// The firewall and the pass after one more reply on the route that is being served, and what to
/// do next, on which route.
pub open spec fn resumed<S>(tables: Tables<S>, pass: Pass, event: Event) -> (
    Tables<S>,
    Pass,
    Option<(Route, IoAction)>,
) {
    let route = pass.current();
    let (flow, action) = tables.flow(route).io_turn(tables.magic, tables.rules_for(route), event);
    let next = tables.with_flow(route, flow);
    match action {
        IoAction::Done(alive) => {
            let (pass, todo) = opened(next, pass.ended(alive));
            (next, pass, todo)
        },
        action => (next, pass, Some((route, action))),
    }
}

/// A socket that is ready has a forwarding state, if it has a route.
proof fn lemma_routes_have_flows<S>(tables: Tables<S>, ready: Seq<usize>)
    ensures
        forall|i: int|
            0 <= i < tables.routes(ready).len() ==> tables.has_flow(
                #[trigger] tables.routes(ready)[i],
            ),
    decreases ready.len(),
{
    if ready.len() > 0 {
        lemma_routes_have_flows(tables, ready.drop_last());
        let before = tables.routes(ready.drop_last());
        assert forall|i: int| 0 <= i < tables.routes(ready).len() implies tables.has_flow(
            #[trigger] tables.routes(ready)[i],
        ) by {
            if i < before.len() {
                assert(tables.has_flow(before[i]));
            }
        }
    }
}

impl<S> BitcoinProxy<S> {
    /// Goes to the first route on which something is to be done.
    fn open_route(&self, pass: &mut ReadyPass) -> (r: Option<(Route, IoAction)>)
        requires
            self@.wf(),
            old(pass)@.fits(self@),
        ensures
            (final(pass)@, r) == opened(self@, old(pass)@),
            final(pass)@.fits(self@),
            r is Some <==> !final(pass)@.over(),
            r matches Some(todo) ==> todo.0 == final(pass)@.current(),
    {
        while pass.at < pass.routes.len()
            invariant
                self@.wf(),
                pass@.fits(self@),
                opened(self@, pass@) == opened(self@, old(pass)@),
            decreases pass.routes@.len() - pass.at,
        {
            let route: Route = pass.routes[pass.at];
            assert(self@.has_flow(pass@.routes[pass@.at]));
            let ghost before = pass@;
            match self.forward(route) {
                Some(forward) => match Self::start_socket_io(forward) {
                    IoAction::Done(alive) => {
                        if !alive {
                            pass.broken.push(route.event_id);
                        }
                        pass.at = pass.at + 1;
                        assert(pass@ =~= before.ended(alive));
                    },
                    action => {
                        return Some((route, action));
                    },
                },
                None => {
                    return None;
                },
            }
        }
        None
    }

    /// Handle I/O on all ready sockets.  Read bytes from downstream clients and write them to
    /// their upstream sockets, and read bytes from upstream sockets and write them to downstream
    /// clients.  Says what to do first, on which route; a socket whose pair is gone is passed over.
    pub fn process_ready_sockets(&self, pollstate: &NetworkPollState<S>) -> (r: (
        ReadyPass,
        Option<(Route, IoAction)>,
    ))
        requires
            self@.wf(),
        ensures
            (r.0@, r.1) == opened(
                self@,
                (Pass { routes: self@.routes(pollstate.ready@), at: 0, broken: seq![] }),
            ),
            r.0@.fits(self@),
            r.1 is Some <==> !r.0@.over(),
            r.1 matches Some(todo) ==> todo.0 == r.0@.current(),
    {
        let routes = self.ready_routes(pollstate);
        let mut pass = ReadyPass { routes, at: 0, broken: Vec::new() };
        proof {
            lemma_routes_have_flows(self@, pollstate.ready@);
            assert(pass@ =~= Pass {
                routes: self@.routes(pollstate.ready@),
                at: 0,
                broken: seq![],
            });
        }
        let first = self.open_route(&mut pass);
        (pass, first)
    }

    /// Take in what the last read or write of a pass came back with, and say what to do next, on
    /// which route.  None once every ready socket is served.
    pub fn resume_ready_sockets(&mut self, pass: &mut ReadyPass, reply: IoReply) -> (r: Option<
        (Route, IoAction),
    >)
        requires
            old(self)@.wf(),
            old(pass)@.fits(old(self)@),
            !old(pass)@.over(),
            old(self)@.flow(old(pass)@.current()).accepts_event(reply@),
        ensures
            (final(self)@, final(pass)@, r) == resumed(old(self)@, old(pass)@, reply@),
            final(self)@.wf(),
            final(pass)@.fits(final(self)@),
            r is Some <==> !final(pass)@.over(),
            r matches Some(todo) ==> todo.0 == final(pass)@.current(),
    {
        assert(pass.at < pass.routes.len());
        let route: Route = pass.routes[pass.at];
        assert(self@.has_flow(pass@.routes[pass@.at]));
        match self.process_route_io(route, reply) {
            IoAction::Done(alive) => {
                if !alive {
                    pass.broken.push(route.event_id);
                }
                pass.at = pass.at + 1;
                assert(pass@ =~= old(pass)@.ended(alive));
                self.open_route(pass)
            },
            action => Some((route, action)),
        }
    }

    /// Deregister what broke in a pass.  Returns the sockets, to be disconnected from the poller
    /// and closed.
    pub fn finish_ready_sockets(&mut self, pass: ReadyPass) -> (r: Vec<S>)
        requires
            old(self)@.wf(),
        ensures
            final(self)@.wf(),
            final(self)@ == old(self)@.without_all(pass@.broken),
            r@ == old(self)@.hangup_all(pass@.broken),
    {
        self.deregister_sockets(&pass.broken)
    }
}

/// Going on to the next route with something to do only passes over routes, and blames none but
/// these.
proof fn lemma_opening_blames_only_served<S>(tables: Tables<S>, pass: Pass)
    requires
        0 <= pass.at,
        pass.blames_only_served(),
    ensures
        opened(tables, pass).0.blames_only_served(),
        opened(tables, pass).0.routes == pass.routes,
        pass.at <= opened(tables, pass).0.at,
    decreases pass.routes.len() - pass.at,
{
    if !pass.over() {
        if let IoAction::Done(alive) = tables.flow(pass.current()).read_action() {
            lemma_ending_blames_only_served(pass, alive);
            lemma_opening_blames_only_served(tables, pass.ended(alive));
        }
    }
}

proof fn lemma_ending_blames_only_served(pass: Pass, alive: bool)
    requires
        0 <= pass.at,
        !pass.over(),
        pass.blames_only_served(),
    ensures
        pass.ended(alive).blames_only_served(),
{
    let next = pass.ended(alive);
    assert forall|id: usize| #[trigger] next.broken.contains(id) implies exists|i: int|
        0 <= i < next.at && i < next.routes.len() && (#[trigger] next.routes[i]).event_id == id by {
        if pass.broken.contains(id) {
            let i = choose|i: int|
                0 <= i < pass.at && i < pass.routes.len() && (#[trigger] pass.routes[i]).event_id
                    == id;
            assert(next.routes[i].event_id == id);
        } else {
            let event_id = pass.current().event_id;
            vstd::seq_lib::lemma_seq_contains_after_push(pass.broken, event_id, id);
            assert(next.routes[pass.at].event_id == id);
        }
    }
}

/// A pass drops none but sockets that were ready and that it has served.
pub proof fn law_only_served_sockets_break<S>(tables: Tables<S>, pass: Pass, event: Event)
    requires
        pass.fits(tables),
        pass.blames_only_served(),
    ensures
        opened(tables, pass).0.blames_only_served(),
        !pass.over() ==> resumed(tables, pass, event).1.blames_only_served(),
        !pass.over() ==> resumed(tables, pass, event).1.routes == pass.routes,
{
    lemma_opening_blames_only_served(tables, pass);
    if !pass.over() {
        let route = pass.current();
        let (flow, action) = tables.flow(route).io_turn(
            tables.magic,
            tables.rules_for(route),
            event,
        );
        if let IoAction::Done(alive) = action {
            lemma_ending_blames_only_served(pass, alive);
            lemma_opening_blames_only_served(tables.with_flow(route, flow), pass.ended(alive));
        }
    }
}

/// What is broken stays broken while a pass goes on to the next route with something to do.
proof fn lemma_opening_keeps_broken<S>(tables: Tables<S>, pass: Pass)
    ensures
        pass.broken.is_prefix_of(opened(tables, pass).0.broken),
    decreases pass.routes.len() - pass.at,
{
    if !pass.over() {
        if let IoAction::Done(alive) = tables.flow(pass.current()).read_action() {
            lemma_opening_keeps_broken(tables, pass.ended(alive));
        }
    }
}

/// A connection that ends in a pass is among those that the pass drops: a reply that ends it, or a
/// stream from which nothing can be read any more, puts its event there, and there it stays.
pub proof fn law_what_breaks_is_dropped<S>(tables: Tables<S>, pass: Pass, event: Event)
    requires
        !pass.over(),
    ensures
        ({
            let route = pass.current();
            let flow = tables.flow(route);
            let action = flow.io_turn(tables.magic, tables.rules_for(route), event).1;
            let next = resumed(tables, pass, event).1;
            let first = opened(tables, pass).0;
            &&& pass.broken.is_prefix_of(next.broken)
            &&& action == IoAction::Done(false) ==> next.broken.contains(route.event_id)
            &&& pass.broken.is_prefix_of(first.broken)
            &&& flow.read_action() == IoAction::Done(false) ==> first.broken.contains(
                route.event_id,
            )
        }),
{
    let route = pass.current();
    let (flow, action) = tables.flow(route).io_turn(tables.magic, tables.rules_for(route), event);
    lemma_opening_keeps_broken(tables, pass);
    lemma_opening_keeps_broken(tables, pass.ended(false));
    if let IoAction::Done(alive) = action {
        lemma_opening_keeps_broken(tables.with_flow(route, flow), pass.ended(alive));
    }
    let at = pass.broken.len() as int;
    assert(pass.ended(false).broken[at] == route.event_id);
    if action == IoAction::Done(false) {
        assert(resumed(tables, pass, event).1.broken[at] == route.event_id);
    }
    if tables.flow(route).read_action() == IoAction::Done(false) {
        assert(opened(tables, pass).0.broken[at] == route.event_id);
    }
}

/// A pass serves the routes in their order: it is over once all are served, and a route that is done
/// with counts as broken exactly if its connection is not alive.
pub proof fn law_passes_go_in_order(pass: Pass, alive: bool)
    ensures
        pass.over() <==> pass.at >= pass.routes.len(),
        pass.current() == pass.routes[pass.at],
        pass.ended(alive).routes == pass.routes,
        pass.ended(alive).at == pass.at + 1,
        alive ==> pass.ended(alive).broken == pass.broken,
        !alive ==> pass.ended(alive).broken == pass.broken + seq![pass.routes[pass.at].event_id],
{
    let event_id = pass.routes[pass.at].event_id;
    assert(pass.broken.push(event_id) =~= pass.broken + seq![event_id]);
}

/// A pass may be at any route, or at the end, as long as all routes from there on have forwarding
/// states.
pub proof fn law_what_passes_there_are<S>(tables: Tables<S>, pass: Pass)
    ensures
        pass.fits(tables) <==> {
            &&& 0 <= pass.at <= pass.routes.len()
            &&& forall|i: int|
                pass.at <= i < pass.routes.len() ==> tables.has_flow(#[trigger] pass.routes[i])
        },
{
}

/// No route is passed over but those from which nothing can be read any more, and these are broken:
/// the next thing to do is the first read of the first other route.
pub proof fn law_no_route_is_passed_over<S>(tables: Tables<S>, pass: Pass)
    requires
        0 <= pass.at <= pass.routes.len(),
    ensures
        ({
            let (next, todo) = opened(tables, pass);
            &&& next.routes == pass.routes
            &&& pass.at <= next.at <= pass.routes.len()
            &&& forall|i: int|
                pass.at <= i < next.at ==> tables.flow(
                    #[trigger] pass.routes[i],
                ).read_size() is None
            &&& next.broken.len() == pass.broken.len() + (next.at - pass.at)
            &&& forall|i: int|
                0 <= i < pass.broken.len() ==> #[trigger] next.broken[i] == pass.broken[i]
            &&& forall|i: int|
                pass.at <= i < next.at ==> next.broken[pass.broken.len() + (i - pass.at)] == (
                #[trigger] pass.routes[i]).event_id
            &&& todo is None <==> next.at == pass.routes.len()
            &&& todo matches Some((route, action)) ==> {
                let size = tables.flow(pass.routes[next.at]).read_size();
                &&& route == pass.routes[next.at]
                &&& size is Some
                &&& action == IoAction::Read(size->0 as usize)
            }
        }),
    decreases pass.routes.len() - pass.at,
{
    if !pass.over() && tables.flow(pass.current()).read_size() is None {
        law_no_route_is_passed_over(tables, pass.ended(false));
        let (next, todo) = opened(tables, pass);
        let base = pass.broken.len() as int;
        assert(pass.ended(false).broken[base] == pass.current().event_id);
        assert forall|i: int| pass.at <= i < next.at implies next.broken[base + (i - pass.at)] == (
        #[trigger] pass.routes[i]).event_id by {
            if i > pass.at {
                let k = pass.ended(false).broken.len() + (i - (pass.at + 1));
                assert(k == base + (i - pass.at));
            }
        }
        assert forall|i: int| 0 <= i < base implies #[trigger] next.broken[i] == pass.broken[i] by {
            assert(pass.ended(false).broken[i] == pass.broken[i]);
        }
    }
}

/// A reply goes to the route that is being served, and to no other.  As long as there is more to do
/// on it the pass stays there; once it is done with, the pass goes on to the next.
pub proof fn law_replies_go_to_the_route_served<S>(tables: Tables<S>, pass: Pass, event: Event)
    requires
        !pass.over(),
    ensures
        ({
            let route = pass.routes[pass.at];
            let (flow, action) = tables.flow(route).io_turn(
                tables.magic,
                tables.rules_for(route),
                event,
            );
            let (next, after, todo) = resumed(tables, pass, event);
            &&& next == tables.with_flow(route, flow)
            &&& !(action is Done) ==> after == pass && todo == Some((route, action))
            &&& action == IoAction::Done(true) ==> (after, todo) == opened(next, pass.ended(true))
            &&& action == IoAction::Done(false) ==> (after, todo) == opened(
                next,
                pass.ended(false),
            )
        }),
{
}

} // verus!
