//! What the firewall does for one pair of sockets over time, whatever it does for others meanwhile.

use crate::command::padded;
use crate::io::Event;
use crate::network::Ids;
use crate::options::{choices, fits, law_lists_do_not_go_together, law_lists_make_the_rules};
use crate::relay::{awaiting, command_of, frames, kept, run, unsent};
use crate::relay::{law_never_writes_what_the_rules_drop, law_relays_what_the_rules_let_pass};
use crate::table::{law_dropping_keeps_links, law_giving_out_ids_keeps_links, law_io_keeps_routes};
use crate::table::{law_pairing_keeps_links, law_rules_hold_for_all_clients, Route, Side, Tables};
use vstd::prelude::*;
use vstd::utf8::encode_utf8;

verus! {

/// One thing that happens to the firewall.
pub enum Step<S> {
    /// A read or a write on a route.
    Io { route: Route, event: Event },
    /// A client's socket and a socket to bitcoind are paired.
    Pair { event_id: usize, socket: S, upstream_event_id: usize, upstream: S, now: u128 },
    /// An event is dropped.
    Drop { event_id: usize },
    /// Event IDs are given out, to clients that are accepted or to sockets to bitcoind.
    Number { ids: Ids },
}

/// The firewall after one step.
pub open spec fn stepped<S>(tables: Tables<S>, step: Step<S>) -> Tables<S> {
    match step {
        Step::Io { route, event } => tables.with_flow(
            route,
            tables.flow(route).io_turn(tables.magic, tables.rules_for(route), event).0,
        ),
        Step::Pair { event_id, socket, upstream_event_id, upstream, now } => tables.paired(
            event_id,
            socket,
            upstream_event_id,
            upstream,
            now,
        ),
        Step::Drop { event_id } => tables.without(event_id),
        Step::Number { ids } => Tables { ids, ..tables },
    }
}

/// The firewall after some steps.
pub open spec fn played<S>(tables: Tables<S>, steps: Seq<Step<S>>) -> Tables<S>
    decreases steps.len(),
{
    if steps.len() == 0 {
        tables
    } else {
        stepped(played(tables, steps.drop_last()), steps.last())
    }
}

/// Do two routes start from one socket?
pub open spec fn same_start(a: Route, b: Route) -> bool {
    a.side == b.side && a.event_id == b.event_id
}

/// The reads and writes on a route among some steps.
pub open spec fn events_on<S>(route: Route, steps: Seq<Step<S>>) -> Seq<Event>
    decreases steps.len(),
{
    if steps.len() == 0 {
        seq![]
    } else {
        let before = events_on(route, steps.drop_last());
        match steps.last() {
            Step::Io { route: other, event } => if same_start(route, other) {
                before.push(event)
            } else {
                before
            },
            _ => before,
        }
    }
}

/// The step neither drops the event that a route starts from, nor gives its event ID to another
/// pair.
pub open spec fn spares<S>(route: Route, step: Step<S>) -> bool {
    match step {
        Step::Pair { event_id, socket, upstream_event_id, upstream, now } => match route.side {
            Side::Downstream => event_id != route.event_id,
            Side::Upstream => upstream_event_id != route.event_id,
        },
        Step::Drop { event_id } => event_id != route.event_id,
        _ => true,
    }
}

/// The step is one that the firewall may take: I/O on a route that it has, a pair under event IDs
/// that are given out and not in use, and event IDs that were not given out before.
pub open spec fn proper<S>(tables: Tables<S>, step: Step<S>) -> bool {
    match step {
        Step::Io { route, event } => tables.has_flow(route),
        Step::Pair { event_id, socket, upstream_event_id, upstream, now } => {
            &&& tables.unused(event_id)
            &&& tables.unused(upstream_event_id)
            &&& event_id != upstream_event_id
        },
        Step::Drop { event_id } => true,
        Step::Number { ids } => tables.ids.next <= ids.next,
    }
}

/// The magic and the rules stay, and so does the forwarding state of a route that is spared: it
/// becomes what the reads and writes on the route alone make of it.
pub proof fn law_routes_run_on_their_own<S>(tables: Tables<S>, route: Route, steps: Seq<Step<S>>)
    requires
        tables.has_flow(route),
        forall|i: int| 0 <= i < steps.len() ==> spares(route, #[trigger] steps[i]),
    ensures
        played(tables, steps).magic == tables.magic,
        played(tables, steps).rules == tables.rules,
        played(tables, steps).has_flow(route),
        run(
            tables.magic,
            tables.rules_for(route),
            tables.flow(route),
            events_on(route, steps),
        ) matches Some(record) ==> played(tables, steps).flow(route) == record.flow,
    decreases steps.len(),
{
    if steps.len() > 0 {
        let before = steps.drop_last();
        law_routes_run_on_their_own(tables, route, before);
        assert(spares(route, steps.last()));
        match steps.last() {
            Step::Io { route: other, event } => {
                if same_start(route, other) {
                    assert(events_on(route, steps).drop_last() =~= events_on(route, before));
                }
            },
            _ => {},
        }
    }
}

/// Whatever else the firewall does, a client's messages reach bitcoind exactly as far as the rules
/// let them pass, and bitcoind's messages all reach the client: what was written on a route, what
/// waits to be written there and the message that awaits one more read are the messages that were
/// read on it and pass.
pub proof fn law_firewall_relays_what_passes<S>(
    tables: Tables<S>,
    route: Route,
    steps: Seq<Step<S>>,
)
    requires
        tables.has_flow(route),
        tables.flow(route).is_fresh(),
        forall|i: int| 0 <= i < steps.len() ==> spares(route, #[trigger] steps[i]),
    ensures
        run(
            tables.magic,
            tables.rules_for(route),
            tables.flow(route),
            events_on(route, steps),
        ) matches Some(record) ==> {
            let rules = tables.rules_for(route);
            let flow = played(tables, steps).flow(route);
            kept(rules, frames(tables.magic, record.input)).flatten() == record.output + unsent(
                flow,
            ) + awaiting(rules, flow)
        },
{
    law_routes_run_on_their_own(tables, route, steps);
    law_relays_what_the_rules_let_pass(
        tables.magic,
        tables.rules_for(route),
        tables.flow(route),
        events_on(route, steps),
    );
}

/// A command that the command line denies, or does not allow while it allows others, never reaches
/// bitcoind: all that is written for a client is of messages with other commands.
pub proof fn law_named_commands_never_reach_bitcoind<S>(
    argv: Seq<Seq<char>>,
    name: Seq<char>,
    tables: Tables<S>,
    route: Route,
    steps: Seq<Step<S>>,
)
    requires
        choices(argv) matches Some(c) && c.rules() == Some(tables.rules) && {
            ||| c.deny_list.contains(name)
            ||| c.allow_list.len() > 0 && !c.allow_list.contains(name) && fits(name)
                && !name.contains('\0') && forall|i: int|
                0 <= i < c.allow_list.len() ==> !(#[trigger] c.allow_list[i]).contains('\0')
        },
        route.side == Side::Downstream,
        tables.has_flow(route),
        tables.flow(route).is_fresh(),
    ensures
        run(
            tables.magic,
            tables.rules_for(route),
            tables.flow(route),
            events_on(route, steps),
        ) matches Some(record) ==> {
            let passed = kept(tables.rules, frames(tables.magic, record.input));
            &&& (forall|i: int| 0 <= i < steps.len() ==> spares(route, #[trigger] steps[i]))
                ==> played(tables, steps).flow(route) == record.flow
            &&& record.output.is_prefix_of(passed.flatten())
            &&& forall|i: int|
                0 <= i < passed.len() ==> command_of(#[trigger] passed[i]) != padded(
                    encode_utf8(name),
                )
        },
{
    let c = choices(argv)->0;
    assert(tables.rules.drops(padded(encode_utf8(name)))) by {
        if c.deny_list.contains(name) {
            law_lists_do_not_go_together(argv);
            let i = choose|i: int| 0 <= i < c.deny_list.len() && c.deny_list[i] == name;
            assert(tables.rules.deny[i] == padded(encode_utf8(name)));
        } else {
            law_lists_do_not_go_together(argv);
            law_lists_make_the_rules(argv, name);
        }
    }
    law_rules_hold_for_all_clients(tables, route);
    if forall|i: int| 0 <= i < steps.len() ==> spares(route, #[trigger] steps[i]) {
        law_routes_run_on_their_own(tables, route, steps);
    }
    law_never_writes_what_the_rules_drop(
        tables.magic,
        tables.rules,
        tables.flow(route),
        events_on(route, steps),
    );
}

/// A firewall that takes proper steps only is always linked.
pub proof fn law_always_linked<S>(magic: u32, steps: Seq<Step<S>>)
    requires
        forall|i: int|
            0 <= i < steps.len() ==> proper(
                played(Tables::<S>::initial(magic), steps.take(i)),
                #[trigger] steps[i],
            ),
    ensures
        played(Tables::<S>::initial(magic), steps).linked(),
    decreases steps.len(),
{
    if steps.len() > 0 {
        let before = steps.drop_last();
        assert forall|i: int| 0 <= i < before.len() implies proper(
            played(Tables::<S>::initial(magic), before.take(i)),
            #[trigger] before[i],
        ) by {
            assert(before.take(i) =~= steps.take(i));
            assert(before[i] == steps[i]);
        }
        law_always_linked(magic, before);
        let tables = played(Tables::<S>::initial(magic), before);
        assert(steps.take(steps.len() - 1) =~= before);
        assert(proper(tables, steps[steps.len() - 1]));
        match steps.last() {
            Step::Io { route, event } => law_io_keeps_routes(tables, route, event, 0),
            Step::Pair { event_id, socket, upstream_event_id, upstream, now } => {
                law_pairing_keeps_links(
                    tables,
                    event_id,
                    socket,
                    upstream_event_id,
                    upstream,
                    now,
                )
            },
            Step::Drop { event_id } => law_dropping_keeps_links(tables, event_id),
            Step::Number { ids } => law_giving_out_ids_keeps_links(tables, ids),
        }
    }
}

} // verus!
