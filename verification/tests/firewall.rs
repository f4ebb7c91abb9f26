//! Pairs of sockets.  Their owner is a test, and a socket is a number.

use bitcoin_p2p_firewall::command::BitcoinCommand;
use bitcoin_p2p_firewall::error::Error;
use bitcoin_p2p_firewall::io::{IoAction, IoReply, ReadReply, WriteReply};
use bitcoin_p2p_firewall::network::{NetworkPollState, NetworkState, PollEvent, SERVER};
use bitcoin_p2p_firewall::options::{parse_options, Options};
use bitcoin_p2p_firewall::preamble::BitcoinPreamble;
use bitcoin_p2p_firewall::proxy::{BitcoinProxy, Registration, Verdict, CAPACITY};
use bitcoin_p2p_firewall::table::{Route, Side};

const MAGIC: u32 = 0xDAB5BFFA;

fn message(name: &str, payload: &[u8]) -> Vec<u8> {
    let mut bytes = vec![];
    bytes.extend_from_slice(&MAGIC.to_le_bytes());
    bytes.extend_from_slice(&BitcoinCommand::from_str(name).unwrap().0);
    bytes.extend_from_slice(&(payload.len() as u32).to_le_bytes());
    bytes.extend_from_slice(&[0; 4]);
    bytes.extend_from_slice(payload);
    bytes
}

/// Registers a client, and returns both event IDs.
fn add_pair(proxy: &mut BitcoinProxy<u32>, socket: u32, upstream: u32, now: u128) -> (usize, usize) {
    let event_id = proxy.next_event_id();
    let upstream_event_id = proxy.next_event_id();
    let both = Registration::Both;
    let r = proxy.register_socket(event_id, socket, upstream_event_id, upstream, both, now);
    assert!(r.is_ok());
    (event_id, upstream_event_id)
}

fn ready(event_ids: &[usize]) -> NetworkPollState<u32> {
    let mut state = NetworkPollState::new();
    state.ready = event_ids.to_vec();
    state
}

/// Hands a stream to a route, and returns what is written on it.
fn feed(proxy: &mut BitcoinProxy<u32>, route: Route, stream: &[u8], now: u128) -> (Vec<u8>, bool) {
    let mut at = 0;
    let mut written = vec![];
    let mut action = BitcoinProxy::<u32>::start_socket_io(proxy.forward(route).unwrap());
    loop {
        let reply = match action {
            IoAction::Read(size) => {
                let count = size.min(stream.len() - at);
                let bytes = stream[at..at + count].to_vec();
                at += count;
                if count == 0 && size > 0 {
                    IoReply::Read(ReadReply::WouldBlock)
                } else {
                    IoReply::Read(ReadReply::Data { bytes, at: now })
                }
            }
            IoAction::Write => {
                let due = proxy.forward(route).unwrap().due();
                IoReply::Write(due.map(|bytes| {
                    written.extend_from_slice(bytes);
                    WriteReply::Written { count: bytes.len(), at: now }
                }))
            }
            IoAction::Done(alive) => return (written, alive),
        };
        action = proxy.process_route_io(route, reply);
    }
}

#[test]
fn event_ids_are_given_out_in_turn() {
    assert_eq!(SERVER, 0);
    let mut network = NetworkState::new(10);
    assert_eq!(network.event_ids_left(), usize::MAX - 1);
    assert_eq!(network.next_event_id(), 1);
    assert_eq!(network.next_event_id(), 2);
    assert_eq!(network.event_ids_left(), usize::MAX - 3);
}

#[test]
fn poll_numbers_sockets_and_lists_ready_ones() {
    let mut network = NetworkState::new(10);
    let state = match network.poll(vec![
        PollEvent::Io(9),
        PollEvent::Server { accepted: vec!['a', 'b'], failed: false },
        PollEvent::Io(4),
        PollEvent::Server { accepted: vec!['c'], failed: false },
    ]) {
        Ok(state) => state,
        Err(_) => panic!("nothing failed"),
    };
    assert_eq!(state.ready, vec![9, 4]);
    assert_eq!(state.new.len(), 3);
    assert_eq!(state.new[&1], 'a');
    assert_eq!(state.new[&2], 'b');
    assert_eq!(state.new[&3], 'c');
    assert_eq!(network.next_event_id(), 4);
}

#[test]
fn poll_fails_with_accepting() {
    let mut network = NetworkState::new(10);
    let r = network.poll(vec![
        PollEvent::Server { accepted: vec!['a'], failed: false },
        PollEvent::Server { accepted: vec!['b'], failed: true },
        PollEvent::Server { accepted: vec!['c'], failed: false },
    ]);
    assert!(matches!(r, Err(Error::AcceptError)));
    // the IDs of the sockets accepted by then stay taken
    assert_eq!(network.next_event_id(), 3);
}

#[test]
fn empty_poll() {
    let mut proxy: BitcoinProxy<u32> = BitcoinProxy::new(MAGIC);
    match proxy.poll(vec![]) {
        Ok(state) => {
            assert!(state.new.is_empty());
            assert!(state.ready.is_empty());
        }
        Err(_) => panic!("nothing failed"),
    }
    assert_eq!(proxy.event_ids_left(), usize::MAX - 1);
    assert_eq!(proxy.next_event_id(), 1);
}

#[test]
fn new_sockets_are_handed_out() {
    let mut proxy: BitcoinProxy<u32> = BitcoinProxy::new(MAGIC);
    let accepted = vec![100, 200, 300];
    let polled = proxy.poll(vec![
        PollEvent::Server { accepted, failed: false },
        PollEvent::Io(7),
    ]);
    let mut state = match polled {
        Ok(state) => state,
        Err(_) => panic!("nothing failed"),
    };
    let mut handed = BitcoinProxy::process_new_sockets(&mut state);
    handed.sort();
    assert_eq!(handed, vec![(1, 100), (2, 200), (3, 300)]);
    assert!(state.new.is_empty());
    assert_eq!(state.ready, vec![7]);
    assert!(BitcoinProxy::process_new_sockets(&mut state).is_empty());
    assert_eq!(proxy.next_event_id(), 4);
}

#[test]
fn pair_is_registered() {
    let mut proxy = BitcoinProxy::new(MAGIC);
    let (d, u) = add_pair(&mut proxy, 10, 20, 5);
    assert_eq!((d, u), (1, 2));
    assert_eq!(proxy.socket(Side::Downstream, d), Some(&10));
    assert_eq!(proxy.socket(Side::Upstream, u), Some(&20));
    assert_eq!(proxy.socket(Side::Downstream, u), None);
    assert_eq!(proxy.socket(Side::Upstream, d), None);
    let there = Route { side: Side::Downstream, event_id: d, pair_event_id: u };
    let back = Route { side: Side::Upstream, event_id: u, pair_event_id: d };
    for route in [there, back] {
        let forward = proxy.forward(route).unwrap();
        assert_eq!(forward.pair_event_id(), route.pair_event_id);
        assert_eq!(forward.last_io_at(), 5);
        assert_eq!(forward.pending(), 0);
    }
    assert_eq!(proxy.ready_routes(&ready(&[u, 99, d])), vec![back, there]);
}

#[test]
fn refused_pairs() {
    let mut proxy: BitcoinProxy<u32> = BitcoinProxy::new(MAGIC);
    match proxy.register_socket(1, 10, 2, 20, Registration::DownstreamRefused, 0) {
        Err(refusal) => {
            assert!(matches!(refusal.error, Error::RegisterError));
            assert_eq!(refusal.deregister, None);
        }
        Ok(()) => panic!("refused"),
    }
    match proxy.register_socket(1, 10, 2, 20, Registration::UpstreamRefused, 0) {
        Err(refusal) => {
            assert!(matches!(refusal.error, Error::RegisterError));
            assert_eq!(refusal.deregister, Some(10));
        }
        Ok(()) => panic!("refused"),
    }
    assert_eq!(proxy.socket(Side::Downstream, 1), None);
    assert_eq!(proxy.socket(Side::Upstream, 2), None);
    assert!(proxy.ready_routes(&ready(&[1, 2])).is_empty());
}

#[test]
fn pairs_close_together() {
    let mut proxy = BitcoinProxy::new(MAGIC);
    let (a, a_up) = add_pair(&mut proxy, 10, 11, 0);
    let (b, b_up) = add_pair(&mut proxy, 20, 21, 0);
    assert_eq!(proxy.deregister_socket(a), vec![10, 11]);
    assert_eq!(proxy.socket(Side::Downstream, a), None);
    assert_eq!(proxy.socket(Side::Upstream, a_up), None);
    assert_eq!(proxy.socket(Side::Downstream, b), Some(&20));
    assert!(proxy.deregister_socket(a).is_empty());
    assert!(proxy.deregister_socket(a_up).is_empty());
    assert_eq!(proxy.deregister_socket(b_up), vec![21, 20]);
    assert_eq!(proxy.socket(Side::Downstream, b), None);
    assert!(proxy.deregister_socket(77).is_empty());
}

#[test]
fn order_of_going_does_not_matter() {
    let mut one = BitcoinProxy::new(MAGIC);
    let mut other = BitcoinProxy::new(MAGIC);
    for proxy in [&mut one, &mut other] {
        for i in 0..3 {
            add_pair(proxy, 10 * i, 10 * i + 1, 0);
        }
    }
    let mut closed = one.deregister_sockets(&vec![1, 4, 1]);
    let mut closed_too = other.deregister_sockets(&vec![4, 1]);
    closed.sort();
    closed_too.sort();
    assert_eq!(closed, vec![0, 1, 10, 11]);
    assert_eq!(closed, closed_too);
    for proxy in [&one, &other] {
        assert_eq!(proxy.socket(Side::Downstream, 1), None);
        assert_eq!(proxy.socket(Side::Downstream, 3), None);
        assert_eq!(proxy.socket(Side::Downstream, 5), Some(&20));
        assert_eq!(proxy.socket(Side::Upstream, 6), Some(&21));
    }
}

#[test]
fn socket_whose_pair_is_gone_is_passed_over() {
    let mut proxy = BitcoinProxy::new(MAGIC);
    let (d, u) = add_pair(&mut proxy, 10, 20, 0);
    proxy.deregister_socket(d);
    let left_over = Route { side: Side::Upstream, event_id: u, pair_event_id: d };
    assert!(proxy.forward(left_over).is_some());
    assert!(proxy.ready_routes(&ready(&[d, u])).is_empty());
}

#[test]
fn only_what_clients_send_is_filtered() {
    let mut proxy = BitcoinProxy::new(MAGIC);
    proxy.add_deny_list(BitcoinCommand::from_str("block").unwrap());
    proxy.add_deny_list(BitcoinCommand::from_str("cmpctblock").unwrap());
    let (d, u) = add_pair(&mut proxy, 10, 20, 0);
    let there = Route { side: Side::Downstream, event_id: d, pair_event_id: u };
    let back = Route { side: Side::Upstream, event_id: u, pair_event_id: d };
    let ping = message("ping", &[1; 8]);
    let block = message("block", &[2; 80]);
    let compact = message("cmpctblock", &[3; 40]);
    let stream = [block, ping.clone(), compact].concat();
    assert_eq!(feed(&mut proxy, there, &stream, 1), (ping, true));
    assert_eq!(feed(&mut proxy, back, &stream, 1), (stream.clone(), true));
}

#[test]
fn allowed_commands_pass_and_no_others() {
    let mut proxy = BitcoinProxy::new(MAGIC);
    proxy.add_allow_list(BitcoinCommand::from_str("ping").unwrap());
    let (d, u) = add_pair(&mut proxy, 10, 20, 0);
    let there = Route { side: Side::Downstream, event_id: d, pair_event_id: u };
    let ping = message("ping", &[1; 8]);
    let stream = [message("tx", &[]), ping.clone(), message("pings", &[4])].concat();
    assert_eq!(feed(&mut proxy, there, &stream, 1), (ping, true));
}

#[test]
fn routes_do_not_mix() {
    let mut proxy = BitcoinProxy::new(MAGIC);
    let (a, a_up) = add_pair(&mut proxy, 10, 11, 0);
    let (b, b_up) = add_pair(&mut proxy, 20, 21, 0);
    let from_a = Route { side: Side::Downstream, event_id: a, pair_event_id: a_up };
    let from_b = Route { side: Side::Downstream, event_id: b, pair_event_id: b_up };
    let tx = message("tx", &[1, 2, 3]);
    let addr = message("addr", &[4; 30]);
    let mut sent = vec![vec![], vec![]];
    for i in 0..30 {
        for (n, route, bytes) in [(0, from_a, &tx), (1, from_b, &addr)] {
            if i < bytes.len() {
                let (written, alive) = feed(&mut proxy, route, &bytes[i..i + 1], 1);
                assert!(alive);
                sent[n].extend_from_slice(&written);
            }
        }
    }
    assert_eq!(sent[0], tx);
    assert!(sent[1].is_empty());
    assert_eq!(feed(&mut proxy, from_b, &addr[30..], 1), (addr.clone(), true));
}

#[test]
fn foreign_magic_breaks_the_pair() {
    let mut proxy = BitcoinProxy::new(MAGIC + 1);
    let (d, u) = add_pair(&mut proxy, 10, 20, 0);
    let there = Route { side: Side::Downstream, event_id: d, pair_event_id: u };
    let (written, alive) = feed(&mut proxy, there, &message("ping", &[1; 8]), 1);
    assert!(written.is_empty());
    assert!(!alive);
    assert_eq!(proxy.deregister_sockets(&vec![d]), vec![10, 20]);
}

#[test]
fn idle_pairs_are_closed() {
    let mut proxy = BitcoinProxy::new(MAGIC);
    let (a, a_up) = add_pair(&mut proxy, 10, 11, 1_000);
    let (b, b_up) = add_pair(&mut proxy, 20, 21, 1_000);
    // exactly the timeout is not too long
    assert!(proxy.process_dead_sockets(31_000).is_empty());
    let there = Route { side: Side::Downstream, event_id: a, pair_event_id: a_up };
    let back = Route { side: Side::Upstream, event_id: a_up, pair_event_id: a };
    feed(&mut proxy, there, &message("ping", &[]), 31_000);
    feed(&mut proxy, back, &message("pong", &[]), 31_000);
    let mut closed = proxy.process_dead_sockets(31_001);
    closed.sort();
    assert_eq!(closed, vec![20, 21]);
    assert_eq!(proxy.socket(Side::Downstream, b), None);
    assert_eq!(proxy.socket(Side::Upstream, b_up), None);
    assert_eq!(proxy.socket(Side::Downstream, a), Some(&10));
    assert!(proxy.process_dead_sockets(31_001).is_empty());
}

#[test]
fn one_idle_direction_closes_the_pair() {
    let mut proxy = BitcoinProxy::new(MAGIC);
    let (d, u) = add_pair(&mut proxy, 10, 20, 0);
    let there = Route { side: Side::Downstream, event_id: d, pair_event_id: u };
    let back = Route { side: Side::Upstream, event_id: u, pair_event_id: d };
    feed(&mut proxy, there, &message("ping", &[]), 30_000);
    assert_eq!(proxy.process_dead_sockets(30_001), vec![20, 10]);
    // what is left of the other direction goes once it is idle itself
    assert!(proxy.forward(there).is_some());
    assert!(proxy.forward(back).is_none());
    assert!(proxy.process_dead_sockets(60_001).is_empty());
    assert!(proxy.forward(there).is_none());
}

/// Serves all that is ready: each socket has one stream to give and takes all it is offered.
/// Returns what was written to each socket, and the sockets to close.
fn serve(
    proxy: &mut BitcoinProxy<u32>,
    event_ids: &[usize],
    streams: &[(usize, Vec<u8>)],
) -> (Vec<(usize, Vec<u8>)>, Vec<u32>) {
    let mut streams: Vec<(usize, Vec<u8>)> = streams.to_vec();
    let mut written: Vec<(usize, Vec<u8>)> = vec![];
    let (mut pass, mut todo) = proxy.process_ready_sockets(&ready(event_ids));
    while let Some((route, action)) = todo {
        let reply = match action {
            IoAction::Read(size) => {
                let stream = streams.iter_mut().find(|(id, _)| *id == route.event_id);
                match stream {
                    Some((_, bytes)) if size == 0 || !bytes.is_empty() => {
                        let rest = bytes.split_off(size.min(bytes.len()));
                        let bytes = std::mem::replace(bytes, rest);
                        IoReply::Read(ReadReply::Data { bytes, at: 1 })
                    }
                    _ => IoReply::Read(ReadReply::WouldBlock),
                }
            }
            IoAction::Write => {
                let due = proxy.forward(route).unwrap().due();
                IoReply::Write(due.map(|bytes| {
                    written.push((route.pair_event_id, bytes.to_vec()));
                    WriteReply::Written { count: bytes.len(), at: 1 }
                }))
            }
            IoAction::Done(_) => panic!("nothing to do"),
        };
        todo = proxy.resume_ready_sockets(&mut pass, reply);
    }
    (written, proxy.finish_ready_sockets(pass))
}

#[test]
fn ready_sockets_are_served_in_turn() {
    let mut proxy = BitcoinProxy::new(MAGIC);
    proxy.add_deny_list(BitcoinCommand::from_str("block").unwrap());
    let (a, a_up) = add_pair(&mut proxy, 10, 11, 0);
    let (b, b_up) = add_pair(&mut proxy, 20, 21, 0);
    let ping = message("ping", &[1; 8]);
    let block = message("block", &[2; 8]);
    let both = [ping.clone(), block.clone()].concat();
    let (written, closed) = serve(
        &mut proxy,
        &[b_up, 99, a],
        &[(a, both.clone()), (b_up, both), (b, ping.clone())],
    );
    // bitcoind's messages all pass; b itself was not ready
    assert_eq!(written, vec![(b, ping.clone()), (b, block), (a_up, ping)]);
    assert!(closed.is_empty());
}

#[test]
fn broken_sockets_are_closed_after_the_pass() {
    let mut proxy = BitcoinProxy::new(MAGIC);
    let (a, a_up) = add_pair(&mut proxy, 10, 11, 0);
    let (b, b_up) = add_pair(&mut proxy, 20, 21, 0);
    let ping = message("ping", &[1; 8]);
    // a's other end is still served in the pass in which a breaks
    let (written, closed) = serve(
        &mut proxy,
        &[a, a_up, b],
        &[(a, vec![0; 24]), (a_up, ping.clone()), (b, ping.clone())],
    );
    assert_eq!(written, vec![(a, ping.clone()), (b_up, ping)]);
    assert_eq!(closed, vec![10, 11]);
    assert_eq!(proxy.socket(Side::Downstream, a), None);
    assert_eq!(proxy.socket(Side::Upstream, a_up), None);
    assert_eq!(proxy.socket(Side::Downstream, b), Some(&20));
}

#[test]
fn broken_stream_is_not_read_again() {
    let mut proxy = BitcoinProxy::new(MAGIC);
    let (a, a_up) = add_pair(&mut proxy, 10, 11, 0);
    let there = Route { side: Side::Downstream, event_id: a, pair_event_id: a_up };
    assert!(!feed(&mut proxy, there, &[0; 24], 1).1);
    // ready twice over, and broken both times: its sockets are closed once
    let (pass, todo) = proxy.process_ready_sockets(&ready(&[a, a]));
    assert_eq!(todo, None);
    assert_eq!(proxy.finish_ready_sockets(pass), vec![10, 11]);
}

#[test]
fn nothing_ready() {
    let mut proxy = BitcoinProxy::new(MAGIC);
    add_pair(&mut proxy, 10, 11, 0);
    let (pass, todo) = proxy.process_ready_sockets(&ready(&[]));
    assert_eq!(todo, None);
    assert!(proxy.finish_ready_sockets(pass).is_empty());
}

/// Polls once, with some sockets to accept, and returns the event IDs given to those accepted.
fn accept(network: &mut NetworkState, sockets: &[char], failed: bool) -> Option<Vec<(usize, char)>> {
    let accepted = sockets.to_vec();
    match network.poll(vec![PollEvent::Server { accepted, failed }]) {
        Ok(state) => {
            let mut new: Vec<(usize, char)> = state.new.into_iter().collect();
            new.sort();
            Some(new)
        }
        Err(_) => None,
    }
}

#[test]
fn accepts_at_most_capacity() {
    let mut network = NetworkState::new(4);
    assert_eq!(network.room(), 4);
    assert_eq!(accept(&mut network, &['a', 'b'], false), Some(vec![(1, 'a'), (2, 'b')]));
    assert_eq!(network.room(), 2);
    assert_eq!(network.next_event_id(), 3);
    assert_eq!(network.room(), 2);
    // a failed poll counts what it accepted
    assert_eq!(accept(&mut network, &['c'], true), None);
    assert_eq!(network.room(), 1);
    // the first ones get in
    assert_eq!(accept(&mut network, &['d', 'e', 'f'], false), Some(vec![(5, 'd')]));
    assert_eq!(network.room(), 0);
    assert_eq!(accept(&mut network, &['g'], false), Some(vec![]));
    assert_eq!(network.next_event_id(), 6);
}

#[test]
fn room_is_shared_by_the_events_of_a_poll() {
    let mut network = NetworkState::new(3);
    let state = match network.poll(vec![
        PollEvent::Server { accepted: vec!['a', 'b'], failed: false },
        PollEvent::Io(7),
        PollEvent::Server { accepted: vec!['c', 'd'], failed: false },
        PollEvent::Io(8),
    ]) {
        Ok(state) => state,
        Err(_) => panic!("nothing failed"),
    };
    assert_eq!(state.new.len(), 3);
    assert_eq!(state.new[&3], 'c');
    assert_eq!(state.ready, vec![7, 8]);
}

#[test]
fn no_capacity() {
    let mut network = NetworkState::new(0);
    assert_eq!(accept(&mut network, &['a'], false), Some(vec![]));
    assert_eq!(network.next_event_id(), 1);
}

#[test]
fn firewall_accepts_1000_clients() {
    assert_eq!(CAPACITY, 1000);
    let mut proxy: BitcoinProxy<u32> = BitcoinProxy::new(MAGIC);
    assert_eq!(proxy.room(), 1000);
    let accepted: Vec<u32> = (0..1200).collect();
    match proxy.poll(vec![PollEvent::Server { accepted, failed: false }]) {
        Ok(state) => {
            assert_eq!(state.new.len(), 1000);
            assert_eq!(state.new[&1000], 999);
        }
        Err(_) => panic!("nothing failed"),
    }
    assert_eq!(proxy.room(), 0);
    assert_eq!(proxy.next_event_id(), 1001);
}

#[test]
fn verdicts() {
    let there = Route { side: Side::Downstream, event_id: 1, pair_event_id: 2 };
    let back = Route { side: Side::Upstream, event_id: 2, pair_event_id: 1 };
    let block = BitcoinPreamble::new(MAGIC, "block", 0, 0);
    let ping = BitcoinPreamble::new(MAGIC, "ping", 0, 0);
    let mut proxy: BitcoinProxy<u32> = BitcoinProxy::new(MAGIC);
    assert_eq!(proxy.verdict(there, &block), Verdict::Allow);
    proxy.add_deny_list(BitcoinCommand::from_str("block").unwrap());
    assert_eq!(proxy.verdict(there, &block), Verdict::DenyListed);
    assert_eq!(proxy.verdict(there, &ping), Verdict::Allow);
    assert_eq!(proxy.verdict(back, &block), Verdict::Allow);
    proxy.add_allow_list(BitcoinCommand::from_str("block").unwrap());
    assert_eq!(proxy.verdict(there, &block), Verdict::Allow);
    assert_eq!(proxy.verdict(there, &ping), Verdict::NotAllowListed);
    assert_eq!(proxy.verdict(back, &ping), Verdict::Allow);
}

fn options(texts: &[&str]) -> Options {
    parse_options(texts.iter().map(|text| text.to_string()).collect()).unwrap()
}

#[test]
fn command_line_makes_the_rules() {
    let asked = options(&[
        "bitcoin-p2p-firewalld",
        "-v",
        "4",
        "-n",
        "regtest",
        "-b",
        "block,cmpctblock",
        "18444",
        "127.0.0.1:18445",
    ]);
    let mut proxy = BitcoinProxy::new(asked.magic);
    assert_eq!(proxy.add_lists(&asked), Ok(()));
    let (d, u) = add_pair(&mut proxy, 10, 20, 0);
    let there = Route { side: Side::Downstream, event_id: d, pair_event_id: u };
    let getdata = message("getdata", &[1; 37]);
    let ping = message("ping", &[2; 8]);
    let stream = [
        message("block", &[3; 90]),
        getdata.clone(),
        message("cmpctblock", &[4; 9]),
        ping.clone(),
    ]
    .concat();
    assert_eq!(feed(&mut proxy, there, &stream, 1), ([getdata, ping].concat(), true));
}

#[test]
fn allowed_names_make_the_rules() {
    let asked = options(&["prog", "-w", "ping,pong", "-n", "regtest", "1", "host:2"]);
    let mut proxy = BitcoinProxy::new(asked.magic);
    assert_eq!(proxy.add_lists(&asked), Ok(()));
    let (d, u) = add_pair(&mut proxy, 10, 20, 0);
    let there = Route { side: Side::Downstream, event_id: d, pair_event_id: u };
    let pong = message("pong", &[2; 8]);
    let stream = [message("block", &[3; 90]), pong.clone()].concat();
    assert_eq!(feed(&mut proxy, there, &stream, 1), (pong, true));
}

#[test]
fn name_that_is_too_long_makes_no_rules() {
    let asked = options(&["prog", "-b", "ping,averyverylongname", "1", "host:2"]);
    let mut proxy: BitcoinProxy<u32> = BitcoinProxy::new(asked.magic);
    assert_eq!(proxy.add_lists(&asked), Err("averyverylongname".to_string()));
    let there = Route { side: Side::Downstream, event_id: 1, pair_event_id: 2 };
    let ping = BitcoinPreamble::new(asked.magic, "ping", 0, 0);
    assert_eq!(proxy.verdict(there, &ping), Verdict::Allow);
}

#[test]
fn routes_have_sockets() {
    let mut proxy = BitcoinProxy::new(MAGIC);
    let (d, u) = add_pair(&mut proxy, 10, 20, 0);
    let there = Route { side: Side::Downstream, event_id: d, pair_event_id: u };
    let back = Route { side: Side::Upstream, event_id: u, pair_event_id: d };
    assert_eq!(proxy.sockets(there), Some((&10, &20)));
    assert_eq!(proxy.sockets(back), Some((&20, &10)));
    let astray = Route { side: Side::Downstream, event_id: d, pair_event_id: 9 };
    assert_eq!(proxy.sockets(astray), None);
    proxy.deregister_socket(d);
    assert_eq!(proxy.sockets(there), None);
    assert_eq!(proxy.sockets(back), None);
}
