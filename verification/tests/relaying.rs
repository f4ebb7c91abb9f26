//! What a forwarding state makes of the replies of its sockets.

use bitcoin_p2p_firewall::command::BitcoinCommand;
use bitcoin_p2p_firewall::error::Error;
use bitcoin_p2p_firewall::flow::MAX_MSG_BUF_LEN;
use bitcoin_p2p_firewall::forward::{ForwardState, IDLE_TIMEOUT};
use bitcoin_p2p_firewall::io::{IoAction, IoReply, ReadReply, Turn, WriteReply, BUF_SIZE};
use bitcoin_p2p_firewall::preamble::BitcoinPreamble;
use bitcoin_p2p_firewall::proxy::BitcoinProxy;
use std::io;

const MAGIC: u32 = 0xD9B4BEF9;

fn command(name: &str) -> BitcoinCommand {
    BitcoinCommand::from_str(name).unwrap()
}

fn message(name: &str, payload: &[u8]) -> Vec<u8> {
    let mut bytes = vec![];
    bytes.extend_from_slice(&MAGIC.to_le_bytes());
    bytes.extend_from_slice(&command(name).0);
    bytes.extend_from_slice(&(payload.len() as u32).to_le_bytes());
    bytes.extend_from_slice(&[1, 2, 3, 4]);
    bytes.extend_from_slice(payload);
    bytes
}

fn data(bytes: &[u8], at: u128) -> ReadReply {
    ReadReply::Data {
        bytes: bytes.to_vec(),
        at,
    }
}

fn failure() -> io::Error {
    io::Error::from(io::ErrorKind::ConnectionReset)
}

/// Reads a stream, at most `piece` bytes at a time, and returns what is written, at most `piece`
/// bytes at a time.
fn relay(
    stream: &[u8],
    piece: usize,
    allow: &Vec<BitcoinCommand>,
    deny: &Vec<BitcoinCommand>,
) -> Vec<u8> {
    let mut forward = ForwardState::new_at(0);
    let mut at = 0;
    let mut written = vec![];
    let mut action = BitcoinProxy::<()>::start_socket_io(&forward);
    loop {
        let reply = match action {
            IoAction::Read(size) => {
                let count = size.min(piece).min(stream.len() - at);
                let bytes = &stream[at..at + count];
                at += count;
                if count == 0 && size > 0 {
                    IoReply::Read(ReadReply::WouldBlock)
                } else {
                    IoReply::Read(data(bytes, 0))
                }
            }
            IoAction::Write => IoReply::Write(forward.due().map(|bytes| {
                let count = bytes.len().min(piece);
                written.extend_from_slice(&bytes[0..count]);
                WriteReply::Written { count, at: 0 }
            })),
            IoAction::Done(alive) => {
                assert!(alive);
                return written;
            }
        };
        action = BitcoinProxy::<()>::process_socket_io(MAGIC, allow, deny, &mut forward, reply);
    }
}

fn three_messages() -> (Vec<u8>, Vec<u8>, Vec<u8>) {
    (
        message("version", &[1; 50]),
        message("block", &[2; 200]),
        message("verack", &[]),
    )
}

#[test]
fn fresh_state() {
    let forward = ForwardState::new().unwrap();
    assert!(forward.preamble().is_none());
    assert_eq!(forward.preamble_buf().len(), 0);
    assert_eq!(forward.num_read(), 0);
    assert_eq!(forward.pending(), 0);
    assert_eq!(forward.pair_event_id(), 0);
    assert!(!forward.filtered());
    assert_eq!(forward.due(), None);
    assert_eq!(forward.read_size(), Some(24));
    assert_eq!(forward.is_idle_timeout(), Some(false));
}

#[test]
fn pair_is_remembered() {
    let mut forward = ForwardState::new_at(5);
    forward.set_pair_event_id(17);
    assert_eq!(forward.pair_event_id(), 17);
    assert_eq!(forward.last_io_at(), 5);
}

#[test]
fn relays_what_the_rules_let_pass() {
    let (version, block, verack) = three_messages();
    let stream = [version.clone(), block.clone(), verack.clone()].concat();
    for piece in [1, 7, 24, 25, 1000] {
        assert_eq!(relay(&stream, piece, &vec![], &vec![]), stream);
        assert_eq!(
            relay(&stream, piece, &vec![], &vec![command("block")]),
            [version.clone(), verack.clone()].concat()
        );
        assert_eq!(relay(&stream, piece, &vec![command("block")], &vec![]), block);
    }
}

#[test]
fn part_of_a_message_is_not_passed_on() {
    let (version, block, _) = three_messages();
    let stream = [version.clone(), block[0..100].to_vec()].concat();
    assert_eq!(relay(&stream, 64, &vec![], &vec![]), version);
}

#[test]
fn allow_list_is_preferred() {
    let header = BitcoinPreamble::new(MAGIC, "block", 0, 0);
    let block = vec![command("block")];
    let other = vec![command("tx")];
    assert!(!BitcoinProxy::<()>::filter(&header, &block, &block));
    assert!(BitcoinProxy::<()>::filter(&header, &other, &vec![]));
    assert!(BitcoinProxy::<()>::filter(&header, &other, &other));
    assert!(BitcoinProxy::<()>::filter(&header, &vec![], &block));
    assert!(!BitcoinProxy::<()>::filter(&header, &vec![], &other));
    assert!(!BitcoinProxy::<()>::filter(&header, &vec![], &vec![]));
}

#[test]
fn duplicates_do_not_matter() {
    let header = BitcoinPreamble::new(MAGIC, "block", 0, 0);
    let twice = vec![command("block"), command("tx"), command("block")];
    assert!(!BitcoinProxy::<()>::filter(&header, &twice, &vec![]));
    assert!(BitcoinProxy::<()>::filter(&header, &vec![], &twice));
}

#[test]
fn header_in_pieces() {
    let bytes = message("tx", &[9; 3]);
    let mut forward = ForwardState::new_at(0);
    assert!(matches!(forward.read_preamble(MAGIC, data(&bytes[0..10], 1)), Ok(false)));
    assert_eq!(forward.preamble_buf(), &bytes[0..10]);
    assert_eq!(forward.read_size(), Some(14));
    assert!(matches!(
        forward.read_preamble(MAGIC, ReadReply::WouldBlock),
        Err(Error::Blocked)
    ));
    assert!(matches!(forward.read_preamble(MAGIC, data(&bytes[10..24], 2)), Ok(true)));
    assert_eq!(forward.preamble(), Some(&BitcoinPreamble::new(MAGIC, "tx", 3, 0x04030201)));
    assert_eq!(forward.preamble_buf().len(), 0);
    assert_eq!(forward.read_size(), Some(3));
    assert!(matches!(forward.read_payload(data(&[9, 9], 3)), Ok(2)));
    assert_eq!(forward.num_read(), 2);
    assert_eq!(forward.read_size(), Some(1));
    assert_eq!(forward.pending(), 0);
    assert!(matches!(forward.read_payload(data(&[9], 4)), Ok(1)));
    assert_eq!(forward.pending(), 1);
    assert_eq!(forward.due(), Some(&bytes[..]));
    assert_eq!(forward.last_io_at(), 4);
}

#[test]
fn failures_of_a_header_read() {
    let mut forward = ForwardState::new_at(0);
    assert!(matches!(
        forward.read_preamble(MAGIC, data(&[], 1)),
        Err(Error::ConnectionBroken)
    ));
    assert_eq!(forward.last_io_at(), 0);
    assert!(matches!(
        forward.read_preamble(MAGIC, ReadReply::Failed(failure())),
        Err(Error::ReadError(_))
    ));
    // not our magic
    assert!(matches!(
        forward.read_preamble(MAGIC + 1, data(&message("tx", &[]), 1)),
        Err(Error::ConnectionBroken)
    ));
    // nothing more is read from such a stream
    assert_eq!(forward.read_size(), None);
    assert_eq!(BitcoinProxy::<()>::start_socket_io(&forward), IoAction::Done(false));
    assert!(matches!(
        forward.read_preamble(MAGIC, ReadReply::WouldBlock),
        Err(Error::ConnectionBroken)
    ));
}

#[test]
fn failures_of_a_payload_read() {
    let mut forward = ForwardState::new_at(0);
    assert!(forward.read_preamble(MAGIC, data(&message("tx", &[9; 3])[0..24], 1)).is_ok());
    assert!(matches!(
        forward.read_payload(ReadReply::WouldBlock),
        Err(Error::Blocked)
    ));
    match forward.read_payload(ReadReply::Failed(failure())) {
        Err(Error::ReadError(e)) => assert_eq!(e.kind(), io::ErrorKind::ConnectionReset),
        _ => panic!("the read failed"),
    }
    assert!(matches!(
        forward.read_payload(data(&[], 7)),
        Err(Error::ConnectionBroken)
    ));
    assert_eq!(forward.last_io_at(), 1);
}

#[test]
fn message_without_payload() {
    let verack = message("verack", &[]);
    let mut forward = ForwardState::new_at(0);
    assert!(matches!(forward.read_preamble(MAGIC, data(&verack, 1)), Ok(true)));
    assert_eq!(forward.read_size(), Some(0));
    assert_eq!(forward.pending(), 0);
    assert!(matches!(forward.read_payload(data(&[], 99)), Ok(0)));
    assert_eq!(forward.pending(), 1);
    assert_eq!(forward.due(), Some(&verack[..]));
    // no byte was read
    assert_eq!(forward.last_io_at(), 1);
}

#[test]
fn large_payload_takes_more_than_one_read_and_write() {
    assert_eq!(BUF_SIZE, 65536);
    let bytes = message("block", &vec![5; BUF_SIZE + 10]);
    let mut forward = ForwardState::new_at(0);
    assert!(forward.read_preamble(MAGIC, data(&bytes[0..24], 1)).is_ok());
    assert_eq!(forward.read_size(), Some(BUF_SIZE));
    assert!(matches!(forward.read_payload(data(&bytes[24..24 + BUF_SIZE], 2)), Ok(65536)));
    assert_eq!(forward.read_size(), Some(10));
    assert!(matches!(forward.read_payload(data(&bytes[24 + BUF_SIZE..], 3)), Ok(10)));
    assert_eq!(forward.due(), Some(&bytes[0..BUF_SIZE]));
    let taken = Some(WriteReply::Written { count: BUF_SIZE, at: 4 });
    assert!(matches!(forward.try_flush(taken), Ok(false)));
    assert_eq!(forward.due(), Some(&bytes[BUF_SIZE..]));
    let taken = Some(WriteReply::Written { count: 34, at: 5 });
    assert!(matches!(forward.try_flush(taken), Ok(true)));
    assert_eq!(forward.due(), None);
    assert_eq!(forward.last_io_at(), 5);
    assert_eq!(relay(&bytes, BUF_SIZE, &vec![], &vec![]), bytes);
}

#[test]
fn replies_to_a_write() {
    let bytes = message("verack", &[]);
    let mut forward = ForwardState::new_at(0);
    assert!(matches!(forward.try_flush(None), Ok(true)));
    assert!(forward.read_preamble(MAGIC, data(&bytes, 1)).is_ok());
    assert!(forward.read_payload(data(&[], 1)).is_ok());
    assert!(matches!(
        forward.try_flush(Some(WriteReply::WouldBlock)),
        Err(Error::Blocked)
    ));
    match forward.try_flush(Some(WriteReply::Failed(failure()))) {
        Err(Error::WriteError(e)) => assert_eq!(e.kind(), io::ErrorKind::ConnectionReset),
        _ => panic!("the write failed"),
    }
    // a write of no bytes is no I/O
    let nothing = Some(WriteReply::Written { count: 0, at: 50 });
    assert!(matches!(forward.try_flush(nothing), Ok(false)));
    assert_eq!(forward.last_io_at(), 1);
    let some = Some(WriteReply::Written { count: 20, at: 60 });
    assert!(matches!(forward.try_flush(some), Ok(false)));
    assert_eq!(forward.due(), Some(&bytes[20..]));
    assert_eq!(forward.last_io_at(), 60);
}

#[test]
fn message_is_given_up() {
    let mut forward = ForwardState::new_at(0);
    forward.reset_write();
    assert_eq!(forward.pending(), 0);
    for name in ["tx", "verack"] {
        assert!(forward.read_preamble(MAGIC, data(&message(name, &[]), 1)).is_ok());
        assert!(forward.read_payload(data(&[], 1)).is_ok());
    }
    let some = Some(WriteReply::Written { count: 3, at: 1 });
    assert!(forward.try_flush(some).is_ok());
    forward.reset_write();
    assert_eq!(forward.pending(), 1);
    assert_eq!(forward.due(), Some(&message("verack", &[])[..]));
}

#[test]
fn message_without_bytes_is_skipped() {
    let mut forward = ForwardState::new_at(0);
    assert!(forward.reset_read().is_ok());
    assert_eq!(forward.pending(), 1);
    assert_eq!(forward.due(), None);
    assert!(matches!(forward.try_flush(None), Ok(true)));
    assert_eq!(forward.pending(), 0);
}

#[test]
fn too_many_messages_are_a_burst() {
    assert_eq!(MAX_MSG_BUF_LEN, 128);
    let bytes = message("ping", &[1]);
    let mut forward = ForwardState::new_at(0);
    for _ in 0..129 {
        assert!(forward.read_preamble(MAGIC, data(&bytes[0..24], 1)).is_ok());
        assert!(forward.read_payload(data(&bytes[24..], 1)).is_ok());
    }
    assert_eq!(forward.pending(), 129);
    assert!(forward.read_preamble(MAGIC, data(&bytes[0..24], 1)).is_ok());
    assert!(matches!(
        forward.read_payload(data(&bytes[24..], 1)),
        Err(Error::BurstError)
    ));
    assert!(matches!(forward.reset_read(), Err(Error::BurstError)));
    assert_eq!(forward.pending(), 129);
}

#[test]
fn dropped_messages_are_no_burst() {
    let deny = vec![command("ping")];
    let bytes = message("ping", &[1]);
    let mut forward = ForwardState::new_at(0);
    for _ in 0..500 {
        let turn = forward.read_until_blocked(MAGIC, data(&bytes[0..24], 1), &vec![], &deny);
        assert_eq!(turn, Turn::Again);
        let turn = forward.read_until_blocked(MAGIC, data(&bytes[24..], 1), &vec![], &deny);
        assert_eq!(turn, Turn::Again);
    }
    assert_eq!(forward.pending(), 0);
}

#[test]
fn reads_until_blocked() {
    let none = vec![];
    let deny = vec![command("tx")];
    let bytes = message("tx", &[1, 2]);
    let mut forward = ForwardState::new_at(0);
    let turn = forward.read_until_blocked(MAGIC, ReadReply::WouldBlock, &none, &deny);
    assert_eq!(turn, Turn::Stop(true));
    let turn = forward.read_until_blocked(MAGIC, data(&bytes[0..24], 1), &none, &deny);
    assert_eq!(turn, Turn::Again);
    let turn = forward.read_until_blocked(MAGIC, ReadReply::WouldBlock, &none, &deny);
    assert_eq!(turn, Turn::Stop(true));
    assert!(forward.filtered());
    let turn = forward.read_until_blocked(MAGIC, data(&[], 1), &none, &deny);
    assert_eq!(turn, Turn::Stop(false));
    let turn = forward.read_until_blocked(MAGIC, ReadReply::Failed(failure()), &none, &deny);
    assert_eq!(turn, Turn::Stop(false));
    let turn = forward.read_until_blocked(MAGIC, data(&[1, 2], 1), &none, &deny);
    assert_eq!(turn, Turn::Again);
    assert!(!forward.filtered());
    let turn = forward.read_until_blocked(MAGIC, data(&[], 1), &none, &deny);
    assert_eq!(turn, Turn::Stop(false));
}

#[test]
fn writes_until_blocked() {
    let mut forward = ForwardState::new_at(0);
    assert_eq!(forward.write_until_blocked(None), Turn::Stop(true));
    for _ in 0..2 {
        assert!(forward.read_preamble(MAGIC, data(&message("tx", &[]), 1)).is_ok());
        assert!(forward.read_payload(data(&[], 1)).is_ok());
    }
    let blocked = forward.write_until_blocked(Some(WriteReply::WouldBlock));
    assert_eq!(blocked, Turn::Stop(true));
    let failed = forward.write_until_blocked(Some(WriteReply::Failed(failure())));
    assert_eq!(failed, Turn::Stop(false));
    let some = forward.write_until_blocked(Some(WriteReply::Written { count: 4, at: 1 }));
    assert_eq!(some, Turn::Again);
    let first = forward.write_until_blocked(Some(WriteReply::Written { count: 20, at: 1 }));
    assert_eq!(first, Turn::Again);
    let last = forward.write_until_blocked(Some(WriteReply::Written { count: 24, at: 1 }));
    assert_eq!(last, Turn::Stop(true));
}

#[test]
fn reads_come_before_writes() {
    let bytes = message("tx", &[]);
    let none = vec![];
    let mut forward = ForwardState::new_at(0);
    assert_eq!(BitcoinProxy::<()>::start_socket_io(&forward), IoAction::Read(24));
    let mut turn = |reply: IoReply| {
        BitcoinProxy::<()>::process_socket_io(MAGIC, &none, &none, &mut forward, reply)
    };
    assert_eq!(turn(IoReply::Read(data(&bytes, 1))), IoAction::Read(0));
    assert_eq!(turn(IoReply::Read(data(&[], 1))), IoAction::Read(24));
    assert_eq!(turn(IoReply::Read(ReadReply::WouldBlock)), IoAction::Write);
    assert_eq!(
        turn(IoReply::Write(Some(WriteReply::Written { count: 24, at: 1 }))),
        IoAction::Done(true)
    );
    assert_eq!(
        turn(IoReply::Read(ReadReply::Failed(failure()))),
        IoAction::Done(false)
    );
}

#[test]
fn idle_after_more_than_30_seconds() {
    assert_eq!(IDLE_TIMEOUT, 30_000);
    let forward = ForwardState::new_at(1_000);
    assert!(!forward.is_idle_at(0));
    assert!(!forward.is_idle_at(1_000));
    assert!(!forward.is_idle_at(31_000));
    assert!(forward.is_idle_at(31_001));
    assert!(forward.is_idle_at(u128::MAX));
    assert!(!ForwardState::new_at(u128::MAX).is_idle_at(u128::MAX));
    // long ago
    assert_eq!(forward.is_idle_timeout(), Some(true));
}

#[test]
fn clock_decides_whether_there_is_a_state() {
    assert!(ForwardState::new_by(None).is_none());
    let forward = ForwardState::new_by(Some(1_000)).unwrap();
    assert_eq!(forward.last_io_at(), 1_000);
    assert_eq!(forward.pending(), 0);
    assert_eq!(forward.read_size(), Some(24));
    assert_eq!(forward.is_idle_by(None), None);
    assert_eq!(forward.is_idle_by(Some(31_000)), Some(false));
    assert_eq!(forward.is_idle_by(Some(31_001)), Some(true));
}

#[test]
fn sound_connections_live() {
    // as many messages as may wait, then the beginning of another, byte by byte
    let ping = message("ping", &[1]);
    let dropped = message("block", &[2; 5]);
    let mut stream = vec![];
    for _ in 0..129 {
        stream.extend_from_slice(&dropped);
        stream.extend_from_slice(&ping);
    }
    stream.extend_from_slice(&ping[0..20]);
    let deny = vec![command("block")];
    let mut forward = ForwardState::new_at(0);
    for byte in stream {
        let turn = forward.read_until_blocked(MAGIC, data(&[byte], 1), &vec![], &deny);
        assert_eq!(turn, Turn::Again);
        let turn = forward.read_until_blocked(MAGIC, ReadReply::WouldBlock, &vec![], &deny);
        assert_eq!(turn, Turn::Stop(true));
    }
    assert_eq!(forward.pending(), 129);
    assert_eq!(forward.preamble_buf(), &ping[0..20]);
}

#[test]
fn writing_drains() {
    let mut forward = ForwardState::new_at(0);
    let mut waiting = vec![];
    for payload in [&[1u8, 2, 3][..], &[], &[4; 40]] {
        let bytes = message("tx", payload);
        assert!(forward.read_preamble(MAGIC, data(&bytes[0..24], 1)).is_ok());
        assert!(forward.read_payload(data(&bytes[24..], 1)).is_ok());
        waiting.extend_from_slice(&bytes);
    }
    let mut written = vec![];
    let mut writes = 0;
    loop {
        let reply = forward.due().map(|bytes| {
            written.push(bytes[0]);
            WriteReply::Written { count: 1, at: 1 }
        });
        writes += 1;
        match forward.write_until_blocked(reply) {
            Turn::Again => {}
            stop => {
                assert_eq!(stop, Turn::Stop(true));
                break;
            }
        }
    }
    assert_eq!(written, waiting);
    assert!(writes <= waiting.len() + 3);
    assert_eq!(forward.pending(), 0);
}
