//! Commands, headers, errors, log levels and the clock.

use bitcoin_p2p_firewall::clock::get_epoch_time_ms;
use bitcoin_p2p_firewall::command::{BitcoinCommand, COMMAND_LEN};
use bitcoin_p2p_firewall::error::Error;
use bitcoin_p2p_firewall::forward::ForwardState;
use bitcoin_p2p_firewall::log::{
    get_loglevel, is_logged, set_loglevel, LogConfig, LOG_DEBUG, LOG_ERROR, LOG_INFO, LOG_WARN,
};
use bitcoin_p2p_firewall::preamble::{BitcoinPreamble, PREAMBLE_LEN};
use std::io;

const MAGIC: u32 = 0xf9beb4d9;

fn verack_header() -> Vec<u8> {
    vec![
        0xd9, 0xb4, 0xbe, 0xf9, 0x76, 0x65, 0x72, 0x61, 0x63, 0x6b, 0x00, 0x00, 0x00, 0x00, 0x00,
        0x00, 0x10, 0x00, 0x00, 0x00, 0x12, 0x34, 0x56, 0x78,
    ]
}

#[test]
fn command_is_padded_with_zeros() {
    assert_eq!(COMMAND_LEN, 12);
    let ping = BitcoinCommand::from_str("ping").unwrap();
    assert_eq!(ping.0, [0x70, 0x69, 0x6e, 0x67, 0, 0, 0, 0, 0, 0, 0, 0]);
    assert_eq!(BitcoinCommand::from_str("").unwrap().0, [0u8; 12]);
}

#[test]
fn command_of_twelve_bytes_is_the_longest() {
    let full = BitcoinCommand::from_str("abcdefghijkl").unwrap();
    assert_eq!(&full.0, b"abcdefghijkl");
    assert!(BitcoinCommand::from_str("abcdefghijklm").is_none());
    // bytes count, not characters
    assert!(BitcoinCommand::from_str("éééééé").is_some());
    assert!(BitcoinCommand::from_str("ééééééé").is_none());
}

#[test]
fn command_keeps_its_name() {
    for name in ["", "tx", "verack", "abcdefghijkl", "é"] {
        assert_eq!(BitcoinCommand::from_str(name).unwrap().to_string(), name);
    }
}

#[test]
fn commands_tell_names_apart() {
    let block = BitcoinCommand::from_str("block").unwrap();
    let blocks = BitcoinCommand::from_str("blocks").unwrap();
    assert!(block != blocks);
    assert!(block == block.clone());
    assert_ne!(block.to_string(), blocks.to_string());
}

#[test]
fn command_text_ends_at_the_first_zero() {
    let command = BitcoinCommand(*b"tx\0ignored\0\0");
    assert_eq!(command.to_string(), "tx");
    assert_eq!(BitcoinCommand(*b"\0x\0\0\0\0\0\0\0\0\0\0").to_string(), "");
}

#[test]
fn command_that_is_not_utf8_is_unknown() {
    assert_eq!(BitcoinCommand([0xff; 12]).to_string(), "#UNKNOWN");
    // a character cut short by the end of the field
    assert_eq!(BitcoinCommand(*b"abcdefghijk\xc3").to_string(), "#UNKNOWN");
    // what follows the zero byte does not matter
    assert_eq!(BitcoinCommand(*b"ok\0\xff\0\0\0\0\0\0\0\0").to_string(), "ok");
}

#[test]
fn header_fields_are_little_endian() {
    assert_eq!(PREAMBLE_LEN, 24);
    let header = ForwardState::parse_preamble(MAGIC, &verack_header()).unwrap();
    assert_eq!(header, BitcoinPreamble::new(MAGIC, "verack", 16, 0x78563412));
    let mut bytes = verack_header();
    bytes[16..20].copy_from_slice(&[0x04, 0x03, 0x02, 0xff]);
    let header = ForwardState::parse_preamble(MAGIC, &bytes).unwrap();
    assert_eq!(header.length, 0xff020304);
}

#[test]
fn header_round_trip() {
    let mut bytes = vec![];
    bytes.extend_from_slice(&0xDAB5BFFAu32.to_le_bytes());
    bytes.extend_from_slice(&BitcoinCommand::from_str("cmpctblock").unwrap().0);
    bytes.extend_from_slice(&u32::MAX.to_le_bytes());
    bytes.extend_from_slice(&7u32.to_le_bytes());
    let header = ForwardState::parse_preamble(0xDAB5BFFA, &bytes).unwrap();
    assert_eq!(header, BitcoinPreamble::new(0xDAB5BFFA, "cmpctblock", u32::MAX, 7));
    assert_eq!(header.command.to_string(), "cmpctblock");
}

#[test]
fn header_needs_24_bytes() {
    let bytes = verack_header();
    assert!(ForwardState::parse_preamble(MAGIC, &bytes[0..23]).is_none());
    assert!(ForwardState::parse_preamble(MAGIC, &[]).is_none());
    let mut longer = bytes.clone();
    longer.push(0xaa);
    assert_eq!(
        ForwardState::parse_preamble(MAGIC, &longer),
        ForwardState::parse_preamble(MAGIC, &bytes)
    );
}

#[test]
fn checksum_is_ignored() {
    let mut bytes = verack_header();
    bytes[20..24].copy_from_slice(&[0, 0, 0, 0]);
    let header = ForwardState::parse_preamble(MAGIC, &bytes).unwrap();
    assert_eq!(header, BitcoinPreamble::new(MAGIC, "verack", 16, 0));
}

#[test]
fn errors_in_words() {
    let words = [
        (Error::RecvTimeout, "Packet receive timeout"),
        (Error::ConnectionBroken, "connection to peer node is broken"),
        (
            Error::ConnectionError,
            "connection to peer could not be (re-)established",
        ),
        (Error::BindError, "Failed to bind to the given address"),
        (Error::PollError, "Failed to poll"),
        (Error::AcceptError, "Failed to accept connection"),
        (Error::RegisterError, "Failed to register socket with poller"),
        (Error::SocketError, "Socket error"),
        (Error::NotConnected, "Not connected to peer network"),
        (Error::Blocked, "EWOULDBLOCK"),
        (Error::BurstError, "Stream is sending too much data"),
    ];
    for (error, text) in words {
        assert_eq!(error.message(), text);
        assert!(error.cause().is_none());
    }
}

#[test]
fn io_errors_word_themselves() {
    let read = Error::ReadError(io::Error::new(io::ErrorKind::Other, "cable cut"));
    assert_eq!(read.message(), "cable cut");
    assert_eq!(read.cause().unwrap().kind(), io::ErrorKind::Other);
    let write = Error::WriteError(io::Error::from(io::ErrorKind::BrokenPipe));
    assert_eq!(
        write.message(),
        io::Error::from(io::ErrorKind::BrokenPipe).to_string()
    );
    assert_eq!(write.cause().unwrap().kind(), io::ErrorKind::BrokenPipe);
}

#[test]
fn log_levels() {
    assert_eq!((LOG_ERROR, LOG_WARN, LOG_INFO, LOG_DEBUG), (1, 2, 3, 4));
    let mut config = LogConfig::new();
    assert_eq!(get_loglevel(&config), LOG_DEBUG);
    for level in 1..=4 {
        assert_eq!(set_loglevel(&mut config, level), Ok(()));
        assert_eq!(get_loglevel(&config), level);
    }
    assert_eq!(set_loglevel(&mut config, 2), Ok(()));
    for bad in [0, 5, 255] {
        assert_eq!(
            set_loglevel(&mut config, bad),
            Err("Invalid log level".to_string())
        );
        assert_eq!(get_loglevel(&config), 2);
    }
    assert!(is_logged(&config, LOG_ERROR));
    assert!(is_logged(&config, LOG_WARN));
    assert!(!is_logged(&config, LOG_INFO));
    assert!(!is_logged(&config, LOG_DEBUG));
}

#[test]
fn clock_counts_milliseconds() {
    // between the years 2020 and 2286
    let now = get_epoch_time_ms().unwrap();
    assert!(now > 1_577_836_800_000);
    assert!(now < 10_000_000_000_000);
    assert!(get_epoch_time_ms().unwrap() >= now);
}
