//! The forwarding state and the firewall, driven by readers and writers.

use bitcoin_p2p_firewall::clock::get_epoch_time_ms;
use bitcoin_p2p_firewall::command::BitcoinCommand;
use bitcoin_p2p_firewall::error::Error;
use bitcoin_p2p_firewall::forward::ForwardState;
use bitcoin_p2p_firewall::io::{IoAction, IoReply, ReadReply, WriteReply};
use bitcoin_p2p_firewall::preamble::BitcoinPreamble;
use bitcoin_p2p_firewall::proxy::BitcoinProxy;
use std::io;
use std::io::Cursor;
use std::io::{Read, Write};

/// A Cursor container that will return EWOULDBLOCK after reading a given number of bytes.
/// Used to test EWOULDBLOCK handling without actually setting up sockets.
pub struct BlockingCursor<T> {
    inner: Cursor<T>,
    block_window: usize,
    block: bool,
}

impl<T: AsRef<[u8]>> BlockingCursor<T> {
    pub fn new(cursor: Cursor<T>, block_window: usize) -> BlockingCursor<T> {
        BlockingCursor {
            inner: cursor,
            block_window: block_window,
            block: false,
        }
    }

    pub fn destruct(self) -> Cursor<T> {
        self.inner
    }
}

impl<T: AsRef<[u8]>> Read for BlockingCursor<T> {
    fn read(&mut self, bytes: &mut [u8]) -> io::Result<usize> {
        if self.block {
            self.block = false;
            return Err(io::Error::from(io::ErrorKind::WouldBlock));
        }
        self.block = true;
        if bytes.len() > self.block_window {
            self.inner.read(&mut bytes[0..self.block_window])
        } else {
            self.inner.read(bytes)
        }
    }
}

impl Write for BlockingCursor<&mut Vec<u8>> {
    fn write(&mut self, bytes: &[u8]) -> io::Result<usize> {
        if self.block {
            self.block = false;
            return Err(io::Error::from(io::ErrorKind::WouldBlock));
        }
        self.block = true;
        if bytes.len() > self.block_window {
            self.inner.write(&bytes[0..self.block_window])
        } else {
            self.inner.write(bytes)
        }
    }

    fn flush(&mut self) -> io::Result<()> {
        self.inner.flush()
    }
}

fn now() -> u128 {
    get_epoch_time_ms().unwrap()
}

/// Reads at most `size` bytes.
fn read_from<R: Read>(input: &mut R, size: usize) -> ReadReply {
    let mut buf = vec![0u8; size];
    match input.read(&mut buf) {
        Ok(nr) => {
            buf.truncate(nr);
            ReadReply::Data { bytes: buf, at: now() }
        }
        Err(e) => match e.kind() {
            io::ErrorKind::WouldBlock => ReadReply::WouldBlock,
            _ => ReadReply::Failed(e),
        },
    }
}

/// Writes what is due.
fn write_to<W: Write>(output: &mut W, forward: &ForwardState) -> Option<WriteReply> {
    forward.due().map(|bytes| match output.write(bytes) {
        Ok(nw) => WriteReply::Written { count: nw, at: now() },
        Err(e) => match e.kind() {
            io::ErrorKind::WouldBlock => WriteReply::WouldBlock,
            _ => WriteReply::Failed(e),
        },
    })
}

/// Reads from one end and writes to the other until both would block.
fn process_socket_io<R: Read, W: Write>(
    magic: u32,
    allow_list: &Vec<BitcoinCommand>,
    deny_list: &Vec<BitcoinCommand>,
    inbound: &mut R,
    forward: &mut ForwardState,
    outbound: &mut W,
) -> bool {
    let mut action = BitcoinProxy::<()>::start_socket_io(forward);
    loop {
        let reply = match action {
            IoAction::Read(size) => IoReply::Read(read_from(inbound, size)),
            IoAction::Write => IoReply::Write(write_to(outbound, forward)),
            IoAction::Done(alive) => return alive,
        };
        action =
            BitcoinProxy::<()>::process_socket_io(magic, allow_list, deny_list, forward, reply);
    }
}

#[test]
fn test_parse_preamble() {
    let message_bytes = vec![
        // magic
        0xd9, 0xb4, 0xbe, 0xf9, // command (verack)
        0x76, 0x65, 0x72, 0x61, 0x63, 0x6b, 0x00, 0x00, 0x00, 0x00, 0x00, 0x00,
        // length (1234)
        0x0d2, 0x04, 0x00, 0x00, // checksum (0x12345678)
        0x78, 0x56, 0x34, 0x12,
    ];
    let preamble = ForwardState::parse_preamble(0xf9beb4d9, &message_bytes).unwrap();
    assert_eq!(
        preamble,
        BitcoinPreamble::new(0xf9beb4d9, "verack", 1234, 0x12345678)
    );

    // bad magic
    assert!(ForwardState::parse_preamble(0xD9B4BEF8, &message_bytes).is_none());
}

#[test]
fn test_read_message() {
    let message_bytes = vec![
        // magic
        0xd9, 0xb4, 0xbe, 0xf9, // command (verack)
        0x76, 0x65, 0x72, 0x61, 0x63, 0x6b, 0x00, 0x00, 0x00, 0x00, 0x00, 0x00,
        // length (16)
        0x10, 0x00, 0x00, 0x00, // checksum (0x78563412)
        0x12, 0x34, 0x56, 0x78, // payload
        0x00, 0x01, 0x02, 0x03, 0x04, 0x05, 0x06, 0x07, 0x08, 0x09, 0x0a, 0x0b, 0x0c, 0x0d,
        0x0e, 0x0f,
    ];

    let mut f = ForwardState::new().unwrap();
    let mut fd = io::Cursor::new(&message_bytes);
    let mut output = vec![];

    let size = f.read_size().unwrap();
    let res = f.read_preamble(0xf9beb4d9, read_from(&mut fd, size)).unwrap();
    assert!(res, "Failed to read preamble");

    assert!(f.preamble().is_some());
    assert_eq!(
        f.preamble(),
        Some(&BitcoinPreamble::new(0xf9beb4d9, "verack", 16, 0x78563412))
    );
    assert_eq!(f.num_read(), 0);

    let reply = write_to(&mut output, &f);
    let res = f.try_flush(reply).unwrap();
    assert!(res);

    let mut total = 0;
    loop {
        let size = f.read_size().unwrap();
        match f.read_payload(read_from(&mut fd, size)) {
            Ok(sz) => {
                total += sz;
                if total >= 16 {
                    break;
                }
            }
            Err(Error::Blocked) => {
                break;
            }
            Err(e) => {
                panic!("{:?}", &e);
            }
        }
    }

    loop {
        let reply = write_to(&mut output, &f);
        let res = f.try_flush(reply).unwrap();
        if res {
            break;
        }
    }

    assert_eq!(output, message_bytes);
    assert!(f.preamble().is_none());
    assert_eq!(f.preamble_buf().len(), 0);
    assert_eq!(f.num_read(), 0);
}

#[test]
fn test_socket_io() {
    let stream_bytes = vec![
        // magic
        0xd9, 0xb4, 0xbe, 0xf9, // command (version)
        0x76, 0x65, 0x72, 0x73, 0x69, 0x6f, 0x6e, 0x00, 0x00, 0x00, 0x00, 0x00,
        // length (8)
        0x08, 0x00, 0x00, 0x00, // checksum (0x12345678)
        0x78, 0x56, 0x34, 0x12, // payload
        0x00, 0x01, 0x02, 0x03, 0x04, 0x05, 0x06, 0x07, // magic
        0xd9, 0xb4, 0xbe, 0xf9, // command (verack)
        0x76, 0x65, 0x72, 0x61, 0x63, 0x6b, 0x00, 0x00, 0x00, 0x00, 0x00, 0x00,
        // length (16)
        0x10, 0x00, 0x00, 0x00, // checksum (0x22334455)
        0x55, 0x44, 0x33, 0x22, // payload
        0x10, 0x11, 0x12, 0x13, 0x14, 0x15, 0x16, 0x17, 0x18, 0x19, 0x1a, 0x1b, 0x1c, 0x1d,
        0x1e, 0x1f, // magic
        0xd9, 0xb4, 0xbe, 0xf9, // command (ping)
        0x70, 0x69, 0x6e, 0x67, 0x00, 0x00, 0x00, 0x00, 0x00, 0x00, 0x00, 0x00,
        // length (4)
        0x04, 0x00, 0x00, 0x00, // checksum (0x33445566)
        0x33, 0x44, 0x55, 0x66, // payload
        0x20, 0x21, 0x22, 0x23,
    ];

    let mut f = ForwardState::new().unwrap();
    let inner_fd = io::Cursor::new(&stream_bytes);
    let mut inner_output = vec![];

    let mut fd = BlockingCursor::new(inner_fd, 10);
    let mut output = BlockingCursor::new(io::Cursor::new(&mut inner_output), 10);

    for _ in 0..stream_bytes.len() {
        process_socket_io(
            0xf9beb4d9,
            &vec![],
            &vec![],
            &mut fd,
            &mut f,
            &mut output,
        );
    }

    let inner_fd = fd.destruct();
    let inner_output = output.destruct();

    assert_eq!(inner_fd.position(), stream_bytes.len() as u64);
    assert_eq!(**inner_output.get_ref(), stream_bytes);
}

#[test]
fn test_socket_io_allow_list() {
    let stream_bytes = vec![
        // magic
        0xd9, 0xb4, 0xbe, 0xf9, // command (version)
        0x76, 0x65, 0x72, 0x73, 0x69, 0x6f, 0x6e, 0x00, 0x00, 0x00, 0x00, 0x00,
        // length (8)
        0x08, 0x00, 0x00, 0x00, // checksum (0x12345678)
        0x78, 0x56, 0x34, 0x12, // payload
        0x00, 0x01, 0x02, 0x03, 0x04, 0x05, 0x06, 0x07, // magic
        0xd9, 0xb4, 0xbe, 0xf9, // command (verack)
        0x76, 0x65, 0x72, 0x61, 0x63, 0x6b, 0x00, 0x00, 0x00, 0x00, 0x00, 0x00,
        // length (16)
        0x10, 0x00, 0x00, 0x00, // checksum (0x22334455)
        0x55, 0x44, 0x33, 0x22, // payload
        0x10, 0x11, 0x12, 0x13, 0x14, 0x15, 0x16, 0x17, 0x18, 0x19, 0x1a, 0x1b, 0x1c, 0x1d,
        0x1e, 0x1f, // magic
        0xd9, 0xb4, 0xbe, 0xf9, // command (ping)
        0x70, 0x69, 0x6e, 0x67, 0x00, 0x00, 0x00, 0x00, 0x00, 0x00, 0x00, 0x00,
        // length (4)
        0x04, 0x00, 0x00, 0x00, // checksum (0x33445566)
        0x66, 0x55, 0x44, 0x33, // payload
        0x20, 0x21, 0x22, 0x23,
    ];

    let filtered_stream_bytes = vec![
        // magic
        0xd9, 0xb4, 0xbe, 0xf9, // command (version)
        0x76, 0x65, 0x72, 0x73, 0x69, 0x6f, 0x6e, 0x00, 0x00, 0x00, 0x00, 0x00,
        // length (8)
        0x08, 0x00, 0x00, 0x00, // checksum (0x12345678)
        0x78, 0x56, 0x34, 0x12, // payload
        0x00, 0x01, 0x02, 0x03, 0x04, 0x05, 0x06, 0x07, // magic
        0xd9, 0xb4, 0xbe, 0xf9, // command (ping)
        0x70, 0x69, 0x6e, 0x67, 0x00, 0x00, 0x00, 0x00, 0x00, 0x00, 0x00, 0x00,
        // length (4)
        0x04, 0x00, 0x00, 0x00, // checksum (0x33445566)
        0x66, 0x55, 0x44, 0x33, // payload
        0x20, 0x21, 0x22, 0x23,
    ];

    let mut f = ForwardState::new().unwrap();
    let inner_fd = io::Cursor::new(&stream_bytes);
    let mut inner_output = vec![];

    let mut fd = BlockingCursor::new(inner_fd, 10);
    let mut output = BlockingCursor::new(io::Cursor::new(&mut inner_output), 10);

    for _ in 0..stream_bytes.len() {
        process_socket_io(
            0xf9beb4d9,
            &vec![
                BitcoinCommand::from_str("version").unwrap(),
                BitcoinCommand::from_str("ping").unwrap(),
            ],
            &vec![],
            &mut fd,
            &mut f,
            &mut output,
        );
    }

    let inner_fd = fd.destruct();
    let inner_output = output.destruct();

    assert_eq!(inner_fd.position(), stream_bytes.len() as u64);
    assert_eq!(**inner_output.get_ref(), filtered_stream_bytes);
}

#[test]
fn test_socket_io_deny_list() {
    let stream_bytes = vec![
        // magic
        0xd9, 0xb4, 0xbe, 0xf9, // command (version)
        0x76, 0x65, 0x72, 0x73, 0x69, 0x6f, 0x6e, 0x00, 0x00, 0x00, 0x00, 0x00,
        // length (8)
        0x08, 0x00, 0x00, 0x00, // checksum (0x12345678)
        0x78, 0x56, 0x34, 0x12, // payload
        0x00, 0x01, 0x02, 0x03, 0x04, 0x05, 0x06, 0x07, // magic
        0xd9, 0xb4, 0xbe, 0xf9, // command (verack)
        0x76, 0x65, 0x72, 0x61, 0x63, 0x6b, 0x00, 0x00, 0x00, 0x00, 0x00, 0x00,
        // length (16)
        0x10, 0x00, 0x00, 0x00, // checksum (0x22334455)
        0x55, 0x44, 0x33, 0x22, // payload
        0x10, 0x11, 0x12, 0x13, 0x14, 0x15, 0x16, 0x17, 0x18, 0x19, 0x1a, 0x1b, 0x1c, 0x1d,
        0x1e, 0x1f, // magic
        0xd9, 0xb4, 0xbe, 0xf9, // command (ping)
        0x70, 0x69, 0x6e, 0x67, 0x00, 0x00, 0x00, 0x00, 0x00, 0x00, 0x00, 0x00,
        // length (4)
        0x04, 0x00, 0x00, 0x00, // checksum (0x33445566)
        0x66, 0x55, 0x44, 0x33, // payload
        0x20, 0x21, 0x22, 0x23,
    ];

    let filtered_stream_bytes = vec![
        // magic
        0xd9, 0xb4, 0xbe, 0xf9, // command (version)
        0x76, 0x65, 0x72, 0x73, 0x69, 0x6f, 0x6e, 0x00, 0x00, 0x00, 0x00, 0x00,
        // length (8)
        0x08, 0x00, 0x00, 0x00, // checksum (0x12345678)
        0x78, 0x56, 0x34, 0x12, // payload
        0x00, 0x01, 0x02, 0x03, 0x04, 0x05, 0x06, 0x07, // magic
        0xd9, 0xb4, 0xbe, 0xf9, // command (ping)
        0x70, 0x69, 0x6e, 0x67, 0x00, 0x00, 0x00, 0x00, 0x00, 0x00, 0x00, 0x00,
        // length (4)
        0x04, 0x00, 0x00, 0x00, // checksum (0x33445566)
        0x66, 0x55, 0x44, 0x33, // payload
        0x20, 0x21, 0x22, 0x23,
    ];

    let mut f = ForwardState::new().unwrap();
    let inner_fd = io::Cursor::new(&stream_bytes);
    let mut inner_output = vec![];

    let mut fd = BlockingCursor::new(inner_fd, 10);
    let mut output = BlockingCursor::new(io::Cursor::new(&mut inner_output), 10);

    for _ in 0..stream_bytes.len() {
        process_socket_io(
            0xf9beb4d9,
            &vec![],
            &vec![BitcoinCommand::from_str("verack").unwrap()],
            &mut fd,
            &mut f,
            &mut output,
        );
    }

    let inner_fd = fd.destruct();
    let inner_output = output.destruct();

    assert_eq!(inner_fd.position(), stream_bytes.len() as u64);
    assert_eq!(**inner_output.get_ref(), filtered_stream_bytes);
}
