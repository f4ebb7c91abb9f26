//! The fixed-size header that every Bitcoin message starts with.

use crate::command::{padded, BitcoinCommand, COMMAND_LEN};
use vstd::prelude::*;
use vstd::utf8::encode_utf8;

verus! {

/// Bytes in a message header: magic, command, payload length and checksum.
pub const PREAMBLE_LEN: usize = 24;

/// Bitcoin message header.  Note that it's fixed-sized.
#[derive(Debug, PartialEq)]
pub struct BitcoinPreamble {
    pub magic: u32,
    pub command: BitcoinCommand,
    pub length: u32,
    pub checksum: u32,
}

/// What a header says.
pub struct Header {
    pub magic: u32,
    pub command: Seq<u8>,
    pub length: u32,
    pub checksum: u32,
}

impl View for BitcoinPreamble {
    type V = Header;

    open spec fn view(&self) -> Header {
        Header {
            magic: self.magic,
            command: self.command@,
            length: self.length,
            checksum: self.checksum,
        }
    }
}

/// The number that the four bytes at `at` hold, least significant byte first.
pub open spec fn le32(buf: Seq<u8>, at: int) -> u32 {
    (buf[at] + 0x100 * buf[at + 1] + 0x1_0000 * buf[at + 2] + 0x100_0000 * buf[at + 3]) as u32
}

/// The header that the first 24 bytes of `buf` hold.  None if there are fewer, or if they do not
/// start with the expected magic.
pub open spec fn decode_header(magic: u32, buf: Seq<u8>) -> Option<Header> {
    if buf.len() < PREAMBLE_LEN || le32(buf, 0) != magic {
        None
    } else {
        Some(
            Header {
                magic,
                command: buf.subrange(4, 16),
                length: le32(buf, 16),
                checksum: le32(buf, 20),
            },
        )
    }
}

/// The four bytes of a number, least significant byte first.
pub open spec fn le_bytes(n: u32) -> Seq<u8> {
    seq![
        (n % 0x100) as u8,
        ((n / 0x100) % 0x100) as u8,
        ((n / 0x1_0000) % 0x100) as u8,
        (n / 0x100_0000) as u8,
    ]
}

/// A header as it goes over the wire.
pub open spec fn encode_header(h: Header) -> Seq<u8> {
    le_bytes(h.magic) + h.command + le_bytes(h.length) + le_bytes(h.checksum)
}

/// Reads the four bytes at `at`, least significant byte first.
pub(crate) fn read_le32(buf: &[u8], at: usize) -> (r: u32)
    requires
        at + 4 <= buf@.len(),
    ensures
        r == le32(buf@, at as int),
{
    buf[at] as u32 + 0x100 * (buf[at + 1] as u32) + 0x1_0000 * (buf[at + 2] as u32) + 0x100_0000 * (
    buf[at + 3] as u32)
}

impl BitcoinPreamble {
    /// A header for a command given by its name, which takes at most 12 bytes.
    pub fn new(magic: u32, command: &str, length: u32, checksum: u32) -> (r: BitcoinPreamble)
        requires
            encode_utf8(command@).len() <= COMMAND_LEN,
        ensures
            r@ == (Header { magic, command: padded(encode_utf8(command@)), length, checksum }),
    {
        BitcoinPreamble {
            magic,
            command: BitcoinCommand::from_str(command).unwrap(),
            length,
            checksum,
        }
    }
}

/// The four bytes of a number give the number back.
proof fn lemma_le_bytes(n: u32)
    ensures
        le32(le_bytes(n), 0) == n,
{
}

/// Four bytes are the bytes of the number they hold.
proof fn lemma_le32(buf: Seq<u8>, at: int)
    requires
        0 <= at,
        at + 4 <= buf.len(),
    ensures
        le_bytes(le32(buf, at)) == buf.subrange(at, at + 4),
{
    let (a, b, c, d) = (buf[at] as int, buf[at + 1] as int, buf[at + 2] as int, buf[at + 3] as int);
    let n = a + 0x100 * b + 0x1_0000 * c + 0x100_0000 * d;
    assert(n % 0x100 == a);
    assert((n / 0x100) % 0x100 == b);
    assert((n / 0x1_0000) % 0x100 == c);
    assert(n / 0x100_0000 == d);
    assert(le_bytes(le32(buf, at)) =~= buf.subrange(at, at + 4));
}

/// A header is read back from the bytes it is written as, whatever follows them.
pub proof fn law_header_round_trip(h: Header, rest: Seq<u8>)
    requires
        h.command.len() == COMMAND_LEN,
    ensures
        encode_header(h).len() == PREAMBLE_LEN,
        decode_header(h.magic, encode_header(h) + rest) == Some(h),
{
    let buf = encode_header(h) + rest;
    lemma_le_bytes(h.magic);
    lemma_le_bytes(h.length);
    lemma_le_bytes(h.checksum);
    assert(le32(buf, 0) == le32(le_bytes(h.magic), 0));
    assert(le32(buf, 16) == le32(le_bytes(h.length), 0));
    assert(le32(buf, 20) == le32(le_bytes(h.checksum), 0));
    assert(buf.subrange(4, 16) =~= h.command);
}

/// Bytes that hold a header are the bytes that the header is written as.
pub proof fn law_header_is_its_bytes(magic: u32, buf: Seq<u8>)
    ensures
        decode_header(magic, buf) matches Some(h) ==> encode_header(h) == buf.take(
            PREAMBLE_LEN as int,
        ),
{
    if let Some(h) = decode_header(magic, buf) {
        lemma_le32(buf, 0);
        lemma_le32(buf, 16);
        lemma_le32(buf, 20);
        assert(encode_header(h) =~= buf.subrange(0, 4) + buf.subrange(4, 16) + buf.subrange(16, 20)
            + buf.subrange(20, 24));
        assert(encode_header(h) =~= buf.take(PREAMBLE_LEN as int));
    }
}

/// Only the first 24 bytes make the header.
pub proof fn law_header_needs_24_bytes(magic: u32, buf: Seq<u8>, rest: Seq<u8>)
    requires
        buf.len() >= PREAMBLE_LEN,
    ensures
        decode_header(magic, buf + rest) == decode_header(magic, buf),
{
    assert((buf + rest).subrange(4, 16) =~= buf.subrange(4, 16));
}

/// The checksum is ignored: whether there is a header, and what else it says, does not depend on
/// it.
pub proof fn law_checksum_is_ignored(magic: u32, a: Seq<u8>, b: Seq<u8>)
    requires
        a.len() >= PREAMBLE_LEN,
        b.len() >= PREAMBLE_LEN,
        a.take(20) == b.take(20),
    ensures
        decode_header(magic, a) is Some <==> decode_header(magic, b) is Some,
        decode_header(magic, a) matches Some(h) ==> decode_header(magic, b) == Some(
            Header { checksum: le32(b, 20), ..h },
        ),
{
    assert forall|i: int| 0 <= i < 20 implies a[i] == b[i] by {
        assert(a[i] == a.take(20)[i]);
        assert(b[i] == b.take(20)[i]);
    }
    assert(a.subrange(4, 16) =~= b.subrange(4, 16));
}

/// There is a header exactly if there are 24 bytes or more and the first four are those of the
/// magic, least significant first.
pub proof fn law_headers_start_with_the_magic(magic: u32, buf: Seq<u8>)
    ensures
        decode_header(magic, buf) is Some <==> {
            &&& buf.len() >= 24
            &&& buf[0] == magic % 256
            &&& buf[1] == (magic / 256) % 256
            &&& buf[2] == (magic / 65536) % 256
            &&& buf[3] == magic / 16777216
        },
{
    if buf.len() >= 24 {
        lemma_le32(buf, 0);
        lemma_le_bytes(magic);
        let first = buf.subrange(0, 4);
        assert(first[0] == buf[0] && first[1] == buf[1] && first[2] == buf[2] && first[3]
            == buf[3]);
        if buf[0] == magic % 256 && buf[1] == (magic / 256) % 256 && buf[2] == (magic / 65536) % 256
            && buf[3] == magic / 16777216 {
            assert(first =~= le_bytes(magic));
            assert(le32(buf, 0) == le32(first, 0));
        }
    }
}

/// What a header says, byte by byte: after the magic come 12 bytes of command, then the length and
/// the checksum, four bytes each, least significant first.
pub proof fn law_headers_say_what_their_bytes_say(magic: u32, buf: Seq<u8>)
    ensures
        decode_header(magic, buf) matches Some(h) ==> {
            &&& h.magic == magic
            &&& h.command.len() == 12
            &&& forall|i: int| 0 <= i < 12 ==> #[trigger] h.command[i] == buf[4 + i]
            &&& buf[16] == h.length % 256
            &&& buf[17] == (h.length / 256) % 256
            &&& buf[18] == (h.length / 65536) % 256
            &&& buf[19] == h.length / 16777216
            &&& buf[20] == h.checksum % 256
            &&& buf[21] == (h.checksum / 256) % 256
            &&& buf[22] == (h.checksum / 65536) % 256
            &&& buf[23] == h.checksum / 16777216
        },
{
    if let Some(h) = decode_header(magic, buf) {
        lemma_le32(buf, 16);
        lemma_le32(buf, 20);
        let (length, checksum) = (buf.subrange(16, 20), buf.subrange(20, 24));
        assert(length[0] == buf[16] && length[1] == buf[17] && length[2] == buf[18] && length[3]
            == buf[19]);
        assert(checksum[0] == buf[20] && checksum[1] == buf[21] && checksum[2] == buf[22]
            && checksum[3] == buf[23]);
    }
}

/// A parsed header is its four fields.
pub proof fn law_headers_are_their_fields(preamble: BitcoinPreamble)
    ensures
        preamble@.magic == preamble.magic,
        preamble@.command == preamble.command.0@,
        preamble@.length == preamble.length,
        preamble@.checksum == preamble.checksum,
{
}

} // verus!
