//! The command field of a Bitcoin message header.

use vstd::prelude::*;
use vstd::std_specs::cmp::PartialEqSpec;
use vstd::string::*;
use vstd::utf8::*;

verus! {

/// Bytes in the command field of a header.
pub const COMMAND_LEN: usize = 12;

/// The "message type" field in a Bitcoin message header.  Always 12 bytes; a name that is shorter
/// is filled up with zero bytes.
#[derive(Debug, Clone, Eq)]
pub struct BitcoinCommand(pub [u8; 12]);

impl View for BitcoinCommand {
    type V = Seq<u8>;

    open spec fn view(&self) -> Seq<u8> {
        self.0@
    }
}

impl PartialEq for BitcoinCommand {
    fn eq(&self, other: &Self) -> (r: bool) {
        let mut i: usize = 0;
        while i < 12
            invariant
                i <= 12,
                forall|j: int| 0 <= j < i ==> self.0@[j] == other.0@[j],
            decreases 12 - i,
        {
            if self.0[i] != other.0[i] {
                return false;
            }
            i = i + 1;
        }
        assert(self.0@ =~= other.0@);
        true
    }
}

impl vstd::std_specs::cmp::PartialEqSpecImpl for BitcoinCommand {
    open spec fn obeys_eq_spec() -> bool {
        true
    }

    open spec fn eq_spec(&self, other: &Self) -> bool {
        self@ == other@
    }
}

/// A name of at most 12 bytes as it stands in a header.
pub open spec fn padded(name: Seq<u8>) -> Seq<u8> {
    name + Seq::new((COMMAND_LEN - name.len()) as nat, |i: int| 0u8)
}

/// The bytes of a command before its first zero byte.
pub open spec fn before_nul(bytes: Seq<u8>) -> Seq<u8>
    decreases bytes.len(),
{
    if bytes.len() == 0 || bytes[0] == 0 {
        seq![]
    } else {
        seq![bytes[0]] + before_nul(bytes.drop_first())
    }
}

/// The text that a command is shown as.
pub open spec fn command_text(bytes: Seq<u8>) -> Seq<char> {
    if valid_utf8(before_nul(bytes)) {
        decode_utf8(before_nul(bytes))
    } else {
        "#UNKNOWN"@
    }
}

/// `String::from_utf8`: gives the text that the bytes encode where they are UTF-8, and fails
/// where they are not.
#[verifier::external_body]
fn text_of_utf8(bytes: Vec<u8>) -> (r: Option<String>)
    ensures
        r is Some <==> valid_utf8(bytes@),
        r matches Some(s) ==> s@ == decode_utf8(bytes@),
{
    String::from_utf8(bytes).ok()
}

/// If the first `n` bytes are not zero and the next one, if there is one, is, then the bytes before
/// the first zero byte are these `n`.
proof fn lemma_before_nul(bytes: Seq<u8>, n: int)
    requires
        0 <= n <= bytes.len(),
        forall|i: int| 0 <= i < n ==> bytes[i] != 0,
        n < bytes.len() ==> bytes[n] == 0,
    ensures
        before_nul(bytes) == bytes.take(n),
    decreases n,
{
    if n > 0 {
        lemma_before_nul(bytes.drop_first(), n - 1);
        assert(bytes.take(n) =~= seq![bytes[0]] + bytes.drop_first().take(n - 1));
    } else {
        assert(bytes.take(0) =~= seq![]);
    }
}

impl BitcoinCommand {
    /// The command with the given name.  None if the name takes more than 12 bytes.
    pub fn from_str(s: &str) -> (r: Option<BitcoinCommand>)
        ensures
            r is Some <==> encode_utf8(s@).len() <= COMMAND_LEN,
            r matches Some(command) ==> command@ == padded(encode_utf8(s@)),
    {
        let strbytes = s.as_bytes();
        if strbytes.len() > 12 {
            None
        } else {
            let mut bytes: [u8; 12] = [0u8; 12];
            let mut i: usize = 0;
            while i < strbytes.len()
                invariant
                    i <= strbytes@.len() <= 12,
                    forall|j: int| 0 <= j < i ==> bytes@[j] == strbytes@[j],
                    forall|j: int| i <= j < 12 ==> bytes@[j] == 0u8,
                decreases strbytes@.len() - i,
            {
                bytes[i] = strbytes[i];
                i = i + 1;
            }
            assert(bytes@ =~= padded(strbytes@));
            Some(BitcoinCommand(bytes))
        }
    }

    /// The name that the command holds, for people to read.  "#UNKNOWN" if it is not UTF-8.
    pub fn to_string(&self) -> (r: String)
        ensures
            r@ == command_text(self@),
    {
        let mut printable: Vec<u8> = Vec::new();
        let mut i: usize = 0;
        while i < 12 && self.0[i] != 0
            invariant
                i <= 12,
                printable@ == self@.take(i as int),
                forall|j: int| 0 <= j < i ==> self@[j] != 0,
            decreases 12 - i,
        {
            printable.push(self.0[i]);
            i = i + 1;
        }
        proof {
            lemma_before_nul(self@, i as int);
        }
        match text_of_utf8(printable) {
            Some(text) => text,
            None => "#UNKNOWN".to_owned(),
        }
    }
}

/// The encoding of a character other than NUL holds no zero byte.
proof fn lemma_scalar_has_no_nul(scalar: u32)
    requires
        is_scalar(scalar),
        scalar != 0,
    ensures
        forall|i: int| 0 <= i < encode_scalar(scalar).len() ==> encode_scalar(scalar)[i] != 0,
{
    assert(0 < scalar <= 0x7F ==> (scalar & 0x7F) as u8 != 0) by (bit_vector);
    assert(0xC0u8 | ((scalar >> 6) & 0x1F) as u8 != 0) by (bit_vector);
    assert(0xE0u8 | ((scalar >> 12) & 0x0F) as u8 != 0) by (bit_vector);
    assert(0xF0u8 | ((scalar >> 18) & 0x7) as u8 != 0) by (bit_vector);
    assert(0x80u8 | (scalar & 0x3F) as u8 != 0) by (bit_vector);
    assert(0x80u8 | ((scalar >> 6) & 0x3F) as u8 != 0) by (bit_vector);
    assert(0x80u8 | ((scalar >> 12) & 0x3F) as u8 != 0) by (bit_vector);
}

/// The encoding of a text without NUL holds no zero byte.
proof fn lemma_text_has_no_nul(text: Seq<char>)
    requires
        !text.contains('\0'),
    ensures
        forall|i: int| 0 <= i < encode_utf8(text).len() ==> encode_utf8(text)[i] != 0,
    decreases text.len(),
{
    if text.len() > 0 {
        assert(text[0] != '\0');
        char_is_scalar(text[0]);
        char_u32_cast(text[0], text[0] as u32);
        lemma_scalar_has_no_nul(text[0] as u32);
        assert forall|i: int| 0 <= i < text.drop_first().len() implies text.drop_first()[i]
            != '\0' by {
            assert(text.drop_first()[i] == text[i + 1]);
        }
        lemma_text_has_no_nul(text.drop_first());
        let first = encode_scalar(text[0] as u32);
        let rest = encode_utf8(text.drop_first());
        assert forall|i: int| 0 <= i < encode_utf8(text).len() implies encode_utf8(text)[i] != 0 by {
            assert(encode_utf8(text) == first + rest);
            if i >= first.len() {
                assert((first + rest)[i] == rest[i - first.len()]);
            }
        }
    }
}

/// A name of at most 12 bytes without NUL is read back from the command made of it.
pub proof fn law_command_keeps_its_name(name: Seq<char>)
    requires
        encode_utf8(name).len() <= COMMAND_LEN,
        !name.contains('\0'),
    ensures
        command_text(padded(encode_utf8(name))) == name,
{
    let bytes = encode_utf8(name);
    lemma_text_has_no_nul(name);
    lemma_before_nul(padded(bytes), bytes.len() as int);
    assert(padded(bytes).take(bytes.len() as int) =~= bytes);
    encode_utf8_valid_utf8(name);
    encode_utf8_decode_utf8(name);
}

/// Two names without NUL that give one command are one name.
pub proof fn law_commands_tell_names_apart(a: Seq<char>, b: Seq<char>)
    requires
        encode_utf8(a).len() <= COMMAND_LEN,
        encode_utf8(b).len() <= COMMAND_LEN,
        !a.contains('\0'),
        !b.contains('\0'),
        padded(encode_utf8(a)) == padded(encode_utf8(b)),
    ensures
        a == b,
{
    law_command_keeps_its_name(a);
    law_command_keeps_its_name(b);
}

/// A name of at most 12 bytes stands in a header as 12 bytes: first its own, then nothing but zero
/// bytes.
pub proof fn law_names_are_filled_up_with_zeros(name: Seq<u8>)
    requires
        name.len() <= 12,
    ensures
        padded(name).len() == 12,
        padded(name).take(name.len() as int) == name,
        forall|i: int| name.len() <= i < 12 ==> #[trigger] padded(name)[i] == 0,
{
    assert(padded(name).take(name.len() as int) =~= name);
}

/// A command is shown as the text that its bytes encode up to the first zero byte, or up to its end
/// if there is none; as "#UNKNOWN" if they encode no text.
pub proof fn law_text_ends_at_the_first_zero(bytes: Seq<u8>, n: int)
    requires
        0 <= n <= bytes.len(),
        forall|i: int| 0 <= i < n ==> bytes[i] != 0,
        n < bytes.len() ==> bytes[n] == 0,
    ensures
        valid_utf8(bytes.take(n)) ==> encode_utf8(command_text(bytes)) == bytes.take(n),
        !valid_utf8(bytes.take(n)) ==> command_text(bytes) == "#UNKNOWN"@,
{
    lemma_before_nul(bytes, n);
    if valid_utf8(bytes.take(n)) {
        decode_utf8_encode_utf8(bytes.take(n));
    }
}

/// Two commands are equal if and only if all their 12 bytes are.
pub proof fn law_commands_are_their_bytes(a: BitcoinCommand, b: BitcoinCommand)
    ensures
        a@.len() == 12,
        forall|i: int| 0 <= i < 12 ==> #[trigger] a@[i] == a.0[i],
        a.eq_spec(&b) <==> forall|i: int| 0 <= i < 12 ==> a.0[i] == b.0[i],
{
    if forall|i: int| 0 <= i < 12 ==> a.0[i] == b.0[i] {
        assert(a@ =~= b@);
    }
    if a.eq_spec(&b) {
        assert forall|i: int| 0 <= i < 12 implies a.0[i] == b.0[i] by {
            assert(a@[i] == b@[i]);
        }
    }
}

} // verus!
