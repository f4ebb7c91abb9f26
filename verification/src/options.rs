//! What the command line asks for.

use crate::command::{law_commands_tell_names_apart, padded, BitcoinCommand, COMMAND_LEN};
use crate::flow::Rules;
use crate::log::LOG_ERROR;
use vstd::prelude::*;
use vstd::string::*;
use vstd::utf8::encode_utf8;

verus! {

/// The arguments, as sequences of characters.
pub open spec fn texts(strings: Seq<String>) -> Seq<Seq<char>> {
    strings.map_values(|string: String| string@)
}

/// Where the switch first stands, at `from` or later, with an argument behind it.
pub open spec fn switch_from(argv: Seq<Seq<char>>, switch: Seq<char>, from: int) -> Option<int>
    decreases argv.len() - from,
{
    if from + 1 >= argv.len() {
        None
    } else if argv[from] == switch {
        Some(from)
    } else {
        switch_from(argv, switch, from + 1)
    }
}

/// The argument behind the switch.
pub open spec fn switch_value(argv: Seq<Seq<char>>, switch: Seq<char>) -> Option<Seq<char>> {
    match switch_from(argv, switch, 0) {
        Some(i) => Some(argv[i + 1]),
        None => None,
    }
}

/// The arguments without the switch and the argument behind it.
pub open spec fn without_switch(argv: Seq<Seq<char>>, switch: Seq<char>) -> Seq<Seq<char>> {
    match switch_from(argv, switch, 0) {
        Some(i) => argv.remove(i).remove(i),
        None => argv,
    }
}

/// The pieces of a text between its commas: a comma starts a new piece, and every other character
/// belongs to the piece that it stands in.
pub open spec fn pieces(text: Seq<char>) -> Seq<Seq<char>>
    decreases text.len(),
{
    if text.len() == 0 {
        seq![seq![]]
    } else {
        let before = pieces(text.drop_last());
        if text.last() == ',' {
            before.push(seq![])
        } else {
            before.drop_last().push(before.last().push(text.last()))
        }
    }
}

/// The pieces of a text between its commas, but for the empty ones.
pub open spec fn items(text: Seq<char>) -> Seq<Seq<char>> {
    pieces(text).filter(|piece: Seq<char>| piece.len() > 0)
}

/// The number that decimal digits write.
pub open spec fn decimal_value(digits: Seq<char>) -> nat
    decreases digits.len(),
{
    if digits.len() == 0 {
        0
    } else {
        10 * decimal_value(digits.drop_last()) + (digits.last() as nat - '0' as nat) as nat
    }
}

/// Are there digits, and nothing but digits?
pub open spec fn is_decimal(digits: Seq<char>) -> bool {
    &&& digits.len() > 0
    &&& forall|i: int| 0 <= i < digits.len() ==> '0' <= #[trigger] digits[i] <= '9'
}

/// A text without a plus sign at its start.
pub open spec fn unsigned(text: Seq<char>) -> Seq<char> {
    if text.len() > 0 && text[0] == '+' {
        text.drop_first()
    } else {
        text
    }
}

/// The number that a text writes: a plus sign or none, then decimal digits and nothing else.  None
/// if it writes no number, or one over `max`.
pub open spec fn decimal(text: Seq<char>, max: nat) -> Option<nat> {
    if is_decimal(unsigned(text)) && decimal_value(unsigned(text)) <= max {
        Some(decimal_value(unsigned(text)))
    } else {
        None
    }
}

/// `u8::from_str`: reads a plus sign or none, then decimal digits and nothing else, that make a
/// number of at most 255; fails on any other text.
#[verifier::external_body]
fn parse_u8(text: &str) -> (r: Option<u8>)
    ensures
        r is Some <==> decimal(text@, u8::MAX as nat) is Some,
        r matches Some(n) ==> decimal(text@, u8::MAX as nat) == Some(n as nat),
{
    text.parse::<u8>().ok()
}

/// `u16::from_str`: reads a plus sign or none, then decimal digits and nothing else, that make a
/// number of at most 65535; fails on any other text.
#[verifier::external_body]
fn parse_u16(text: &str) -> (r: Option<u16>)
    ensures
        r is Some <==> decimal(text@, u16::MAX as nat) is Some,
        r matches Some(n) ==> decimal(text@, u16::MAX as nat) == Some(n as nat),
{
    text.parse::<u16>().ok()
}

/// The magic of a network.
pub open spec fn magic_of(name: Seq<char>) -> Option<u32> {
    if name == "mainnet"@ {
        Some(0xD9B4BEF9)
    } else if name == "testnet"@ {
        Some(0x0709110B)
    } else if name == "regtest"@ {
        Some(0xDAB5BFFA)
    } else {
        None
    }
}

/// What the command line asks for.
pub struct Options {
    /// How much to log.
    pub verbosity: u8,
    /// The names of the commands that pass, if any are given.
    pub allow_list: Vec<String>,
    /// The names of the commands that do not pass.
    pub deny_list: Vec<String>,
    /// What are the expected magic bytes in each Bitcoin message?
    pub magic: u32,
    /// The public port to bind on.
    pub port: u16,
    /// The address of the upstream bitcoind node.
    pub backend: String,
}

/// What the command line asks for, its texts as sequences.
pub struct Choices {
    pub verbosity: u8,
    pub allow_list: Seq<Seq<char>>,
    pub deny_list: Seq<Seq<char>>,
    pub magic: u32,
    pub port: u16,
    pub backend: Seq<char>,
}

/// Is the name short enough for a command?
pub open spec fn fits(name: Seq<char>) -> bool {
    encode_utf8(name).len() <= COMMAND_LEN
}

/// Are all the names short enough for a command?
pub open spec fn all_fit(names: Seq<Seq<char>>) -> bool {
    forall|i: int| 0 <= i < names.len() ==> fits(#[trigger] names[i])
}

/// The commands with the given names, as they stand in a header.
pub open spec fn commands_named(names: Seq<Seq<char>>) -> Seq<Seq<u8>> {
    names.map_values(|name: Seq<char>| padded(encode_utf8(name)))
}

/// Is this the first of the names that is too long for a command?
pub open spec fn first_too_long(names: Seq<Seq<char>>, name: Seq<char>) -> bool {
    exists|at: int|
        0 <= at < names.len() && all_fit(#[trigger] names.take(at)) && names[at] == name && !fits(
            name,
        )
}

impl Choices {
    /// The rules that the lists make.  None if a name in them is too long for a command.
    pub open spec fn rules(self) -> Option<Rules> {
        if all_fit(self.allow_list) && all_fit(self.deny_list) {
            Some(
                Rules {
                    allow: commands_named(self.allow_list),
                    deny: commands_named(self.deny_list),
                },
            )
        } else {
            None
        }
    }
}

impl View for Options {
    type V = Choices;

    open spec fn view(&self) -> Choices {
        Choices {
            verbosity: self.verbosity,
            allow_list: texts(self.allow_list@),
            deny_list: texts(self.deny_list@),
            magic: self.magic,
            port: self.port,
            backend: self.backend@,
        }
    }
}

/// A value, or what stands for it if none is given.
pub open spec fn given_or(value: Option<Seq<char>>, default: Seq<char>) -> Seq<char> {
    match value {
        Some(text) => text,
        None => default,
    }
}

/// How much to log, if the switch says.
pub open spec fn verbosity_of(value: Option<Seq<char>>) -> Option<nat> {
    match value {
        Some(text) => decimal(text, u8::MAX as nat),
        None => Some(LOG_ERROR as nat),
    }
}

/// What a command line asks for.  None if it is not a proper one: `-v`, `-w`, `-b` and `-n` take
/// an argument each and may be left out, `-w` and `-b` do not go together, and what is left is the
/// program's name, a port and an address.
pub open spec fn choices(argv: Seq<Seq<char>>) -> Option<Choices> {
    let after_v = without_switch(argv, "-v"@);
    let after_w = without_switch(after_v, "-w"@);
    let after_b = without_switch(after_w, "-b"@);
    let rest = without_switch(after_b, "-n"@);
    let verbosity = verbosity_of(switch_value(argv, "-v"@));
    let allowed = switch_value(after_v, "-w"@);
    let denied = switch_value(after_w, "-b"@);
    let magic = magic_of(given_or(switch_value(after_b, "-n"@), "mainnet"@));
    let port = decimal(rest[1], u16::MAX as nat);
    if argv.len() < 2 || rest.len() != 3 || verbosity is None || magic is None || port is None || (
    allowed is Some && denied is Some) {
        None
    } else {
        Some(
            Choices {
                verbosity: verbosity->0 as u8,
                allow_list: items(given_or(allowed, seq![])),
                deny_list: items(given_or(denied, seq![])),
                magic: magic->0,
                port: port->0 as u16,
                backend: rest[2],
            },
        )
    }
}

/// Given a mutable list of arguments, and a switch, find the first instance of the switch and its
/// associated argument, remove them from argv, and return the argument itself.  Returns None if
/// not found.
pub fn find_arg_value(arg: &str, argv: &mut Vec<String>) -> (r: Option<String>)
    ensures
        r is Some <==> switch_value(texts(old(argv)@), arg@) is Some,
        r matches Some(value) ==> switch_value(texts(old(argv)@), arg@) == Some(value@),
        texts(final(argv)@) == without_switch(texts(old(argv)@), arg@),
{
    let wanted: String = arg.to_owned();
    let ghost all = texts(argv@);
    let mut i: usize = 0;
    while i < argv.len() && argv.len() - i > 1 && argv[i] != wanted
        invariant
            i <= argv@.len(),
            wanted@ == arg@,
            texts(argv@) == all,
            argv@ == old(argv)@,
            switch_from(all, arg@, 0) == switch_from(all, arg@, i as int),
        decreases argv@.len() - i,
    {
        assert(all[i as int] == argv@[i as int]@);
        i = i + 1;
    }
    if i < argv.len() && argv.len() - i > 1 {
        assert(all[i as int] == argv@[i as int]@);
        let value: String = argv[i + 1].clone();
        argv.remove(i);
        argv.remove(i);
        assert(texts(argv@) =~= all.remove(i as int).remove(i as int));
        Some(value)
    } else {
        None
    }
}

/// One more piece in a list is kept if it is not empty.
proof fn lemma_one_more_item(list: Seq<Seq<char>>)
    requires
        list.len() > 0,
    ensures
        list.filter(|piece: Seq<char>| piece.len() > 0) == if list.last().len() > 0 {
            list.drop_last().filter(|piece: Seq<char>| piece.len() > 0).push(list.last())
        } else {
            list.drop_last().filter(|piece: Seq<char>| piece.len() > 0)
        },
{
    reveal(Seq::filter);
}

/// An empty text lists nothing.
proof fn lemma_no_items()
    ensures
        items(seq![]) == Seq::<Seq<char>>::empty(),
{
    reveal_with_fuel(Seq::filter, 2);
    assert(items(seq![]) =~= Seq::<Seq<char>>::empty());
}

/// The items of a comma-separated list.  Empty ones are left out.
pub fn split_list(csv: &str) -> (r: Vec<String>)
    ensures
        texts(r@) == items(csv@),
{
    let len: usize = csv.unicode_len();
    let mut list: Vec<String> = Vec::new();
    let mut start: usize = 0;
    let mut i: usize = 0;
    proof {
        assert(csv@.take(0) =~= seq![]);
        assert(csv@.subrange(0, 0) =~= seq![]);
        assert(pieces(csv@.take(0)).drop_last() =~= seq![]);
        reveal(Seq::filter);
        assert(texts(list@) =~= seq![]);
    }
    while i < len
        invariant
            start <= i <= len,
            len == csv@.len(),
            pieces(csv@.take(i as int)).len() > 0,
            pieces(csv@.take(i as int)).last() == csv@.subrange(start as int, i as int),
            texts(list@) == pieces(csv@.take(i as int)).drop_last().filter(
                |piece: Seq<char>| piece.len() > 0,
            ),
        decreases len - i,
    {
        let c: char = csv.get_char(i);
        let ghost now = pieces(csv@.take(i as int));
        let ghost next = pieces(csv@.take(i + 1));
        proof {
            assert(csv@.take(i + 1).drop_last() =~= csv@.take(i as int));
            assert(csv@.take(i + 1).last() == c);
        }
        if c == ',' {
            proof {
                lemma_one_more_item(now);
                assert(next.drop_last() =~= now);
                assert(csv@.subrange(i + 1, i + 1) =~= seq![]);
            }
            if start < i {
                let ghost before = texts(list@);
                list.push(csv.substring_char(start, i).to_owned());
                assert(texts(list@) =~= before.push(now.last()));
            }
            start = i + 1;
        } else {
            proof {
                assert(next.drop_last() =~= now.drop_last());
                assert(csv@.subrange(start as int, i + 1) =~= now.last().push(c));
            }
        }
        i = i + 1;
    }
    proof {
        assert(csv@.take(len as int) =~= csv@);
        lemma_one_more_item(pieces(csv@));
    }
    if start < len {
        let ghost before = texts(list@);
        list.push(csv.substring_char(start, len).to_owned());
        assert(texts(list@) =~= before.push(pieces(csv@).last()));
    }
    list
}

/// The magic bytes of the network with the given name.  None if there is no such network.
pub fn network_magic(name: &str) -> (r: Option<u32>)
    ensures
        r == magic_of(name@),
{
    let name: String = name.to_owned();
    if name == "mainnet".to_owned() {
        Some(0xD9B4BEF9)
    } else if name == "testnet".to_owned() {
        Some(0x0709110B)
    } else if name == "regtest".to_owned() {
        Some(0xDAB5BFFA)
    } else {
        None
    }
}

/// Reads the command line.  None if it is not a proper one.
pub fn parse_options(argv: Vec<String>) -> (r: Option<Options>)
    ensures
        r is Some <==> choices(texts(argv@)) is Some,
        r matches Some(options) ==> choices(texts(argv@)) == Some(options@),
{
    let mut argv = argv;
    if argv.len() < 2 {
        return None;
    }
    // find -v
    let verbosity: u8 = match find_arg_value("-v", &mut argv) {
        Some(text) => match parse_u8(text.as_str()) {
            Some(verbosity) => verbosity,
            None => {
                return None;
            },
        },
        None => LOG_ERROR,
    };
    // find -w
    let allowed: Option<String> = find_arg_value("-w", &mut argv);
    // find -b
    let denied: Option<String> = find_arg_value("-b", &mut argv);
    if allowed.is_some() && denied.is_some() {
        return None;
    }
    let allow_list: Vec<String> = match allowed {
        Some(csv) => split_list(csv.as_str()),
        None => split_list(""),
    };
    let deny_list: Vec<String> = match denied {
        Some(csv) => split_list(csv.as_str()),
        None => split_list(""),
    };
    proof {
        reveal_strlit("");
        assert(""@ =~= seq![]);
    }
    // find -n
    let found: Option<u32> = match find_arg_value("-n", &mut argv) {
        Some(name) => network_magic(name.as_str()),
        None => network_magic("mainnet"),
    };
    let magic: u32 = match found {
        Some(magic) => magic,
        None => {
            return None;
        },
    };
    // find port
    if argv.len() != 3 {
        return None;
    }
    assert(texts(argv@)[1] == argv@[1]@);
    assert(texts(argv@)[2] == argv@[2]@);
    let port: u16 = match parse_u16(argv[1].as_str()) {
        Some(port) => port,
        None => {
            return None;
        },
    };
    let backend: String = argv[2].clone();
    Some(Options { verbosity, allow_list, deny_list, magic, port, backend })
}

/// The commands with the given names.  Fails with the first name that takes more than 12 bytes.
pub fn commands(names: &Vec<String>) -> (r: Result<Vec<BitcoinCommand>, String>)
    ensures
        r is Ok <==> all_fit(texts(names@)),
        r matches Ok(list) ==> list@.map_values(|command: BitcoinCommand| command@)
            == commands_named(texts(names@)),
        r matches Err(name) ==> first_too_long(texts(names@), name@),
{
    let ghost all = texts(names@);
    let mut list: Vec<BitcoinCommand> = Vec::new();
    let mut i: usize = 0;
    while i < names.len()
        invariant
            i <= names@.len(),
            all == texts(names@),
            list@.len() == i,
            all_fit(all.take(i as int)),
            forall|j: int|
                0 <= j < i ==> (#[trigger] list@[j])@ == padded(encode_utf8(names@[j]@)),
        decreases names@.len() - i,
    {
        assert(all[i as int] == names@[i as int]@);
        match BitcoinCommand::from_str(names[i].as_str()) {
            Some(command) => {
                list.push(command);
                assert forall|j: int| 0 <= j < i + 1 implies fits(#[trigger] all.take(i + 1)[j]) by {
                    if j < i {
                        assert(all.take(i + 1)[j] == all.take(i as int)[j]);
                    }
                }
            },
            None => {
                assert(all_fit(all.take(i as int)) && !fits(all[i as int]));
                return Err(names[i].clone());
            },
        }
        i = i + 1;
    }
    assert(all.take(all.len() as int) =~= all);
    assert(list@.map_values(|command: BitcoinCommand| command@) =~= commands_named(all));
    Ok(list)
}

/// Commands are allowed by name or denied by name, not both: a command line with both switches is
/// refused, whatever they list, and no command line gives two lists.
pub proof fn law_lists_do_not_go_together(argv: Seq<Seq<char>>)
    ensures
        ({
            let after_v = without_switch(argv, "-v"@);
            let after_w = without_switch(after_v, "-w"@);
            switch_value(after_v, "-w"@) is Some && switch_value(after_w, "-b"@) is Some
                ==> choices(argv) is None
        }),
        choices(argv) matches Some(c) ==> c.allow_list.len() == 0 || c.deny_list.len() == 0,
{
    lemma_no_items();
}

/// Without switches, all messages pass, the network is mainnet and only errors are logged.
pub proof fn law_defaults(argv: Seq<Seq<char>>)
    requires
        switch_value(argv, "-v"@) is None,
        switch_value(argv, "-w"@) is None,
        switch_value(argv, "-b"@) is None,
        switch_value(argv, "-n"@) is None,
    ensures
        choices(argv) matches Some(c) ==> {
            &&& c.verbosity == LOG_ERROR
            &&& c.allow_list.len() == 0
            &&& c.deny_list.len() == 0
            &&& Some(c.magic) == magic_of("mainnet"@)
        },
        choices(argv) is Some <==> argv.len() == 3 && decimal(argv[1], u16::MAX as nat) is Some,
{
    assert(without_switch(argv, "-v"@) == argv);
    assert(without_switch(argv, "-w"@) == argv);
    assert(without_switch(argv, "-b"@) == argv);
    assert(without_switch(argv, "-n"@) == argv);
    lemma_no_items();
}

/// From the command line to the rules: with commands to allow, exactly the messages with these
/// pass; without, exactly the messages with the commands to deny are dropped.  The names hold no
/// NUL.
pub proof fn law_lists_make_the_rules(argv: Seq<Seq<char>>, name: Seq<char>)
    requires
        fits(name),
        !name.contains('\0'),
        choices(argv) matches Some(c) ==> forall|i: int|
            0 <= i < c.allow_list.len() ==> !(#[trigger] c.allow_list[i]).contains('\0'),
        choices(argv) matches Some(c) ==> forall|i: int|
            0 <= i < c.deny_list.len() ==> !(#[trigger] c.deny_list[i]).contains('\0'),
    ensures
        choices(argv) matches Some(c) ==> {
            let after_v = without_switch(argv, "-v"@);
            let after_w = without_switch(after_v, "-w"@);
            &&& c.allow_list == items(given_or(switch_value(after_v, "-w"@), seq![]))
            &&& c.deny_list == items(given_or(switch_value(after_w, "-b"@), seq![]))
            &&& c.rules() is Some <==> all_fit(c.allow_list) && all_fit(c.deny_list)
            &&& c.rules() matches Some(rules) ==> rules.drops(padded(encode_utf8(name)))
                == if c.allow_list.len() > 0 {
                !c.allow_list.contains(name)
            } else {
                c.deny_list.contains(name)
            }
        },
{
    if let Some(c) = choices(argv) {
        if c.rules() is Some {
            lemma_named(c.allow_list, name);
            lemma_named(c.deny_list, name);
        }
    }
}

/// A command is listed if and only if its name is.
proof fn lemma_named(names: Seq<Seq<char>>, name: Seq<char>)
    requires
        fits(name),
        all_fit(names),
        !name.contains('\0'),
        forall|i: int| 0 <= i < names.len() ==> !(#[trigger] names[i]).contains('\0'),
    ensures
        commands_named(names).contains(padded(encode_utf8(name))) <==> names.contains(name),
{
    let command = padded(encode_utf8(name));
    if commands_named(names).contains(command) {
        let i = choose|i: int|
            0 <= i < commands_named(names).len() && commands_named(names)[i] == command;
        assert(fits(names[i]));
        law_commands_tell_names_apart(names[i], name);
        assert(names[i] == name);
    }
    if names.contains(name) {
        let i = choose|i: int| 0 <= i < names.len() && names[i] == name;
        assert(commands_named(names)[i] == command);
    }
}

/// Texts are the texts of the strings, one by one, and what was asked for is what the fields hold.
pub proof fn law_texts_are_the_strings(strings: Seq<String>, options: Options)
    ensures
        texts(strings).len() == strings.len(),
        forall|i: int| 0 <= i < strings.len() ==> #[trigger] texts(strings)[i] == strings[i]@,
        options@.verbosity == options.verbosity,
        options@.allow_list == texts(options.allow_list@),
        options@.deny_list == texts(options.deny_list@),
        options@.magic == options.magic,
        options@.port == options.port,
        options@.backend == options.backend@,
{
}

/// The switch is found where it stands first, if it does not stand there last of all.
proof fn lemma_switch_found(argv: Seq<Seq<char>>, switch: Seq<char>, from: int, at: int)
    requires
        0 <= from <= at,
        at + 1 < argv.len(),
        argv[at] == switch,
        forall|i: int| from <= i < at ==> argv[i] != switch,
    ensures
        switch_from(argv, switch, from) == Some(at),
    decreases at - from,
{
    if from < at {
        lemma_switch_found(argv, switch, from + 1, at);
    }
}

/// The switch is not found where it stands nowhere, or last of all.
proof fn lemma_switch_not_found(argv: Seq<Seq<char>>, switch: Seq<char>, from: int)
    requires
        0 <= from,
        forall|i: int| from <= i && i + 1 < argv.len() ==> argv[i] != switch,
    ensures
        switch_from(argv, switch, from) is None,
    decreases argv.len() - from,
{
    if from + 1 < argv.len() {
        lemma_switch_not_found(argv, switch, from + 1);
    }
}

/// A switch gives the argument behind it, the first time that it stands with one behind it; both go,
/// and all other arguments stay as they are and in their order.
pub proof fn law_first_switch_counts(
    before: Seq<Seq<char>>,
    switch: Seq<char>,
    value: Seq<char>,
    rest: Seq<Seq<char>>,
)
    requires
        !before.contains(switch),
    ensures
        switch_value(before + seq![switch, value] + rest, switch) == Some(value),
        without_switch(before + seq![switch, value] + rest, switch) == before + rest,
{
    let argv = before + seq![switch, value] + rest;
    let at = before.len() as int;
    assert forall|i: int| 0 <= i < at implies argv[i] != switch by {
        assert(argv[i] == before[i]);
    }
    assert(argv[at] == switch && argv[at + 1] == value);
    lemma_switch_found(argv, switch, 0, at);
    assert(argv.remove(at).remove(at) =~= before + rest);
}

/// A switch that does not stand before the last argument gives nothing, and nothing goes.
pub proof fn law_no_switch_no_value(argv: Seq<Seq<char>>, switch: Seq<char>)
    requires
        forall|i: int| 0 <= i && i + 1 < argv.len() ==> argv[i] != switch,
    ensures
        switch_value(argv, switch) is None,
        without_switch(argv, switch) == argv,
{
    lemma_switch_not_found(argv, switch, 0);
}

/// A text without commas is one piece.
proof fn lemma_one_piece(text: Seq<char>)
    requires
        !text.contains(','),
    ensures
        pieces(text) == seq![text],
    decreases text.len(),
{
    if text.len() == 0 {
        assert(text =~= seq![]);
        assert(pieces(text) =~= seq![text]);
    } else {
        assert forall|i: int| 0 <= i < text.drop_last().len() implies text.drop_last()[i] != ',' by {
            assert(text[i] != ',');
        }
        lemma_one_piece(text.drop_last());
        assert(text.last() != ',');
        assert(text.drop_last().push(text.last()) =~= text);
        assert(pieces(text) =~= seq![text]);
    }
}

/// A comma parts the pieces before it from those behind it.
proof fn lemma_comma_parts(a: Seq<char>, b: Seq<char>)
    ensures
        pieces(b).len() > 0,
        pieces(a + seq![','] + b) == pieces(a) + pieces(b),
    decreases b.len(),
{
    let text = a + seq![','] + b;
    if b.len() == 0 {
        assert(text.drop_last() =~= a);
        assert(text.last() == ',');
        assert(pieces(text) =~= pieces(a) + pieces(b));
    } else {
        lemma_comma_parts(a, b.drop_last());
        assert(text.drop_last() =~= a + seq![','] + b.drop_last());
        assert(text.last() == b.last());
        assert(pieces(text) =~= pieces(a) + pieces(b));
    }
}

/// How a list is split: what stands before a comma and what stands behind it are lists of their
/// own, and what holds no comma is one item, whole, or none if it is empty.
pub proof fn law_commas_part_the_items(a: Seq<char>, b: Seq<char>, item: Seq<char>)
    requires
        !item.contains(','),
    ensures
        items(a + seq![','] + b) == items(a) + items(b),
        item.len() > 0 ==> items(item) == seq![item],
        item.len() == 0 ==> items(item).len() == 0,
{
    let full = |piece: Seq<char>| piece.len() > 0;
    lemma_comma_parts(a, b);
    Seq::filter_distributes_over_add(pieces(a), pieces(b), full);
    lemma_one_piece(item);
    reveal_with_fuel(Seq::filter, 2);
    assert(seq![item].drop_last() =~= seq![]);
    if item.len() > 0 {
        assert(items(item) =~= seq![item]);
    }
}

/// A number is written with decimal digits, and with a plus sign before them or none; each digit
/// more makes it ten times as much and the digit.  It is read if it is not over the most there may
/// be, and only then.
pub proof fn law_numbers_are_decimal(text: Seq<char>, digit: char, max: nat)
    requires
        '0' <= digit <= '9',
    ensures
        decimal_value(seq![]) == 0,
        decimal_value(text.push(digit)) == 10 * decimal_value(text) + (digit as int - '0' as int),
        text.len() == 0 || !('0' <= text[0] <= '9') ==> decimal(text, max) is Some ==> text[0]
            == '+',
        (text.len() > 0 && forall|i: int| 0 <= i < text.len() ==> '0' <= #[trigger] text[i] <= '9')
            ==> {
            let value = if decimal_value(text) <= max {
                Some(decimal_value(text))
            } else {
                None
            };
            &&& decimal(text, max) == value
            &&& decimal(seq!['+'] + text, max) == value
        },
        decimal(text, max) is Some ==> forall|i: int|
            1 <= i < text.len() ==> '0' <= #[trigger] text[i] <= '9',
        decimal(seq!['+'], max) is None,
        decimal(seq![], max) is None,
{
    assert(text.push(digit).drop_last() =~= text);
    assert((seq!['+'] + text).drop_first() =~= text);
    assert(seq!['+'].drop_first() =~= seq![]);
    if text.len() > 0 && forall|i: int|
        0 <= i < text.len() ==> '0' <= #[trigger] text[i] <= '9' {
        assert('0' <= text[0] <= '9');
        assert(unsigned(text) == text);
        assert(unsigned(seq!['+'] + text) == text);
    }
    if decimal(text, max) is Some {
        assert forall|i: int| 1 <= i < text.len() implies '0' <= #[trigger] text[i] <= '9' by {
            if text[0] == '+' {
                assert(unsigned(text)[i - 1] == text[i]);
            } else {
                assert(unsigned(text)[i] == text[i]);
            }
        }
        if text.len() > 0 && text[0] != '+' {
            assert(unsigned(text)[0] == text[0]);
        }
    }
}

/// There are three networks, each with a magic of its own.
pub proof fn law_there_are_three_networks(name: Seq<char>, magic: u32)
    ensures
        magic_of(name) == Some(magic) <==> {
            ||| name == "mainnet"@ && magic == 0xD9B4BEF9u32
            ||| name == "testnet"@ && magic == 0x0709110Bu32
            ||| name == "regtest"@ && magic == 0xDAB5BFFAu32
        },
{
    reveal_strlit("mainnet");
    reveal_strlit("testnet");
    reveal_strlit("regtest");
    assert("mainnet"@[0] == 'm' && "testnet"@[0] == 't' && "regtest"@[0] == 'r');
}

/// What a command line asks for, part by part.  The switches are taken out one after the other, and
/// exactly if what is left is a port and an address behind the program's name, and every part makes
/// sense, is the command line a proper one.
pub proof fn law_command_lines_part_by_part(argv: Seq<Seq<char>>)
    ensures
        ({
            let after_v = without_switch(argv, "-v"@);
            let after_w = without_switch(after_v, "-w"@);
            let after_b = without_switch(after_w, "-b"@);
            let rest = without_switch(after_b, "-n"@);
            let v = switch_value(argv, "-v"@);
            let w = switch_value(after_v, "-w"@);
            let b = switch_value(after_w, "-b"@);
            let n = switch_value(after_b, "-n"@);
            let proper = {
                &&& argv.len() >= 2
                &&& rest.len() == 3
                &&& v is Some ==> decimal(v->0, 255) is Some
                &&& w is None || b is None
                &&& n is Some ==> n->0 == "mainnet"@ || n->0 == "testnet"@ || n->0 == "regtest"@
                &&& decimal(rest[1], 65535) is Some
            };
            &&& choices(argv) is Some <==> proper
            &&& choices(argv) matches Some(c) ==> {
                &&& Some(c.verbosity as nat) == if v is Some {
                    decimal(v->0, 255)
                } else {
                    Some(1nat)
                }
                &&& w is Some ==> c.allow_list == items(w->0)
                &&& w is None ==> c.allow_list.len() == 0
                &&& b is Some ==> c.deny_list == items(b->0)
                &&& b is None ==> c.deny_list.len() == 0
                &&& n is Some ==> Some(c.magic) == magic_of(n->0)
                &&& n is None ==> c.magic == 0xD9B4BEF9
                &&& Some(c.port as nat) == decimal(rest[1], 65535)
                &&& c.backend == rest[2]
            }
        }),
{
    lemma_no_items();
}

/// A name makes a command if and only if it takes at most 12 bytes; the commands of a list are those
/// of its names, one by one, and make the rules if all names do.  The name that is told is one that
/// does not, and all before it do.
pub proof fn law_names_make_commands(c: Choices, names: Seq<Seq<char>>, name: Seq<char>)
    ensures
        fits(name) <==> encode_utf8(name).len() <= 12,
        all_fit(names) <==> forall|i: int|
            0 <= i < names.len() ==> encode_utf8(#[trigger] names[i]).len() <= 12,
        commands_named(names).len() == names.len(),
        forall|i: int|
            0 <= i < names.len() ==> #[trigger] commands_named(names)[i] == padded(
                encode_utf8(names[i]),
            ),
        first_too_long(names, name) ==> names.contains(name) && encode_utf8(name).len() > 12,
        first_too_long(names, name) ==> !all_fit(names),
        names.len() > 0 && !fits(names[0]) ==> (first_too_long(names, name) <==> name == names[0]),
        names.len() > 0 && fits(names[0]) ==> (first_too_long(names, name) <==> first_too_long(
            names.drop_first(),
            name,
        )),
        c.rules() is Some <==> all_fit(c.allow_list) && all_fit(c.deny_list),
        c.rules() matches Some(rules) ==> rules.allow == commands_named(c.allow_list) && rules.deny
            == commands_named(c.deny_list),
{
    if first_too_long(names, name) {
        let at = choose|at: int|
            0 <= at < names.len() && all_fit(#[trigger] names.take(at)) && names[at] == name
                && !fits(name);
        assert(names.contains(names[at]));
        assert(!fits(names[at]));
        if at > 0 {
            assert(fits(names.take(at)[0]));
            let rest = names.drop_first();
            assert forall|i: int| 0 <= i < at - 1 implies fits(#[trigger] rest.take(at - 1)[i]) by {
                assert(rest.take(at - 1)[i] == names.take(at)[i + 1]);
            }
            assert(all_fit(rest.take(at - 1)) && rest[at - 1] == name);
        }
    }
    if names.len() > 0 && !fits(names[0]) {
        assert(all_fit(names.take(0)));
    }
    if names.len() > 0 && fits(names[0]) && first_too_long(names.drop_first(), name) {
        let rest = names.drop_first();
        let at = choose|at: int|
            0 <= at < rest.len() && all_fit(#[trigger] rest.take(at)) && rest[at] == name && !fits(
                name,
            );
        assert forall|i: int| 0 <= i < at + 1 implies fits(#[trigger] names.take(at + 1)[i]) by {
            if i > 0 {
                assert(names.take(at + 1)[i] == rest.take(at)[i - 1]);
            }
        }
        assert(all_fit(names.take(at + 1)) && names[at + 1] == name);
    }
}

} // verus!
