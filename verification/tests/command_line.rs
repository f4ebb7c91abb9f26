//! The command line.

use bitcoin_p2p_firewall::command::BitcoinCommand;
use bitcoin_p2p_firewall::options::{
    commands, find_arg_value, network_magic, parse_options, split_list, Options,
};

fn args(texts: &[&str]) -> Vec<String> {
    texts.iter().map(|text| text.to_string()).collect()
}

fn parse(texts: &[&str]) -> Option<Options> {
    parse_options(args(texts))
}

#[test]
fn switch_and_its_argument_are_removed() {
    let mut argv = args(&["prog", "-v", "4", "8333", "host:1"]);
    assert_eq!(find_arg_value("-v", &mut argv), Some("4".to_string()));
    assert_eq!(argv, args(&["prog", "8333", "host:1"]));
    assert_eq!(find_arg_value("-v", &mut argv), None);
    assert_eq!(argv, args(&["prog", "8333", "host:1"]));
}

#[test]
fn first_switch_counts() {
    let mut argv = args(&["prog", "-n", "a", "-n", "b"]);
    assert_eq!(find_arg_value("-n", &mut argv), Some("a".to_string()));
    assert_eq!(argv, args(&["prog", "-n", "b"]));
}

#[test]
fn switch_at_the_end_has_no_argument() {
    let mut argv = args(&["prog", "-n"]);
    assert_eq!(find_arg_value("-n", &mut argv), None);
    assert_eq!(argv, args(&["prog", "-n"]));
    let mut none = args(&[]);
    assert_eq!(find_arg_value("-n", &mut none), None);
    assert!(none.is_empty());
}

#[test]
fn lists_are_split_at_commas() {
    assert_eq!(split_list("block,cmpctblock"), args(&["block", "cmpctblock"]));
    assert_eq!(split_list(",,tx,,"), args(&["tx"]));
    assert_eq!(split_list("tx"), args(&["tx"]));
    assert_eq!(split_list("é, b"), args(&["é", " b"]));
    assert!(split_list("").is_empty());
    assert!(split_list(",").is_empty());
}

#[test]
fn networks_have_their_magic() {
    assert_eq!(network_magic("mainnet"), Some(0xD9B4BEF9));
    assert_eq!(network_magic("testnet"), Some(0x0709110B));
    assert_eq!(network_magic("regtest"), Some(0xDAB5BFFA));
    assert_eq!(network_magic("signet"), None);
    assert_eq!(network_magic(""), None);
    assert_eq!(network_magic("Mainnet"), None);
}

#[test]
fn example_command_line() {
    let options = parse(&[
        "bitcoin-p2p-firewalld",
        "-v",
        "4",
        "-n",
        "regtest",
        "-b",
        "block,cmpctblock",
        "18444",
        "127.0.0.1:18445",
    ])
    .unwrap();
    assert_eq!(options.verbosity, 4);
    assert_eq!(options.magic, 0xDAB5BFFA);
    assert!(options.allow_list.is_empty());
    assert_eq!(options.deny_list, args(&["block", "cmpctblock"]));
    assert_eq!(options.port, 18444);
    assert_eq!(options.backend, "127.0.0.1:18445");
}

#[test]
fn defaults() {
    let options = parse(&["prog", "8333", "host:8334"]).unwrap();
    assert_eq!(options.verbosity, 1);
    assert_eq!(options.magic, 0xD9B4BEF9);
    assert!(options.allow_list.is_empty());
    assert!(options.deny_list.is_empty());
    assert_eq!(options.port, 8333);
    assert_eq!(options.backend, "host:8334");
}

#[test]
fn switches_may_stand_anywhere() {
    let options = parse(&["prog", "8333", "-w", "ping,pong", "host:1", "-n", "testnet"]).unwrap();
    assert_eq!(options.allow_list, args(&["ping", "pong"]));
    assert_eq!(options.magic, 0x0709110B);
    assert_eq!(options.port, 8333);
    assert_eq!(options.backend, "host:1");
}

#[test]
fn lists_do_not_go_together() {
    assert!(parse(&["prog", "-w", "tx", "-b", "block", "8333", "host:1"]).is_none());
    // whatever they list, and wherever they stand
    assert!(parse(&["prog", "-w", ",", "-b", "block", "8333", "host:1"]).is_none());
    assert!(parse(&["prog", "-b", "block", "8333", "host:1", "-w", ""]).is_none());
    assert!(parse(&["prog", "-w", "", "-b", "", "8333", "host:1"]).is_none());
    // what stands behind a switch is its argument
    let options = parse(&["prog", "-w", "-b", "8333", "host:1"]).unwrap();
    assert_eq!(options.allow_list, args(&["-b"]));
    let options = parse(&["prog", "-b", ",", "8333", "host:1"]).unwrap();
    assert!(options.deny_list.is_empty());
}

#[test]
fn verbosity_is_a_number_up_to_255() {
    let verbosity = |text: &str| {
        parse(&["prog", "-v", text, "8333", "host:1"]).map(|options| options.verbosity)
    };
    assert_eq!(verbosity("0"), Some(0));
    assert_eq!(verbosity("+5"), Some(5));
    assert_eq!(verbosity("007"), Some(7));
    assert_eq!(verbosity("255"), Some(255));
    for bad in ["256", "-1", "", "+", "++1", "4 ", "0x4", "four", "٣"] {
        assert_eq!(verbosity(bad), None);
    }
}

#[test]
fn port_is_a_number_up_to_65535() {
    let port = |text: &str| parse(&["prog", text, "host:1"]).map(|options| options.port);
    assert_eq!(port("0"), Some(0));
    assert_eq!(port("+80"), Some(80));
    assert_eq!(port("65535"), Some(65535));
    for bad in ["65536", "-1", "", "http", "80 "] {
        assert_eq!(port(bad), None);
    }
}

#[test]
fn improper_command_lines() {
    assert!(parse(&[]).is_none());
    assert!(parse(&["prog"]).is_none());
    assert!(parse(&["prog", "8333"]).is_none());
    assert!(parse(&["prog", "8333", "host:1", "more"]).is_none());
    assert!(parse(&["prog", "-n", "signet", "8333", "host:1"]).is_none());
    assert!(parse(&["prog", "8333", "host:1", "-v"]).is_none());
    assert!(parse(&["prog", "-x", "1", "8333", "host:1"]).is_none());
}

#[test]
fn names_of_any_length_are_listed() {
    let options = parse(&["prog", "-w", "averyverylongname", "8333", "host:1"]).unwrap();
    assert_eq!(options.allow_list, args(&["averyverylongname"]));
}

#[test]
fn names_become_commands() {
    let list = commands(&args(&["block", "abcdefghijkl", ""])).unwrap();
    assert_eq!(list.len(), 3);
    assert_eq!(list[0], BitcoinCommand(*b"block\0\0\0\0\0\0\0"));
    assert_eq!(list[1], BitcoinCommand(*b"abcdefghijkl"));
    assert_eq!(list[2], BitcoinCommand([0; 12]));
    assert!(commands(&vec![]).unwrap().is_empty());
}

#[test]
fn first_name_that_is_too_long_is_told() {
    let names = args(&["tx", "abcdefghijklm", "averyverylongname"]);
    assert_eq!(commands(&names).unwrap_err(), "abcdefghijklm");
    assert_eq!(commands(&args(&["ééééééé"])).unwrap_err(), "ééééééé");
}
