# Bitcoin P2P Firewall

A firewall for Bitcoin p2p messages: it stands between clients and a `bitcoind`,
and filters out messages of the clients.  With it a Bitcoin regtest node can run
in "read-only" mode, so that clients can download blocks and ping the node but
not reorg the chain.

The library is verified with Verus.  It holds all that the firewall decides, and
does no I/O: it says what to read and write, and takes in what came of it.  The
program in `app/` owns the sockets and does as it is told.

## Usage

```
bitcoin-p2p-firewalld [-v DEBUG_VERBOSITY]
                      [-n NETWORK_NAME]
                      [-b DENIED_MESSAGES | -w ALLOWED_MESSAGES]
                      port
                      upstream_bitcoind_address
```

- `-v` is 1 (errors only, the default) to 4.
- `-n` is `mainnet` (the default), `testnet` or `regtest`.
- `-b` and `-w` take a comma-separated list of Bitcoin commands.  Only one of
  them can be given.  With `-b` the listed messages are dropped; with `-w` all
  others are.
- `port` is the public port to bind on.
- `upstream_bitcoind_address` is the `host:port` of the `bitcoind`.

For example,

```
bitcoin-p2p-firewalld -v 4 -n regtest -b block,cmpctblock 18444 127.0.0.1:18445
```

binds on port 18444 and passes everything but blocks and compact blocks on to
127.0.0.1:18445.

The firewall accepts at most 1000 clients, counted from its start.

## Layout

| module | what it holds |
| --- | --- |
| `command`, `preamble` | the header of a message, and its command |
| `flow`, `forward` | the state of one direction of a connection; `flow` is its model |
| `relay` | what a forwarding state does to a stream, over any number of reads and writes |
| `network` | event IDs, and what one look at the poller brings |
| `table`, `proxy` | the pairs of sockets; `table` is their model |
| `ready` | one pass over the sockets that are ready |
| `session` | what the firewall does for one pair, whatever it does for others |
| `options`, `log`, `error`, `io`, `clock` | the command line, log levels, errors, requests and replies, the time |

Functions named `law_...` state what holds of the library as a whole.
