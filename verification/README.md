# CocoNet

A decentralised peer-to-peer virtual network (VPN). Each node opens a TUN interface, gets a virtual
IPv4 address that is derived from its peer identifier, and exchanges packets with the other nodes over
libp2p: directly where it can, through a relay or the gossip mesh where it cannot.

The logic is a Verus library: every function carries a contract. Verus proves them all but those of
the few small functions that call an outside crate (`bytes`, `ipnetwork`, `libp2p`, `xxhash-rust`):
what these claim of the crate is believed, and the comment above each says what that is.

| Module | What it holds |
| --- | --- |
| `node` | the decisions of a node: event in, new state and actions out |
| `guarantees`, `history` | what a node guarantees over one event and over every run of events |
| `batch`, `frame`, `wire` | the formats on the wire |
| `ipv4`, `routing` | fragmentation and checksums, what is written to the interface |
| `ipam` | virtual addresses |
| `addr`, `peer` | multiaddresses and peer identities |
| `dial`, `collections`, `acl` | dial cooldowns, open connections, sets of keys, access |
| `iface`, `tun` | configuring the interface on Linux, macOS and Windows |
| `settings`, `protocol`, `config`, `text` | settings, names, numbers and addresses as text |
| `buffer` | what is claimed of the `bytes` crate |

`app/` is the program around it: command line, TUN device, libp2p swarm. `tests/` runs the library.

## Settings

| Variable | Meaning | Default |
| --- | --- | --- |
| `COCONET_BATCH_MAX_BYTES` | bytes of packets in a batch | 49152 |
| `COCONET_BATCH_MAX_PKTS` | packets in a batch | 128 |
| `COCONET_BATCH_INTERVAL_MS` | milliseconds between two flushes | 2 |
| `COCONET_RESPECT_DF` | `0`, `false`, `no` or `off` fragments packets in spite of their DF flag | on |
| `COCONET_IDENTITY` | file that keeps the node's key pair; made where it is missing | a new key pair for each run |
| `COCONET_UPNP` | `0` or `false` switches port mapping off | on |
