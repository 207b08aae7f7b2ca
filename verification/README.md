# ruccl

Collective communication for a fixed world of ranks, written in Verus: the wire
protocol, the planning of collectives over a topology, the rendezvous
coordinator and the peer mesh as state machines, and the collective algorithms
of rank-local and in-process devices.

## Layout

- `src/rank/protocol`, `payload`, `tags`, `hash`: frames, headers, count
  prefixes, tags and checksums, with their round trips.
- `src/rank/topology`: links, routes, rings, hierarchies, rails, cost estimates,
  plans, autotune profiles with their JSON documents, and the settings that all
  of these are read from.
- `src/rank/network`, `src/rank/peer.rs`: what the coordinator, the router, a
  rank's session and the peer mesh do on each frame, failure and timeout.
- `src/rank/device_collective`: ring, pairwise, hierarchical and coordinated
  collectives over a device and a transport.
- `src/in_process`: collectives among the buffers of one process.
- `app`: sockets, threads, files and the environment around the library.

## How the contracts read

A collective is a conversation with a transport. `src/rank/script.rs` describes
conversations as scripts: the next call, and for each reply how it goes on. The
contract of a collective says which script its calls follow and that it returns
what the script ends in.

A device promises no success. Each call that it refuses is entered among its
faults (`src/rank/device.rs`), and a collective's contract says which calls those
can be and, where it has channels, whether the refusal was told to the other
ranks. The files named `prospects.rs` or ending in `_prospects.rs`, with
`device_collective/success.rs`, state when a collective returns a result: where
the device refuses nothing and the transport works, unless a count does not fit.

What a world of ranks ends up with is stated on top of that. The files named
`laws.rs` or ending in `_laws.rs` take one conversation for each rank, connected
by in-order delivery (`device_collective/delivery.rs`) or by the coordinator's
routing, and state what every rank then holds.
