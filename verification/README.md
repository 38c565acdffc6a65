# netcode

A client/server platformer built around the classic netcode techniques:
client-side prediction, server reconciliation and interpolation, over UDP.

The crate is split in two.

- `src/` is a library verified with Verus. It holds the bookkeeping that the
  netcode rests on, each function with a contract and each cross-function
  property as a proof function:
  - `server::client_manager`: the registry of clients (fresh ids, capacity,
    per-client input queues kept in sequence order, timeouts) and the
    timestamp-ordered, stable schedule of unapplied inputs;
  - `server::network`: the server's decision on every packet, the split of
    queued inputs across physics substeps, and the state broadcast;
  - `client::input`: edge-triggered control keys and sequence numbering of
    sent inputs;
  - `client::network`: connection state, the drift-resistant ping estimate
    and its moving average, the netcode switches, and latency queues;
  - `client::game`: the bounded input history, acknowledgement of applied
    inputs, the snapshot buffer and the choice of interpolation pair;
  - `client::rendering`: what the heads-up display shows;
  - `sorting`: a stable sort by integer key, specified and proved unique;
  - `clock`: the only readings of the system clocks.
- `app/` is the program around it: sockets, the tokio server loop, the
  macroquad client, floating-point physics and drawing, and bincode framing.

Run `netcode server`, `netcode client` or `netcode test-client`.
