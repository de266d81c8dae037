# castle_lanes

The shared library of Castle Lanes, a two-player lane-battle game with an
authoritative match server: the replicated match state, how it travels, what
each side may know of it, and how matches are recorded. The functions in
`src/` are verified with Verus against contracts over a mathematical model of
their data; two thin wrappers around std (`str::trim` and `String::push`)
carry contracts that Verus takes on trust.

## Layout

- `src/model.rs`: the replicated match state (players, units, buildings,
  castles, economy) and its model.
- `src/wire.rs`: the one-byte format tag in front of every packet and the
  auto-detection of incoming formats.
- `src/keyed.rs`: sequences of entities read as maps from id to entity, with
  the lemmas that relate vector edits to map edits.
- `src/delta.rs`: snapshot deltas, computed by the server and applied by
  clients; applying a delta reconstructs the snapshot it was taken from.
- `src/chunking.rs`: splitting a delta into datagram-sized chunks that,
  applied in turn, patch a snapshot as the whole delta does.
- `src/visibility.rs`: the per-viewer filtering of snapshots (fog of war).
- `src/sessions.rs`: the server's decisions about its clients: admission,
  command authorization, at-most-once placements and reserved seats.
- `src/client_sync.rs`: how a client takes in what the server sends (its
  seat, the game list, the baseline snapshot patched by deltas, placement
  acknowledgements, the status line), and what the scripted demo player
  sends.
- `src/record.rs`: the match recorder (header, command log, kill feed,
  timeline, result).
- `src/packets.rs`: client packets and the lobby's game list.
- `src/names.rs`, `src/view.rs`, `src/models.rs`: names and labels, how a
  client reads a snapshot, and the names of the models it draws.

`tests/` exercises the library on concrete values. `app/` holds what Verus
does not check: serialization with serde, bincode and serde_json, the global
outgoing format, and writing records to disk.
