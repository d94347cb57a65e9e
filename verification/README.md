# bomber

The rules, wire format and map generator of a small Bomberman arena that bots
play over UDP, written in Verus with their behaviour stated as contracts and
proved.

## Layout

- `src/proto/` — the byte codec, the shared vocabulary (tiles, directions,
  power-ups, rules, the packed tile grid), the two-byte client packet and every
  server frame, with the round-trip laws in `laws.rs`.
- `src/protocol/` — the uplink as bots speak it: actions, the hello packet,
  sequence-number comparison and the packed grid.
- `src/sim/` — map generation and validation (`map.rs`, with the flood fill in
  `reach.rs`), the match simulation (`game.rs`), and the seeded generator
  (`rng.rs`), whose state is part of the match's view and whose draws are
  named as functions of that state. Each tick's next state and records are
  stated as functions of the state before it and the inputs, so a board is a
  function of its settings and seed, and a match of its seed and inputs.
- `src/server/` — configuration defaults and their translation into rules,
  tick-time metrics, and the registry that ties each seat to one address.
- `tests/` — executable tests of the library.
- `app/` — what stands around the library: reading `server.toml`, the serde
  and error faces of the library's types, socket addresses, and the float
  density a moderator configures, written as a ratio.

Run `verus` on `src/lib.rs` to check the proofs; `cargo test` runs the tests.
