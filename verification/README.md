# lau_wasm_bridge

World simulation data types (vibe fields, agents, rooms, worlds) and their
fixed little-endian binary records, verified with Verus.

- `src/` — the verified library. Floats are held by their IEEE-754 bit
  patterns (`u64`), which is also how they appear in the records.
  - `encoding.rs`: little-endian words and byte sequences.
  - `text.rs`: error messages and decimal digits.
  - `field.rs`: `WasmVibeField`, its record, `serialize_field` /
    `deserialize_field`, and their round-trip laws.
  - `agent.rs`, `room.rs`, `world.rs`: agents, rooms and worlds; a tick takes
    the reactive products from the caller.
  - `world_codec.rs`: the world record, `serialize_world` /
    `deserialize_world`, and their round-trip laws.
- `app/` — float arithmetic over those types (sums, conservation errors, the
  products of a tick).
- `tests/` — tests run against the compiled library.
