//! Data layer for a small world simulation: vibe fields, agents, rooms and
//! worlds, together with a fixed little-endian binary format for fields and
//! whole worlds.
//!
//! Every floating-point quantity of the simulation is held here by its IEEE-754
//! bit pattern (`u64`, as `f64::to_bits` gives it), exactly as it is written to
//! and read from the binary format. Arithmetic on those values lives outside
//! this crate.

pub mod agent;
pub mod encoding;
pub mod field;
pub mod room;
pub mod text;
pub mod world;
pub mod world_codec;

pub use agent::{WasmAgent, ONE_BITS};
pub use field::{deserialize_field, serialize_field, WasmVibeField, ZERO_BITS};
pub use room::WasmRoom;
pub use world::WasmWorld;
pub use world_codec::{deserialize_world, serialize_world, ReadError};
