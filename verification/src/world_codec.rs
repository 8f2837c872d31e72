//! The binary record of a whole world, all little-endian:
//!
//! ```text
//! [4B world tick] [4B room count]
//! for each room:
//!   [4B id] [8B vibe] [4B tick count] [8B energy budget] [4B agent count]
//!   for each agent:
//!     [4B id] [4B state length] [state] [4B sensor count] [4B actuator count]
//!     [sensors] [actuators]
//! ```
//!
//! Counts are written as 32-bit words; sensors and actuators are written as
//! they are, and read back by the counts stored beside them.
use vstd::prelude::*;

use vstd::bytes::{u32_from_le_bytes, u64_from_le_bytes};

use crate::agent::{with_output, zeros, AgentModel, WasmAgent, ONE_BITS};
use crate::encoding::{
    lemma_le_lengths, lemma_le_roundtrip, lemma_words_le_len, lemma_words_le_slot, push_u32, push_u64,
    push_words, u32_at, u32_le, u64_at, u64_le, words_at, words_le,
};
use crate::room::{agent_models, room_after_tick, RoomModel, WasmRoom};
use crate::text::{end_in_f64_error, end_in_f64_message, end_in_u32_error, end_in_u32_message};
use crate::world::{can_tick, room_models, world_after_tick, WasmWorld, WorldModel};

verus! {

/// The record of one agent.
pub open spec fn agent_record(a: AgentModel) -> Seq<u8> {
    u32_le(a.id) + u32_le(a.state.len() as u32) + words_le(a.state) + u32_le(a.sensor_count)
        + u32_le(a.actuator_count) + words_le(a.sensors) + words_le(a.actuators)
}

/// The records of `agents`, one after the other.
pub open spec fn agents_record(agents: Seq<AgentModel>) -> Seq<u8>
    decreases agents.len(),
{
    if agents.len() == 0 {
        Seq::empty()
    } else {
        agents_record(agents.drop_last()) + agent_record(agents.last())
    }
}

/// The record of one room, its agents included.
pub open spec fn room_record(r: RoomModel) -> Seq<u8> {
    u32_le(r.id) + u64_le(r.vibe) + u32_le(r.tick_count) + u64_le(r.energy_budget) + u32_le(
        r.agents.len() as u32,
    ) + agents_record(r.agents)
}

/// The records of `rooms`, one after the other.
pub open spec fn rooms_record(rooms: Seq<RoomModel>) -> Seq<u8>
    decreases rooms.len(),
{
    if rooms.len() == 0 {
        Seq::empty()
    } else {
        rooms_record(rooms.drop_last()) + room_record(rooms.last())
    }
}

/// The record of a world.
pub open spec fn world_record(w: WorldModel) -> Seq<u8> {
    u32_le(w.tick) + u32_le(w.rooms.len() as u32) + rooms_record(w.rooms)
}

fn write_agent(buf: &mut Vec<u8>, agent: &WasmAgent)
    ensures
        final(buf)@ == old(buf)@ + agent_record(agent@),
{
    push_u32(buf, agent.id);
    push_u32(buf, agent.state.len() as u32);
    push_words(buf, &agent.state);
    push_u32(buf, agent.sensor_count);
    push_u32(buf, agent.actuator_count);
    push_words(buf, &agent.sensors);
    push_words(buf, &agent.actuators);
    assert(buf@ =~= old(buf)@ + agent_record(agent@));
}

fn write_room(buf: &mut Vec<u8>, room: &WasmRoom)
    ensures
        final(buf)@ == old(buf)@ + room_record(room@),
{
    push_u32(buf, room.id);
    push_u64(buf, room.vibe);
    push_u32(buf, room.tick_count);
    push_u64(buf, room.energy_budget);
    push_u32(buf, room.agents.len() as u32);
    let ghost head = buf@;
    let ghost models = room@.agents;
    let mut i: usize = 0;
    while i < room.agents.len()
        invariant
            i <= room.agents@.len(),
            models == agent_models(room.agents@),
            buf@ == head + agents_record(models.take(i as int)),
        decreases room.agents@.len() - i,
    {
        write_agent(buf, &room.agents[i]);
        proof {
            let t = models.take(i + 1);
            assert(t.drop_last() =~= models.take(i as int));
            assert(buf@ =~= head + agents_record(t));
        }
        i += 1;
    }
    assert(models.take(i as int) =~= models);
    assert(buf@ =~= old(buf)@ + room_record(room@));
}

/// Writes the record of `world`.
pub fn serialize_world(world: &WasmWorld) -> (out: Vec<u8>)
    ensures
        out@ == world_record(world@),
{
    let mut buf: Vec<u8> = Vec::new();
    push_u32(&mut buf, world.tick);
    push_u32(&mut buf, world.rooms.len() as u32);
    let ghost head = buf@;
    let ghost models = world@.rooms;
    let mut i: usize = 0;
    while i < world.rooms.len()
        invariant
            i <= world.rooms@.len(),
            models == room_models(world.rooms@),
            buf@ == head + rooms_record(models.take(i as int)),
        decreases world.rooms@.len() - i,
    {
        write_room(&mut buf, &world.rooms[i]);
        proof {
            let t = models.take(i + 1);
            assert(t.drop_last() =~= models.take(i as int));
            assert(buf@ =~= head + rooms_record(t));
        }
        i += 1;
    }
    assert(models.take(i as int) =~= models);
    assert(buf@ =~= world_record(world@));
    buf
}

/// Where a world record ran out of bytes.
#[derive(Debug, Clone, Copy)]
pub enum ReadError {
    /// Inside a 32-bit word.
    EndInU32,
    /// Inside a 64-bit float.
    EndInF64,
}

/// The message a world read fails with.
pub open spec fn read_error_message(e: ReadError) -> Seq<char> {
    match e {
        ReadError::EndInU32 => end_in_u32_message(),
        ReadError::EndInF64 => end_in_f64_message(),
    }
}

/// A 32-bit word read at `off`, with the offset after it.
pub open spec fn parse_u32(d: Seq<u8>, off: int) -> Result<(u32, int), ReadError> {
    if d.len() < off + 4 {
        Err(ReadError::EndInU32)
    } else {
        Ok((u32_at(d, off), off + 4))
    }
}

/// A float (its bit pattern) read at `off`, with the offset after it.
pub open spec fn parse_f64(d: Seq<u8>, off: int) -> Result<(u64, int), ReadError> {
    if d.len() < off + 8 {
        Err(ReadError::EndInF64)
    } else {
        Ok((u64_at(d, off), off + 8))
    }
}

/// `n` floats read from `off` on, with the offset after them.
pub open spec fn parse_words(d: Seq<u8>, off: int, n: nat) -> Result<(Seq<u64>, int), ReadError> {
    if d.len() < off + 8 * n {
        Err(ReadError::EndInF64)
    } else {
        Ok((words_at(d, off, n), off + 8 * n))
    }
}

/// An agent read at `off`: id, state, sensor count, actuator count, then as
/// many sensors and actuators as those counts say.
pub open spec fn parse_agent(d: Seq<u8>, off: int) -> Result<(AgentModel, int), ReadError> {
    match parse_u32(d, off) {
        Err(e) => Err(e),
        Ok((id, o1)) => match parse_u32(d, o1) {
            Err(e) => Err(e),
            Ok((state_len, o2)) => match parse_words(d, o2, state_len as nat) {
                Err(e) => Err(e),
                Ok((state, o3)) => match parse_u32(d, o3) {
                    Err(e) => Err(e),
                    Ok((sensor_count, o4)) => match parse_u32(d, o4) {
                        Err(e) => Err(e),
                        Ok((actuator_count, o5)) => match parse_words(d, o5, sensor_count as nat) {
                            Err(e) => Err(e),
                            Ok((sensors, o6)) => match parse_words(d, o6, actuator_count as nat) {
                                Err(e) => Err(e),
                                Ok((actuators, o7)) => Ok(
                                    (
                                        AgentModel {
                                            id,
                                            state,
                                            sensor_count,
                                            actuator_count,
                                            sensors,
                                            actuators,
                                        },
                                        o7,
                                    ),
                                ),
                            },
                        },
                    },
                },
            },
        },
    }
}

/// `n` agents read one after the other from `off` on.
pub open spec fn parse_agents(d: Seq<u8>, off: int, n: nat) -> Result<(Seq<AgentModel>, int), ReadError>
    decreases n,
{
    if n == 0 {
        Ok((Seq::empty(), off))
    } else {
        match parse_agents(d, off, (n - 1) as nat) {
            Err(e) => Err(e),
            Ok((agents, o)) => match parse_agent(d, o) {
                Err(e) => Err(e),
                Ok((a, o2)) => Ok((agents.push(a), o2)),
            },
        }
    }
}

/// A room read at `off`, its agents included.
pub open spec fn parse_room(d: Seq<u8>, off: int) -> Result<(RoomModel, int), ReadError> {
    match parse_u32(d, off) {
        Err(e) => Err(e),
        Ok((id, o1)) => match parse_f64(d, o1) {
            Err(e) => Err(e),
            Ok((vibe, o2)) => match parse_u32(d, o2) {
                Err(e) => Err(e),
                Ok((tick_count, o3)) => match parse_f64(d, o3) {
                    Err(e) => Err(e),
                    Ok((energy_budget, o4)) => match parse_u32(d, o4) {
                        Err(e) => Err(e),
                        Ok((agent_count, o5)) => match parse_agents(d, o5, agent_count as nat) {
                            Err(e) => Err(e),
                            Ok((agents, o6)) => Ok(
                                (RoomModel { id, vibe, agents, tick_count, energy_budget }, o6),
                            ),
                        },
                    },
                },
            },
        },
    }
}

/// `n` rooms read one after the other from `off` on.
pub open spec fn parse_rooms(d: Seq<u8>, off: int, n: nat) -> Result<(Seq<RoomModel>, int), ReadError>
    decreases n,
{
    if n == 0 {
        Ok((Seq::empty(), off))
    } else {
        match parse_rooms(d, off, (n - 1) as nat) {
            Err(e) => Err(e),
            Ok((rooms, o)) => match parse_room(d, o) {
                Err(e) => Err(e),
                Ok((r, o2)) => Ok((rooms.push(r), o2)),
            },
        }
    }
}

/// What reading a world record from `data` gives: the world, or where the
/// bytes ran out. Bytes after the record are ignored.
pub open spec fn decode_world(d: Seq<u8>) -> Result<WorldModel, ReadError> {
    match parse_u32(d, 0) {
        Err(e) => Err(e),
        Ok((tick, o1)) => match parse_u32(d, o1) {
            Err(e) => Err(e),
            Ok((room_count, o2)) => match parse_rooms(d, o2, room_count as nat) {
                Err(e) => Err(e),
                Ok((rooms, _)) => Ok(WorldModel { rooms, tick }),
            },
        },
    }
}

fn read_u32(data: &[u8], off: &mut usize) -> (r: Result<u32, ReadError>)
    requires
        *old(off) <= data@.len(),
    ensures
        match parse_u32(data@, *old(off) as int) {
            Ok((v, o)) => r == Ok::<u32, ReadError>(v) && *final(off) == o,
            Err(e) => r == Err::<u32, ReadError>(e),
        },
        r is Ok ==> *final(off) <= data@.len(),
{
    if data.len() - *off < 4 {
        return Err(ReadError::EndInU32);
    }
    let start = *off;
    let v = u32_from_le_bytes(&data[start..start + 4]);
    *off = start + 4;
    Ok(v)
}

fn read_f64(data: &[u8], off: &mut usize) -> (r: Result<u64, ReadError>)
    requires
        *old(off) <= data@.len(),
    ensures
        match parse_f64(data@, *old(off) as int) {
            Ok((v, o)) => r == Ok::<u64, ReadError>(v) && *final(off) == o,
            Err(e) => r == Err::<u64, ReadError>(e),
        },
        r is Ok ==> *final(off) <= data@.len(),
{
    if data.len() - *off < 8 {
        return Err(ReadError::EndInF64);
    }
    let start = *off;
    let v = u64_from_le_bytes(&data[start..start + 8]);
    *off = start + 8;
    Ok(v)
}

fn read_f64_vec(data: &[u8], off: &mut usize, len: usize) -> (r: Result<Vec<u64>, ReadError>)
    requires
        *old(off) <= data@.len(),
    ensures
        match parse_words(data@, *old(off) as int, len as nat) {
            Ok((v, o)) => r is Ok && r->Ok_0@ == v && *final(off) == o,
            Err(e) => r is Err && r->Err_0 == e,
        },
        r is Ok ==> *final(off) <= data@.len(),
{
    let ghost start = *off as int;
    let mut values: Vec<u64> = Vec::new();
    let mut i: usize = 0;
    while i < len
        invariant
            i <= len,
            *off == start + 8 * i,
            *off <= data@.len(),
            start == *old(off) as int,
            values@ == words_at(data@, start, i as nat),
        decreases len - i,
    {
        match read_f64(data, off) {
            Ok(v) => {
                values.push(v);
            },
            Err(e) => {
                return Err(e);
            },
        }
        i += 1;
        assert(values@ =~= words_at(data@, start, i as nat));
    }
    Ok(values)
}

/// Once reading the first `k` agents fails, reading more fails the same way.
proof fn lemma_parse_agents_stuck(d: Seq<u8>, off: int, k: nat, n: nat)
    requires
        k <= n,
        parse_agents(d, off, k) is Err,
    ensures
        parse_agents(d, off, n) == parse_agents(d, off, k),
    decreases n,
{
    if n > k {
        lemma_parse_agents_stuck(d, off, k, (n - 1) as nat);
    }
}

/// Once reading the first `k` rooms fails, reading more fails the same way.
proof fn lemma_parse_rooms_stuck(d: Seq<u8>, off: int, k: nat, n: nat)
    requires
        k <= n,
        parse_rooms(d, off, k) is Err,
    ensures
        parse_rooms(d, off, n) == parse_rooms(d, off, k),
    decreases n,
{
    if n > k {
        lemma_parse_rooms_stuck(d, off, k, (n - 1) as nat);
    }
}

fn read_agent(data: &[u8], off: &mut usize) -> (r: Result<WasmAgent, ReadError>)
    requires
        *old(off) <= data@.len(),
    ensures
        match parse_agent(data@, *old(off) as int) {
            Ok((a, o)) => r is Ok && r->Ok_0@ == a && *final(off) == o,
            Err(e) => r is Err && r->Err_0 == e,
        },
        r is Ok ==> *final(off) <= data@.len(),
{
    let id = match read_u32(data, off) {
        Ok(v) => v,
        Err(e) => return Err(e),
    };
    let state_len = match read_u32(data, off) {
        Ok(v) => v,
        Err(e) => return Err(e),
    };
    let state = match read_f64_vec(data, off, state_len as usize) {
        Ok(v) => v,
        Err(e) => return Err(e),
    };
    let sensor_count = match read_u32(data, off) {
        Ok(v) => v,
        Err(e) => return Err(e),
    };
    let actuator_count = match read_u32(data, off) {
        Ok(v) => v,
        Err(e) => return Err(e),
    };
    let sensors = match read_f64_vec(data, off, sensor_count as usize) {
        Ok(v) => v,
        Err(e) => return Err(e),
    };
    let actuators = match read_f64_vec(data, off, actuator_count as usize) {
        Ok(v) => v,
        Err(e) => return Err(e),
    };
    Ok(WasmAgent { id, state, sensor_count, actuator_count, sensors, actuators })
}

fn read_room(data: &[u8], off: &mut usize) -> (r: Result<WasmRoom, ReadError>)
    requires
        *old(off) <= data@.len(),
    ensures
        match parse_room(data@, *old(off) as int) {
            Ok((m, o)) => r is Ok && r->Ok_0@ == m && *final(off) == o,
            Err(e) => r is Err && r->Err_0 == e,
        },
        r is Ok ==> *final(off) <= data@.len(),
{
    let ghost entry = *off as int;
    let id = match read_u32(data, off) {
        Ok(v) => v,
        Err(e) => return Err(e),
    };
    let vibe = match read_f64(data, off) {
        Ok(v) => v,
        Err(e) => return Err(e),
    };
    let tick_count = match read_u32(data, off) {
        Ok(v) => v,
        Err(e) => return Err(e),
    };
    let energy_budget = match read_f64(data, off) {
        Ok(v) => v,
        Err(e) => return Err(e),
    };
    let agent_count = match read_u32(data, off) {
        Ok(v) => v,
        Err(e) => return Err(e),
    };
    let ghost d = data@;
    let ghost start = *off as int;
    let n = agent_count as usize;
    let mut agents: Vec<WasmAgent> = Vec::new();
    assert(agent_models(agents@) =~= Seq::<AgentModel>::empty());
    let mut i: usize = 0;
    while i < n
        invariant
            i <= n,
            n == agent_count,
            d == data@,
            *off <= data@.len(),
            entry == *old(off) as int,
            parse_room(d, entry) == match parse_agents(d, start, n as nat) {
                Err(e) => Err(e),
                Ok((agents, o6)) => Ok((RoomModel { id, vibe, agents, tick_count, energy_budget }, o6)),
            },
            parse_agents(d, start, i as nat) == Ok::<(Seq<AgentModel>, int), ReadError>(
                (agent_models(agents@), *off as int),
            ),
        decreases n - i,
    {
        let ghost before = agents@;
        match read_agent(data, off) {
            Ok(a) => {
                agents.push(a);
                assert(agent_models(agents@) =~= agent_models(before).push(a@));
            },
            Err(e) => {
                proof {
                    assert(parse_agents(d, start, (i + 1) as nat) == Err::<(Seq<AgentModel>, int), ReadError>(e));
                    lemma_parse_agents_stuck(d, start, (i + 1) as nat, n as nat);
                }
                return Err(e);
            },
        }
        i += 1;
    }
    Ok(WasmRoom { id, vibe, agents, tick_count, energy_budget })
}

/// Reads a world record from the front of `data`; bytes after it are
/// ignored.
pub fn deserialize_world(data: &[u8]) -> (res: Result<WasmWorld, String>)
    ensures
        match decode_world(data@) {
            Ok(w) => res is Ok && res->Ok_0@ == w,
            Err(e) => res is Err && res->Err_0@ == read_error_message(e),
        },
{
    match read_world(data) {
        Ok(w) => Ok(w),
        Err(ReadError::EndInU32) => Err(end_in_u32_error()),
        Err(ReadError::EndInF64) => Err(end_in_f64_error()),
    }
}

fn read_world(data: &[u8]) -> (r: Result<WasmWorld, ReadError>)
    ensures
        match decode_world(data@) {
            Ok(w) => r is Ok && r->Ok_0@ == w,
            Err(e) => r is Err && r->Err_0 == e,
        },
{
    let mut off: usize = 0;
    let tick = match read_u32(data, &mut off) {
        Ok(v) => v,
        Err(e) => return Err(e),
    };
    let room_count = match read_u32(data, &mut off) {
        Ok(v) => v,
        Err(e) => return Err(e),
    };
    let ghost d = data@;
    let ghost start = off as int;
    let n = room_count as usize;
    let mut rooms: Vec<WasmRoom> = Vec::new();
    assert(room_models(rooms@) =~= Seq::<RoomModel>::empty());
    let mut i: usize = 0;
    while i < n
        invariant
            i <= n,
            n == room_count,
            d == data@,
            off <= data@.len(),
            decode_world(d) == match parse_rooms(d, start, n as nat) {
                Err(e) => Err(e),
                Ok((rooms, _)) => Ok(WorldModel { rooms, tick }),
            },
            parse_rooms(d, start, i as nat) == Ok::<(Seq<RoomModel>, int), ReadError>(
                (room_models(rooms@), off as int),
            ),
        decreases n - i,
    {
        let ghost before = rooms@;
        match read_room(data, &mut off) {
            Ok(r) => {
                rooms.push(r);
                assert(room_models(rooms@) =~= room_models(before).push(r@));
            },
            Err(e) => {
                proof {
                    assert(parse_rooms(d, start, (i + 1) as nat) == Err::<(Seq<RoomModel>, int), ReadError>(e));
                    lemma_parse_rooms_stuck(d, start, (i + 1) as nat, n as nat);
                }
                return Err(e);
            },
        }
        i += 1;
    }
    Ok(WasmWorld { rooms, tick })
}

/// An agent whose record reads back as itself: its state length fits the
/// 32-bit length word, and its sensor and actuator counts are the numbers of
/// sensors and actuators it holds.
pub open spec fn agent_recordable(a: AgentModel) -> bool {
    &&& a.state.len() <= u32::MAX
    &&& a.sensors.len() == a.sensor_count
    &&& a.actuators.len() == a.actuator_count
}

/// A room whose record reads back as itself.
pub open spec fn room_recordable(r: RoomModel) -> bool {
    &&& r.agents.len() <= u32::MAX
    &&& forall|i: int| 0 <= i < r.agents.len() ==> #[trigger] agent_recordable(r.agents[i])
}

/// A world whose record reads back as itself.
pub open spec fn world_recordable(w: WorldModel) -> bool {
    &&& w.rooms.len() <= u32::MAX
    &&& forall|i: int| 0 <= i < w.rooms.len() ==> #[trigger] room_recordable(w.rooms[i])
}

/// Whether `d` holds `x` at offset `off`.
pub open spec fn holds_at(d: Seq<u8>, off: int, x: Seq<u8>) -> bool {
    &&& 0 <= off
    &&& off + x.len() <= d.len()
    &&& d.subrange(off, off + x.len()) == x
}

proof fn lemma_holds_split(d: Seq<u8>, off: int, x: Seq<u8>, y: Seq<u8>)
    requires
        holds_at(d, off, x + y),
    ensures
        holds_at(d, off, x),
        holds_at(d, off + x.len(), y),
{
    assert(d.subrange(off, off + x.len()) =~= x) by {
        assert forall|i: int| 0 <= i < x.len() implies d.subrange(off, off + x.len())[i] == x[i] by {
            assert(d.subrange(off, off + (x + y).len())[i] == (x + y)[i]);
        }
    }
    assert(d.subrange(off + x.len(), off + x.len() + y.len()) =~= y) by {
        assert forall|i: int| 0 <= i < y.len() implies d.subrange(off + x.len(), off + x.len() + y.len())[i] == y[i] by {
            assert(d.subrange(off, off + (x + y).len())[x.len() + i] == (x + y)[x.len() + i]);
        }
    }
}

proof fn lemma_parse_u32_at(d: Seq<u8>, off: int, x: u32)
    requires
        holds_at(d, off, u32_le(x)),
    ensures
        parse_u32(d, off) == Ok::<(u32, int), ReadError>((x, off + 4)),
{
    lemma_le_lengths();
    lemma_le_roundtrip();
}

proof fn lemma_parse_f64_at(d: Seq<u8>, off: int, x: u64)
    requires
        holds_at(d, off, u64_le(x)),
    ensures
        parse_f64(d, off) == Ok::<(u64, int), ReadError>((x, off + 8)),
{
    lemma_le_lengths();
    lemma_le_roundtrip();
}

proof fn lemma_parse_words_at(d: Seq<u8>, off: int, ws: Seq<u64>)
    requires
        holds_at(d, off, words_le(ws)),
    ensures
        parse_words(d, off, ws.len()) == Ok::<(Seq<u64>, int), ReadError>((ws, off + 8 * ws.len())),
{
    lemma_le_lengths();
    lemma_le_roundtrip();
    lemma_words_le_len(ws);
    let n = ws.len() as int;
    assert forall|i: int| 0 <= i < n implies #[trigger] words_at(d, off, ws.len())[i] == ws[i] by {
        lemma_words_le_slot(ws, i);
        let w = words_le(ws);
        assert(d.subrange(off + 8 * i, off + 8 * i + 8) =~= w.subrange(8 * i, 8 * i + 8)) by {
            assert forall|j: int| 0 <= j < 8 implies #[trigger] d.subrange(off + 8 * i, off + 8 * i + 8)[j]
                == w.subrange(8 * i, 8 * i + 8)[j] by {
                assert(d.subrange(off, off + w.len())[8 * i + j] == w[8 * i + j]);
            }
        }
    }
    assert(words_at(d, off, ws.len()) =~= ws);
}

proof fn lemma_parse_agent_at(d: Seq<u8>, off: int, a: AgentModel)
    requires
        holds_at(d, off, agent_record(a)),
        agent_recordable(a),
    ensures
        parse_agent(d, off) == Ok::<(AgentModel, int), ReadError>((a, off + agent_record(a).len())),
{
    lemma_le_lengths();
    lemma_words_le_len(a.state);
    lemma_words_le_len(a.sensors);
    lemma_words_le_len(a.actuators);
    let p1 = u32_le(a.id);
    let p2 = p1 + u32_le(a.state.len() as u32);
    let p3 = p2 + words_le(a.state);
    let p4 = p3 + u32_le(a.sensor_count);
    let p5 = p4 + u32_le(a.actuator_count);
    let p6 = p5 + words_le(a.sensors);
    lemma_holds_split(d, off, p6, words_le(a.actuators));
    lemma_holds_split(d, off, p5, words_le(a.sensors));
    lemma_holds_split(d, off, p4, u32_le(a.actuator_count));
    lemma_holds_split(d, off, p3, u32_le(a.sensor_count));
    lemma_holds_split(d, off, p2, words_le(a.state));
    lemma_holds_split(d, off, p1, u32_le(a.state.len() as u32));
    lemma_parse_u32_at(d, off, a.id);
    lemma_parse_u32_at(d, off + 4, a.state.len() as u32);
    lemma_parse_words_at(d, off + 8, a.state);
    lemma_parse_u32_at(d, off + p3.len(), a.sensor_count);
    lemma_parse_u32_at(d, off + p4.len(), a.actuator_count);
    lemma_parse_words_at(d, off + p5.len(), a.sensors);
    lemma_parse_words_at(d, off + p6.len(), a.actuators);
}

proof fn lemma_parse_agents_at(d: Seq<u8>, off: int, agents: Seq<AgentModel>)
    requires
        holds_at(d, off, agents_record(agents)),
        forall|i: int| 0 <= i < agents.len() ==> #[trigger] agent_recordable(agents[i]),
    ensures
        parse_agents(d, off, agents.len()) == Ok::<(Seq<AgentModel>, int), ReadError>(
            (agents, off + agents_record(agents).len()),
        ),
    decreases agents.len(),
{
    if agents.len() == 0 {
        assert(agents =~= Seq::<AgentModel>::empty());
    } else {
        let front = agents.drop_last();
        let last = agents.last();
        lemma_holds_split(d, off, agents_record(front), agent_record(last));
        assert forall|i: int| 0 <= i < front.len() implies #[trigger] agent_recordable(front[i]) by {
            assert(agent_recordable(agents[i]));
        }
        lemma_parse_agents_at(d, off, front);
        assert(agent_recordable(agents[agents.len() - 1]));
        lemma_parse_agent_at(d, off + agents_record(front).len(), last);
        assert(front.push(last) =~= agents);
    }
}

proof fn lemma_parse_room_at(d: Seq<u8>, off: int, r: RoomModel)
    requires
        holds_at(d, off, room_record(r)),
        room_recordable(r),
    ensures
        parse_room(d, off) == Ok::<(RoomModel, int), ReadError>((r, off + room_record(r).len())),
{
    lemma_le_lengths();
    let p1 = u32_le(r.id);
    let p2 = p1 + u64_le(r.vibe);
    let p3 = p2 + u32_le(r.tick_count);
    let p4 = p3 + u64_le(r.energy_budget);
    let p5 = p4 + u32_le(r.agents.len() as u32);
    lemma_holds_split(d, off, p5, agents_record(r.agents));
    lemma_holds_split(d, off, p4, u32_le(r.agents.len() as u32));
    lemma_holds_split(d, off, p3, u64_le(r.energy_budget));
    lemma_holds_split(d, off, p2, u32_le(r.tick_count));
    lemma_holds_split(d, off, p1, u64_le(r.vibe));
    lemma_parse_u32_at(d, off, r.id);
    lemma_parse_f64_at(d, off + 4, r.vibe);
    lemma_parse_u32_at(d, off + 12, r.tick_count);
    lemma_parse_f64_at(d, off + 16, r.energy_budget);
    lemma_parse_u32_at(d, off + 24, r.agents.len() as u32);
    lemma_parse_agents_at(d, off + 28, r.agents);
}

proof fn lemma_parse_rooms_at(d: Seq<u8>, off: int, rooms: Seq<RoomModel>)
    requires
        holds_at(d, off, rooms_record(rooms)),
        forall|i: int| 0 <= i < rooms.len() ==> #[trigger] room_recordable(rooms[i]),
    ensures
        parse_rooms(d, off, rooms.len()) == Ok::<(Seq<RoomModel>, int), ReadError>(
            (rooms, off + rooms_record(rooms).len()),
        ),
    decreases rooms.len(),
{
    if rooms.len() == 0 {
        assert(rooms =~= Seq::<RoomModel>::empty());
    } else {
        let front = rooms.drop_last();
        let last = rooms.last();
        lemma_holds_split(d, off, rooms_record(front), room_record(last));
        assert forall|i: int| 0 <= i < front.len() implies #[trigger] room_recordable(front[i]) by {
            assert(room_recordable(rooms[i]));
        }
        lemma_parse_rooms_at(d, off, front);
        assert(room_recordable(rooms[rooms.len() - 1]));
        lemma_parse_room_at(d, off + rooms_record(front).len(), last);
        assert(front.push(last) =~= rooms);
    }
}

/// A world written and read back is the same world, whatever bytes follow
/// its record, when every count fits its 32-bit word and every agent's
/// sensor and actuator counts match the values it holds.
pub proof fn lemma_world_roundtrip(w: WorldModel, rest: Seq<u8>)
    requires
        world_recordable(w),
    ensures
        decode_world(world_record(w) + rest) == Ok::<WorldModel, ReadError>(w),
{
    lemma_le_lengths();
    let d = world_record(w) + rest;
    let p1 = u32_le(w.tick);
    let p2 = p1 + u32_le(w.rooms.len() as u32);
    assert(holds_at(d, 0, world_record(w))) by {
        assert(d.subrange(0, world_record(w).len() as int) =~= world_record(w));
    }
    lemma_holds_split(d, 0, p2, rooms_record(w.rooms));
    lemma_holds_split(d, 0, p1, u32_le(w.rooms.len() as u32));
    lemma_parse_u32_at(d, 0, w.tick);
    lemma_parse_u32_at(d, 4, w.rooms.len() as u32);
    lemma_parse_rooms_at(d, 8, w.rooms);
}

proof fn lemma_subrange_extend(d: Seq<u8>, rest: Seq<u8>, a: int, b: int)
    requires
        0 <= a <= b <= d.len(),
    ensures
        (d + rest).subrange(a, b) == d.subrange(a, b),
{
    assert((d + rest).subrange(a, b) =~= d.subrange(a, b));
}

proof fn lemma_parse_agent_extend(d: Seq<u8>, rest: Seq<u8>, off: int)
    requires
        0 <= off,
        parse_agent(d, off) is Ok,
    ensures
        parse_agent(d + rest, off) == parse_agent(d, off),
        parse_agent(d, off)->Ok_0.1 <= d.len(),
{
    let e = d + rest;
    let (id, o1) = parse_u32(d, off)->Ok_0;
    let (sl, o2) = parse_u32(d, o1)->Ok_0;
    let (st, o3) = parse_words(d, o2, sl as nat)->Ok_0;
    let (sc, o4) = parse_u32(d, o3)->Ok_0;
    let (ac, o5) = parse_u32(d, o4)->Ok_0;
    let (ss, o6) = parse_words(d, o5, sc as nat)->Ok_0;
    lemma_subrange_extend(d, rest, off, off + 4);
    lemma_subrange_extend(d, rest, o1, o1 + 4);
    lemma_subrange_extend(d, rest, o3, o3 + 4);
    lemma_subrange_extend(d, rest, o4, o4 + 4);
    lemma_words_extend(d, rest, o2, sl as nat);
    lemma_words_extend(d, rest, o5, sc as nat);
    lemma_words_extend(d, rest, o6, ac as nat);
}

proof fn lemma_words_extend(d: Seq<u8>, rest: Seq<u8>, off: int, n: nat)
    requires
        0 <= off,
        off + 8 * n <= d.len(),
    ensures
        words_at(d + rest, off, n) == words_at(d, off, n),
{
    assert forall|i: int| 0 <= i < n implies #[trigger] words_at(d + rest, off, n)[i] == words_at(d, off, n)[i] by {
        lemma_subrange_extend(d, rest, off + 8 * i, off + 8 * i + 8);
    }
    assert(words_at(d + rest, off, n) =~= words_at(d, off, n));
}

proof fn lemma_parse_agents_extend(d: Seq<u8>, rest: Seq<u8>, off: int, n: nat)
    requires
        0 <= off,
        parse_agents(d, off, n) is Ok,
    ensures
        parse_agents(d + rest, off, n) == parse_agents(d, off, n),
        off <= parse_agents(d, off, n)->Ok_0.1 <= d.len() || n == 0,
    decreases n,
{
    if n > 0 {
        lemma_parse_agents_extend(d, rest, off, (n - 1) as nat);
        let o = parse_agents(d, off, (n - 1) as nat)->Ok_0.1;
        assert(0 <= o);
        lemma_parse_agent_extend(d, rest, o);
    }
}

proof fn lemma_parse_room_extend(d: Seq<u8>, rest: Seq<u8>, off: int)
    requires
        0 <= off,
        parse_room(d, off) is Ok,
    ensures
        parse_room(d + rest, off) == parse_room(d, off),
        off <= parse_room(d, off)->Ok_0.1 <= d.len(),
{
    let (id, o1) = parse_u32(d, off)->Ok_0;
    let (vibe, o2) = parse_f64(d, o1)->Ok_0;
    let (tc, o3) = parse_u32(d, o2)->Ok_0;
    let (eb, o4) = parse_f64(d, o3)->Ok_0;
    let (ac, o5) = parse_u32(d, o4)->Ok_0;
    lemma_subrange_extend(d, rest, off, off + 4);
    lemma_subrange_extend(d, rest, o1, o1 + 8);
    lemma_subrange_extend(d, rest, o2, o2 + 4);
    lemma_subrange_extend(d, rest, o3, o3 + 8);
    lemma_subrange_extend(d, rest, o4, o4 + 4);
    lemma_parse_agents_extend(d, rest, o5, ac as nat);
}

proof fn lemma_parse_rooms_extend(d: Seq<u8>, rest: Seq<u8>, off: int, n: nat)
    requires
        0 <= off,
        parse_rooms(d, off, n) is Ok,
    ensures
        parse_rooms(d + rest, off, n) == parse_rooms(d, off, n),
        off <= parse_rooms(d, off, n)->Ok_0.1,
        n > 0 ==> parse_rooms(d, off, n)->Ok_0.1 <= d.len(),
    decreases n,
{
    if n > 0 {
        lemma_parse_rooms_extend(d, rest, off, (n - 1) as nat);
        let o = parse_rooms(d, off, (n - 1) as nat)->Ok_0.1;
        lemma_parse_room_extend(d, rest, o);
    }
}

/// The end offset of a successful world read, with the world itself.
spec fn world_extent(d: Seq<u8>) -> int {
    let (_, o1) = parse_u32(d, 0)->Ok_0;
    let (room_count, o2) = parse_u32(d, o1)->Ok_0;
    parse_rooms(d, o2, room_count as nat)->Ok_0.1
}

proof fn lemma_decode_world_extend(d: Seq<u8>, rest: Seq<u8>)
    requires
        decode_world(d) is Ok,
    ensures
        decode_world(d + rest) == decode_world(d),
        world_extent(d + rest) == world_extent(d),
        world_extent(d) <= d.len(),
{
    lemma_subrange_extend(d, rest, 0, 4);
    lemma_subrange_extend(d, rest, 4, 8);
    let (room_count, o2) = parse_u32(d, 4)->Ok_0;
    lemma_parse_rooms_extend(d, rest, 8, room_count as nat);
}

/// Bytes after a world record do not change what is read.
pub proof fn lemma_world_trailing_ignored(d: Seq<u8>, rest: Seq<u8>)
    requires
        decode_world(d) is Ok,
    ensures
        decode_world(d + rest) == decode_world(d),
{
    lemma_decode_world_extend(d, rest);
}

/// A world record cut short anywhere is refused.
pub proof fn lemma_world_truncated_refused(w: WorldModel, k: int)
    requires
        world_recordable(w),
        0 <= k < world_record(w).len(),
    ensures
        decode_world(world_record(w).take(k)) is Err,
{
    let full = world_record(w);
    let t = full.take(k);
    let tail = full.skip(k);
    assert(t + tail =~= full);
    lemma_world_roundtrip(w, Seq::empty());
    assert(full + Seq::<u8>::empty() =~= full);
    if decode_world(t) is Ok {
        lemma_decode_world_extend(t, tail);
        lemma_world_extent_of_record(w);
        assert(false);
    }
}

proof fn lemma_world_extent_of_record(w: WorldModel)
    requires
        world_recordable(w),
    ensures
        world_extent(world_record(w)) == world_record(w).len(),
{
    lemma_le_lengths();
    let d = world_record(w);
    let p1 = u32_le(w.tick);
    let p2 = p1 + u32_le(w.rooms.len() as u32);
    assert(holds_at(d, 0, d)) by {
        assert(d.subrange(0, d.len() as int) =~= d);
    }
    lemma_holds_split(d, 0, p2, rooms_record(w.rooms));
    lemma_holds_split(d, 0, p1, u32_le(w.rooms.len() as u32));
    lemma_parse_u32_at(d, 0, w.tick);
    lemma_parse_u32_at(d, 4, w.rooms.len() as u32);
    lemma_parse_rooms_at(d, 8, w.rooms);
}

/// A freshly made agent has a record that reads back as itself.
pub proof fn lemma_new_agent_recordable(id: u32, sensor_count: u32, actuator_count: u32)
    ensures
        agent_recordable(
            AgentModel {
                id,
                state: seq![ONE_BITS],
                sensor_count,
                actuator_count,
                sensors: zeros(sensor_count as nat),
                actuators: zeros(actuator_count as nat),
            },
        ),
{
}

/// A tick keeps a world's record readable back as the world: it changes
/// actuator values only, never how many there are.
pub proof fn lemma_tick_keeps_recordable(w: WorldModel, outputs: Seq<Seq<u64>>)
    requires
        world_recordable(w),
        can_tick(w, outputs),
    ensures
        world_recordable(world_after_tick(w, outputs)),
{
    let t = world_after_tick(w, outputs);
    assert forall|i: int| 0 <= i < t.rooms.len() implies #[trigger] room_recordable(t.rooms[i]) by {
        let r = w.rooms[i];
        assert(room_recordable(r));
        let tr = room_after_tick(r, outputs[i]);
        assert(tr == t.rooms[i]);
        assert forall|j: int| 0 <= j < tr.agents.len() implies #[trigger] agent_recordable(tr.agents[j]) by {
            assert(agent_recordable(r.agents[j]));
            assert(tr.agents[j] == with_output(r.agents[j], outputs[i][j]));
        }
    }
}

/// Two worlds with the same record are the same world, among worlds whose
/// records read back as themselves.
pub proof fn lemma_world_record_injective(a: WorldModel, b: WorldModel)
    requires
        world_recordable(a),
        world_recordable(b),
        world_record(a) == world_record(b),
    ensures
        a == b,
{
    lemma_world_roundtrip(a, Seq::empty());
    lemma_world_roundtrip(b, Seq::empty());
}

/// `d` holds `x` at `o` and `x` holds `y` at `p`: `d` holds `y` at `o + p`.
proof fn lemma_holds_within(d: Seq<u8>, o: int, x: Seq<u8>, p: int, y: Seq<u8>)
    requires
        holds_at(d, o, x),
        holds_at(x, p, y),
    ensures
        holds_at(d, o + p, y),
{
    assert(d.subrange(o + p, o + p + y.len()) =~= y) by {
        assert forall|i: int| 0 <= i < y.len() implies #[trigger] d.subrange(o + p, o + p + y.len())[i] == y[i] by {
            assert(d.subrange(o, o + x.len())[p + i] == x[p + i]);
            assert(x.subrange(p, p + y.len())[i] == y[i]);
        }
    }
}

/// A word read inside a held sequence reads the same in the whole.
proof fn lemma_words_within(d: Seq<u8>, o: int, x: Seq<u8>, p: int)
    requires
        holds_at(d, o, x),
        0 <= p,
    ensures
        p + 4 <= x.len() ==> u32_at(d, o + p) == u32_at(x, p),
        p + 8 <= x.len() ==> u64_at(d, o + p) == u64_at(x, p),
{
    if p + 4 <= x.len() {
        assert(d.subrange(o + p, o + p + 4) =~= x.subrange(p, p + 4)) by {
            assert forall|i: int| 0 <= i < 4 implies #[trigger] d.subrange(o + p, o + p + 4)[i] == x.subrange(p, p + 4)[i] by {
                assert(d.subrange(o, o + x.len())[p + i] == x[p + i]);
            }
        }
    }
    if p + 8 <= x.len() {
        assert(d.subrange(o + p, o + p + 8) =~= x.subrange(p, p + 8)) by {
            assert forall|i: int| 0 <= i < 8 implies #[trigger] d.subrange(o + p, o + p + 8)[i] == x.subrange(p, p + 8)[i] by {
                assert(d.subrange(o, o + x.len())[p + i] == x[p + i]);
            }
        }
    }
}

proof fn lemma_holds_whole(x: Seq<u8>)
    ensures
        holds_at(x, 0, x),
{
    assert(x.subrange(0, x.len() as int) =~= x);
}

/// Where each part of an agent's record sits, with `s` state values, `c`
/// sensors and `t` actuators written: id at 0, state length at 4, state
/// value `k` at `8 + 8k`, sensor count at `8 + 8s`, actuator count at
/// `12 + 8s`, sensor `k` at `16 + 8s + 8k`, actuator `k` at
/// `16 + 8s + 8c + 8k`, all little-endian.
pub proof fn lemma_agent_record_layout(a: AgentModel)
    ensures
        agent_record(a).len() == 16 + 8 * (a.state.len() + a.sensors.len() + a.actuators.len()),
        u32_at(agent_record(a), 0) == a.id,
        u32_at(agent_record(a), 4) == a.state.len() as u32,
        forall|k: int| 0 <= k < a.state.len() ==> u64_at(agent_record(a), 8 + 8 * k) == #[trigger] a.state[k],
        u32_at(agent_record(a), 8 + 8 * a.state.len() as int) == a.sensor_count,
        u32_at(agent_record(a), 12 + 8 * a.state.len() as int) == a.actuator_count,
        forall|k: int|
            0 <= k < a.sensors.len() ==> u64_at(agent_record(a), 16 + 8 * a.state.len() + 8 * k)
                == #[trigger] a.sensors[k],
        forall|k: int|
            0 <= k < a.actuators.len() ==> u64_at(
                agent_record(a),
                16 + 8 * a.state.len() + 8 * a.sensors.len() + 8 * k,
            ) == #[trigger] a.actuators[k],
{
    lemma_le_lengths();
    lemma_words_le_len(a.state);
    lemma_words_le_len(a.sensors);
    lemma_words_le_len(a.actuators);
    let d = agent_record(a);
    lemma_holds_whole(d);
    let p1 = u32_le(a.id);
    let p2 = p1 + u32_le(a.state.len() as u32);
    let p3 = p2 + words_le(a.state);
    let p4 = p3 + u32_le(a.sensor_count);
    let p5 = p4 + u32_le(a.actuator_count);
    let p6 = p5 + words_le(a.sensors);
    lemma_holds_split(d, 0, p6, words_le(a.actuators));
    lemma_holds_split(d, 0, p5, words_le(a.sensors));
    lemma_holds_split(d, 0, p4, u32_le(a.actuator_count));
    lemma_holds_split(d, 0, p3, u32_le(a.sensor_count));
    lemma_holds_split(d, 0, p2, words_le(a.state));
    lemma_holds_split(d, 0, p1, u32_le(a.state.len() as u32));
    lemma_parse_u32_at(d, 0, a.id);
    lemma_parse_u32_at(d, 4, a.state.len() as u32);
    lemma_parse_words_at(d, 8, a.state);
    lemma_parse_u32_at(d, p3.len() as int, a.sensor_count);
    lemma_parse_u32_at(d, p4.len() as int, a.actuator_count);
    lemma_parse_words_at(d, p5.len() as int, a.sensors);
    lemma_parse_words_at(d, p6.len() as int, a.actuators);
    assert forall|k: int| 0 <= k < a.state.len() implies u64_at(d, 8 + 8 * k) == #[trigger] a.state[k] by {
        assert(words_at(d, 8, a.state.len())[k] == a.state[k]);
    }
    assert forall|k: int| 0 <= k < a.sensors.len() implies u64_at(d, 16 + 8 * a.state.len() + 8 * k)
        == #[trigger] a.sensors[k] by {
        assert(words_at(d, p5.len() as int, a.sensors.len())[k] == a.sensors[k]);
    }
    assert forall|k: int| 0 <= k < a.actuators.len() implies u64_at(
        d,
        16 + 8 * a.state.len() + 8 * a.sensors.len() + 8 * k,
    ) == #[trigger] a.actuators[k] by {
        assert(words_at(d, p6.len() as int, a.actuators.len())[k] == a.actuators[k]);
    }
}

proof fn lemma_agents_record_slot(agents: Seq<AgentModel>, j: int)
    requires
        0 <= j < agents.len(),
    ensures
        holds_at(agents_record(agents), agents_record(agents.take(j)).len() as int, agent_record(agents[j])),
    decreases agents.len(),
{
    let whole = agents_record(agents);
    let front = agents.drop_last();
    lemma_holds_whole(whole);
    lemma_holds_split(whole, 0, agents_record(front), agent_record(agents.last()));
    if j == agents.len() - 1 {
        assert(agents.take(j) =~= front);
    } else {
        lemma_agents_record_slot(front, j);
        assert(agents.take(j) =~= front.take(j));
        lemma_holds_within(whole, 0, agents_record(front), agents_record(front.take(j)).len() as int, agent_record(front[j]));
    }
}

proof fn lemma_rooms_record_slot(rooms: Seq<RoomModel>, i: int)
    requires
        0 <= i < rooms.len(),
    ensures
        holds_at(rooms_record(rooms), rooms_record(rooms.take(i)).len() as int, room_record(rooms[i])),
    decreases rooms.len(),
{
    let whole = rooms_record(rooms);
    let front = rooms.drop_last();
    lemma_holds_whole(whole);
    lemma_holds_split(whole, 0, rooms_record(front), room_record(rooms.last()));
    if i == rooms.len() - 1 {
        assert(rooms.take(i) =~= front);
    } else {
        lemma_rooms_record_slot(front, i);
        assert(rooms.take(i) =~= front.take(i));
        lemma_holds_within(whole, 0, rooms_record(front), rooms_record(front.take(i)).len() as int, room_record(front[i]));
    }
}

proof fn lemma_room_record_layout(r: RoomModel)
    ensures
        u32_at(room_record(r), 0) == r.id,
        u64_at(room_record(r), 4) == r.vibe,
        u32_at(room_record(r), 12) == r.tick_count,
        u64_at(room_record(r), 16) == r.energy_budget,
        u32_at(room_record(r), 24) == r.agents.len() as u32,
        holds_at(room_record(r), 28, agents_record(r.agents)),
{
    lemma_le_lengths();
    let d = room_record(r);
    lemma_holds_whole(d);
    let p1 = u32_le(r.id);
    let p2 = p1 + u64_le(r.vibe);
    let p3 = p2 + u32_le(r.tick_count);
    let p4 = p3 + u64_le(r.energy_budget);
    let p5 = p4 + u32_le(r.agents.len() as u32);
    lemma_holds_split(d, 0, p5, agents_record(r.agents));
    lemma_holds_split(d, 0, p4, u32_le(r.agents.len() as u32));
    lemma_holds_split(d, 0, p3, u64_le(r.energy_budget));
    lemma_holds_split(d, 0, p2, u32_le(r.tick_count));
    lemma_holds_split(d, 0, p1, u64_le(r.vibe));
    lemma_parse_u32_at(d, 0, r.id);
    lemma_parse_f64_at(d, 4, r.vibe);
    lemma_parse_u32_at(d, 12, r.tick_count);
    lemma_parse_f64_at(d, 16, r.energy_budget);
    lemma_parse_u32_at(d, 24, r.agents.len() as u32);
}

/// Where room `i`'s record starts in a world record: after the 8 header
/// bytes and the records of the rooms before it.
pub open spec fn room_offset(w: WorldModel, i: int) -> int {
    8 + rooms_record(w.rooms.take(i)).len() as int
}

/// Where agent `j` of room `i` starts in a world record: after the room's
/// 28 header bytes and the records of the room's agents before it.
pub open spec fn agent_offset(w: WorldModel, i: int, j: int) -> int {
    room_offset(w, i) + 28 + agents_record(w.rooms[i].agents.take(j)).len() as int
}

/// The header of a world record and of each of its rooms: world tick at 0,
/// room count (cut to 32 bits) at 4, and for room `i` at `room_offset`: id,
/// vibe at +4, tick count at +12, energy budget at +16, agent count (cut to
/// 32 bits) at +24, all little-endian.
pub proof fn lemma_world_record_header_layout(w: WorldModel)
    ensures
        u32_at(world_record(w), 0) == w.tick,
        u32_at(world_record(w), 4) == w.rooms.len() as u32,
        forall|i: int|
            0 <= i < w.rooms.len() ==> {
                let o = room_offset(w, i);
                &&& u32_at(world_record(w), o) == (#[trigger] w.rooms[i]).id
                &&& u64_at(world_record(w), o + 4) == w.rooms[i].vibe
                &&& u32_at(world_record(w), o + 12) == w.rooms[i].tick_count
                &&& u64_at(world_record(w), o + 16) == w.rooms[i].energy_budget
                &&& u32_at(world_record(w), o + 24) == w.rooms[i].agents.len() as u32
            },
{
    lemma_le_lengths();
    let d = world_record(w);
    lemma_holds_whole(d);
    let p1 = u32_le(w.tick);
    let p2 = p1 + u32_le(w.rooms.len() as u32);
    lemma_holds_split(d, 0, p2, rooms_record(w.rooms));
    lemma_holds_split(d, 0, p1, u32_le(w.rooms.len() as u32));
    lemma_parse_u32_at(d, 0, w.tick);
    lemma_parse_u32_at(d, 4, w.rooms.len() as u32);
    assert forall|i: int| 0 <= i < w.rooms.len() implies {
        let o = room_offset(w, i);
        &&& u32_at(d, o) == (#[trigger] w.rooms[i]).id
        &&& u64_at(d, o + 4) == w.rooms[i].vibe
        &&& u32_at(d, o + 12) == w.rooms[i].tick_count
        &&& u64_at(d, o + 16) == w.rooms[i].energy_budget
        &&& u32_at(d, o + 24) == w.rooms[i].agents.len() as u32
    } by {
        let r = w.rooms[i];
        let o = room_offset(w, i);
        lemma_rooms_record_slot(w.rooms, i);
        lemma_holds_within(d, 8, rooms_record(w.rooms), rooms_record(w.rooms.take(i)).len() as int, room_record(r));
        lemma_room_record_layout(r);
        assert(room_record(r).len() >= 28);
        lemma_words_within(d, o, room_record(r), 0);
        lemma_words_within(d, o, room_record(r), 4);
        lemma_words_within(d, o, room_record(r), 12);
        lemma_words_within(d, o, room_record(r), 16);
        lemma_words_within(d, o, room_record(r), 24);
    }
}

/// Each agent's fields in a world record, at `o = agent_offset(w, i, j)`
/// with `s` state values and `c` sensors: id at `o`, state length at `o + 4`,
/// state value `k` at `o + 8 + 8k`, sensor count at `o + 8 + 8s`, actuator
/// count at `o + 12 + 8s`, sensor `k` at `o + 16 + 8s + 8k`, actuator `k` at
/// `o + 16 + 8s + 8c + 8k`, all little-endian: sensors come before
/// actuators, each in order.
pub proof fn lemma_world_record_agent_layout(w: WorldModel, i: int, j: int)
    requires
        0 <= i < w.rooms.len(),
        0 <= j < w.rooms[i].agents.len(),
    ensures
        ({
            let d = world_record(w);
            let a = w.rooms[i].agents[j];
            let o = agent_offset(w, i, j);
            let s = a.state.len() as int;
            let c = a.sensors.len() as int;
            &&& u32_at(d, o) == a.id
            &&& u32_at(d, o + 4) == a.state.len() as u32
            &&& forall|k: int| 0 <= k < s ==> u64_at(d, o + 8 + 8 * k) == #[trigger] a.state[k]
            &&& u32_at(d, o + 8 + 8 * s) == a.sensor_count
            &&& u32_at(d, o + 12 + 8 * s) == a.actuator_count
            &&& forall|k: int| 0 <= k < c ==> u64_at(d, o + 16 + 8 * s + 8 * k) == #[trigger] a.sensors[k]
            &&& forall|k: int|
                0 <= k < a.actuators.len() ==> u64_at(d, o + 16 + 8 * s + 8 * c + 8 * k)
                    == #[trigger] a.actuators[k]
        }),
{
    lemma_le_lengths();
    let d = world_record(w);
    let r = w.rooms[i];
    let a = r.agents[j];
    let o = agent_offset(w, i, j);
    let s = a.state.len() as int;
    let c = a.sensors.len() as int;
    lemma_holds_whole(d);
    let p1 = u32_le(w.tick);
    let p2 = p1 + u32_le(w.rooms.len() as u32);
    lemma_holds_split(d, 0, p2, rooms_record(w.rooms));
    lemma_rooms_record_slot(w.rooms, i);
    lemma_holds_within(d, 8, rooms_record(w.rooms), rooms_record(w.rooms.take(i)).len() as int, room_record(r));
    let ro = room_offset(w, i);
    lemma_room_record_layout(r);
    lemma_holds_within(d, ro, room_record(r), 28, agents_record(r.agents));
    lemma_agents_record_slot(r.agents, j);
    lemma_holds_within(d, ro + 28, agents_record(r.agents), agents_record(r.agents.take(j)).len() as int, agent_record(a));
    let rec = agent_record(a);
    lemma_agent_record_layout(a);
    lemma_words_within(d, o, rec, 0);
    lemma_words_within(d, o, rec, 4);
    lemma_words_within(d, o, rec, 8 + 8 * s);
    lemma_words_within(d, o, rec, 12 + 8 * s);
    assert forall|k: int| 0 <= k < s implies u64_at(d, o + 8 + 8 * k) == #[trigger] a.state[k] by {
        lemma_words_within(d, o, rec, 8 + 8 * k);
    }
    assert forall|k: int| 0 <= k < c implies u64_at(d, o + 16 + 8 * s + 8 * k) == #[trigger] a.sensors[k] by {
        lemma_words_within(d, o, rec, 16 + 8 * s + 8 * k);
    }
    assert forall|k: int| 0 <= k < a.actuators.len() implies u64_at(d, o + 16 + 8 * s + 8 * c + 8 * k)
        == #[trigger] a.actuators[k] by {
        lemma_words_within(d, o, rec, 16 + 8 * s + 8 * c + 8 * k);
    }
}

/// What a successful agent read at `o` takes from where, with `s` the state
/// length and `c` the sensor count it read: id at `o`, state value `k` at
/// `o + 8 + 8k`, sensor count at `o + 8 + 8s`, actuator count at
/// `o + 12 + 8s`, sensor `k` at `o + 16 + 8s + 8k`, actuator `k` at
/// `o + 16 + 8s + 8c + 8k`; the read ends right after the actuators.
pub proof fn lemma_parse_agent_layout(d: Seq<u8>, o: int)
    requires
        parse_agent(d, o) is Ok,
    ensures
        ({
            let (a, end) = parse_agent(d, o)->Ok_0;
            let s = u32_at(d, o + 4) as int;
            let c = a.sensor_count as int;
            &&& a.id == u32_at(d, o)
            &&& a.state.len() == s
            &&& forall|k: int| 0 <= k < s ==> #[trigger] a.state[k] == u64_at(d, o + 8 + 8 * k)
            &&& a.sensor_count == u32_at(d, o + 8 + 8 * s)
            &&& a.actuator_count == u32_at(d, o + 12 + 8 * s)
            &&& a.sensors.len() == c
            &&& a.actuators.len() == a.actuator_count
            &&& forall|k: int| 0 <= k < c ==> #[trigger] a.sensors[k] == u64_at(d, o + 16 + 8 * s + 8 * k)
            &&& forall|k: int|
                0 <= k < a.actuator_count ==> #[trigger] a.actuators[k] == u64_at(
                    d,
                    o + 16 + 8 * s + 8 * c + 8 * k,
                )
            &&& end == o + 16 + 8 * (s + c + a.actuator_count)
        }),
{
}

} // verus!
