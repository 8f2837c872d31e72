//! `WasmWorld`: the top-level container of rooms.
use vstd::prelude::*;

use crate::agent::{with_output, AgentModel};
use crate::room::{agent_models, room_after_tick, RoomModel, WasmRoom};

verus! {

/// Top-level world containing rooms.
#[derive(Debug, Clone)]
pub struct WasmWorld {
    pub rooms: Vec<WasmRoom>,
    pub tick: u32,
}

/// The mathematical content of a world.
#[verifier::ext_equal]
pub struct WorldModel {
    pub rooms: Seq<RoomModel>,
    pub tick: u32,
}

/// The contents of a sequence of rooms.
pub open spec fn room_models(rooms: Seq<WasmRoom>) -> Seq<RoomModel> {
    rooms.map_values(|r: WasmRoom| r@)
}

impl View for WasmWorld {
    type V = WorldModel;

    open spec fn view(&self) -> WorldModel {
        WorldModel { rooms: room_models(self.rooms@), tick: self.tick }
    }
}

/// Whether one tick with `outputs` can be applied to `w`: one output list per
/// room with one output per agent, and no tick counter at its maximum.
pub open spec fn can_tick(w: WorldModel, outputs: Seq<Seq<u64>>) -> bool {
    &&& outputs.len() == w.rooms.len()
    &&& w.tick < u32::MAX
    &&& forall|i: int|
        0 <= i < w.rooms.len() ==> {
            &&& #[trigger] outputs[i].len() == w.rooms[i].agents.len()
            &&& w.rooms[i].tick_count < u32::MAX
        }
}

/// `w` after one tick in which the agents of room `i` produced `outputs[i]`.
pub open spec fn world_after_tick(w: WorldModel, outputs: Seq<Seq<u64>>) -> WorldModel {
    WorldModel {
        rooms: Seq::new(w.rooms.len(), |i: int| room_after_tick(w.rooms[i], outputs[i])),
        tick: (w.tick + 1) as u32,
    }
}

/// The output lists, by content.
pub open spec fn output_lists(outputs: Seq<Vec<u64>>) -> Seq<Seq<u64>> {
    outputs.map_values(|v: Vec<u64>| v@)
}

/// The actuator values of `agents`, agent after agent.
pub open spec fn agents_outputs(agents: Seq<AgentModel>) -> Seq<u64>
    decreases agents.len(),
{
    if agents.len() == 0 {
        Seq::empty()
    } else {
        agents_outputs(agents.drop_last()) + agents.last().actuators
    }
}

/// The actuator values of every agent of `rooms`, room after room.
pub open spec fn rooms_outputs(rooms: Seq<RoomModel>) -> Seq<u64>
    decreases rooms.len(),
{
    if rooms.len() == 0 {
        Seq::empty()
    } else {
        rooms_outputs(rooms.drop_last()) + agents_outputs(rooms.last().agents)
    }
}

/// How many actuator values `agents` hold together.
pub open spec fn agents_actuator_total(agents: Seq<AgentModel>) -> nat
    decreases agents.len(),
{
    if agents.len() == 0 {
        0
    } else {
        agents_actuator_total(agents.drop_last()) + agents.last().actuators.len()
    }
}

/// How many actuator values the agents of `rooms` hold together.
pub open spec fn rooms_actuator_total(rooms: Seq<RoomModel>) -> nat
    decreases rooms.len(),
{
    if rooms.len() == 0 {
        0
    } else {
        rooms_actuator_total(rooms.drop_last()) + agents_actuator_total(rooms.last().agents)
    }
}

/// How many actuator values come before those of agent `j` of room `i`:
/// all of the earlier rooms', then those of the room's earlier agents.
pub open spec fn actuators_before(rooms: Seq<RoomModel>, i: int, j: int) -> nat {
    rooms_actuator_total(rooms.take(i)) + agents_actuator_total(rooms[i].agents.take(j))
}

proof fn lemma_agents_outputs_layout(agents: Seq<AgentModel>)
    ensures
        agents_outputs(agents).len() == agents_actuator_total(agents),
        forall|j: int|
            0 <= j < agents.len() ==> agents_actuator_total(agents.take(j)) + (
            #[trigger] agents[j]).actuators.len() <= agents_actuator_total(agents),
        forall|j: int, k: int|
            0 <= j < agents.len() && 0 <= k < agents[j].actuators.len() ==> agents_outputs(
                agents,
            )[agents_actuator_total(agents.take(j)) + k] == #[trigger] agents[j].actuators[k],
    decreases agents.len(),
{
    if agents.len() > 0 {
        let front = agents.drop_last();
        lemma_agents_outputs_layout(front);
        assert(agents.take(agents.len() - 1) =~= front);
        assert forall|j: int| 0 <= j < front.len() implies #[trigger] agents.take(j) == front.take(j) by {
            assert(agents.take(j) =~= front.take(j));
        }
        assert forall|j: int|
            0 <= j < agents.len() implies agents_actuator_total(agents.take(j)) + (
            #[trigger] agents[j]).actuators.len() <= agents_actuator_total(agents) by {
            if j < front.len() {
                assert(agents.take(j) == front.take(j));
                assert(agents[j] == front[j]);
            }
        }
        assert forall|j: int, k: int|
            0 <= j < agents.len() && 0 <= k < agents[j].actuators.len() implies agents_outputs(
                agents,
            )[agents_actuator_total(agents.take(j)) + k] == #[trigger] agents[j].actuators[k] by {
            if j < front.len() {
                assert(agents.take(j) == front.take(j));
                assert(agents[j] == front[j]);
                assert(agents_actuator_total(front.take(j)) + front[j].actuators.len()
                    <= agents_actuator_total(front));
            }
        }
    }
}

/// The actuator values of `rooms` collected room after room and agent after
/// agent: exactly as many as the agents hold, and agent `j` of room `i`
/// contributes its actuator `k` at `actuators_before(rooms, i, j) + k`.
pub proof fn lemma_rooms_outputs_layout(rooms: Seq<RoomModel>)
    ensures
        rooms_outputs(rooms).len() == rooms_actuator_total(rooms),
        forall|i: int, j: int, k: int|
            0 <= i < rooms.len() && 0 <= j < rooms[i].agents.len() && 0 <= k
                < rooms[i].agents[j].actuators.len() ==> rooms_outputs(rooms)[actuators_before(
                rooms,
                i,
                j,
            ) + k] == #[trigger] rooms[i].agents[j].actuators[k],
    decreases rooms.len(),
{
    if rooms.len() > 0 {
        let front = rooms.drop_last();
        let last = rooms.last();
        lemma_rooms_outputs_layout(front);
        lemma_agents_outputs_layout(last.agents);
        assert(rooms.take(rooms.len() - 1) =~= front);
        assert forall|i: int, j: int, k: int|
            0 <= i < rooms.len() && 0 <= j < rooms[i].agents.len() && 0 <= k
                < rooms[i].agents[j].actuators.len() implies rooms_outputs(rooms)[actuators_before(
                rooms,
                i,
                j,
            ) + k] == #[trigger] rooms[i].agents[j].actuators[k] by {
            if i < front.len() {
                assert(rooms.take(i) =~= front.take(i));
                assert(rooms[i] == front[i]);
                assert(front[i].agents[j].actuators[k] == rooms[i].agents[j].actuators[k]);
                lemma_rooms_total_prefix(front, i);
                lemma_agents_outputs_layout(front[i].agents);
            }
        }
    }
}

/// The actuator values of the rooms before room `i` and of room `i` itself
/// never exceed those of all the rooms.
proof fn lemma_rooms_total_prefix(rooms: Seq<RoomModel>, i: int)
    requires
        0 <= i < rooms.len(),
    ensures
        rooms_actuator_total(rooms.take(i)) + agents_actuator_total(rooms[i].agents)
            <= rooms_actuator_total(rooms),
    decreases rooms.len(),
{
    let front = rooms.drop_last();
    if i < front.len() {
        assert(rooms.take(i) =~= front.take(i));
        lemma_rooms_total_prefix(front, i);
    } else {
        assert(rooms.take(i) =~= front);
    }
}

/// A world tick counts one tick for the world and for every room, rooms
/// without agents included; it keeps every room's id, vibe and budget, and
/// gives agent `j` of room `i` the output `outputs[i][j]` on its first
/// actuator.
pub proof fn lemma_world_tick_shape(w: WorldModel, outputs: Seq<Seq<u64>>)
    requires
        can_tick(w, outputs),
    ensures
        world_after_tick(w, outputs).tick == w.tick + 1,
        world_after_tick(w, outputs).rooms.len() == w.rooms.len(),
        forall|i: int|
            0 <= i < w.rooms.len() ==> {
                &&& (#[trigger] world_after_tick(w, outputs).rooms[i]).tick_count == w.rooms[i].tick_count + 1
                &&& world_after_tick(w, outputs).rooms[i].id == w.rooms[i].id
                &&& world_after_tick(w, outputs).rooms[i].vibe == w.rooms[i].vibe
                &&& world_after_tick(w, outputs).rooms[i].energy_budget == w.rooms[i].energy_budget
                &&& world_after_tick(w, outputs).rooms[i].agents.len() == w.rooms[i].agents.len()
            },
        forall|i: int, j: int|
            0 <= i < w.rooms.len() && 0 <= j < w.rooms[i].agents.len()
                ==> #[trigger] world_after_tick(w, outputs).rooms[i].agents[j] == with_output(
                w.rooms[i].agents[j],
                outputs[i][j],
            ),
{
    assert forall|i: int| 0 <= i < w.rooms.len() implies outputs[i].len() == w.rooms[i].agents.len()
        && w.rooms[i].tick_count < u32::MAX by {
        assert(outputs[i].len() == w.rooms[i].agents.len());
    }
}

impl WasmWorld {
    /// An empty world at tick 0.
    pub fn new() -> (w: Self)
        ensures
            w@ == (WorldModel { rooms: Seq::empty(), tick: 0 }),
            w.rooms@ == Seq::<WasmRoom>::empty(),
    {
        let w = WasmWorld { rooms: Vec::new(), tick: 0 };
        assert(w@.rooms =~= Seq::<RoomModel>::empty());
        w
    }

    /// Appends `room`.
    pub fn add_room(&mut self, room: WasmRoom)
        ensures
            final(self).rooms@ == old(self).rooms@.push(room),
            final(self)@ == (WorldModel { rooms: old(self)@.rooms.push(room@), ..old(self)@ }),
    {
        self.rooms.push(room);
        assert(self@.rooms =~= old(self)@.rooms.push(room@));
    }

    /// Ticks every room, room `i` with the agent outputs `outputs[i]`, then
    /// the world's tick goes up by one.
    pub fn world_tick(&mut self, outputs: &Vec<Vec<u64>>)
        requires
            can_tick(old(self)@, output_lists(outputs@)),
        ensures
            final(self)@ == world_after_tick(old(self)@, output_lists(outputs@)),
            final(self).tick == old(self).tick + 1,
            final(self).rooms@.len() == old(self).rooms@.len(),
            forall|i: int|
                0 <= i < old(self).rooms@.len() ==> {
                    &&& (#[trigger] final(self).rooms@[i]).tick_count == old(self).rooms@[i].tick_count + 1
                    &&& final(self).rooms@[i].id == old(self).rooms@[i].id
                    &&& final(self).rooms@[i].vibe == old(self).rooms@[i].vibe
                    &&& final(self).rooms@[i].energy_budget == old(self).rooms@[i].energy_budget
                    &&& final(self).rooms@[i].agents@.len() == old(self).rooms@[i].agents@.len()
                },
            forall|i: int, j: int|
                0 <= i < old(self).rooms@.len() && 0 <= j < old(self).rooms@[i].agents@.len()
                    ==> #[trigger] final(self).rooms@[i].agents@[j]@ == with_output(
                    old(self).rooms@[i].agents@[j]@,
                    outputs@[i]@[j],
                ),
    {
        let ghost outs = output_lists(outputs@);
        let mut i: usize = 0;
        while i < self.rooms.len()
            invariant
                outs == output_lists(outputs@),
                can_tick(old(self)@, outs),
                self.rooms@.len() == old(self).rooms@.len(),
                i <= self.rooms@.len(),
                self.tick == old(self).tick,
                forall|j: int| 0 <= j < i ==> #[trigger] self.rooms@[j]@ == room_after_tick(old(self)@.rooms[j], outs[j]),
                forall|j: int|
                    0 <= j < i ==> {
                        &&& (#[trigger] self.rooms@[j]).tick_count == old(self).rooms@[j].tick_count + 1
                        &&& self.rooms@[j].id == old(self).rooms@[j].id
                        &&& self.rooms@[j].vibe == old(self).rooms@[j].vibe
                        &&& self.rooms@[j].energy_budget == old(self).rooms@[j].energy_budget
                        &&& self.rooms@[j].agents@.len() == old(self).rooms@[j].agents@.len()
                    },
                forall|j: int, k: int|
                    0 <= j < i && 0 <= k < old(self).rooms@[j].agents@.len()
                        ==> #[trigger] self.rooms@[j].agents@[k]@ == with_output(
                        old(self).rooms@[j].agents@[k]@,
                        outputs@[j]@[k],
                    ),
                forall|j: int| i <= j < self.rooms@.len() ==> #[trigger] self.rooms@[j] == old(self).rooms@[j],
            decreases self.rooms@.len() - i,
        {
            assert(outs[i as int].len() == old(self)@.rooms[i as int].agents.len());
            assert(outs[i as int] == outputs@[i as int]@);
            self.rooms[i].room_tick(outputs[i].as_slice());
            i += 1;
        }
        self.tick = self.tick + 1;
        assert(self@.rooms =~= world_after_tick(old(self)@, outs).rooms);
    }

    /// Every actuator value of the world, room after room and agent after
    /// agent: the outputs whose total the world's conservation error
    /// compares with its total energy budget.
    pub fn actuator_outputs(&self) -> (out: Vec<u64>)
        ensures
            out@ == rooms_outputs(self@.rooms),
            out@.len() == rooms_actuator_total(self@.rooms),
            forall|i: int, j: int, k: int|
                0 <= i < self@.rooms.len() && 0 <= j < self@.rooms[i].agents.len() && 0 <= k
                    < self@.rooms[i].agents[j].actuators.len() ==> out@[actuators_before(
                    self@.rooms,
                    i,
                    j,
                ) + k] == #[trigger] self@.rooms[i].agents[j].actuators[k],
    {
        proof {
            lemma_rooms_outputs_layout(self@.rooms);
        }
        let ghost rooms = self@.rooms;
        let mut out: Vec<u64> = Vec::new();
        let mut i: usize = 0;
        while i < self.rooms.len()
            invariant
                i <= self.rooms@.len(),
                rooms == room_models(self.rooms@),
                out@ == rooms_outputs(rooms.take(i as int)),
            decreases self.rooms@.len() - i,
        {
            let room = &self.rooms[i];
            let ghost agents = room@.agents;
            let ghost before = out@;
            let mut j: usize = 0;
            while j < room.agents.len()
                invariant
                    j <= room.agents@.len(),
                    agents == agent_models(room.agents@),
                    out@ == before + agents_outputs(agents.take(j as int)),
                decreases room.agents@.len() - j,
            {
                let mut values = room.agents[j].actuators.clone();
                out.append(&mut values);
                proof {
                    let t = agents.take(j + 1);
                    assert(t.drop_last() =~= agents.take(j as int));
                }
                j += 1;
            }
            proof {
                assert(agents.take(j as int) =~= agents);
                let t = rooms.take(i + 1);
                assert(t.drop_last() =~= rooms.take(i as int));
            }
            i += 1;
        }
        assert(rooms.take(i as int) =~= rooms);
        out
    }

    /// The number of rooms.
    pub fn room_count(&self) -> (n: usize)
        ensures
            n == self.rooms@.len(),
    {
        self.rooms.len()
    }
}

impl Default for WasmWorld {
    fn default() -> (w: Self)
        ensures
            w@ == (WorldModel { rooms: Seq::empty(), tick: 0 }),
    {
        WasmWorld::new()
    }
}

} // verus!
