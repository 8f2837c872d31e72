//! `WasmRoom`: a container for agents with a shared vibe and an energy
//! budget.
use vstd::prelude::*;

use crate::agent::{with_output, AgentModel, WasmAgent};
use crate::field::ZERO_BITS;

verus! {

/// A room containing agents and a vibe value (a float bit pattern, as is the
/// energy budget).
#[derive(Debug, Clone)]
pub struct WasmRoom {
    pub id: u32,
    pub vibe: u64,
    pub agents: Vec<WasmAgent>,
    pub tick_count: u32,
    pub energy_budget: u64,
}

/// The mathematical content of a room.
#[verifier::ext_equal]
pub struct RoomModel {
    pub id: u32,
    pub vibe: u64,
    pub agents: Seq<AgentModel>,
    pub tick_count: u32,
    pub energy_budget: u64,
}

/// The contents of a sequence of agents.
pub open spec fn agent_models(agents: Seq<WasmAgent>) -> Seq<AgentModel> {
    agents.map_values(|a: WasmAgent| a@)
}

impl View for WasmRoom {
    type V = RoomModel;

    open spec fn view(&self) -> RoomModel {
        RoomModel {
            id: self.id,
            vibe: self.vibe,
            agents: agent_models(self.agents@),
            tick_count: self.tick_count,
            energy_budget: self.energy_budget,
        }
    }
}

/// `agents` without those whose id is `agent_id`, the others in order.
pub open spec fn without_agent(agents: Seq<WasmAgent>, agent_id: u32) -> Seq<WasmAgent> {
    agents.filter(|a: WasmAgent| a.id != agent_id)
}

/// After removing the agents with id `agent_id`, none is left, every other
/// agent is still there, and there are no more agents than before.
pub proof fn lemma_removal(agents: Seq<WasmAgent>, agent_id: u32)
    ensures
        forall|i: int|
            0 <= i < without_agent(agents, agent_id).len() ==> (#[trigger] without_agent(
                agents,
                agent_id,
            )[i]).id != agent_id,
        forall|i: int|
            0 <= i < agents.len() && (#[trigger] agents[i]).id != agent_id ==> without_agent(
                agents,
                agent_id,
            ).contains(agents[i]),
        without_agent(agents, agent_id).len() <= agents.len(),
{
    broadcast use vstd::seq_lib::group_filter_ensures;

}

/// `agents` after agent `i` took `outputs[i]` on its first actuator.
pub open spec fn agents_with_outputs(agents: Seq<AgentModel>, outputs: Seq<u64>) -> Seq<AgentModel> {
    Seq::new(agents.len(), |i: int| with_output(agents[i], outputs[i]))
}

/// `r` after one tick in which agent `i` produced `outputs[i]`.
pub open spec fn room_after_tick(r: RoomModel, outputs: Seq<u64>) -> RoomModel {
    RoomModel {
        agents: agents_with_outputs(r.agents, outputs),
        tick_count: (r.tick_count + 1) as u32,
        ..r
    }
}

/// A room tick counts one tick whatever the room holds, leaves the room's
/// id, vibe and budget alone, and gives agent `j` the output `outputs[j]` on
/// its first actuator, keeping the number of agents.
pub proof fn lemma_room_tick_shape(r: RoomModel, outputs: Seq<u64>)
    requires
        outputs.len() == r.agents.len(),
        r.tick_count < u32::MAX,
    ensures
        room_after_tick(r, outputs).tick_count == r.tick_count + 1,
        room_after_tick(r, outputs).id == r.id,
        room_after_tick(r, outputs).vibe == r.vibe,
        room_after_tick(r, outputs).energy_budget == r.energy_budget,
        room_after_tick(r, outputs).agents.len() == r.agents.len(),
        forall|j: int|
            0 <= j < r.agents.len() ==> #[trigger] room_after_tick(r, outputs).agents[j] == with_output(
                r.agents[j],
                outputs[j],
            ),
{
}

impl WasmRoom {
    /// An empty room with vibe `0.0` at tick count 0.
    pub fn new(id: u32, energy_budget: u64) -> (r: Self)
        ensures
            r@ == (RoomModel {
                id,
                vibe: ZERO_BITS,
                agents: Seq::empty(),
                tick_count: 0,
                energy_budget,
            }),
            r.agents@ == Seq::<WasmAgent>::empty(),
    {
        let r = WasmRoom { id, vibe: ZERO_BITS, agents: Vec::new(), tick_count: 0, energy_budget };
        assert(r@.agents =~= Seq::<AgentModel>::empty());
        r
    }

    /// Appends `agent`.
    pub fn add_agent(&mut self, agent: WasmAgent)
        ensures
            final(self).agents@ == old(self).agents@.push(agent),
            final(self)@ == (RoomModel { agents: old(self)@.agents.push(agent@), ..old(self)@ }),
    {
        self.agents.push(agent);
        assert(self@.agents =~= old(self)@.agents.push(agent@));
    }

    /// Drops every agent whose id is `agent_id`, keeping the others in order.
    pub fn remove_agent(&mut self, agent_id: u32)
        ensures
            final(self).agents@ == without_agent(old(self).agents@, agent_id),
            final(self).id == old(self).id,
            final(self).vibe == old(self).vibe,
            final(self).tick_count == old(self).tick_count,
            final(self).energy_budget == old(self).energy_budget,
    {
        let ghost keep = |a: WasmAgent| a.id != agent_id;
        let mut taken: Vec<WasmAgent> = Vec::new();
        std::mem::swap(&mut taken, &mut self.agents);
        let ghost all = taken@;
        proof {
            reveal_with_fuel(Seq::filter, 1);
            assert(all.take(0).filter(keep) =~= Seq::<WasmAgent>::empty());
        }
        for a in it: taken.into_iter()
            invariant
                it.seq() == all,
                keep == (|a: WasmAgent| a.id != agent_id),
                self.agents@ == all.take(it.index() as int).filter(keep),
                self.id == old(self).id,
                self.vibe == old(self).vibe,
                self.tick_count == old(self).tick_count,
                self.energy_budget == old(self).energy_budget,
        {
            let ghost k = it.index() as int;
            proof {
                reveal_with_fuel(Seq::filter, 1);
                assert(all.take(k + 1).drop_last() =~= all.take(k));
                assert(all.take(k + 1).last() == a);
            }
            if a.id != agent_id {
                self.agents.push(a);
            }
            proof {
                reveal_with_fuel(Seq::filter, 1);
                let t = all.take(k + 1);
                assert(t.len() > 0);
                assert(self.agents@ == t.filter(keep));
            }
        }
        assert(all.take(all.len() as int) =~= all);
    }

    /// Ticks every agent: agent `i` completes its reactive step with
    /// `outputs[i]`, the product of the room's vibe and its tick factor;
    /// then the tick count goes up by one.
    pub fn room_tick(&mut self, outputs: &[u64])
        requires
            outputs@.len() == old(self).agents@.len(),
            old(self).tick_count < u32::MAX,
        ensures
            final(self)@ == room_after_tick(old(self)@, outputs@),
            final(self).tick_count == old(self).tick_count + 1,
            final(self).id == old(self).id,
            final(self).vibe == old(self).vibe,
            final(self).energy_budget == old(self).energy_budget,
            final(self).agents@.len() == old(self).agents@.len(),
            forall|j: int|
                0 <= j < old(self).agents@.len() ==> #[trigger] final(self).agents@[j]@ == with_output(
                    old(self).agents@[j]@,
                    outputs@[j],
                ),
    {
        let mut i: usize = 0;
        while i < self.agents.len()
            invariant
                outputs@.len() == old(self).agents@.len(),
                self.agents@.len() == old(self).agents@.len(),
                i <= self.agents@.len(),
                self.id == old(self).id,
                self.vibe == old(self).vibe,
                self.tick_count == old(self).tick_count,
                self.energy_budget == old(self).energy_budget,
                forall|j: int| 0 <= j < i ==> #[trigger] self.agents@[j]@ == with_output(old(self).agents@[j]@, outputs@[j]),
                forall|j: int| i <= j < self.agents@.len() ==> #[trigger] self.agents@[j] == old(self).agents@[j],
            decreases self.agents@.len() - i,
        {
            self.agents[i].apply_output(outputs[i]);
            i += 1;
        }
        self.tick_count = self.tick_count + 1;
        assert(self@.agents =~= agents_with_outputs(old(self)@.agents, outputs@));
    }

    /// The room's vibe.
    pub fn total_vibe(&self) -> (v: u64)
        ensures
            v == self.vibe,
    {
        self.vibe
    }

    pub fn agent_count(&self) -> (n: usize)
        ensures
            n == self.agents@.len(),
    {
        self.agents.len()
    }
}

} // verus!
