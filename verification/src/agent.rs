//! `WasmAgent`: an entity with an internal state vector, sensor inputs and
//! actuator outputs, all held as float bit patterns.
use vstd::prelude::*;

use crate::field::ZERO_BITS;

verus! {

/// Bit pattern of the float `1.0`.
pub const ONE_BITS: u64 = 0x3ff0_0000_0000_0000;

/// An agent inside a room, with sensors, actuators and reactive behaviour.
#[derive(Debug, Clone)]
pub struct WasmAgent {
    pub id: u32,
    pub state: Vec<u64>,
    pub sensor_count: u32,
    pub actuator_count: u32,
    pub sensors: Vec<u64>,
    pub actuators: Vec<u64>,
}

/// The mathematical content of an agent.
#[verifier::ext_equal]
pub struct AgentModel {
    pub id: u32,
    pub state: Seq<u64>,
    pub sensor_count: u32,
    pub actuator_count: u32,
    pub sensors: Seq<u64>,
    pub actuators: Seq<u64>,
}

impl View for WasmAgent {
    type V = AgentModel;

    open spec fn view(&self) -> AgentModel {
        AgentModel {
            id: self.id,
            state: self.state@,
            sensor_count: self.sensor_count,
            actuator_count: self.actuator_count,
            sensors: self.sensors@,
            actuators: self.actuators@,
        }
    }
}

/// `n` copies of `0.0`.
pub open spec fn zeros(n: nat) -> Seq<u64> {
    Seq::new(n, |i: int| ZERO_BITS)
}

/// The factor an agent's reactive step multiplies the vibe by: its first
/// state value, or `1.0` when it has no state.
pub open spec fn tick_factor_of(a: AgentModel) -> u64 {
    if a.state.len() > 0 {
        a.state[0]
    } else {
        ONE_BITS
    }
}

/// The reactive step multiplies by the first state value, never another:
/// for a non-empty state the factor is `state[0]`, and `1.0` otherwise.
pub proof fn lemma_tick_factor_is_first_state(a: AgentModel)
    ensures
        a.state.len() > 0 ==> tick_factor_of(a) == a.state[0],
        a.state.len() == 0 ==> tick_factor_of(a) == ONE_BITS,
{
}

/// Completing a step touches only the first actuator: it holds `output` when
/// the agent has actuators, every other actuator and every other part of the
/// agent keeps its value, and the number of actuators does not change.
pub proof fn lemma_output_goes_to_first_actuator(a: AgentModel, output: u64)
    ensures
        with_output(a, output).actuators.len() == a.actuators.len(),
        a.actuators.len() > 0 ==> with_output(a, output).actuators[0] == output,
        forall|k: int| 1 <= k < a.actuators.len() ==> #[trigger] with_output(a, output).actuators[k] == a.actuators[k],
        with_output(a, output).id == a.id,
        with_output(a, output).state == a.state,
        with_output(a, output).sensor_count == a.sensor_count,
        with_output(a, output).actuator_count == a.actuator_count,
        with_output(a, output).sensors == a.sensors,
{
}

/// `a` after its first actuator took `output`; an agent without actuators is
/// unchanged.
pub open spec fn with_output(a: AgentModel, output: u64) -> AgentModel {
    if a.actuators.len() > 0 {
        AgentModel { actuators: a.actuators.update(0, output), ..a }
    } else {
        a
    }
}

fn zero_vec(n: usize) -> (v: Vec<u64>)
    ensures
        v@ == zeros(n as nat),
{
    let v = vec![ZERO_BITS; n];
    assert(v@ =~= zeros(n as nat));
    v
}

impl WasmAgent {
    /// A fresh agent: state `[1.0]`, and `sensor_count` sensors and
    /// `actuator_count` actuators, all `0.0`.
    pub fn new(id: u32, sensor_count: u32, actuator_count: u32) -> (a: Self)
        ensures
            a@ == (AgentModel {
                id,
                state: seq![ONE_BITS],
                sensor_count,
                actuator_count,
                sensors: zeros(sensor_count as nat),
                actuators: zeros(actuator_count as nat),
            }),
    {
        let mut state: Vec<u64> = Vec::new();
        state.push(ONE_BITS);
        WasmAgent {
            id,
            state,
            sensor_count,
            actuator_count,
            sensors: zero_vec(sensor_count as usize),
            actuators: zero_vec(actuator_count as usize),
        }
    }

    /// The sensor reading on `channel`, or `0.0` for a channel it lacks.
    pub fn read_sensor(&self, channel: u32) -> (v: u64)
        ensures
            v == if (channel as int) < self.sensors@.len() {
                self.sensors@[channel as int]
            } else {
                ZERO_BITS
            },
    {
        let idx = channel as usize;
        if idx < self.sensors.len() {
            self.sensors[idx]
        } else {
            ZERO_BITS
        }
    }

    /// Sets actuator `channel` to `value`; a channel it lacks is ignored.
    pub fn write_actuator(&mut self, channel: u32, value: u64)
        ensures
            final(self)@ == (AgentModel {
                actuators: if (channel as int) < old(self).actuators@.len() {
                    old(self).actuators@.update(channel as int, value)
                } else {
                    old(self).actuators@
                },
                ..old(self)@
            }),
    {
        let idx = channel as usize;
        if idx < self.actuators.len() {
            self.actuators.set(idx, value);
        }
    }

    /// The factor the reactive step `actuators[0] = vibe * factor` uses.
    pub fn tick_factor(&self) -> (s: u64)
        ensures
            s == tick_factor_of(self@),
            self.state@.len() > 0 ==> s == self.state@[0],
            self.state@.len() == 0 ==> s == ONE_BITS,
    {
        if self.state.len() > 0 {
            self.state[0]
        } else {
            ONE_BITS
        }
    }

    /// Completes a reactive step whose product is `output`: the first
    /// actuator takes it; an agent without actuators is unchanged.
    pub fn apply_output(&mut self, output: u64)
        ensures
            final(self)@ == with_output(old(self)@, output),
    {
        self.write_actuator(0, output);
    }
}

} // verus!
