use lau_wasm_bridge::{WasmAgent, WasmRoom, WasmWorld};

fn bits(x: f64) -> u64 {
    x.to_bits()
}

fn float(b: u64) -> f64 {
    f64::from_bits(b)
}

/// What each agent of `room` outputs this tick: the room's vibe times the
/// agent's tick factor (the float product is taken here).
fn outputs(room: &WasmRoom) -> Vec<u64> {
    let vibe = float(room.vibe);
    room.agents.iter().map(|a| bits(vibe * float(a.tick_factor()))).collect()
}

fn tick_room(room: &mut WasmRoom) {
    let o = outputs(room);
    room.room_tick(&o);
}

fn tick_world(world: &mut WasmWorld) {
    let o: Vec<Vec<u64>> = world.rooms.iter().map(outputs).collect();
    world.world_tick(&o);
}

#[test]
fn room_new() {
    let r = WasmRoom::new(1, bits(100.0));
    assert_eq!(r.id, 1);
    assert_eq!(float(r.energy_budget), 100.0);
    assert_eq!(r.agent_count(), 0);
}

#[test]
fn room_add_remove_agent() {
    let mut r = WasmRoom::new(1, bits(100.0));
    r.add_agent(WasmAgent::new(10, 1, 1));
    r.add_agent(WasmAgent::new(20, 1, 1));
    assert_eq!(r.agent_count(), 2);
    r.remove_agent(10);
    assert_eq!(r.agent_count(), 1);
    assert_eq!(r.agents[0].id, 20);
}

#[test]
fn room_tick_updates_agents() {
    let mut r = WasmRoom::new(1, bits(0.0));
    r.vibe = bits(5.0);
    r.add_agent(WasmAgent::new(0, 1, 1));
    tick_room(&mut r);
    assert_eq!(r.tick_count, 1);
    assert!((float(r.agents[0].actuators[0]) - 5.0).abs() < 1e-10);
}

#[test]
fn room_total_vibe() {
    let r = WasmRoom {
        id: 1,
        vibe: bits(42.0),
        agents: vec![],
        tick_count: 0,
        energy_budget: bits(0.0),
    };
    assert_eq!(float(r.total_vibe()), 42.0);
}

#[test]
fn world_new() {
    let w = WasmWorld::new();
    assert_eq!(w.room_count(), 0);
    assert_eq!(w.tick, 0);
}

#[test]
fn world_default() {
    let w = WasmWorld::default();
    assert_eq!(w.room_count(), 0);
}

#[test]
fn world_add_room_and_tick() {
    let mut w = WasmWorld::new();
    let mut r = WasmRoom::new(1, bits(100.0));
    r.vibe = bits(2.0);
    r.add_agent(WasmAgent::new(0, 1, 1));
    w.add_room(r);
    tick_world(&mut w);
    assert_eq!(w.tick, 1);
    assert_eq!(w.room_count(), 1);
    assert!((float(w.rooms[0].agents[0].actuators[0]) - 2.0).abs() < 1e-10);
}

#[test]
fn room_new_has_zero_vibe() {
    let r = WasmRoom::new(7, bits(3.0));
    assert_eq!(r.vibe, 0);
    assert_eq!(r.tick_count, 0);
}

#[test]
fn room_remove_agent_drops_every_match_and_keeps_order() {
    let mut r = WasmRoom::new(1, 0);
    for id in [5u32, 3, 5, 8, 5, 1] {
        r.add_agent(WasmAgent::new(id, 0, 0));
    }
    r.remove_agent(5);
    let ids: Vec<u32> = r.agents.iter().map(|a| a.id).collect();
    assert_eq!(ids, vec![3, 8, 1]);
    r.remove_agent(42);
    assert_eq!(r.agent_count(), 3);
    assert_eq!(r.id, 1);
}

#[test]
fn room_tick_sets_first_actuator_from_outputs() {
    let mut r = WasmRoom::new(1, 0);
    r.add_agent(WasmAgent::new(1, 0, 2));
    r.add_agent(WasmAgent::new(2, 0, 0));
    r.add_agent(WasmAgent::new(3, 0, 1));
    r.agents[0].actuators[1] = bits(9.0);
    r.room_tick(&[bits(1.5), bits(2.5), bits(3.5)]);
    assert_eq!(r.agents[0].actuators, vec![bits(1.5), bits(9.0)]);
    assert!(r.agents[1].actuators.is_empty());
    assert_eq!(r.agents[2].actuators, vec![bits(3.5)]);
    assert_eq!(r.tick_count, 1);
    r.room_tick(&[0, 0, 0]);
    assert_eq!(r.tick_count, 2);
}

#[test]
fn world_tick_ticks_every_room() {
    let mut w = WasmWorld::new();
    let mut a = WasmRoom::new(1, bits(1.0));
    a.vibe = bits(3.0);
    a.add_agent(WasmAgent::new(1, 0, 1));
    let mut b = WasmRoom::new(2, bits(1.0));
    b.vibe = bits(4.0);
    let mut agent = WasmAgent::new(2, 0, 1);
    agent.state[0] = bits(0.5);
    b.add_agent(agent);
    w.add_room(a);
    w.add_room(b);
    tick_world(&mut w);
    tick_world(&mut w);
    assert_eq!(w.tick, 2);
    assert_eq!(w.rooms[0].tick_count, 2);
    assert_eq!(w.rooms[1].tick_count, 2);
    assert_eq!(float(w.rooms[0].agents[0].actuators[0]), 3.0);
    assert_eq!(float(w.rooms[1].agents[0].actuators[0]), 2.0);
}

#[test]
fn world_actuator_outputs_in_order() {
    let mut w = WasmWorld::new();
    let mut r1 = WasmRoom::new(1, 0);
    let mut a = WasmAgent::new(1, 0, 2);
    a.actuators = vec![bits(1.0), bits(2.0)];
    r1.add_agent(a);
    let mut b = WasmAgent::new(2, 0, 1);
    b.actuators = vec![bits(3.0)];
    r1.add_agent(b);
    let mut r2 = WasmRoom::new(2, 0);
    let mut c = WasmAgent::new(3, 0, 1);
    c.actuators = vec![bits(4.0)];
    r2.add_agent(c);
    w.add_room(r1);
    w.add_room(WasmRoom::new(3, 0));
    w.add_room(r2);
    assert_eq!(w.actuator_outputs(), vec![bits(1.0), bits(2.0), bits(3.0), bits(4.0)]);
    assert!(WasmWorld::new().actuator_outputs().is_empty());
}
