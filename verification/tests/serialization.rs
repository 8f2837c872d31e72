use lau_wasm_bridge::{
    deserialize_field, deserialize_world, serialize_field, serialize_world, WasmAgent, WasmRoom,
    WasmVibeField, WasmWorld,
};

fn bits(x: f64) -> u64 {
    x.to_bits()
}

fn float(b: u64) -> f64 {
    f64::from_bits(b)
}

fn floats(v: &[f64]) -> Vec<u64> {
    v.iter().map(|x| x.to_bits()).collect()
}

#[test]
fn serialize_deserialize_field_roundtrip() {
    let mut f = WasmVibeField::new(bits(42.5));
    f.resize(3);
    f.set(0, bits(1.0));
    f.set(1, bits(2.0));
    f.set(2, bits(3.0));
    f.tick = 7;
    let buf = serialize_field(&f);
    let f2 = deserialize_field(&buf).unwrap();
    assert_eq!(f2.values, f.values);
    assert_eq!(f2.tick, f.tick);
    assert!((float(f2.conservation_baseline) - 42.5).abs() < 1e-10);
}

#[test]
fn serialize_deserialize_field_empty() {
    let f = WasmVibeField::new(bits(0.0));
    let buf = serialize_field(&f);
    let f2 = deserialize_field(&buf).unwrap();
    assert!(f2.values.is_empty());
}

#[test]
fn deserialize_field_too_short() {
    let result = deserialize_field(&[0, 0]);
    assert!(result.is_err());
}

#[test]
fn serialize_deserialize_world_roundtrip() {
    let mut w = WasmWorld::new();
    let mut r = WasmRoom::new(1, bits(50.0));
    r.vibe = bits(3.0);
    let mut a = WasmAgent::new(10, 2, 3);
    a.state = floats(&[1.0, 2.0]);
    a.sensors = floats(&[0.5, 0.6]);
    a.actuators = floats(&[1.0, 2.0, 3.0]);
    r.add_agent(a);
    w.add_room(r);
    w.tick = 5;

    let buf = serialize_world(&w);
    let w2 = deserialize_world(&buf).unwrap();

    assert_eq!(w2.tick, 5);
    assert_eq!(w2.room_count(), 1);
    assert_eq!(w2.rooms[0].id, 1);
    assert!((float(w2.rooms[0].vibe) - 3.0).abs() < 1e-10);
    assert_eq!(w2.rooms[0].agents.len(), 1);
    assert_eq!(w2.rooms[0].agents[0].id, 10);
    assert_eq!(w2.rooms[0].agents[0].state, floats(&[1.0, 2.0]));
    assert_eq!(w2.rooms[0].agents[0].sensors, floats(&[0.5, 0.6]));
    assert_eq!(w2.rooms[0].agents[0].actuators, floats(&[1.0, 2.0, 3.0]));
}

#[test]
fn deserialize_world_empty() {
    let w = WasmWorld::new();
    let buf = serialize_world(&w);
    let w2 = deserialize_world(&buf).unwrap();
    assert_eq!(w2.room_count(), 0);
    assert_eq!(w2.tick, 0);
}

#[test]
fn serialize_deserialize_world_multiple_rooms() {
    let mut w = WasmWorld::new();
    let mut r1 = WasmRoom::new(1, bits(10.0));
    r1.vibe = bits(1.0);
    r1.add_agent(WasmAgent::new(0, 1, 1));
    let mut r2 = WasmRoom::new(2, bits(20.0));
    r2.vibe = bits(2.0);
    r2.add_agent(WasmAgent::new(1, 2, 2));
    w.add_room(r1);
    w.add_room(r2);
    w.tick = 3;

    let buf = serialize_world(&w);
    let w2 = deserialize_world(&buf).unwrap();
    assert_eq!(w2.room_count(), 2);
    assert_eq!(w2.tick, 3);
    assert_eq!(w2.rooms[0].agents.len(), 1);
    assert_eq!(w2.rooms[1].agents.len(), 1);
    assert_eq!(w2.rooms[1].agents[0].sensor_count, 2);
    assert_eq!(w2.rooms[1].agents[0].actuator_count, 2);
}

#[test]
fn field_record_exact_bytes() {
    let mut f = WasmVibeField::new(bits(2.0));
    f.resize(1);
    f.set(0, bits(1.0));
    f.tick = 0x0102_0304;
    let buf = serialize_field(&f);
    let mut expected = vec![1, 0, 0, 0];
    expected.extend_from_slice(&1.0f64.to_le_bytes());
    expected.extend_from_slice(&[4, 3, 2, 1]);
    expected.extend_from_slice(&2.0f64.to_le_bytes());
    assert_eq!(buf, expected);
    assert_eq!(buf.len(), 16 + 8);
}

#[test]
fn field_record_length_is_sixteen_plus_eight_per_value() {
    for n in [0usize, 1, 2, 9] {
        let mut f = WasmVibeField::new(0);
        f.resize(n);
        assert_eq!(serialize_field(&f).len(), 16 + 8 * n);
    }
}

#[test]
fn deserialize_field_error_messages() {
    assert_eq!(
        deserialize_field(&[0, 0]).unwrap_err(),
        "field data too short (need at least 4 bytes for length)"
    );
    assert_eq!(
        deserialize_field(&[2, 0, 0, 0, 9, 9, 9]).unwrap_err(),
        "field data too short: got 7 bytes, need 32"
    );
    assert_eq!(
        deserialize_field(&[0, 0, 0, 0]).unwrap_err(),
        "field data too short: got 4 bytes, need 16"
    );
    let mut big = vec![0u8; 4];
    big[..4].copy_from_slice(&u32::MAX.to_le_bytes());
    assert_eq!(
        deserialize_field(&big).unwrap_err(),
        "field data too short: got 4 bytes, need 34359738376"
    );
}

#[test]
fn field_trailing_bytes_ignored() {
    let mut f = WasmVibeField::new(bits(-1.0));
    f.resize(2);
    f.set(1, bits(0.125));
    let mut buf = serialize_field(&f);
    buf.extend_from_slice(&[0xaa, 0xbb, 0xcc]);
    let g = deserialize_field(&buf).unwrap();
    assert_eq!(g.values, f.values);
    assert_eq!(g.tick, f.tick);
    assert_eq!(g.conservation_baseline, f.conservation_baseline);
}

#[test]
fn field_truncated_record_refused() {
    let mut f = WasmVibeField::new(bits(1.0));
    f.resize(2);
    let buf = serialize_field(&f);
    for k in 0..buf.len() {
        assert!(deserialize_field(&buf[..k]).is_err(), "cut at {}", k);
    }
}

fn sample_world() -> WasmWorld {
    let mut w = WasmWorld::new();
    let mut r = WasmRoom::new(4, bits(12.0));
    r.vibe = bits(1.5);
    r.tick_count = 9;
    let mut a = WasmAgent::new(7, 1, 2);
    a.state = floats(&[0.5, 0.25, 2.0]);
    a.sensors = floats(&[8.0]);
    r.add_agent(a);
    r.add_agent(WasmAgent::new(8, 0, 0));
    w.add_room(r);
    w.add_room(WasmRoom::new(5, bits(-3.0)));
    w.tick = 11;
    w
}

#[test]
fn world_roundtrip_keeps_everything() {
    let w = sample_world();
    let mut buf = serialize_world(&w);
    buf.extend_from_slice(&[1, 2, 3]);
    let v = deserialize_world(&buf).unwrap();
    assert_eq!(v.tick, w.tick);
    assert_eq!(v.rooms.len(), w.rooms.len());
    for (x, y) in v.rooms.iter().zip(w.rooms.iter()) {
        assert_eq!(x.id, y.id);
        assert_eq!(x.vibe, y.vibe);
        assert_eq!(x.tick_count, y.tick_count);
        assert_eq!(x.energy_budget, y.energy_budget);
        assert_eq!(x.agents.len(), y.agents.len());
        for (p, q) in x.agents.iter().zip(y.agents.iter()) {
            assert_eq!(p.id, q.id);
            assert_eq!(p.state, q.state);
            assert_eq!(p.sensor_count, q.sensor_count);
            assert_eq!(p.actuator_count, q.actuator_count);
            assert_eq!(p.sensors, q.sensors);
            assert_eq!(p.actuators, q.actuators);
        }
    }
}

#[test]
fn world_record_exact_bytes_of_empty_room() {
    let mut w = WasmWorld::new();
    w.tick = 2;
    w.add_room(WasmRoom::new(3, bits(1.0)));
    let buf = serialize_world(&w);
    let mut expected = vec![2, 0, 0, 0, 1, 0, 0, 0, 3, 0, 0, 0];
    expected.extend_from_slice(&0.0f64.to_le_bytes());
    expected.extend_from_slice(&[0, 0, 0, 0]);
    expected.extend_from_slice(&1.0f64.to_le_bytes());
    expected.extend_from_slice(&[0, 0, 0, 0]);
    assert_eq!(buf, expected);
}

#[test]
fn world_truncated_record_refused() {
    let buf = serialize_world(&sample_world());
    for k in 0..buf.len() {
        assert!(deserialize_world(&buf[..k]).is_err(), "cut at {}", k);
    }
}

#[test]
fn deserialize_world_error_messages() {
    assert_eq!(
        deserialize_world(&[1, 0, 0]).unwrap_err(),
        "unexpected end of data reading u32"
    );
    // one room announced, its id present, its vibe cut short
    let data = [0, 0, 0, 0, 1, 0, 0, 0, 9, 0, 0, 0, 1, 2, 3];
    assert_eq!(
        deserialize_world(&data).unwrap_err(),
        "unexpected end of data reading f64"
    );
    // an agent announcing more state values than there are bytes
    let mut w = WasmWorld::new();
    let mut r = WasmRoom::new(1, 0);
    r.add_agent(WasmAgent::new(1, 0, 0));
    w.add_room(r);
    let mut buf = serialize_world(&w);
    let state_len_at = 8 + 28 + 4;
    buf[state_len_at..state_len_at + 4].copy_from_slice(&5u32.to_le_bytes());
    assert_eq!(
        deserialize_world(&buf).unwrap_err(),
        "unexpected end of data reading f64"
    );
}

#[test]
fn world_counts_mismatch_reads_by_stored_counts() {
    // sensors beyond the stored count are written but read back as later fields
    let mut w = WasmWorld::new();
    let mut r = WasmRoom::new(1, 0);
    let mut a = WasmAgent::new(1, 0, 0);
    a.sensors = floats(&[1.0]);
    r.add_agent(a);
    w.add_room(r);
    let buf = serialize_world(&w);
    let v = deserialize_world(&buf).unwrap();
    assert!(v.rooms[0].agents[0].sensors.is_empty());
    assert_eq!(buf.len(), 8 + 28 + 16 + 8 + 8);
}
