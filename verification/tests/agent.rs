use lau_wasm_bridge::{WasmAgent, ONE_BITS};

fn bits(x: f64) -> u64 {
    x.to_bits()
}

fn float(b: u64) -> f64 {
    f64::from_bits(b)
}

/// The reactive step `actuators[0] = vibe * state[0]`: the library gives the
/// factor and stores the product; the float product is taken here.
fn tick(a: &mut WasmAgent, vibe: f64) {
    let s = float(a.tick_factor());
    a.apply_output(bits(vibe * s));
}

#[test]
fn agent_new() {
    let a = WasmAgent::new(1, 3, 2);
    assert_eq!(a.id, 1);
    assert_eq!(a.sensors.len(), 3);
    assert_eq!(a.actuators.len(), 2);
    assert_eq!(a.state, vec![bits(1.0)]);
}

#[test]
fn agent_read_write_sensor_actuator() {
    let mut a = WasmAgent::new(0, 2, 2);
    a.write_actuator(0, bits(7.5));
    assert_eq!(float(a.read_sensor(0)), 0.0);
    assert!((float(a.actuators[0]) - 7.5).abs() < 1e-10);
}

#[test]
fn agent_tick_reactive() {
    let mut a = WasmAgent::new(0, 1, 2);
    a.state[0] = bits(2.0);
    tick(&mut a, 3.5);
    assert!((float(a.actuators[0]) - 7.0).abs() < 1e-10);
}

#[test]
fn agent_tick_no_actuators_no_panic() {
    let mut a = WasmAgent::new(0, 0, 0);
    tick(&mut a, 99.0);
}

#[test]
fn agent_read_sensor_out_of_bounds() {
    let a = WasmAgent::new(0, 1, 1);
    assert_eq!(float(a.read_sensor(99)), 0.0);
}

#[test]
fn one_bits_is_float_one() {
    assert_eq!(ONE_BITS, 1.0f64.to_bits());
}

#[test]
fn agent_new_counts_and_zeroes() {
    let a = WasmAgent::new(9, 4, 1);
    assert_eq!(a.sensor_count, 4);
    assert_eq!(a.actuator_count, 1);
    assert_eq!(a.sensors, vec![0u64; 4]);
    assert_eq!(a.actuators, vec![0u64; 1]);
}

#[test]
fn agent_write_actuator_out_of_range_is_ignored() {
    let mut a = WasmAgent::new(0, 1, 2);
    a.write_actuator(2, bits(5.0));
    a.write_actuator(u32::MAX, bits(5.0));
    assert_eq!(a.actuators, vec![0u64; 2]);
    a.write_actuator(1, bits(5.0));
    assert_eq!(a.actuators, vec![0, bits(5.0)]);
}

#[test]
fn agent_read_sensor_in_range() {
    let mut a = WasmAgent::new(0, 2, 0);
    a.sensors[1] = bits(0.25);
    assert_eq!(float(a.read_sensor(1)), 0.25);
}

#[test]
fn agent_tick_factor_defaults_to_one_without_state() {
    let mut a = WasmAgent::new(0, 0, 1);
    assert_eq!(float(a.tick_factor()), 1.0);
    a.state[0] = bits(4.0);
    assert_eq!(float(a.tick_factor()), 4.0);
    a.state.clear();
    assert_eq!(a.tick_factor(), ONE_BITS);
    tick(&mut a, 2.0);
    assert_eq!(float(a.actuators[0]), 2.0);
}

#[test]
fn agent_apply_output_touches_first_actuator_only() {
    let mut a = WasmAgent::new(3, 0, 3);
    a.apply_output(bits(6.0));
    assert_eq!(a.actuators, vec![bits(6.0), 0, 0]);
    let mut b = WasmAgent::new(3, 0, 0);
    b.apply_output(bits(6.0));
    assert!(b.actuators.is_empty());
}
