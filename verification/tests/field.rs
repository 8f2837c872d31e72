use lau_wasm_bridge::{WasmVibeField, ZERO_BITS};

fn bits(x: f64) -> u64 {
    x.to_bits()
}

fn float(b: u64) -> f64 {
    f64::from_bits(b)
}

/// The float sum of a field's values, in order.
fn values_sum(f: &WasmVibeField) -> f64 {
    f.values.iter().map(|b| f64::from_bits(*b)).sum()
}

#[test]
fn field_new_empty() {
    let f = WasmVibeField::new(bits(10.0));
    assert_eq!(f.values.len(), 0);
    assert_eq!(f.tick, 0);
    assert_eq!(float(f.conservation_baseline), 10.0);
}

#[test]
fn field_set_get_sum() {
    let mut f = WasmVibeField::new(bits(10.0));
    f.resize(3);
    f.set(0, bits(3.0));
    f.set(1, bits(4.0));
    f.set(2, bits(5.0));
    assert_eq!(float(f.get(0)), 3.0);
    assert_eq!(float(f.get(1)), 4.0);
    assert_eq!(float(f.get(2)), 5.0);
    assert_eq!(values_sum(&f), 12.0);
}

#[test]
fn field_get_out_of_bounds() {
    let f = WasmVibeField::new(bits(0.0));
    assert_eq!(float(f.get(999)), 0.0);
}

#[test]
fn field_resize_grows_and_shrinks() {
    let mut f = WasmVibeField::new(bits(0.0));
    f.resize(5);
    assert_eq!(f.len(), 5);
    f.resize(2);
    assert_eq!(f.len(), 2);
}

#[test]
fn field_set_out_of_bounds_noop() {
    let mut f = WasmVibeField::new(bits(0.0));
    f.resize(1);
    f.set(5, bits(42.0));
    assert_eq!(float(f.get(5)), 0.0);
}

#[test]
fn zero_bits_is_float_zero() {
    assert_eq!(ZERO_BITS, 0.0f64.to_bits());
}

#[test]
fn field_set_then_get_reads_back_and_leaves_others() {
    let mut f = WasmVibeField::new(bits(1.0));
    f.resize(3);
    f.set(1, bits(-2.5));
    assert_eq!(float(f.get(1)), -2.5);
    assert_eq!(float(f.get(0)), 0.0);
    assert_eq!(float(f.get(2)), 0.0);
    assert_eq!(f.len(), 3);
    assert_eq!(f.tick, 0);
    assert_eq!(float(f.conservation_baseline), 1.0);
}

#[test]
fn field_resize_keeps_prefix_and_zero_fills() {
    let mut f = WasmVibeField::new(bits(0.0));
    f.resize(2);
    f.set(0, bits(7.0));
    f.set(1, bits(8.0));
    f.resize(4);
    assert_eq!(f.values, vec![bits(7.0), bits(8.0), 0, 0]);
    f.resize(1);
    assert_eq!(f.values, vec![bits(7.0)]);
    f.resize(0);
    assert!(f.is_empty());
}

#[test]
fn field_is_empty_and_len() {
    let mut f = WasmVibeField::new(bits(0.0));
    assert!(f.is_empty());
    assert_eq!(f.len(), 0);
    f.resize(1);
    assert!(!f.is_empty());
    assert_eq!(f.len(), 1);
}

#[test]
fn field_nan_payload_is_kept() {
    let mut f = WasmVibeField::new(0x7ff8_0000_0000_0001);
    f.resize(1);
    f.set(0, 0xfff0_0000_0000_0000);
    assert_eq!(f.get(0), 0xfff0_0000_0000_0000);
    assert_eq!(f.conservation_baseline, 0x7ff8_0000_0000_0001);
}
