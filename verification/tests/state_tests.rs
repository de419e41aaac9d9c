use tas_engine::state::{LayoutConfig, PackedState};

#[test]
fn test_location_roundtrip() {
    let cfg = LayoutConfig::standard();
    let mut s = PackedState::zero();
    s.set_location(&cfg, 42069);
    assert_eq!(s.get_location(&cfg), 42069);
}

#[test]
fn test_keys_bitflags() {
    let cfg = LayoutConfig::standard();
    let mut s = PackedState::zero();
    s.add_key(&cfg, 2);
    assert!(s.has_key(&cfg, 2));
    assert!(!s.has_key(&cfg, 0));
}

#[test]
fn test_doors_toggle() {
    let cfg = LayoutConfig::standard();
    let mut s = PackedState::zero();
    s.toggle_door(&cfg, 1);
    assert!(s.is_door_open(&cfg, 1));
    s.toggle_door(&cfg, 1);
    assert!(!s.is_door_open(&cfg, 1));
}

#[test]
fn test_ticks_increment() {
    let cfg = LayoutConfig::standard();
    let mut s = PackedState::zero();
    s.increment_ticks(&cfg, 5);
    assert_eq!(s.get_ticks(&cfg), 5);
    s.increment_ticks(&cfg, 3);
    assert_eq!(s.get_ticks(&cfg), 8);
}

#[test]
fn test_no_cross_byte_contamination() {
    let cfg = LayoutConfig::standard();
    let mut s = PackedState::zero();
    s.set_location(&cfg, 0xFFFF);
    s.set_keys(&cfg, 0xAB);
    s.set_doors(&cfg, 0xCD);
    s.set_switches(&cfg, 0xEF);
    s.set_ticks(&cfg, 0x1234);
    assert_eq!(s.get_location(&cfg), 0xFFFF);
    assert_eq!(s.get_keys(&cfg), 0xAB);
    assert_eq!(s.get_doors(&cfg), 0xCD);
    assert_eq!(s.get_switches(&cfg), 0xEF);
    assert_eq!(s.get_ticks(&cfg), 0x1234);
}

#[test]
fn test_u32_roundtrip() {
    let mut s = PackedState::zero();
    s.set_u32(4, 0xDEADBEEF);
    assert_eq!(s.get_u32(4), 0xDEADBEEF);
}

#[test]
fn test_full_roundtrip() {
    let mut s = PackedState::zero();
    let layout = LayoutConfig::standard();
    s.set_location(&layout, 420);
    s.set_keys(&layout, 0b1010);
    s.set_doors(&layout, 0b0101);
    s.set_switches(&layout, 0b1111);
    s.set_ticks(&layout, 12345);
    assert_eq!(s.get_location(&layout), 420);
    assert_eq!(s.get_keys(&layout), 0b1010);
    assert_eq!(s.get_ticks(&layout), 12345);
}

// ─── Further cases ──────────────────────────────────────────────────────────

#[test]
fn standard_layout_offsets() {
    let cfg = LayoutConfig::standard();
    assert_eq!(cfg.loc_offset, 0);
    assert_eq!(cfg.loc_bytes, 2);
    assert_eq!(cfg.keys_offset, 2);
    assert_eq!(cfg.doors_offset, 3);
    assert_eq!(cfg.switches_offset, 4);
    assert_eq!(cfg.ticks_offset, 5);
    assert_eq!(cfg.tick_cost_offset, 7);
}

#[test]
fn zero_state_is_all_zero() {
    assert_eq!(PackedState::zero().data, [0u8; 16]);
}

#[test]
fn location_is_little_endian() {
    let cfg = LayoutConfig::standard();
    let mut s = PackedState::zero();
    s.set_location(&cfg, 0x1234);
    assert_eq!(s.data[0], 0x34);
    assert_eq!(s.data[1], 0x12);
}

#[test]
fn one_byte_location_keeps_low_byte() {
    let mut cfg = LayoutConfig::standard();
    cfg.loc_bytes = 1;
    let mut s = PackedState::zero();
    s.data[1] = 0x77;
    s.set_location(&cfg, 0x1234);
    assert_eq!(s.get_location(&cfg), 0x34);
    assert_eq!(s.data[1], 0x77);
}

#[test]
fn ticks_saturate_at_max() {
    let cfg = LayoutConfig::standard();
    let mut s = PackedState::zero();
    s.set_ticks(&cfg, 65530);
    s.increment_ticks(&cfg, 10);
    assert_eq!(s.get_ticks(&cfg), u16::MAX);
}

#[test]
fn tick_cost_saturates() {
    let cfg = LayoutConfig::standard();
    let mut s = PackedState::zero();
    s.add_tick_cost(&cfg, 200);
    assert_eq!(s.get_tick_cost(&cfg), 200);
    s.add_tick_cost(&cfg, 100);
    assert_eq!(s.get_tick_cost(&cfg), 255);
}

#[test]
fn add_key_keeps_other_keys() {
    let cfg = LayoutConfig::standard();
    let mut s = PackedState::zero();
    s.set_keys(&cfg, 0b1001);
    s.add_key(&cfg, 1);
    assert_eq!(s.get_keys(&cfg), 0b1011);
    s.add_key(&cfg, 1);
    assert_eq!(s.get_keys(&cfg), 0b1011);
}

#[test]
fn open_door_is_idempotent() {
    let cfg = LayoutConfig::standard();
    let mut s = PackedState::zero();
    s.open_door(&cfg, 3);
    s.open_door(&cfg, 3);
    assert_eq!(s.get_doors(&cfg), 0b1000);
    assert!(s.is_door_open(&cfg, 3));
    assert!(!s.is_door_open(&cfg, 2));
}

#[test]
fn switch_toggle_twice_restores() {
    let cfg = LayoutConfig::standard();
    let mut s = PackedState::zero();
    s.set_switches(&cfg, 0b0110);
    s.toggle_switch(&cfg, 0);
    assert!(s.is_switch_flipped(&cfg, 0));
    assert_eq!(s.get_switches(&cfg), 0b0111);
    s.toggle_switch(&cfg, 0);
    assert_eq!(s.get_switches(&cfg), 0b0110);
}

#[test]
fn u32_is_little_endian() {
    let mut s = PackedState::zero();
    s.set_u32(8, 0x0A0B0C0D);
    assert_eq!(&s.data[8..12], &[0x0D, 0x0C, 0x0B, 0x0A]);
    assert_eq!(s.data[7], 0);
    assert_eq!(s.data[12], 0);
}

#[test]
fn zero_width_location_writes_one_byte_at_the_end() {
    let mut cfg = LayoutConfig::standard();
    cfg.loc_offset = 15;
    cfg.loc_bytes = 0;
    let mut s = PackedState::zero();
    s.set_location(&cfg, 0x1234);
    assert_eq!(s.data[15], 0x34);
    assert_eq!(s.data[14], 0);
}
