use tas_engine::driver::{wait_action, InputFrame, JitterStats, TASDriver, WaitAction};
use tas_engine::env::default_world;
use tas_engine::io_layer::{
    ExternalNativeHook, InputInjector, InternalSimulator, MemoryRegion, StateProvider,
};
use tas_engine::state::{LayoutConfig, PackedState};

#[test]
fn test_internal_simulator_capture() {
    let layout = LayoutConfig::standard();
    let world = default_world();
    let mut start = PackedState::zero();
    start.set_location(&layout, world.start_cell);
    let mut sim = InternalSimulator::new(&layout, &world, start);
    let s = sim.capture_state();
    assert_eq!(s.get_location(&layout), world.start_cell);
}

#[test]
fn test_internal_simulator_inject() {
    let layout = LayoutConfig::standard();
    let world = default_world();
    let mut start = PackedState::zero();
    start.set_location(&layout, world.start_cell);
    let mut sim = InternalSimulator::new(&layout, &world, start);
    sim.inject_input(4); // Right
    let s = sim.capture_state();
    assert_ne!(s.get_location(&layout), world.start_cell);
}

#[test]
fn test_compile_macro_scheduling() {
    let driver = TASDriver::compile_macro(&[4, 4, 4], 60);
    assert_eq!(driver.len(), 3);
    let period = 1_000_000_000u64 / 60;
    assert_eq!(driver.frames()[0].target_ns, 0);
    assert_eq!(driver.frames()[1].target_ns, period);
}

// ─── Further cases ──────────────────────────────────────────────────────────

#[test]
fn simulator_getters_show_its_parts() {
    let layout = LayoutConfig::standard();
    let world = default_world();
    let mut start = PackedState::zero();
    start.set_location(&layout, world.start_cell);
    let mut sim = InternalSimulator::new(&layout, &world, start);
    assert_eq!(sim.state(), start);
    assert_eq!(sim.layout().loc_offset, layout.loc_offset);
    assert_eq!(sim.world().victory_cell, world.victory_cell);
    sim.inject_input(4); // Right
    assert_eq!(sim.state().get_location(&layout), world.start_cell + 1);
    assert_eq!(sim.state(), sim.capture_state());
}

#[test]
fn refused_input_leaves_simulator_state() {
    let layout = LayoutConfig::standard();
    let world = default_world();
    let mut start = PackedState::zero();
    start.set_location(&layout, world.start_cell);
    let mut sim = InternalSimulator::new(&layout, &world, start);
    sim.inject_input(1); // Up into the wall
    assert_eq!(sim.capture_state(), start);
    sim.inject_input(0); // Wait
    assert_eq!(sim.capture_state().get_ticks(&layout), 1);
}

#[test]
fn external_hook_outline_keeps_cached_state() {
    let region = MemoryRegion { base_address: 0x1000, size: 16 };
    let mut hook = ExternalNativeHook::new(42, region, region, LayoutConfig::standard());
    assert_eq!(hook.process_id, 42);
    let mut buf = [7u8; 4];
    assert!(!hook.read_target_memory(0, &mut buf));
    assert_eq!(buf, [7u8; 4]);
    assert!(!hook.write_target_memory(0, &[1]));
    hook.inject_input(3);
    assert_eq!(hook.capture_state(), PackedState::zero());
}

#[test]
fn frames_follow_the_path() {
    let driver = TASDriver::compile_macro(&[4, 2, 3], 1000);
    let frames = driver.frames();
    assert_eq!(
        frames,
        &[
            InputFrame { input_id: 4, target_ns: 0 },
            InputFrame { input_id: 2, target_ns: 1_000_000 },
            InputFrame { input_id: 3, target_ns: 2_000_000 },
        ]
    );
}

#[test]
fn frame_offsets_saturate() {
    let driver = TASDriver::compile_macro(&[0, 0, 0], 1);
    assert_eq!(driver.frames()[2].target_ns, 2_000_000_000);
    let slow = TASDriver::compile_macro(&[], 7);
    assert_eq!(slow.len(), 0);
}

#[test]
fn tas_image_bytes() {
    let driver = TASDriver::compile_macro(&[4, 2], 60);
    let bytes = driver.tas_file_bytes(60);
    let period = 1_000_000_000u64 / 60;
    let mut expected = vec![b'T', b'A', b'S', 0, 1];
    expected.extend_from_slice(&60u32.to_le_bytes());
    expected.extend_from_slice(&2u32.to_le_bytes());
    expected.push(4);
    expected.extend_from_slice(&0u64.to_le_bytes());
    expected.push(2);
    expected.extend_from_slice(&period.to_le_bytes());
    assert_eq!(bytes, expected);
    assert_eq!(bytes.len(), 5 + 4 + 4 + 2 * 9);
}

#[test]
fn tas_image_keeps_low_rate_bits() {
    let driver = TASDriver::compile_macro(&[], 1);
    let bytes = driver.tas_file_bytes(0x1_0000_0005);
    assert_eq!(&bytes[5..9], &[5, 0, 0, 0]);
}

#[test]
fn wait_actions() {
    assert_eq!(wait_action(5_000_000), WaitAction::Sleep(4_000_000));
    assert_eq!(wait_action(2_000_001), WaitAction::Sleep(1_000_001));
    assert_eq!(wait_action(2_000_000), WaitAction::Spin);
    assert_eq!(wait_action(0), WaitAction::Spin);
}

#[test]
fn jitter_statistics() {
    let mut stats = JitterStats::new();
    assert_eq!(stats.samples, 0);
    stats.record(120);
    stats.record(-30);
    stats.record(45);
    assert_eq!(stats.max_ns, 120);
    assert_eq!(stats.min_ns, -30);
    assert_eq!(stats.sum_ns, 135);
    assert_eq!(stats.samples, 3);
    let mut wrap = JitterStats::new();
    wrap.record(i64::MAX);
    wrap.record(1);
    assert_eq!(wrap.sum_ns, i64::MIN);
}
