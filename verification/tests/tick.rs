use voxel_logic::block::{
    Block, Orient, VoxelClock, VoxelMemory, VoxelPixel, VoxelPowered, VoxelPulse, VoxelPulseLatch,
};
use voxel_logic::grid::Coord;
use voxel_logic::scene::Scene;

fn a_wire() -> Block {
    Block::Wire(VoxelPowered { powered: false })
}

fn toggle(powered: bool) -> Block {
    Block::Toggle(VoxelPowered { powered })
}

fn power_of(scene: &Scene, id: u32) -> bool {
    scene.get_block(id).unwrap().2.get_circuit_power().unwrap()
}

fn sorted(mut ids: Vec<u32>) -> Vec<u32> {
    ids.sort();
    ids
}

fn place(scene: &mut Scene, block: Block, x: i32, y: i32, z: i32) -> u32 {
    scene.add_block(block, Coord::new(x, y, z), Orient::FORWARD).unwrap()
}

#[test]
fn wire_network_takes_the_power_of_a_toggle() {
    let mut scene = Scene::new();
    let wires = scene.add_wire((0..10).map(|z| Coord::new(0, 0, z)).collect()).unwrap();
    let source = place(&mut scene, toggle(true), 0, 0, -1);
    let deltas = scene.simulate_tick();
    for id in &wires {
        assert!(power_of(&scene, *id));
    }
    assert_eq!(sorted(deltas), wires);
    assert!(power_of(&scene, source));
    // nothing changes with the next tick
    assert_eq!(scene.simulate_tick(), vec![]);
    // the toggle is switched off from outside: the whole network follows
    scene.update_block(source, toggle(false)).unwrap();
    assert_eq!(sorted(scene.simulate_tick()), wires);
    for id in &wires {
        assert!(!power_of(&scene, *id));
    }
}

#[test]
fn and_gate_follows_two_clocks_one_tick_behind() {
    let mut scene = Scene::new();
    let l = 10;
    scene.add_wire((0..l).map(|e| Coord::new(-1, 0, e)).collect()).unwrap();
    scene.add_wire((0..l).map(|e| Coord::new(1, 0, e)).collect()).unwrap();
    let out = scene.add_wire((0..l).map(|e| Coord::new(0, 0, l + 3 + e)).collect()).unwrap();
    let clock_a = place(&mut scene, Block::Clock(VoxelClock { rate: 2, start_tick: 0, powered: false }), -1, 0, -1);
    let clock_b = place(&mut scene, Block::Clock(VoxelClock { rate: 3, start_tick: 0, powered: false }), 1, 0, -1);
    let gate = place(&mut scene, Block::ANDGate(VoxelPowered { powered: false }), 0, 0, l + 1);
    for t in 1u32..=24 {
        scene.simulate_tick();
        assert_eq!(scene.get_ticks(), t);
        assert_eq!(power_of(&scene, clock_a), t % 2 == 0);
        assert_eq!(power_of(&scene, clock_b), t % 3 == 0);
        // a wire shows the power of its clock in the same tick
        assert_eq!(power_of(&scene, 0), t % 2 == 0);
        assert_eq!(power_of(&scene, l as u32), t % 3 == 0);
        // the output follows the inputs one tick later
        let before = t - 1;
        let want = before >= 1 && before % 2 == 0 && before % 3 == 0;
        assert_eq!(power_of(&scene, gate), want);
        assert_eq!(power_of(&scene, out[0]), want);
        assert_eq!(power_of(&scene, out[9]), want);
    }
    assert!(power_of(&scene, gate) == false);
    assert_eq!(scene.get_ticks(), 24);
}

#[test]
fn clock_pattern_with_rate_five_from_tick_two() {
    let mut scene = Scene::new();
    let clock = place(&mut scene, Block::Clock(VoxelClock { rate: 5, start_tick: 2, powered: false }), 0, 0, 0);
    let mut pattern = vec![power_of(&scene, clock)];
    for _ in 1..=12 {
        scene.simulate_tick();
        pattern.push(power_of(&scene, clock));
    }
    let f = false;
    let t = true;
    assert_eq!(pattern, vec![f, f, t, f, f, f, f, t, f, f, f, f, t]);
}

#[test]
fn not_gate_without_input_turns_on() {
    let mut scene = Scene::new();
    let gate = place(&mut scene, Block::NOTGate(VoxelPowered { powered: false }), 0, 0, 0);
    assert_eq!(scene.simulate_tick(), vec![gate]);
    assert!(power_of(&scene, gate));
    assert_eq!(scene.get_block(gate).unwrap().2, Block::NOTGate(VoxelPowered { powered: true }));
    assert_eq!(scene.simulate_tick(), vec![]);
}

#[test]
fn removing_the_middle_wire_disconnects_the_ends() {
    let mut scene = Scene::new();
    let a = place(&mut scene, toggle(true), 0, 0, 0);
    let b = place(&mut scene, a_wire(), 0, 0, 1);
    let c = place(&mut scene, a_wire(), 0, 0, 2);
    assert_eq!(sorted(scene.simulate_tick()), vec![b, c]);
    assert!(power_of(&scene, b) && power_of(&scene, c));
    scene.remove_block(b).unwrap();
    assert_eq!(scene.get_link(Coord::new(0, 0, 0), Coord::new(0, 0, 2)), None);
    assert_eq!(scene.simulate_tick(), vec![c]);
    assert!(power_of(&scene, a));
    assert!(!power_of(&scene, c));
    for _ in 0..3 {
        assert_eq!(scene.simulate_tick(), vec![]);
        assert!(!power_of(&scene, c));
    }
}

#[test]
fn toggle_latch_flips_once_per_pulse() {
    let mut scene = Scene::new();
    let pulse = place(&mut scene, Block::Pulse(VoxelPulse { start_tick: 0, pulse_ticks: 1, powered: false }), 0, 0, -1);
    let latch = place(&mut scene, Block::ToggleLatch(VoxelMemory { stored: false, powered: false }), 0, 0, 0);
    let stored = |scene: &Scene| match scene.get_block(latch).unwrap().2 {
        Block::ToggleLatch(data) => data.stored,
        _ => unreachable!(),
    };
    let mut flips = 0;
    let mut last = stored(&scene);
    let mut pulse_pattern = Vec::new();
    for _ in 1..=8 {
        scene.simulate_tick();
        pulse_pattern.push(power_of(&scene, pulse));
        if stored(&scene) != last {
            flips += 1;
            last = stored(&scene);
        }
    }
    assert_eq!(pulse_pattern, vec![true, false, false, false, false, false, false, false]);
    assert_eq!(flips, 1);
    assert!(stored(&scene));
    assert_eq!(
        scene.get_block(latch).unwrap().2,
        Block::ToggleLatch(VoxelMemory { stored: true, powered: false })
    );
}

#[test]
fn links_carry_the_power_of_either_block_after_a_tick() {
    let mut scene = Scene::new();
    let a = Coord::new(0, 0, 0);
    let b = Coord::new(0, 0, 1);
    let c = Coord::new(0, 0, 2);
    let d = Coord::new(0, 0, 3);
    place(&mut scene, toggle(true), 0, 0, 0);
    place(&mut scene, a_wire(), 0, 0, 1);
    place(&mut scene, Block::Pixel(VoxelPixel { powered: false }), 0, 0, 2);
    place(&mut scene, Block::Pixel(VoxelPixel { powered: false }), 0, 0, 3);
    for _ in 0..3 {
        scene.simulate_tick();
        for (p, q) in [(a, b), (b, c), (c, d)] {
            let owner_p = scene.get_cell(p).unwrap().0;
            let owner_q = scene.get_cell(q).unwrap().0;
            let want = scene.get_block(owner_p).unwrap().2.get_circuit_power().unwrap_or(false)
                || scene.get_block(owner_q).unwrap().2.get_circuit_power().unwrap_or(false);
            assert_eq!(scene.get_link(p, q), Some(want));
            assert_eq!(scene.get_link(q, p), Some(want));
        }
    }
    assert_eq!(scene.get_link(a, b), Some(true));
    assert_eq!(scene.get_link(b, c), Some(true));
    // two pixels: neither puts out power
    assert_eq!(scene.get_link(c, d), Some(false));
    // the pixel next to the wire is lit, the one behind it is not
    assert_eq!(scene.get_block(2).unwrap().2, Block::Pixel(VoxelPixel { powered: true }));
    assert_eq!(scene.get_block(3).unwrap().2, Block::Pixel(VoxelPixel { powered: false }));
}

#[test]
fn tick_is_deterministic() {
    let build = || {
        let mut scene = Scene::new();
        scene.add_wire((0..6).map(|z| Coord::new(0, 0, z)).collect()).unwrap();
        place(&mut scene, Block::Clock(VoxelClock { rate: 2, start_tick: 1, powered: false }), 0, 0, -1);
        place(&mut scene, Block::NOTGate(VoxelPowered { powered: false }), 0, 0, 6);
        place(&mut scene, Block::PulseLatch(VoxelPulseLatch { pulse_ticks: 2, pulse_battery: 0, powered: false }), 0, 1, 4);
        scene
    };
    let mut first = build();
    let mut second = build();
    for _ in 0..12 {
        let one = sorted(first.simulate_tick());
        let other = sorted(second.simulate_tick());
        assert_eq!(one, other);
        assert_eq!(first.get_world_blocks(), second.get_world_blocks());
        assert_eq!(first.get_ticks(), second.get_ticks());
    }
}

#[test]
fn tick_reports_each_changed_block_once() {
    let mut scene = Scene::new();
    scene.add_wire((0..5).map(|z| Coord::new(0, 0, z)).collect()).unwrap();
    place(&mut scene, Block::Clock(VoxelClock { rate: 1, start_tick: 0, powered: false }), 0, 0, -1);
    place(&mut scene, Block::NOTGate(VoxelPowered { powered: false }), 3, 0, 0);
    let before = scene.get_world_blocks();
    let deltas = scene.simulate_tick();
    let after = scene.get_world_blocks();
    let unique: std::collections::HashSet<u32> = deltas.iter().copied().collect();
    assert_eq!(unique.len(), deltas.len());
    for (id, entry) in &after {
        assert_eq!(unique.contains(id), before[id] != *entry);
        assert_eq!(before[id].0, entry.0);
        assert_eq!(before[id].1, entry.1);
    }
    assert_eq!(sorted(deltas), vec![0, 1, 2, 3, 4, 5, 6]);
}

#[test]
fn separate_wire_networks_do_not_share_power() {
    let mut scene = Scene::new();
    let fed = scene.add_wire((0..3).map(|z| Coord::new(0, 0, z)).collect()).unwrap();
    let idle = scene.add_wire((0..3).map(|z| Coord::new(5, 0, z)).collect()).unwrap();
    place(&mut scene, toggle(true), 0, 0, -1);
    assert_eq!(sorted(scene.simulate_tick()), fed);
    for id in idle {
        assert!(!power_of(&scene, id));
    }
}

#[test]
fn wire_network_with_mixed_power_settles_as_a_whole() {
    let mut scene = Scene::new();
    let wires = scene.add_wire((0..3).map(|z| Coord::new(0, 0, z)).collect()).unwrap();
    // one wire of the network is powered from outside, nothing drives the network
    scene.update_block(wires[1], Block::Wire(VoxelPowered { powered: true })).unwrap();
    // only the wire that loses its power is reported
    assert_eq!(scene.simulate_tick(), vec![wires[1]]);
    for id in &wires {
        assert!(!power_of(&scene, *id));
    }
    assert_eq!(scene.simulate_tick(), vec![]);
}

#[test]
fn lit_wire_beside_a_dark_one_without_a_source() {
    let mut scene = Scene::new();
    let lit = place(&mut scene, Block::Wire(VoxelPowered { powered: true }), 0, 0, 0);
    let dark = place(&mut scene, a_wire(), 0, 0, 1);
    assert_eq!(scene.simulate_tick(), vec![lit]);
    assert!(!power_of(&scene, lit));
    assert!(!power_of(&scene, dark));
}

#[test]
fn dark_wire_in_a_lit_network_is_not_lit_without_a_flip() {
    let mut scene = Scene::new();
    let wires = scene.add_wire((0..3).map(|z| Coord::new(0, 0, z)).collect()).unwrap();
    place(&mut scene, toggle(true), 0, 0, -1);
    scene.simulate_tick();
    scene.update_block(wires[2], a_wire()).unwrap();
    // the network had power and is driven: it does not flip
    assert_eq!(scene.simulate_tick(), vec![]);
    assert!(power_of(&scene, wires[0]));
    assert!(!power_of(&scene, wires[2]));
}

#[test]
fn powered_wire_does_not_feed_its_own_network() {
    let mut scene = Scene::new();
    let wires = scene.add_wire((0..2).map(|z| Coord::new(0, 0, z)).collect()).unwrap();
    place(&mut scene, toggle(true), 0, 0, -1);
    scene.simulate_tick();
    scene.remove_block(2).unwrap();
    // both wires had power, but only wires are left
    assert_eq!(sorted(scene.simulate_tick()), wires);
    assert!(!power_of(&scene, wires[0]));
}

#[test]
fn diode_and_pixel_read_the_wire_beside_them() {
    let mut scene = Scene::new();
    place(&mut scene, toggle(true), 0, 0, 0);
    place(&mut scene, a_wire(), 0, 0, 1);
    let diode = place(&mut scene, Block::Diode(VoxelPowered { powered: false }), 0, 0, 2);
    let pixel = place(&mut scene, Block::Pixel(VoxelPixel { powered: false }), 0, 0, 4);
    scene.simulate_tick();
    // the wire is lit in the first tick, the diode reads it in the second
    assert!(!power_of(&scene, diode));
    scene.simulate_tick();
    assert!(power_of(&scene, diode));
    assert_eq!(scene.get_block(pixel).unwrap().2, Block::Pixel(VoxelPixel { powered: false }));
    scene.simulate_tick();
    assert_eq!(scene.get_block(pixel).unwrap().2, Block::Pixel(VoxelPixel { powered: true }));
}

#[test]
fn memory_latch_in_a_scene() {
    let mut scene = Scene::new();
    // a memory latch at (0,0,0) has `!in_a` at (-1,0,-1) and `!in_b` at (1,0,-1)
    let latch = place(&mut scene, Block::MemoryLatch(VoxelMemory { stored: false, powered: false }), 0, 0, 0);
    let set = place(&mut scene, toggle(true), -1, 0, -2);
    let reset = place(&mut scene, toggle(false), 1, 0, -2);
    scene.simulate_tick();
    assert_eq!(scene.get_block(latch).unwrap().2, Block::MemoryLatch(VoxelMemory { stored: true, powered: true }));
    scene.update_block(set, toggle(false)).unwrap();
    scene.simulate_tick();
    assert_eq!(scene.get_block(latch).unwrap().2, Block::MemoryLatch(VoxelMemory { stored: true, powered: true }));
    scene.update_block(reset, toggle(true)).unwrap();
    scene.simulate_tick();
    assert_eq!(scene.get_block(latch).unwrap().2, Block::MemoryLatch(VoxelMemory { stored: false, powered: false }));
}

#[test]
pub fn scene_gate_test() {
    let mut scene = Scene::default();

    let l = 10;
    let _ = scene.add_wire((0..l).map(|e| Coord::new(-1, 0, e)).collect()).unwrap();
    let _ = scene.add_wire((0..l).map(|e| Coord::new(1, 0, e)).collect()).unwrap();
    let _ = scene.add_wire((0..l).map(|e| Coord::new(0, 0, l + 3 + e)).collect()).unwrap();
    let _clock_a = scene.add_block(Block::Clock(VoxelClock {
        rate: 5,
        start_tick: 0,
        powered: false,
    }), Coord::new(-1, 0, -1), Default::default()).unwrap();
    let _clock_b = scene.add_block(Block::Clock(VoxelClock {
        rate: 3,
        start_tick: 0,
        powered: false,
    }), Coord::new(1, 0, -1), Default::default()).unwrap();
    let gate = scene.add_block(Block::ANDGate(VoxelPowered {
        powered: false,
    }), Coord::new(0, 0, l + 1), Default::default()).unwrap();

    let mut lit = Vec::new();
    for i in 1..=20u32 {
        let _deltas = scene.simulate_tick();
        if power_of(&scene, gate) {
            lit.push(i);
        }
    }
    assert_eq!(lit, vec![16]);
}

#[test]
pub fn scene_wire_test() {
    let mut scene = Scene::default();

    let first = scene.add_wire((0..10).map(|e| Coord::new(0, 0, e)).collect()).unwrap();
    let second = scene.add_wire((0..10).map(|e| Coord::new(-5 + e, 1, 0)).collect()).unwrap();
    let _toggle = scene.add_block(Block::Toggle(VoxelPowered {
        powered: false,
    }), Coord::new(0, 2, 0), Default::default()).unwrap();
    let _clock = scene.add_block(Block::Clock(VoxelClock {
        rate: 3,
        start_tick: 2,
        powered: false,
    }), Coord::new(-2, 2, 0), Default::default()).unwrap();

    for i in 1..=20u32 {
        let deltas = scene.simulate_tick();
        let on = i >= 2 && (i - 2) % 3 == 0;
        // the two wires cross at (0, 1, 0) next to (0, 0, 0): one network
        for id in first.iter().chain(second.iter()) {
            assert_eq!(power_of(&scene, *id), on);
        }
        assert_eq!(deltas.is_empty(), !(on || (i >= 3 && (i - 3) % 3 == 0)));
    }
}
