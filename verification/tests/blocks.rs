use voxel_logic::block::{
    circuit_voxel, is_circuit_voxel, Block, Orient, VoxelBlock, VoxelClock, VoxelMemory, VoxelPixel,
    VoxelPowered, VoxelPulse, VoxelPulseLatch,
};
use voxel_logic::grid::Coord;
use voxel_logic::voxel::Voxel;

fn on(powered: bool) -> VoxelPowered {
    VoxelPowered { powered }
}

fn every_kind() -> Vec<Block> {
    vec![
        Block::Air,
        Block::Wire(on(true)),
        Block::Block(VoxelBlock {}),
        Block::Toggle(on(true)),
        Block::Pixel(VoxelPixel { powered: true }),
        Block::ANDGate(on(true)),
        Block::ORGate(on(true)),
        Block::XORGate(on(true)),
        Block::NANDGate(on(true)),
        Block::NORGate(on(true)),
        Block::XNORGate(on(true)),
        Block::NOTGate(on(true)),
        Block::Diode(on(true)),
        Block::Clock(VoxelClock { rate: 3, start_tick: 0, powered: true }),
        Block::Pulse(VoxelPulse { start_tick: 0, pulse_ticks: 1, powered: true }),
        Block::ToggleLatch(VoxelMemory { stored: false, powered: true }),
        Block::PulseLatch(VoxelPulseLatch { pulse_ticks: 2, pulse_battery: 1, powered: true }),
        Block::MemoryLatch(VoxelMemory { stored: true, powered: true }),
    ]
}

fn names_of(voxels: &Vec<(String, Coord)>) -> Vec<String> {
    voxels.iter().map(|v| v.0.clone()).collect()
}

#[test]
fn circuit_voxel_prefixes_the_name() {
    assert_eq!(circuit_voxel("wire"), "!wire");
    assert_eq!(circuit_voxel(""), "!");
    assert_eq!(circuit_voxel("in_a"), "!in_a");
}

#[test]
fn is_circuit_voxel_looks_at_the_first_character() {
    assert!(is_circuit_voxel("!wire"));
    assert!(is_circuit_voxel("!"));
    assert!(!is_circuit_voxel("wire"));
    assert!(!is_circuit_voxel(""));
    assert!(!is_circuit_voxel("solid-0"));
    assert!(!is_circuit_voxel("a!"));
}

#[test]
fn defaults_are_forward_and_air() {
    assert_eq!(Orient::default(), Orient::FORWARD);
    assert_eq!(Block::default(), Block::Air);
    assert_eq!(VoxelClock::default(), VoxelClock { rate: 0, start_tick: 0, powered: false });
}

#[test]
fn structure_of_single_voxel_kinds() {
    assert_eq!(Block::Air.get_structure(), vec![]);
    assert_eq!(
        Block::Wire(on(false)).get_structure(),
        vec![("!wire".to_string(), Coord::new(0, 0, 0))]
    );
    assert_eq!(
        Block::Block(VoxelBlock {}).get_structure(),
        vec![("block".to_string(), Coord::new(0, 0, 0))]
    );
    assert_eq!(
        Block::Toggle(on(false)).get_structure(),
        vec![("!toggle".to_string(), Coord::new(0, 0, 0))]
    );
    assert_eq!(
        Block::Pixel(VoxelPixel { powered: false }).get_structure(),
        vec![("!pixel".to_string(), Coord::new(0, 0, 0))]
    );
    assert_eq!(
        Block::Clock(VoxelClock::default()).get_structure(),
        vec![("!clock".to_string(), Coord::new(0, 0, 0))]
    );
    assert_eq!(
        Block::Pulse(VoxelPulse::default()).get_structure(),
        vec![("!pulse".to_string(), Coord::new(0, 0, 0))]
    );
}

#[test]
fn structure_of_kinds_with_one_input() {
    let want = vec![
        ("!in".to_string(), Coord::new(0, 0, 0)),
        ("!out".to_string(), Coord::new(0, 0, 1)),
    ];
    assert_eq!(Block::NOTGate(on(false)).get_structure(), want);
    assert_eq!(Block::Diode(on(false)).get_structure(), want);
    assert_eq!(Block::ToggleLatch(VoxelMemory::default()).get_structure(), want);
    assert_eq!(Block::PulseLatch(VoxelPulseLatch::default()).get_structure(), want);
}

#[test]
fn structure_of_kinds_with_a_shell() {
    let want = vec![
        ("solid-0".to_string(), Coord::new(0, 0, 0)),
        ("solid-1".to_string(), Coord::new(-1, 0, 1)),
        ("solid-2".to_string(), Coord::new(1, 0, 1)),
        ("solid-3".to_string(), Coord::new(-1, 0, 0)),
        ("solid-4".to_string(), Coord::new(1, 0, 0)),
        ("solid-5".to_string(), Coord::new(0, 0, -1)),
        ("!in_a".to_string(), Coord::new(-1, 0, -1)),
        ("!in_b".to_string(), Coord::new(1, 0, -1)),
        ("!out".to_string(), Coord::new(0, 0, 1)),
    ];
    assert_eq!(Block::ANDGate(on(false)).get_structure(), want);
    assert_eq!(Block::ORGate(on(false)).get_structure(), want);
    assert_eq!(Block::XORGate(on(false)).get_structure(), want);
    assert_eq!(Block::NANDGate(on(false)).get_structure(), want);
    assert_eq!(Block::NORGate(on(false)).get_structure(), want);
    assert_eq!(Block::XNORGate(on(false)).get_structure(), want);
    assert_eq!(Block::MemoryLatch(VoxelMemory::default()).get_structure(), want);
}

#[test]
fn global_structure_forward_is_a_shift() {
    let got = Block::NOTGate(on(false)).get_global_structure(Coord::new(5, -2, 7), Orient::FORWARD);
    assert_eq!(
        got,
        vec![
            ("!in".to_string(), Coord::new(5, -2, 7)),
            ("!out".to_string(), Coord::new(5, -2, 8)),
        ]
    );
}

#[test]
fn global_structure_applies_each_orientation() {
    let gate = Block::ANDGate(on(false));
    let at = Coord::new(10, 20, 30);
    let place = |orient: Orient, name: &str| -> Coord {
        gate.get_global_structure(at, orient).into_iter().find(|v| v.0 == name).unwrap().1
    };
    // the local offset of `!in_a` is (-1, 0, -1), that of `!out` is (0, 0, 1)
    assert_eq!(place(Orient::FORWARD, "!in_a"), Coord::new(9, 20, 29));
    assert_eq!(place(Orient::FORWARD, "!out"), Coord::new(10, 20, 31));
    assert_eq!(place(Orient::RIGHT, "!in_a"), Coord::new(9, 20, 29));
    assert_eq!(place(Orient::RIGHT, "!out"), Coord::new(11, 20, 30));
    assert_eq!(place(Orient::LEFT, "!in_a"), Coord::new(11, 20, 31));
    assert_eq!(place(Orient::LEFT, "!out"), Coord::new(9, 20, 30));
    assert_eq!(place(Orient::BACKWARD, "!in_a"), Coord::new(11, 20, 31));
    assert_eq!(place(Orient::BACKWARD, "!out"), Coord::new(10, 20, 29));
    assert_eq!(place(Orient::UPWARD, "!in_a"), Coord::new(9, 19, 30));
    assert_eq!(place(Orient::UPWARD, "!out"), Coord::new(10, 21, 30));
    assert_eq!(place(Orient::DOWNWARD, "!in_a"), Coord::new(9, 21, 30));
    assert_eq!(place(Orient::DOWNWARD, "!out"), Coord::new(10, 19, 30));
    // solid-2 has the local offset (1, 0, 1)
    assert_eq!(place(Orient::RIGHT, "solid-2"), Coord::new(11, 20, 31));
    assert_eq!(place(Orient::LEFT, "solid-2"), Coord::new(9, 20, 29));
}

#[test]
fn orient_turn_matches_the_table() {
    let c = Coord::new(1, 2, 3);
    assert_eq!(Orient::FORWARD.turn(c), Coord::new(1, 2, 3));
    assert_eq!(Orient::RIGHT.turn(c), Coord::new(3, 2, 1));
    assert_eq!(Orient::LEFT.turn(c), Coord::new(-3, 2, -1));
    assert_eq!(Orient::BACKWARD.turn(c), Coord::new(-1, 2, -3));
    assert_eq!(Orient::UPWARD.turn(c), Coord::new(1, 3, 2));
    assert_eq!(Orient::DOWNWARD.turn(c), Coord::new(1, -3, -2));
}

#[test]
fn global_circuit_voxels_are_the_terminals() {
    let got = Block::MemoryLatch(VoxelMemory::default())
        .get_global_circuit_voxels(Coord::new(0, 0, 0), Orient::FORWARD);
    assert_eq!(
        got,
        vec![
            ("!in_a".to_string(), Coord::new(-1, 0, -1)),
            ("!in_b".to_string(), Coord::new(1, 0, -1)),
            ("!out".to_string(), Coord::new(0, 0, 1)),
        ]
    );
    assert_eq!(
        Block::Block(VoxelBlock {}).get_global_circuit_voxels(Coord::new(1, 1, 1), Orient::LEFT),
        vec![]
    );
}

#[test]
fn circuit_voxel_power_lists_sources_and_sinks() {
    assert_eq!(Block::Air.get_circuit_voxel_power(), vec![]);
    assert_eq!(Block::Block(VoxelBlock {}).get_circuit_voxel_power(), vec![]);
    assert_eq!(
        Block::Wire(on(true)).get_circuit_voxel_power(),
        vec![("!wire".to_string(), Some(true))]
    );
    assert_eq!(
        Block::Toggle(on(false)).get_circuit_voxel_power(),
        vec![("!toggle".to_string(), Some(false))]
    );
    assert_eq!(
        Block::Pixel(VoxelPixel { powered: true }).get_circuit_voxel_power(),
        vec![("!pixel".to_string(), None)]
    );
    assert_eq!(
        Block::NANDGate(on(true)).get_circuit_voxel_power(),
        vec![
            ("!in_a".to_string(), None),
            ("!in_b".to_string(), None),
            ("!out".to_string(), Some(true)),
        ]
    );
    assert_eq!(
        Block::Diode(on(false)).get_circuit_voxel_power(),
        vec![("!in".to_string(), None), ("!out".to_string(), Some(false))]
    );
    assert_eq!(
        Block::Clock(VoxelClock { rate: 1, start_tick: 0, powered: true }).get_circuit_voxel_power(),
        vec![("!clock".to_string(), Some(true))]
    );
    assert_eq!(
        Block::Pulse(VoxelPulse { start_tick: 0, pulse_ticks: 0, powered: false })
            .get_circuit_voxel_power(),
        vec![("!pulse".to_string(), Some(false))]
    );
}

#[test]
fn circuit_voxel_power_names_are_the_terminals_of_the_structure() {
    for block in every_kind() {
        let terminals: Vec<String> = names_of(&block.get_structure())
            .into_iter()
            .filter(|name| is_circuit_voxel(name))
            .collect();
        let listed: Vec<String> =
            block.get_circuit_voxel_power().into_iter().map(|v| v.0).collect();
        assert_eq!(terminals, listed);
    }
}

#[test]
fn circuit_power_is_none_for_air_block_and_pixel() {
    assert_eq!(Block::Air.get_circuit_power(), None);
    assert_eq!(Block::Block(VoxelBlock {}).get_circuit_power(), None);
    assert_eq!(Block::Pixel(VoxelPixel { powered: true }).get_circuit_power(), None);
    for block in every_kind() {
        match block {
            Block::Air | Block::Block(_) | Block::Pixel(_) => {}
            other => assert_eq!(other.get_circuit_power(), Some(true)),
        }
    }
    assert_eq!(Block::Wire(on(false)).get_circuit_power(), Some(false));
}

#[test]
fn is_circuit_block_means_some_terminal() {
    for block in every_kind() {
        let has_terminal = block.get_structure().iter().any(|v| is_circuit_voxel(&v.0));
        assert_eq!(block.is_circuit_block(), has_terminal);
    }
    assert!(!Block::Air.is_circuit_block());
    assert!(!Block::Block(VoxelBlock {}).is_circuit_block());
    assert!(Block::Pixel(VoxelPixel { powered: false }).is_circuit_block());
}

#[test]
fn voxel_emits_only_at_a_powered_source() {
    let gate = Block::ORGate(on(true));
    assert!(gate.voxel_emits(&"!out".to_string()));
    assert!(!gate.voxel_emits(&"!in_a".to_string()));
    assert!(!gate.voxel_emits(&"!wire".to_string()));
    assert!(!Block::ORGate(on(false)).voxel_emits(&"!out".to_string()));
    assert!(!Block::Pixel(VoxelPixel { powered: true }).voxel_emits(&"!pixel".to_string()));
}

#[test]
fn sound_blocks_are_not_air_and_clocks_have_a_rate() {
    assert!(!Block::Air.is_sound());
    assert!(!Block::Clock(VoxelClock { rate: 0, start_tick: 0, powered: false }).is_sound());
    assert!(Block::Clock(VoxelClock { rate: 1, start_tick: 0, powered: false }).is_sound());
    assert!(Block::Wire(on(false)).is_sound());
    assert!(Block::Block(VoxelBlock {}).is_sound());
    assert!(Block::Air.is_timed());
    assert!(!Block::Clock(VoxelClock { rate: 0, start_tick: 0, powered: false }).is_timed());
    assert!(Block::Clock(VoxelClock { rate: 1, start_tick: 0, powered: false }).is_timed());
}

#[test]
fn same_structure_compares_the_voxels() {
    for a in every_kind() {
        for b in every_kind() {
            assert_eq!(a.same_structure(&b), a.get_structure() == b.get_structure());
        }
    }
    assert!(Block::NOTGate(on(true)).same_structure(&Block::Diode(on(false))));
    assert!(Block::ANDGate(on(true)).same_structure(&Block::MemoryLatch(VoxelMemory::default())));
    assert!(!Block::Wire(on(true)).same_structure(&Block::Toggle(on(true))));
    assert!(!Block::Block(VoxelBlock {}).same_structure(&Block::Wire(on(true))));
    assert!(!Block::Air.same_structure(&Block::Wire(on(true))));
    assert!(Block::Air.same_structure(&Block::Air));
}

#[test]
fn kinds_are_ranked_in_catalogue_order() {
    let ranks: Vec<u8> = every_kind().iter().map(|b| b.get_kind()).collect();
    assert_eq!(ranks, (0u8..18).collect::<Vec<u8>>());
    assert_eq!(Block::Wire(on(false)).get_kind(), Block::Wire(on(true)).get_kind());
}

#[test]
fn gates_follow_their_truth_tables() {
    for a in [false, true] {
        for b in [false, true] {
            assert_eq!(Block::ANDGate(on(false)).advance(1, a, b), Block::ANDGate(on(a && b)));
            assert_eq!(Block::ORGate(on(false)).advance(1, a, b), Block::ORGate(on(a || b)));
            assert_eq!(Block::XORGate(on(false)).advance(1, a, b), Block::XORGate(on(a != b)));
            assert_eq!(Block::NANDGate(on(false)).advance(1, a, b), Block::NANDGate(on(!(a && b))));
            assert_eq!(Block::NORGate(on(false)).advance(1, a, b), Block::NORGate(on(!(a || b))));
            assert_eq!(Block::XNORGate(on(false)).advance(1, a, b), Block::XNORGate(on(a == b)));
        }
        assert_eq!(Block::NOTGate(on(false)).advance(1, a, false), Block::NOTGate(on(!a)));
        assert_eq!(Block::Diode(on(false)).advance(1, a, false), Block::Diode(on(a)));
        assert_eq!(
            Block::Pixel(VoxelPixel { powered: false }).advance(1, a, false),
            Block::Pixel(VoxelPixel { powered: a })
        );
    }
}

#[test]
fn toggle_wire_and_solid_block_do_not_advance() {
    assert_eq!(Block::Toggle(on(true)).advance(9, false, false), Block::Toggle(on(true)));
    assert_eq!(Block::Wire(on(true)).advance(9, false, false), Block::Wire(on(true)));
    assert_eq!(
        Block::Block(VoxelBlock {}).advance(9, true, true),
        Block::Block(VoxelBlock {})
    );
}

#[test]
fn clock_is_on_every_rate_ticks_from_its_start() {
    let clock = Block::Clock(VoxelClock { rate: 5, start_tick: 2, powered: false });
    let pattern: Vec<bool> = (1u32..=12)
        .map(|now| clock.advance(now, false, false).get_circuit_power().unwrap())
        .collect();
    assert_eq!(
        pattern,
        vec![false, true, false, false, false, false, true, false, false, false, false, true]
    );
}

#[test]
fn pulse_is_on_until_its_start_plus_its_length() {
    let pulse = Block::Pulse(VoxelPulse { start_tick: 3, pulse_ticks: 2, powered: false });
    assert_eq!(pulse.advance(5, false, false).get_circuit_power(), Some(true));
    assert_eq!(pulse.advance(6, false, false).get_circuit_power(), Some(false));
    assert_eq!(pulse.advance(1, false, false).get_circuit_power(), Some(true));
    let late = Block::Pulse(VoxelPulse {
        start_tick: 4_000_000_000,
        pulse_ticks: 4_000_000_000,
        powered: false,
    });
    assert_eq!(late.advance(u32::MAX, false, false).get_circuit_power(), Some(true));
}

#[test]
fn toggle_latch_flips_on_a_rising_edge() {
    let idle = Block::ToggleLatch(VoxelMemory { stored: false, powered: false });
    assert_eq!(
        idle.advance(1, true, false),
        Block::ToggleLatch(VoxelMemory { stored: true, powered: true })
    );
    let held = Block::ToggleLatch(VoxelMemory { stored: true, powered: true });
    assert_eq!(
        held.advance(2, true, false),
        Block::ToggleLatch(VoxelMemory { stored: true, powered: true })
    );
    assert_eq!(
        held.advance(2, false, false),
        Block::ToggleLatch(VoxelMemory { stored: true, powered: false })
    );
}

#[test]
fn pulse_latch_drains_and_recharges_its_battery() {
    let latch = |battery: u32| {
        Block::PulseLatch(VoxelPulseLatch { pulse_ticks: 3, pulse_battery: battery, powered: false })
    };
    assert_eq!(
        latch(0).advance(1, false, false),
        Block::PulseLatch(VoxelPulseLatch { pulse_ticks: 3, pulse_battery: 0, powered: false })
    );
    assert_eq!(
        latch(0).advance(1, true, false),
        Block::PulseLatch(VoxelPulseLatch { pulse_ticks: 3, pulse_battery: 3, powered: true })
    );
    assert_eq!(
        latch(2).advance(1, false, false),
        Block::PulseLatch(VoxelPulseLatch { pulse_ticks: 3, pulse_battery: 1, powered: true })
    );
    assert_eq!(
        latch(2).advance(1, true, false),
        Block::PulseLatch(VoxelPulseLatch { pulse_ticks: 3, pulse_battery: 4, powered: true })
    );
    assert_eq!(
        latch(1).advance(1, false, false),
        Block::PulseLatch(VoxelPulseLatch { pulse_ticks: 3, pulse_battery: 0, powered: false })
    );
    assert_eq!(
        latch(u32::MAX).advance(1, true, false),
        Block::PulseLatch(VoxelPulseLatch {
            pulse_ticks: 3,
            pulse_battery: u32::MAX,
            powered: true
        })
    );
}

#[test]
fn memory_latch_stores_its_first_input_when_the_inputs_differ() {
    let latch = |stored: bool| Block::MemoryLatch(VoxelMemory { stored, powered: stored });
    let set = |stored: bool| Block::MemoryLatch(VoxelMemory { stored, powered: stored });
    assert_eq!(latch(false).advance(1, true, false), set(true));
    assert_eq!(latch(true).advance(1, false, true), set(false));
    assert_eq!(latch(true).advance(1, true, true), set(true));
    assert_eq!(latch(true).advance(1, false, false), set(true));
    assert_eq!(latch(false).advance(1, true, true), set(false));
    assert_eq!(
        Block::MemoryLatch(VoxelMemory { stored: true, powered: false }).advance(1, false, false),
        set(true)
    );
}

#[test]
fn voxel_names() {
    assert_eq!(Voxel::Air.get_name(), "air");
    assert_eq!(Voxel::Wire { is_on: true }.get_name(), "wire");
    assert_eq!(Voxel::Block { color: (1, 2, 3, 4) }.get_name(), "block");
    assert_eq!(Voxel::Toggle { is_on: false }.get_name(), "toggle");
    assert_eq!(Voxel::Pixel { is_on: false }.get_name(), "pixel");
    assert_eq!(Voxel::ANDGate { is_on: false }.get_name(), "gate_and");
    assert_eq!(Voxel::ORGate { is_on: false }.get_name(), "gate_or");
    assert_eq!(Voxel::NOTGate { is_on: false }.get_name(), "gate_not");
    assert_eq!(Voxel::Clock { frequency: 1, start_tick: 0 }.get_name(), "clock");
    assert_eq!(Voxel::Pulse { is_on: false, pulse_ticks: 1 }.get_name(), "pulse");
    assert_eq!(Voxel::default().get_name(), "air");
}
