use voxel_logic::block::{Block, Orient, VoxelBlock, VoxelClock, VoxelPowered};
use voxel_logic::grid::Coord;
use voxel_logic::scene::Scene;

fn wire() -> Block {
    Block::Wire(VoxelPowered { powered: false })
}

fn gate() -> Block {
    Block::ANDGate(VoxelPowered { powered: false })
}

fn total_voxels(scene: &Scene) -> usize {
    scene.get_world_blocks().values().map(|entry| entry.2.get_structure().len()).sum()
}

#[test]
pub fn scene_solo_test() {
    let mut scene = Scene::default();

    scene.add_block(Block::Wire(VoxelPowered::default()), Coord::unit_y(), Default::default()).unwrap();

    let deltas = scene.simulate_tick();

    assert_eq!(deltas, vec![]);
    assert_eq!(scene.get_ticks(), 1);

    println!("successfully added wire");
}

#[test]
fn new_scene_is_empty() {
    let scene = Scene::new();
    assert_eq!(scene.get_ticks(), 0);
    assert!(scene.get_world_blocks().is_empty());
    assert_eq!(scene.cell_count(), 0);
    assert_eq!(scene.get_block(0), None);
    assert!(scene.is_roomy());
    assert!(scene.has_room_for(1000));
    assert!(!scene.has_room_for(usize::MAX));
    assert_eq!(scene.next_id(), 0);
    assert!(scene.get_block_ids().is_empty());
}

#[test]
fn add_block_assigns_the_number_of_blocks_as_identifier() {
    let mut scene = Scene::new();
    assert_eq!(scene.add_block(wire(), Coord::new(0, 0, 0), Orient::FORWARD), Some(0));
    assert_eq!(scene.add_block(gate(), Coord::new(5, 0, 0), Orient::RIGHT), Some(1));
    assert_eq!(scene.add_block(Block::Block(VoxelBlock {}), Coord::new(0, 9, 0), Orient::UPWARD), Some(2));
    assert_eq!(scene.get_block(0), Some((Coord::new(0, 0, 0), Orient::FORWARD, wire())));
    assert_eq!(scene.get_block(1), Some((Coord::new(5, 0, 0), Orient::RIGHT, gate())));
    assert_eq!(scene.get_block(3), None);
    let mut ids = scene.get_block_ids();
    ids.sort();
    assert_eq!(ids, vec![0, 1, 2]);
    assert_eq!(scene.get_world_blocks().len(), 3);
}

#[test]
fn add_block_fills_the_cells_of_the_oriented_structure() {
    let mut scene = Scene::new();
    let at = Coord::new(10, 20, 30);
    let id = scene.add_block(gate(), at, Orient::LEFT).unwrap();
    for (name, place) in gate().get_global_structure(at, Orient::LEFT) {
        assert_eq!(scene.get_cell(place), Some((id, name)));
    }
    assert_eq!(scene.get_cell(Coord::new(11, 20, 31)), Some((id, "!in_a".to_string())));
    assert_eq!(scene.get_cell(Coord::new(9, 20, 30)), Some((id, "!out".to_string())));
    assert_eq!(scene.get_cell(Coord::new(10, 21, 30)), None);
    assert_eq!(scene.cell_count(), 9);
    assert_eq!(scene.get_voxel_locations(id).len(), 9);
    assert_eq!(scene.get_voxel_locations(id)[0], at);
}

#[test]
fn cells_count_is_the_sum_of_the_structure_sizes() {
    let mut scene = Scene::new();
    assert_eq!(scene.cell_count(), total_voxels(&scene));
    scene.add_block(wire(), Coord::new(0, 0, 0), Orient::FORWARD).unwrap();
    scene.add_block(gate(), Coord::new(5, 0, 0), Orient::FORWARD).unwrap();
    scene.add_block(Block::NOTGate(VoxelPowered { powered: false }), Coord::new(0, 5, 0), Orient::DOWNWARD).unwrap();
    assert_eq!(scene.cell_count(), 1 + 9 + 2);
    assert_eq!(scene.cell_count(), total_voxels(&scene));
    scene.simulate_tick();
    assert_eq!(scene.cell_count(), total_voxels(&scene));
    scene.remove_block(1).unwrap();
    assert_eq!(scene.cell_count(), 3);
    assert_eq!(scene.cell_count(), total_voxels(&scene));
}

#[test]
fn no_cell_belongs_to_two_blocks() {
    let mut scene = Scene::new();
    scene.add_block(gate(), Coord::new(0, 0, 0), Orient::FORWARD).unwrap();
    scene.add_block(gate(), Coord::new(3, 0, 0), Orient::FORWARD).unwrap();
    scene.add_block(wire(), Coord::new(1, 0, 2), Orient::FORWARD).unwrap();
    let mut seen = std::collections::HashSet::new();
    for id in scene.get_block_ids() {
        for place in scene.get_voxel_locations(id) {
            assert!(seen.insert((place.x, place.y, place.z)));
            assert_eq!(scene.get_cell(place).unwrap().0, id);
        }
    }
    assert_eq!(seen.len(), scene.cell_count());
}

#[test]
fn overlapping_block_is_rejected_and_nothing_changes() {
    let mut scene = Scene::new();
    assert_eq!(scene.add_block(wire(), Coord::new(0, 0, 0), Orient::FORWARD), Some(0));
    let blocks = scene.get_world_blocks();
    // every one of these structures covers (0, 0, 0)
    assert_eq!(scene.add_block(wire(), Coord::new(0, 0, 0), Orient::FORWARD), None);
    assert_eq!(scene.add_block(gate(), Coord::new(0, 0, 0), Orient::FORWARD), None);
    assert_eq!(scene.add_block(gate(), Coord::new(1, 0, 1), Orient::FORWARD), None);
    assert_eq!(scene.add_block(gate(), Coord::new(0, 0, -1), Orient::FORWARD), None);
    assert_eq!(
        scene.add_block(Block::NOTGate(VoxelPowered { powered: false }), Coord::new(0, 0, -1), Orient::FORWARD),
        None
    );
    assert_eq!(scene.get_world_blocks(), blocks);
    assert_eq!(scene.cell_count(), 1);
    assert_eq!(scene.get_cell(Coord::new(0, 0, 0)), Some((0, "!wire".to_string())));
    assert_eq!(scene.get_cell(Coord::new(1, 0, 1)), None);
    assert_eq!(scene.get_cell(Coord::new(0, 0, -1)), None);
    assert!(scene.get_circuit_nodes(0).len() == 1);
    // a block beside it is accepted
    assert_eq!(scene.add_block(gate(), Coord::new(2, 0, 0), Orient::FORWARD), Some(1));
}

#[test]
fn adjacent_terminals_of_different_blocks_are_linked_without_power() {
    let mut scene = Scene::new();
    let a = Coord::new(0, 0, 0);
    let b = Coord::new(0, 0, 1);
    let c = Coord::new(0, 0, 2);
    scene.add_block(Block::Toggle(VoxelPowered { powered: true }), a, Orient::FORWARD).unwrap();
    assert_eq!(scene.get_link(a, b), None);
    scene.add_block(wire(), b, Orient::FORWARD).unwrap();
    scene.add_block(wire(), c, Orient::FORWARD).unwrap();
    assert_eq!(scene.get_link(a, b), Some(false));
    assert_eq!(scene.get_link(b, a), Some(false));
    assert_eq!(scene.get_link(b, c), Some(false));
    assert_eq!(scene.get_link(a, c), None);
    assert_eq!(scene.get_link(a, a), None);
    assert_eq!(scene.get_link(a, Coord::new(7, 7, 7)), None);
}

#[test]
fn terminals_of_one_block_are_not_linked() {
    let mut scene = Scene::new();
    let id = scene.add_block(Block::Diode(VoxelPowered { powered: false }), Coord::new(0, 0, 0), Orient::FORWARD).unwrap();
    // `!in` at (0,0,0) and `!out` at (0,0,1) are adjacent, but of one block
    assert_eq!(scene.get_link(Coord::new(0, 0, 0), Coord::new(0, 0, 1)), None);
    let nodes = scene.get_circuit_nodes(id);
    assert_eq!(nodes.len(), 2);
    assert_eq!(nodes[0].0, "!in");
    assert_eq!(nodes[1].0, "!out");
    assert_ne!(nodes[0].1, nodes[1].1);
}

#[test]
fn solid_voxels_are_not_linked() {
    let mut scene = Scene::new();
    scene.add_block(Block::Block(VoxelBlock {}), Coord::new(0, 0, 0), Orient::FORWARD).unwrap();
    scene.add_block(wire(), Coord::new(0, 0, 1), Orient::FORWARD).unwrap();
    assert_eq!(scene.get_link(Coord::new(0, 0, 0), Coord::new(0, 0, 1)), None);
    // the shell of a gate at (0,0,4) has a solid voxel at (0,0,3), next to a wire at (0,0,2)
    scene.add_block(wire(), Coord::new(0, 0, 2), Orient::FORWARD).unwrap();
    scene.add_block(gate(), Coord::new(0, 0, 4), Orient::FORWARD).unwrap();
    assert_eq!(scene.get_link(Coord::new(0, 0, 2), Coord::new(0, 0, 3)), None);
    assert_eq!(scene.get_link(Coord::new(0, 0, 1), Coord::new(0, 0, 2)), Some(false));
}

#[test]
fn links_join_different_blocks() {
    let mut scene = Scene::new();
    for z in 0..4 {
        scene.add_block(wire(), Coord::new(0, 0, z), Orient::FORWARD).unwrap();
    }
    scene.add_block(gate(), Coord::new(0, 0, 5), Orient::FORWARD).unwrap();
    let ids = scene.get_block_ids();
    let mut places = Vec::new();
    for id in ids {
        for place in scene.get_voxel_locations(id) {
            places.push(place);
        }
    }
    let mut links = 0;
    for a in &places {
        for b in &places {
            if scene.get_link(*a, *b).is_some() {
                links += 1;
                assert_ne!(scene.get_cell(*a).unwrap().0, scene.get_cell(*b).unwrap().0);
                assert!(a.is_adjacent(b));
            }
        }
    }
    assert_eq!(links, 6);
}

#[test]
fn remove_block_returns_the_entry_and_clears_its_cells_and_links() {
    let mut scene = Scene::new();
    let a = Coord::new(0, 0, 0);
    let b = Coord::new(0, 0, 1);
    let c = Coord::new(0, 0, 2);
    scene.add_block(wire(), a, Orient::FORWARD).unwrap();
    scene.add_block(wire(), b, Orient::FORWARD).unwrap();
    scene.add_block(wire(), c, Orient::FORWARD).unwrap();
    assert_eq!(scene.remove_block(7), None);
    assert_eq!(scene.remove_block(1), Some((b, Orient::FORWARD, wire())));
    assert_eq!(scene.remove_block(1), None);
    assert_eq!(scene.get_block(1), None);
    assert_eq!(scene.get_cell(b), None);
    assert_eq!(scene.get_link(a, b), None);
    assert_eq!(scene.get_link(b, c), None);
    assert_eq!(scene.cell_count(), 2);
    assert_eq!(scene.get_block(0), Some((a, Orient::FORWARD, wire())));
    assert_eq!(scene.get_block(2), Some((c, Orient::FORWARD, wire())));
}

#[test]
fn add_then_remove_restores_the_world() {
    let mut scene = Scene::new();
    let a = Coord::new(0, 0, 0);
    let b = Coord::new(0, 0, 1);
    scene.add_block(Block::Toggle(VoxelPowered { powered: true }), a, Orient::FORWARD).unwrap();
    scene.add_block(wire(), b, Orient::FORWARD).unwrap();
    scene.simulate_tick();
    let blocks = scene.get_world_blocks();
    let cells = scene.cell_count();
    let ticks = scene.get_ticks();
    assert_eq!(scene.get_link(a, b), Some(true));
    // a gate whose `!in_a` terminal at (0,0,2) is next to the wire
    let id = scene.add_block(gate(), Coord::new(1, 0, 3), Orient::FORWARD).unwrap();
    assert_eq!(id, 2);
    assert_eq!(scene.get_link(b, Coord::new(0, 0, 2)), Some(false));
    assert_eq!(scene.remove_block(id), Some((Coord::new(1, 0, 3), Orient::FORWARD, gate())));
    assert_eq!(scene.get_world_blocks(), blocks);
    assert_eq!(scene.cell_count(), cells);
    assert_eq!(scene.get_ticks(), ticks);
    assert_eq!(scene.get_link(a, b), Some(true));
    assert_eq!(scene.get_link(b, a), Some(true));
    assert_eq!(scene.get_link(b, Coord::new(0, 0, 2)), None);
    for (_, place) in gate().get_global_structure(Coord::new(1, 0, 3), Orient::FORWARD) {
        assert_eq!(scene.get_cell(place), None);
    }
    assert_eq!(scene.get_cell(a), Some((0, "!toggle".to_string())));
    assert_eq!(scene.get_cell(b), Some((1, "!wire".to_string())));
}

#[test]
fn update_block_replaces_the_payload_in_place() {
    let mut scene = Scene::new();
    let at = Coord::new(1, 2, 3);
    scene.add_block(Block::Toggle(VoxelPowered { powered: false }), at, Orient::FORWARD).unwrap();
    assert_eq!(
        scene.update_block(0, Block::Toggle(VoxelPowered { powered: true })),
        Some(Block::Toggle(VoxelPowered { powered: false }))
    );
    assert_eq!(
        scene.get_block(0),
        Some((at, Orient::FORWARD, Block::Toggle(VoxelPowered { powered: true })))
    );
    assert_eq!(scene.update_block(5, wire()), None);
    assert_eq!(scene.cell_count(), 1);
    assert_eq!(scene.get_cell(at), Some((0, "!toggle".to_string())));
}

#[test]
fn replace_block_moves_a_block_and_keeps_its_identifier() {
    let mut scene = Scene::new();
    let a = Coord::new(0, 0, 0);
    let b = Coord::new(0, 0, 1);
    scene.add_block(wire(), a, Orient::FORWARD).unwrap();
    scene.add_block(wire(), b, Orient::FORWARD).unwrap();
    assert_eq!(scene.get_link(a, b), Some(false));
    let far = Coord::new(9, 9, 9);
    assert_eq!(scene.replace_block(1, Block::Clock(VoxelClock { rate: 2, start_tick: 0, powered: false }), far, Orient::UPWARD), Some(()));
    assert_eq!(
        scene.get_block(1),
        Some((far, Orient::UPWARD, Block::Clock(VoxelClock { rate: 2, start_tick: 0, powered: false })))
    );
    assert_eq!(scene.get_cell(b), None);
    assert_eq!(scene.get_cell(far), Some((1, "!clock".to_string())));
    assert_eq!(scene.get_link(a, b), None);
    assert_eq!(scene.replace_block(4, wire(), far, Orient::FORWARD), None);
    assert_eq!(scene.get_world_blocks().len(), 2);
}

#[test]
fn replace_block_onto_an_occupied_cell_loses_the_block() {
    let mut scene = Scene::new();
    let a = Coord::new(0, 0, 0);
    let b = Coord::new(0, 0, 1);
    scene.add_block(wire(), a, Orient::FORWARD).unwrap();
    scene.add_block(wire(), b, Orient::FORWARD).unwrap();
    assert_eq!(scene.replace_block(1, wire(), a, Orient::FORWARD), None);
    assert_eq!(scene.get_block(1), None);
    assert_eq!(scene.get_cell(b), None);
    assert_eq!(scene.get_block(0), Some((a, Orient::FORWARD, wire())));
    assert_eq!(scene.cell_count(), 1);
    // a block may be replaced where it stands
    assert_eq!(scene.replace_block(0, Block::Toggle(VoxelPowered { powered: true }), a, Orient::FORWARD), Some(()));
    assert_eq!(scene.get_cell(a), Some((0, "!toggle".to_string())));
}

#[test]
fn identifier_in_use_is_not_given_again() {
    let mut scene = Scene::new();
    assert_eq!(scene.add_block(wire(), Coord::new(0, 0, 0), Orient::FORWARD), Some(0));
    assert_eq!(scene.add_block(wire(), Coord::new(0, 0, 5), Orient::FORWARD), Some(1));
    assert_eq!(scene.next_id(), 2);
    scene.remove_block(0).unwrap();
    // one block is left, and it has the identifier 1
    assert_eq!(scene.next_id(), 2);
    assert_eq!(scene.add_block(wire(), Coord::new(0, 0, 9), Orient::FORWARD), Some(2));
    assert_eq!(scene.get_block(1), Some((Coord::new(0, 0, 5), Orient::FORWARD, wire())));
    assert_eq!(scene.get_block(2), Some((Coord::new(0, 0, 9), Orient::FORWARD, wire())));
    // two blocks, 1 and 2: the next one is 3
    assert_eq!(scene.add_block(wire(), Coord::new(0, 0, 0), Orient::FORWARD), Some(3));
    scene.remove_block(1).unwrap();
    scene.remove_block(2).unwrap();
    scene.remove_block(3).unwrap();
    assert_eq!(scene.add_block(wire(), Coord::new(0, 0, 0), Orient::FORWARD), Some(0));
}

#[test]
fn air_is_never_stored() {
    let mut scene = Scene::new();
    assert_eq!(scene.add_block(Block::Air, Coord::new(0, 0, 0), Orient::FORWARD), None);
    assert_eq!(scene.add_block_with_id(7, Block::Air, Coord::new(0, 0, 0), Orient::FORWARD), None);
    assert!(scene.get_world_blocks().is_empty());
    assert_eq!(scene.cell_count(), 0);
    assert_eq!(scene.add_block(wire(), Coord::new(0, 0, 0), Orient::FORWARD), Some(0));
    let blocks = scene.get_world_blocks();
    assert_eq!(scene.add_block(Block::Air, Coord::new(4, 4, 4), Orient::FORWARD), None);
    assert_eq!(scene.replace_block(9, Block::Air, Coord::new(4, 4, 4), Orient::FORWARD), None);
    assert_eq!(scene.update_block(9, Block::Air), None);
    assert_eq!(scene.get_world_blocks(), blocks);
    assert_eq!(scene.get_cell(Coord::new(0, 0, 0)), Some((0, "!wire".to_string())));
    assert_eq!(scene.cell_count(), 1);
    assert_eq!(scene.next_id(), 1);
}

#[test]
fn replace_block_with_air_loses_the_block() {
    let mut scene = Scene::new();
    let a = Coord::new(0, 0, 0);
    let b = Coord::new(0, 0, 1);
    scene.add_block(wire(), a, Orient::FORWARD).unwrap();
    scene.add_block(wire(), b, Orient::FORWARD).unwrap();
    assert_eq!(scene.get_link(a, b), Some(false));
    assert_eq!(scene.replace_block(0, Block::Air, Coord::new(4, 4, 4), Orient::FORWARD), None);
    assert_eq!(scene.get_block(0), None);
    assert_eq!(scene.get_cell(a), None);
    assert_eq!(scene.get_cell(Coord::new(4, 4, 4)), None);
    assert_eq!(scene.get_link(a, b), None);
    assert_eq!(scene.cell_count(), 1);
    assert_eq!(scene.get_block(1), Some((b, Orient::FORWARD, wire())));
    assert!(scene.get_world_blocks().values().all(|entry| entry.2 != Block::Air));
}

#[test]
fn update_block_replaces_the_payload_and_nothing_else() {
    let mut scene = Scene::new();
    let a = Coord::new(0, 0, 0);
    let b = Coord::new(0, 0, 1);
    scene.add_block(wire(), a, Orient::FORWARD).unwrap();
    scene.add_block(wire(), b, Orient::FORWARD).unwrap();
    let nodes = scene.get_circuit_nodes(0);
    // a block that is not there
    assert_eq!(scene.update_block(7, wire()), None);
    assert_eq!(scene.get_world_blocks().len(), 2);
    // a payload of another kind is stored as it is, and the cell keeps its voxel
    let toggle = Block::Toggle(VoxelPowered { powered: true });
    assert_eq!(scene.update_block(0, toggle), Some(wire()));
    assert_eq!(scene.get_block(0), Some((a, Orient::FORWARD, toggle)));
    assert_eq!(scene.get_block(1), Some((b, Orient::FORWARD, wire())));
    assert_eq!(scene.get_cell(a), Some((0, "!wire".to_string())));
    assert_eq!(scene.get_cell(b), Some((1, "!wire".to_string())));
    assert_eq!(scene.get_link(a, b), Some(false));
    assert_eq!(scene.cell_count(), 2);
    assert_eq!(scene.get_ticks(), 0);
    let gate = Block::ANDGate(VoxelPowered { powered: true });
    assert_eq!(scene.update_block(0, gate), Some(toggle));
    assert_eq!(scene.get_block(0), Some((a, Orient::FORWARD, gate)));
    assert_eq!(scene.cell_count(), 2);
    // with the voxels that it was placed with the block works as before
    let lit = Block::Wire(VoxelPowered { powered: true });
    assert_eq!(scene.update_block(0, lit), Some(gate));
    assert_eq!(scene.get_circuit_nodes(0), nodes);
    assert_eq!(scene.get_link(a, b), Some(false));
    // no source feeds the two wires: the lit one goes dark
    assert_eq!(scene.simulate_tick(), vec![0]);
    assert_eq!(scene.get_block(0), Some((a, Orient::FORWARD, wire())));
    assert_eq!(scene.get_link(a, b), Some(false));
    assert_eq!(scene.remove_block(0), Some((a, Orient::FORWARD, wire())));
    assert_eq!(scene.cell_count(), 1);
}

#[test]
fn update_block_with_the_same_voxels_keeps_the_circuit() {
    let mut scene = Scene::new();
    let at = Coord::new(0, 0, 0);
    let not = Block::NOTGate(VoxelPowered { powered: false });
    let diode = Block::Diode(VoxelPowered { powered: true });
    scene.add_block(not, at, Orient::FORWARD).unwrap();
    scene.add_block(wire(), Coord::new(0, 0, 2), Orient::FORWARD).unwrap();
    let cells = scene.cell_count();
    let nodes = scene.get_circuit_nodes(0);
    assert_eq!(scene.update_block(0, diode), Some(not));
    assert_eq!(scene.get_block(0), Some((at, Orient::FORWARD, diode)));
    assert_eq!(scene.cell_count(), cells);
    assert_eq!(scene.get_cell(at), Some((0, "!in".to_string())));
    assert_eq!(scene.get_circuit_nodes(0), nodes);
    assert_eq!(scene.get_link(Coord::new(0, 0, 1), Coord::new(0, 0, 2)), Some(false));
    scene.simulate_tick();
    assert_eq!(scene.get_block(0).unwrap().2, Block::Diode(VoxelPowered { powered: false }));
}

#[test]
fn add_wire_places_one_wire_per_position() {
    let mut scene = Scene::new();
    scene.add_block(Block::Block(VoxelBlock {}), Coord::new(5, 5, 5), Orient::FORWARD).unwrap();
    let path: Vec<Coord> = vec![Coord::new(0, 0, 0), Coord::new(0, 0, 1), Coord::new(0, 1, 1), Coord::new(1, 1, 1)];
    assert_eq!(scene.add_wire(path.clone()), Some(vec![1, 2, 3, 4]));
    for (i, place) in path.iter().enumerate() {
        assert_eq!(scene.get_block(1 + i as u32), Some((*place, Orient::FORWARD, wire())));
    }
    assert_eq!(scene.get_link(path[0], path[1]), Some(false));
    assert_eq!(scene.get_link(path[1], path[2]), Some(false));
    assert_eq!(scene.get_link(path[2], path[3]), Some(false));
    assert_eq!(scene.get_link(path[0], path[2]), None);
    assert_eq!(scene.cell_count(), 5);
}

#[test]
fn add_wire_refuses_an_empty_or_broken_path() {
    let mut scene = Scene::new();
    assert_eq!(scene.add_wire(vec![]), None);
    assert_eq!(scene.add_wire(vec![Coord::new(0, 0, 0), Coord::new(0, 0, 2)]), None);
    assert_eq!(scene.add_wire(vec![Coord::new(0, 0, 0), Coord::new(0, 0, 1), Coord::new(1, 1, 1)]), None);
    assert_eq!(scene.add_wire(vec![Coord::new(0, 0, 0), Coord::new(0, 0, 0)]), None);
    assert!(scene.get_world_blocks().is_empty());
    assert_eq!(scene.cell_count(), 0);
    assert_eq!(scene.add_wire(vec![Coord::new(3, 3, 3)]), Some(vec![0]));
}

#[test]
fn restore_builds_the_saved_world() {
    let mut scene = Scene::new();
    scene.add_block(Block::Toggle(VoxelPowered { powered: true }), Coord::new(0, 0, 0), Orient::FORWARD).unwrap();
    scene.add_wire((1..5).map(|z| Coord::new(0, 0, z)).collect()).unwrap();
    scene.add_block(Block::Clock(VoxelClock { rate: 2, start_tick: 0, powered: false }), Coord::new(3, 0, 3), Orient::LEFT).unwrap();
    scene.add_block(gate(), Coord::new(0, 4, 0), Orient::UPWARD).unwrap();
    for _ in 0..3 {
        scene.simulate_tick();
    }
    let mut saved: Vec<(u32, Coord, Orient, Block)> =
        scene.get_world_blocks().into_iter().map(|(id, e)| (id, e.0, e.1, e.2)).collect();
    saved.sort_by_key(|e| e.0);
    saved.reverse();
    let mut again = Scene::restore(&saved, scene.get_ticks()).unwrap();
    assert_eq!(again.get_world_blocks(), scene.get_world_blocks());
    assert_eq!(again.get_ticks(), 3);
    assert_eq!(again.cell_count(), scene.cell_count());
    let a = Coord::new(0, 0, 0);
    let b = Coord::new(0, 0, 1);
    assert_eq!(scene.get_link(a, b), Some(true));
    assert_eq!(again.get_link(a, b), Some(false));
    assert!(again.set_link(b, a, true));
    assert_eq!(again.get_link(a, b), Some(true));
    assert_eq!(again.get_link(b, a), Some(true));
    assert_eq!(again.get_link(b, Coord::new(0, 0, 2)), Some(false));
    assert!(!again.set_link(a, Coord::new(0, 0, 2), true));
    assert_eq!(again.get_link(a, Coord::new(0, 0, 2)), None);
    // the world that was put back ticks as the one that was saved
    for _ in 0..6 {
        let mut one = scene.simulate_tick();
        let mut other = again.simulate_tick();
        one.sort();
        other.sort();
        assert_eq!(one, other);
        assert_eq!(again.get_world_blocks(), scene.get_world_blocks());
    }
}

#[test]
fn restore_refuses_blocks_that_do_not_fit_together() {
    let twice = vec![
        (0, Coord::new(0, 0, 0), Orient::FORWARD, wire()),
        (0, Coord::new(0, 0, 1), Orient::FORWARD, wire()),
    ];
    assert!(Scene::restore(&twice, 0).is_none());
    let overlap = vec![
        (0, Coord::new(0, 0, 0), Orient::FORWARD, wire()),
        (1, Coord::new(0, 0, 0), Orient::FORWARD, gate()),
    ];
    assert!(Scene::restore(&overlap, 0).is_none());
    let air = vec![(0, Coord::new(0, 0, 0), Orient::FORWARD, Block::Air)];
    assert!(Scene::restore(&air, 0).is_none());
    let fine = vec![(7, Coord::new(0, 0, 0), Orient::FORWARD, wire())];
    let scene = Scene::restore(&fine, 41).unwrap();
    assert_eq!(scene.get_ticks(), 41);
    assert_eq!(scene.get_block(7), Some((Coord::new(0, 0, 0), Orient::FORWARD, wire())));
    assert!(Scene::restore(&vec![], 5).unwrap().get_world_blocks().is_empty());
}

#[test]
fn get_links_lists_each_link_once() {
    let mut scene = Scene::new();
    assert!(scene.get_links().is_empty());
    let a = Coord::new(0, 0, 0);
    let b = Coord::new(0, 0, 1);
    let c = Coord::new(0, 0, 2);
    scene.add_block(Block::Toggle(VoxelPowered { powered: true }), a, Orient::FORWARD).unwrap();
    scene.add_block(wire(), b, Orient::FORWARD).unwrap();
    scene.add_block(Block::Pixel(voxel_logic::block::VoxelPixel { powered: false }), c, Orient::FORWARD).unwrap();
    scene.add_block(Block::Block(VoxelBlock {}), Coord::new(0, 1, 1), Orient::FORWARD).unwrap();
    scene.set_link(b, c, true);
    let mut links: Vec<((i32, i32), bool)> = scene
        .get_links()
        .into_iter()
        .map(|(p, q, power)| ((p.z.min(q.z), p.z.max(q.z)), power))
        .collect();
    links.sort();
    assert_eq!(links, vec![((0, 1), false), ((1, 2), true)]);
    for (p, q, power) in scene.get_links() {
        assert_eq!(scene.get_link(p, q), Some(power));
        assert_eq!(scene.get_link(q, p), Some(power));
    }
}

#[test]
fn a_block_stands_wherever_its_voxels_are_representable() {
    let edge = Coord::new(i32::MAX, i32::MIN, i32::MAX);
    assert!(wire().can_stand(edge, Orient::FORWARD));
    assert!(Block::Block(VoxelBlock {}).can_stand(edge, Orient::LEFT));
    assert!(!gate().can_stand(edge, Orient::FORWARD));
    assert!(gate().can_stand(Coord::new(i32::MAX - 1, i32::MIN, i32::MAX - 1), Orient::FORWARD));
    assert!(gate().can_stand(Coord::new(0, 0, 0), Orient::DOWNWARD));
    // the output of a gate with one input stands one step behind it
    let not = Block::NOTGate(VoxelPowered { powered: false });
    assert!(!not.can_stand(Coord::new(0, 0, i32::MAX), Orient::FORWARD));
    assert!(not.can_stand(Coord::new(0, 0, i32::MAX), Orient::BACKWARD));
    assert!(not.can_stand(Coord::new(0, 0, i32::MIN), Orient::FORWARD));

    let mut scene = Scene::new();
    let a = Coord::new(i32::MAX, 0, 0);
    let b = Coord::new(i32::MAX - 1, 0, 0);
    assert_eq!(scene.add_block(wire(), a, Orient::FORWARD), Some(0));
    assert_eq!(scene.add_block(wire(), b, Orient::FORWARD), Some(1));
    assert_eq!(scene.get_cell(a), Some((0, "!wire".to_string())));
    assert_eq!(scene.get_link(a, b), Some(false));
    assert_eq!(scene.get_link(a, Coord::new(i32::MIN, 0, 0)), None);
    assert_eq!(scene.remove_block(0), Some((a, Orient::FORWARD, wire())));
    assert_eq!(scene.cell_count(), 1);
}
