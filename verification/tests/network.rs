use voxel_logic::block::{Block, Orient, VoxelClock, VoxelPowered};
use voxel_logic::dispatch::{
    batch_size, dispatch, place_blocks, remove_blocks, serve, shut_down, tick, update_blocks,
    world_blocks, Audience,
    Outgoing,
};
use voxel_logic::grid::Coord;
use voxel_logic::network::{
    Client, Protocol, ProtocolPlaceBlock, ProtocolRemoveBlock, ProtocolUpdateBlock,
    Sessions, WorldSettings, MAX_INCOMING_SIZE, SERVER_DIRECTORY, SERVER_ID,
};
use voxel_logic::scene::Scene;
use voxel_logic::text::decimal;

fn wire_at(x: i32, y: i32, z: i32) -> ProtocolPlaceBlock {
    ProtocolPlaceBlock {
        id: None,
        position: Coord::new(x, y, z),
        rotation: Orient::FORWARD,
        data: Block::Wire(VoxelPowered { powered: false }),
    }
}

fn client(name: &str) -> Client {
    Client { name: name.to_string(), position: (1, 2, 3), direction: (4, 5, 6) }
}

fn response_of(out: &Outgoing) -> (bool, String) {
    match &out.message {
        Protocol::BothResponse(r) => (r.ok, r.message.clone()),
        other => panic!("no response: {:?}", other),
    }
}

fn two_joined_sessions() -> Sessions {
    let mut sessions = Sessions::new();
    assert!(sessions.connect("10.0.0.1:5000".to_string()));
    assert!(sessions.connect("10.0.0.2:5000".to_string()));
    assert_eq!(sessions.join(&"10.0.0.1:5000".to_string(), client("ada")), Some(true));
    assert_eq!(sessions.join(&"10.0.0.2:5000".to_string(), client("bob")), Some(true));
    sessions
}

#[test]
fn constants_of_the_server() {
    assert_eq!(SERVER_ID, "");
    assert_eq!(SERVER_DIRECTORY, "./generated/");
    assert_eq!(MAX_INCOMING_SIZE, 65536);
}

#[test]
fn decimal_writes_numbers() {
    assert_eq!(decimal(0), "0");
    assert_eq!(decimal(7), "7");
    assert_eq!(decimal(10), "10");
    assert_eq!(decimal(1700000000123), "1700000000123");
    assert_eq!(decimal(u128::MAX), u128::MAX.to_string());
}

#[test]
fn world_settings_of_a_started_server() {
    let settings = WorldSettings::started_at(1700000000123);
    assert_eq!(settings.save_path, "./generated/1700000000123.world");
    assert_eq!(settings.autosave_millis, 10_000);
    assert_eq!(settings.tick_millis, 100);
    assert!(!settings.save_due(9_999));
    assert!(settings.save_due(10_000));
    assert!(!settings.tick_due(99));
    assert!(settings.tick_due(100));
    assert!(settings.tick_due(101));
}

#[test]
fn sessions_connect_join_leave() {
    let mut sessions = Sessions::new();
    let a = "a:1".to_string();
    let b = "b:2".to_string();
    assert!(sessions.ids().is_empty());
    assert!(sessions.connect(a.clone()));
    assert!(sessions.connect(b.clone()));
    // a second connection of the same peer is rejected
    assert!(!sessions.connect(a.clone()));
    assert_eq!(sessions.ids(), vec![a.clone(), b.clone()]);
    assert!(sessions.joined_ids().is_empty());
    assert!(sessions.clients().is_empty());
    assert_eq!(sessions.join(&b, client("bob")), Some(true));
    assert_eq!(sessions.join(&b, client("bobby")), Some(false));
    assert_eq!(sessions.join(&"nobody".to_string(), client("x")), None);
    assert_eq!(sessions.joined_ids(), vec![b.clone()]);
    let clients = sessions.clients();
    assert_eq!(clients.len(), 1);
    assert_eq!(clients[0].name, "bobby");
    assert_eq!(clients[0].position, (1, 2, 3));
    assert_eq!(clients[0].direction, (4, 5, 6));
    assert!(sessions.leave(&a));
    assert!(!sessions.leave(&a));
    assert_eq!(sessions.ids(), vec![b.clone()]);
    sessions.clear();
    assert!(sessions.ids().is_empty());
}

#[test]
fn place_blocks_stops_at_the_first_that_overlaps() {
    let mut scene = Scene::new();
    let items = vec![wire_at(0, 0, 0), wire_at(0, 0, 1), wire_at(0, 0, 0), wire_at(0, 0, 2)];
    let placed = place_blocks(&mut scene, &items);
    assert_eq!(placed.len(), 2);
    assert_eq!(placed[0], ProtocolPlaceBlock { id: Some(0), ..items[0] });
    assert_eq!(placed[1], ProtocolPlaceBlock { id: Some(1), ..items[1] });
    // what was placed before the refusal stays
    assert_eq!(scene.get_world_blocks().len(), 2);
    assert_eq!(scene.get_cell(Coord::new(0, 0, 2)), None);
}

#[test]
fn join_broadcast() {
    let mut scene = Scene::new();
    let mut sessions = two_joined_sessions();
    let origin = "10.0.0.1:5000".to_string();
    let out = dispatch(&mut scene, &mut sessions, &origin, Protocol::BothRequestPlaceBlocks(vec![wire_at(0, 0, 0)]));
    assert_eq!(out.len(), 2);
    assert_eq!(out[0].audience, Audience::Origin);
    assert_eq!(response_of(&out[0]), (true, "".to_string()));
    // the second message goes to every joined session, the other client among them
    assert_eq!(out[1].audience, Audience::Joined);
    assert!(sessions.joined_ids().contains(&"10.0.0.2:5000".to_string()));
    match &out[1].message {
        Protocol::BothRequestPlaceBlocks(placed) => {
            assert_eq!(placed, &vec![ProtocolPlaceBlock { id: Some(0), ..wire_at(0, 0, 0) }]);
        }
        other => panic!("no placement: {:?}", other),
    }
    // all of it is there before the next tick
    assert_eq!(scene.get_ticks(), 0);
    assert_eq!(scene.get_block(0), Some((Coord::new(0, 0, 0), Orient::FORWARD, wire_at(0, 0, 0).data)));
}

#[test]
fn overlap_is_answered_with_a_refusal() {
    let mut scene = Scene::new();
    let mut sessions = two_joined_sessions();
    let origin = "10.0.0.1:5000".to_string();
    dispatch(&mut scene, &mut sessions, &origin, Protocol::BothRequestPlaceBlocks(vec![wire_at(0, 0, 0)]));
    let blocks = scene.get_world_blocks();
    let gate = ProtocolPlaceBlock {
        id: None,
        position: Coord::new(1, 0, 1),
        rotation: Orient::FORWARD,
        data: Block::ANDGate(VoxelPowered { powered: false }),
    };
    let out = dispatch(&mut scene, &mut sessions, &origin, Protocol::BothRequestPlaceBlocks(vec![gate]));
    assert_eq!(out.len(), 1);
    assert_eq!(out[0].audience, Audience::Origin);
    assert_eq!(response_of(&out[0]), (false, "block overlaps existing block".to_string()));
    assert_eq!(scene.get_world_blocks(), blocks);
    assert_eq!(scene.cell_count(), 1);
}

#[test]
fn block_that_no_scene_holds_is_refused() {
    let mut scene = Scene::new();
    let mut sessions = two_joined_sessions();
    let origin = "10.0.0.1:5000".to_string();
    let air = ProtocolPlaceBlock { id: None, position: Coord::zero(), rotation: Orient::FORWARD, data: Block::Air };
    let out = dispatch(&mut scene, &mut sessions, &origin, Protocol::BothRequestPlaceBlocks(vec![air]));
    // air is tried and not stored
    assert_eq!(response_of(&out[0]), (false, "block overlaps existing block".to_string()));
    let still = ProtocolPlaceBlock {
        id: None,
        position: Coord::zero(),
        rotation: Orient::FORWARD,
        data: Block::Clock(VoxelClock { rate: 0, start_tick: 0, powered: false }),
    };
    let out = dispatch(&mut scene, &mut sessions, &origin, Protocol::BothRequestPlaceBlocks(vec![still]));
    assert_eq!(response_of(&out[0]), (false, "block cannot be placed".to_string()));
    // a gate at the edge of the grid has voxels beyond it
    let edge = ProtocolPlaceBlock {
        id: None,
        position: Coord::new(i32::MAX, 0, 0),
        rotation: Orient::FORWARD,
        data: Block::ANDGate(VoxelPowered { powered: false }),
    };
    let out = dispatch(&mut scene, &mut sessions, &origin, Protocol::BothRequestPlaceBlocks(vec![edge]));
    assert_eq!(response_of(&out[0]), (false, "block cannot be placed".to_string()));
    assert!(scene.get_world_blocks().is_empty());
    // an empty batch is carried out in full
    let out = dispatch(&mut scene, &mut sessions, &origin, Protocol::BothRequestPlaceBlocks(vec![]));
    assert_eq!(out.len(), 2);
    assert_eq!(response_of(&out[0]), (true, "".to_string()));
}

#[test]
fn update_blocks_changes_data_or_placement() {
    let mut scene = Scene::new();
    place_blocks(&mut scene, &vec![wire_at(0, 0, 0), wire_at(0, 0, 1)]);
    let lit = Block::Wire(VoxelPowered { powered: true });
    let items = vec![
        ProtocolUpdateBlock { id: 0, position: None, rotation: None, data: Some(lit) },
        ProtocolUpdateBlock { id: 1, position: Some(Coord::new(4, 4, 4)), rotation: None, data: None },
        ProtocolUpdateBlock { id: 1, position: None, rotation: Some(Orient::LEFT), data: Some(lit) },
    ];
    assert_eq!(update_blocks(&mut scene, &items), 3);
    assert_eq!(scene.get_block(0), Some((Coord::new(0, 0, 0), Orient::FORWARD, lit)));
    assert_eq!(scene.get_block(1), Some((Coord::new(4, 4, 4), Orient::LEFT, lit)));
    assert_eq!(scene.get_cell(Coord::new(0, 0, 1)), None);
}

#[test]
fn update_blocks_refuses_and_keeps_what_was_done() {
    let mut scene = Scene::new();
    let mut sessions = two_joined_sessions();
    let origin = "10.0.0.2:5000".to_string();
    place_blocks(&mut scene, &vec![wire_at(0, 0, 0), wire_at(0, 0, 1)]);
    let lit = Block::Wire(VoxelPowered { powered: true });
    let refusal = (false, "block overlaps existing block".to_string());
    // neither placement nor data
    let empty = ProtocolUpdateBlock { id: 0, position: None, rotation: None, data: None };
    let first = ProtocolUpdateBlock { id: 0, position: None, rotation: None, data: Some(lit) };
    let out = dispatch(&mut scene, &mut sessions, &origin, Protocol::BothRequestUpdateBlocks(vec![first, empty, first]));
    assert_eq!(out.len(), 1);
    assert_eq!(response_of(&out[0]), refusal);
    assert_eq!(scene.get_block(0).unwrap().2, lit);
    // a block that is not there
    let missing = ProtocolUpdateBlock { id: 9, position: None, rotation: None, data: Some(lit) };
    let out = dispatch(&mut scene, &mut sessions, &origin, Protocol::BothRequestUpdateBlocks(vec![missing]));
    assert_eq!(response_of(&out[0]), refusal);
    let missing = ProtocolUpdateBlock { id: 9, position: Some(Coord::zero()), rotation: None, data: None };
    let out = dispatch(&mut scene, &mut sessions, &origin, Protocol::BothRequestUpdateBlocks(vec![missing]));
    assert_eq!(response_of(&out[0]), refusal);
    // data of a kind that fills other cells
    let other = ProtocolUpdateBlock { id: 0, position: None, rotation: None, data: Some(Block::NOTGate(VoxelPowered { powered: true })) };
    let out = dispatch(&mut scene, &mut sessions, &origin, Protocol::BothRequestUpdateBlocks(vec![other]));
    assert_eq!(response_of(&out[0]), refusal);
    assert_eq!(scene.get_block(0).unwrap().2, lit);
    // a move onto an occupied cell loses the block
    let onto = ProtocolUpdateBlock { id: 1, position: Some(Coord::new(0, 0, 0)), rotation: None, data: None };
    let out = dispatch(&mut scene, &mut sessions, &origin, Protocol::BothRequestUpdateBlocks(vec![onto]));
    assert_eq!(response_of(&out[0]), refusal);
    assert_eq!(scene.get_block(1), None);
    assert_eq!(scene.get_world_blocks().len(), 1);
    // a change that is carried out is answered and sent to the joined sessions
    let back = ProtocolUpdateBlock { id: 0, position: None, rotation: None, data: Some(Block::Wire(VoxelPowered { powered: false })) };
    let out = dispatch(&mut scene, &mut sessions, &origin, Protocol::BothRequestUpdateBlocks(vec![back]));
    assert_eq!(out.len(), 2);
    assert_eq!(response_of(&out[0]), (true, "".to_string()));
    assert_eq!(out[1].audience, Audience::Joined);
    match &out[1].message {
        Protocol::BothRequestUpdateBlocks(items) => assert_eq!(items, &vec![back]),
        other => panic!("no update: {:?}", other),
    }
}

#[test]
fn remove_blocks_stops_at_a_missing_block() {
    let mut scene = Scene::new();
    let mut sessions = two_joined_sessions();
    let origin = "10.0.0.1:5000".to_string();
    place_blocks(&mut scene, &vec![wire_at(0, 0, 0), wire_at(0, 0, 1), wire_at(0, 0, 2)]);
    let items = vec![ProtocolRemoveBlock { id: 2 }, ProtocolRemoveBlock { id: 2 }, ProtocolRemoveBlock { id: 1 }];
    let out = dispatch(&mut scene, &mut sessions, &origin, Protocol::BothRequestRemoveBlocks(items));
    assert_eq!(out.len(), 1);
    assert_eq!(
        response_of(&out[0]),
        (false, "failed to remove block (block might not exist)".to_string())
    );
    assert_eq!(scene.get_world_blocks().len(), 2);
    assert_eq!(scene.get_block(2), None);
    let items = vec![ProtocolRemoveBlock { id: 1 }, ProtocolRemoveBlock { id: 0 }];
    let out = dispatch(&mut scene, &mut sessions, &origin, Protocol::BothRequestRemoveBlocks(items.clone()));
    assert_eq!(out.len(), 2);
    assert_eq!(response_of(&out[0]), (true, "".to_string()));
    assert_eq!(out[1].audience, Audience::Everyone);
    match &out[1].message {
        Protocol::BothRequestRemoveBlocks(done) => assert_eq!(done, &items),
        other => panic!("no removal: {:?}", other),
    }
    assert!(scene.get_world_blocks().is_empty());
    assert_eq!(remove_blocks(&mut scene, &vec![ProtocolRemoveBlock { id: 0 }]), 0);
}

#[test]
fn join_is_answered_with_the_world() {
    let mut scene = Scene::new();
    let mut sessions = Sessions::new();
    let origin = "peer:1".to_string();
    sessions.connect(origin.clone());
    place_blocks(&mut scene, &vec![wire_at(0, 0, 0), wire_at(3, 0, 0)]);
    let out = dispatch(&mut scene, &mut sessions, &origin, Protocol::ClientRequestJoin(client("ada")));
    assert_eq!(out.len(), 1);
    assert_eq!(out[0].audience, Audience::Origin);
    match &out[0].message {
        Protocol::BothRequestPlaceBlocks(listing) => {
            let mut listing = listing.clone();
            listing.sort_by_key(|item| item.id);
            assert_eq!(
                listing,
                vec![
                    ProtocolPlaceBlock { id: Some(0), ..wire_at(0, 0, 0) },
                    ProtocolPlaceBlock { id: Some(1), ..wire_at(3, 0, 0) },
                ]
            );
        }
        other => panic!("no world: {:?}", other),
    }
    assert_eq!(sessions.joined_ids(), vec![origin.clone()]);
    assert_eq!(sessions.clients()[0].name, "ada");
    // a peer without a session is not answered
    let out = dispatch(&mut scene, &mut sessions, &"stranger".to_string(), Protocol::ClientRequestJoin(client("eve")));
    assert!(out.is_empty());
    assert_eq!(sessions.ids().len(), 1);
    assert_eq!(world_blocks(&scene).len(), 2);
}

#[test]
fn leave_drops_the_session_and_other_messages_change_nothing() {
    let mut scene = Scene::new();
    let mut sessions = two_joined_sessions();
    let origin = "10.0.0.1:5000".to_string();
    for message in [
        Protocol::BothNothing,
        Protocol::ServerRequestKick,
        Protocol::BothResponse(voxel_logic::network::ProtocolResponse { ok: false, message: "no".to_string() }),
        Protocol::ServerResponseMetadata(voxel_logic::network::ProtocolResponseMetadata { ticks: 3, clients: vec![] }),
    ] {
        let out = dispatch(&mut scene, &mut sessions, &origin, message);
        assert!(out.is_empty());
        assert_eq!(sessions.ids().len(), 2);
        assert!(scene.get_world_blocks().is_empty());
    }
    let out = dispatch(&mut scene, &mut sessions, &origin, Protocol::ClientRequestLeave);
    assert!(out.is_empty());
    assert_eq!(sessions.ids(), vec!["10.0.0.2:5000".to_string()]);
}

#[test]
fn tick_sends_the_counter_and_then_the_changes() {
    let mut scene = Scene::new();
    let sessions = two_joined_sessions();
    place_blocks(
        &mut scene,
        &vec![
            wire_at(0, 0, 0),
            ProtocolPlaceBlock {
                id: None,
                position: Coord::new(0, 0, -1),
                rotation: Orient::FORWARD,
                data: Block::Toggle(VoxelPowered { powered: true }),
            },
        ],
    );
    let out = tick(&mut scene, &sessions);
    assert_eq!(out.len(), 2);
    assert_eq!(out[0].audience, Audience::Everyone);
    match &out[0].message {
        Protocol::ServerResponseMetadata(data) => {
            assert_eq!(data.ticks, 1);
            let names: Vec<String> = data.clients.iter().map(|c| c.name.clone()).collect();
            assert_eq!(names, vec!["ada".to_string(), "bob".to_string()]);
        }
        other => panic!("no metadata: {:?}", other),
    }
    assert_eq!(out[1].audience, Audience::Everyone);
    match &out[1].message {
        Protocol::BothRequestUpdateBlocks(deltas) => {
            assert_eq!(
                deltas,
                &vec![ProtocolUpdateBlock {
                    id: 0,
                    position: None,
                    rotation: None,
                    data: Some(Block::Wire(VoxelPowered { powered: true })),
                }]
            );
        }
        other => panic!("no deltas: {:?}", other),
    }
    let out = tick(&mut scene, &sessions);
    assert_eq!(scene.get_ticks(), 2);
    match &out[1].message {
        Protocol::BothRequestUpdateBlocks(deltas) => assert!(deltas.is_empty()),
        other => panic!("no deltas: {:?}", other),
    }
}

#[test]
fn shut_down_kicks_every_session() {
    let mut sessions = two_joined_sessions();
    sessions.connect("late:1".to_string());
    let notice = shut_down(&mut sessions);
    assert_eq!(notice.audience, Audience::Everyone);
    assert!(matches!(notice.message, Protocol::ServerRequestKick));
    assert!(sessions.ids().is_empty());
}

#[test]
fn tick_goes_to_sessions_that_have_not_joined_too() {
    let mut scene = Scene::new();
    let mut sessions = Sessions::new();
    sessions.connect("a:1".to_string());
    sessions.connect("b:2".to_string());
    sessions.join(&"a:1".to_string(), client("ada"));
    let out = tick(&mut scene, &sessions);
    assert_eq!(out.len(), 2);
    assert!(out.iter().all(|o| o.audience == Audience::Everyone));
    match &out[0].message {
        Protocol::ServerResponseMetadata(data) => {
            assert_eq!(data.ticks, 1);
            // the list holds the joined clients only
            assert_eq!(data.clients.len(), 1);
            assert_eq!(data.clients[0].name, "ada");
        }
        other => panic!("no metadata: {:?}", other),
    }
}

#[test]
fn placement_goes_on_after_an_earlier_block_was_removed() {
    let mut scene = Scene::new();
    let mut sessions = two_joined_sessions();
    let origin = "10.0.0.1:5000".to_string();
    place_blocks(&mut scene, &vec![wire_at(0, 0, 0), wire_at(0, 0, 5)]);
    remove_blocks(&mut scene, &vec![ProtocolRemoveBlock { id: 0 }]);
    let out = dispatch(
        &mut scene,
        &mut sessions,
        &origin,
        Protocol::BothRequestPlaceBlocks(vec![wire_at(0, 0, 9), wire_at(0, 0, 0)]),
    );
    assert_eq!(response_of(&out[0]), (true, "".to_string()));
    match &out[1].message {
        Protocol::BothRequestPlaceBlocks(placed) => {
            assert_eq!(placed[0].id, Some(2));
            assert_eq!(placed[1].id, Some(3));
        }
        other => panic!("no placement: {:?}", other),
    }
    assert_eq!(scene.get_block(1).unwrap().0, Coord::new(0, 0, 5));
}

#[test]
fn update_of_data_takes_another_kind_with_the_same_voxels() {
    let mut scene = Scene::new();
    let not = ProtocolPlaceBlock {
        id: None,
        position: Coord::zero(),
        rotation: Orient::FORWARD,
        data: Block::NOTGate(VoxelPowered { powered: false }),
    };
    place_blocks(&mut scene, &vec![not]);
    let diode = Block::Diode(VoxelPowered { powered: false });
    let change = ProtocolUpdateBlock { id: 0, position: None, rotation: None, data: Some(diode) };
    assert_eq!(update_blocks(&mut scene, &vec![change]), 1);
    assert_eq!(scene.get_block(0).unwrap().2, diode);
    // a block that is to move and become air is lost
    let air = ProtocolUpdateBlock { id: 0, position: Some(Coord::new(3, 3, 3)), rotation: None, data: Some(Block::Air) };
    assert_eq!(update_blocks(&mut scene, &vec![air]), 0);
    assert_eq!(scene.get_block(0), None);
    assert_eq!(scene.cell_count(), 0);
}

#[test]
fn update_of_data_with_other_voxels_is_refused() {
    let mut scene = Scene::new();
    let mut sessions = two_joined_sessions();
    let origin = "10.0.0.1:5000".to_string();
    place_blocks(&mut scene, &vec![wire_at(0, 0, 0), wire_at(0, 0, 1)]);
    for data in [
        Block::Toggle(VoxelPowered { powered: true }),
        Block::NOTGate(VoxelPowered { powered: true }),
        Block::Air,
        Block::Clock(VoxelClock { rate: 0, start_tick: 0, powered: false }),
    ] {
        let change = ProtocolUpdateBlock { id: 0, position: None, rotation: None, data: Some(data) };
        let out = dispatch(&mut scene, &mut sessions, &origin, Protocol::BothRequestUpdateBlocks(vec![change]));
        assert_eq!(out.len(), 1);
        assert_eq!(out[0].audience, Audience::Origin);
        assert_eq!(response_of(&out[0]), (false, "block overlaps existing block".to_string()));
        assert_eq!(scene.get_block(0), Some((Coord::zero(), Orient::FORWARD, Block::Wire(VoxelPowered { powered: false }))));
    }
    // the circuit is as it was: the next tick changes nothing
    let sent = tick(&mut scene, &sessions);
    match &sent[1].message {
        Protocol::BothRequestUpdateBlocks(changes) => assert!(changes.is_empty()),
        other => panic!("no changes: {:?}", other),
    }
}

#[test]
fn serve_carries_out_a_request_where_there_is_room() {
    let mut scene = Scene::new();
    let mut sessions = two_joined_sessions();
    let origin = "10.0.0.1:5000".to_string();
    let request = Protocol::BothRequestPlaceBlocks(vec![wire_at(0, 0, 0), wire_at(0, 0, 1)]);
    assert_eq!(batch_size(&request), 2);
    assert_eq!(batch_size(&Protocol::ClientRequestLeave), 0);
    assert!(scene.has_room_for(2));
    let out = serve(&mut scene, &mut sessions, &origin, request);
    assert_eq!(out.len(), 2);
    assert_eq!(response_of(&out[0]), (true, "".to_string()));
    assert_eq!(out[1].audience, Audience::Joined);
    assert_eq!(scene.get_block(1).unwrap().0, Coord::new(0, 0, 1));
    // a request that overlaps is answered as the dispatcher answers it
    let again = serve(&mut scene, &mut sessions, &origin, Protocol::BothRequestPlaceBlocks(vec![wire_at(0, 0, 1)]));
    assert_eq!(again.len(), 1);
    assert_eq!(response_of(&again[0]), (false, "block overlaps existing block".to_string()));
}
