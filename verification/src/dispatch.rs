use crate::block::{Block, Orient};
use crate::grid::{Coord, InstanceID};
use crate::network::{
    ClientID, ClientView, joined_clients, Protocol, ProtocolPlaceBlock, ProtocolRemoveBlock,
    ProtocolResponse, ProtocolResponseMetadata, ProtocolUpdateBlock, ProtocolView, ResponseView,
    session_rank, Sessions, SessionView,
};
use crate::scene::{Scene, SceneView, voxels_of};
use vstd::prelude::*;
use vstd::string::*;

verus! {

/// To whom a message of the server goes: to the session that sent the request,
/// to every session that has joined, or to every session.
#[derive(Clone, Copy, Debug, PartialEq, Eq, Structural)]
pub enum Audience {
    Origin,
    Joined,
    Everyone,
}

/// A message that the server is to send.
#[derive(Debug)]
pub struct Outgoing {
    pub audience: Audience,
    pub message: Protocol,
}

pub type OutgoingView = (Audience, ProtocolView);

/// The audiences and message views of a list of messages to send.
pub open spec fn outgoing_view(out: Seq<Outgoing>) -> Seq<OutgoingView> {
    Seq::new(out.len(), |i: int| (out[i].audience, out[i].message@))
}

/// The answer to a request that was carried out in full.
pub open spec fn accepted_reply() -> OutgoingView {
    (Audience::Origin, ProtocolView::BothResponse(ResponseView { ok: true, message: ""@ }))
}

/// The answer to a request that was refused, with the reason.
pub open spec fn refused_reply(reason: Seq<char>) -> OutgoingView {
    (Audience::Origin, ProtocolView::BothResponse(ResponseView { ok: false, message: reason }))
}

/// Whether the block of the request can be placed in the world `v`: it can
/// be tried, it is not air, and none of its cells is taken.
pub open spec fn admits(v: SceneView, item: ProtocolPlaceBlock) -> bool {
    &&& triable(item)
    &&& !(item.data is Air)
    &&& !v.overlaps(voxels_of((item.position, item.rotation, item.data)))
}

/// Whether the placement of the request can be tried: a clock has a rate, and
/// every voxel is representable at its position.
pub open spec fn triable(item: ProtocolPlaceBlock) -> bool {
    item.data.timed() && item.data.stands(item.position, item.rotation)
}

/// The world after the block of the request was placed.
pub open spec fn place_step(v: SceneView, item: ProtocolPlaceBlock) -> SceneView {
    v.placed(v.next_id(), item.data, item.position, item.rotation)
}

/// The world after the first `k` blocks of the batch were placed.
pub open spec fn placed_upto(v: SceneView, items: Seq<ProtocolPlaceBlock>, k: nat) -> SceneView
    decreases k,
{
    if k == 0 {
        v
    } else {
        place_step(placed_upto(v, items, (k - 1) as nat), items[k - 1])
    }
}

/// The block of request `i` can be placed once the blocks before it are.
pub open spec fn admitted(v: SceneView, items: Seq<ProtocolPlaceBlock>, i: int) -> bool {
    admits(placed_upto(v, items, i as nat), items[i])
}

/// Exactly the first `k` blocks of the batch are placed: each of them can be
/// placed in its turn, and the next one, if there is one, cannot.
pub open spec fn placed_count(v: SceneView, items: Seq<ProtocolPlaceBlock>, k: nat) -> bool {
    &&& k <= items.len()
    &&& forall|i: int| 0 <= i < k ==> #[trigger] admitted(v, items, i)
    &&& k < items.len() ==> !admitted(v, items, k as int)
}

/// The requests of the batch, each with the identifier that its block gets.
pub open spec fn stamped(v: SceneView, items: Seq<ProtocolPlaceBlock>) -> Seq<ProtocolPlaceBlock> {
    Seq::new(
        items.len(),
        |i: int|
            ProtocolPlaceBlock {
                id: Some(placed_upto(v, items, i as nat).next_id()),
                position: items[i].position,
                rotation: items[i].rotation,
                data: items[i].data,
            },
    )
}

/// Why the block of the request is refused: it was tried and not added, or
/// it cannot be tried.
pub open spec fn place_refusal(item: ProtocolPlaceBlock) -> Seq<char> {
    if triable(item) {
        "block overlaps existing block"@
    } else {
        "block cannot be placed"@
    }
}

/// What the server sends after it placed the first `k` blocks of a batch.
pub open spec fn place_replies(v: SceneView, items: Seq<ProtocolPlaceBlock>, k: nat) -> Seq<
    OutgoingView,
> {
    if k == items.len() {
        seq![
            accepted_reply(),
            (Audience::Joined, ProtocolView::BothRequestPlaceBlocks(stamped(v, items))),
        ]
    } else {
        seq![refused_reply(place_refusal(items[k as int]))]
    }
}

/// What the change of the request asks for: the block, its position and its
/// orientation, each as the request gives it or else as it is.
pub open spec fn moved_entry(v: SceneView, item: ProtocolUpdateBlock) -> (Coord, Orient, Block) {
    let now = v.blocks[item.id];
    (
        match item.position {
            Some(position) => position,
            None => now.0,
        },
        match item.rotation {
            Some(rotation) => rotation,
            None => now.1,
        },
        match item.data {
            Some(data) => data,
            None => now.2,
        },
    )
}

/// The change asks for a new position or orientation.
pub open spec fn moves(item: ProtocolUpdateBlock) -> bool {
    item.position is Some || item.rotation is Some
}

/// Whether the change of the request is carried out in the world `v`.
pub open spec fn update_accepted(v: SceneView, item: ProtocolUpdateBlock) -> bool {
    if !v.blocks.contains_key(item.id) {
        false
    } else if moves(item) {
        let entry = moved_entry(v, item);
        entry.2.sound() && entry.2.stands(entry.0, entry.1) && !v.removed(item.id).overlaps(
            voxels_of(entry),
        )
    } else {
        item.data is Some && item.data->0.timed() && v.takes(item.id, item.data->0)
    }
}

/// The world after the change of the request was tried: a block that is to
/// move is taken out first, and is lost where it finds its new cells taken or
/// is to become air.
pub open spec fn update_step(v: SceneView, item: ProtocolUpdateBlock) -> SceneView {
    if !v.blocks.contains_key(item.id) {
        v
    } else if moves(item) {
        let entry = moved_entry(v, item);
        if !(entry.2.timed() && entry.2.stands(entry.0, entry.1)) {
            v
        } else if entry.2 is Air || v.removed(item.id).overlaps(voxels_of(entry)) {
            v.removed(item.id)
        } else {
            v.removed(item.id).placed(item.id, entry.2, entry.0, entry.1)
        }
    } else if update_accepted(v, item) {
        v.updated(item.id, item.data->0)
    } else {
        v
    }
}

/// The world after the first `k` changes of the batch were tried.
pub open spec fn updated_upto(v: SceneView, items: Seq<ProtocolUpdateBlock>, k: nat) -> SceneView
    decreases k,
{
    if k == 0 {
        v
    } else {
        update_step(updated_upto(v, items, (k - 1) as nat), items[k - 1])
    }
}

/// The change of request `i` is carried out once the changes before it are.
pub open spec fn change_accepted(v: SceneView, items: Seq<ProtocolUpdateBlock>, i: int) -> bool {
    update_accepted(updated_upto(v, items, i as nat), items[i])
}

/// Exactly the first `k` changes of the batch are carried out.
pub open spec fn updated_count(v: SceneView, items: Seq<ProtocolUpdateBlock>, k: nat) -> bool {
    &&& k <= items.len()
    &&& forall|i: int| 0 <= i < k ==> #[trigger] change_accepted(v, items, i)
    &&& k < items.len() ==> !change_accepted(v, items, k as int)
}

/// The world after a batch of changes of which exactly the first `k` were
/// carried out: the one that was refused has been tried too.
pub open spec fn updated_world(v: SceneView, items: Seq<ProtocolUpdateBlock>, k: nat) -> SceneView {
    if k < items.len() {
        updated_upto(v, items, k + 1)
    } else {
        updated_upto(v, items, k)
    }
}

/// What the server sends after it carried out the first `k` changes of a batch.
pub open spec fn update_replies(items: Seq<ProtocolUpdateBlock>, k: nat) -> Seq<OutgoingView> {
    if k == items.len() {
        seq![accepted_reply(), (Audience::Joined, ProtocolView::BothRequestUpdateBlocks(items))]
    } else {
        seq![refused_reply("block overlaps existing block"@)]
    }
}

/// The world after the first `k` blocks of the batch were removed.
pub open spec fn removed_upto(v: SceneView, items: Seq<ProtocolRemoveBlock>, k: nat) -> SceneView
    decreases k,
{
    if k == 0 {
        v
    } else {
        removed_upto(v, items, (k - 1) as nat).removed(items[k - 1].id)
    }
}

/// Exactly the first `k` blocks of the batch are removed: each of them is in
/// the world in its turn, and the next one, if there is one, is not.
pub open spec fn removed_count(v: SceneView, items: Seq<ProtocolRemoveBlock>, k: nat) -> bool {
    &&& k <= items.len()
    &&& forall|i: int| 0 <= i < k ==> #[trigger] removal_found(v, items, i)
    &&& k < items.len() ==> !removal_found(v, items, k as int)
}

/// The block of request `i` is in the world once the blocks before it are removed.
pub open spec fn removal_found(v: SceneView, items: Seq<ProtocolRemoveBlock>, i: int) -> bool {
    removed_upto(v, items, i as nat).blocks.contains_key(items[i].id)
}

/// What the server sends after it removed the first `k` blocks of a batch.
pub open spec fn remove_replies(items: Seq<ProtocolRemoveBlock>, k: nat) -> Seq<OutgoingView> {
    if k == items.len() {
        seq![accepted_reply(), (Audience::Everyone, ProtocolView::BothRequestRemoveBlocks(items))]
    } else {
        seq![refused_reply("failed to remove block (block might not exist)"@)]
    }
}

/// The list holds every block of the world once, with its identifier.
pub open spec fn world_listing(v: SceneView, listing: Seq<ProtocolPlaceBlock>) -> bool {
    &&& forall|i: int| 0 <= i < listing.len() ==> listed_block(v, #[trigger] listing[i])
    &&& forall|i: int, j: int|
        0 <= i < listing.len() && 0 <= j < listing.len() && i != j ==> (#[trigger] listing[i]).id != (
        #[trigger] listing[j]).id
    &&& forall|id: InstanceID| #[trigger]
        v.blocks.contains_key(id) ==> exists|i: int|
            0 <= i < listing.len() && (#[trigger] listing[i]).id == Some(id)
}

/// The entry tells of a block of the world what the world holds of it.
pub open spec fn listed_block(v: SceneView, item: ProtocolPlaceBlock) -> bool {
    &&& item.id is Some
    &&& v.blocks.contains_key(item.id->0)
    &&& v.blocks[item.id->0] == (item.position, item.rotation, item.data)
}

/// The list tells of every block that the tick changed its state after the tick.
pub open spec fn tick_listing(v: SceneView, deltas: Seq<ProtocolUpdateBlock>) -> bool {
    &&& forall|i: int| 0 <= i < deltas.len() ==> listed_delta(v, #[trigger] deltas[i])
    &&& forall|i: int, j: int|
        0 <= i < deltas.len() && 0 <= j < deltas.len() && i != j ==> (#[trigger] deltas[i]).id != (
        #[trigger] deltas[j]).id
    &&& forall|id: InstanceID| #[trigger]
        v.tick_delta().contains(id) ==> exists|i: int|
            0 <= i < deltas.len() && (#[trigger] deltas[i]).id == id
}

/// The entry names a block that the tick changed, with its state after the
/// tick and nothing else.
pub open spec fn listed_delta(v: SceneView, delta: ProtocolUpdateBlock) -> bool {
    &&& v.tick_delta().contains(delta.id)
    &&& delta.position is None
    &&& delta.rotation is None
    &&& delta.data == Some(v.ticked().blocks[delta.id].2)
}

/// How many blocks a request can add to the world.
pub open spec fn batch_len(message: ProtocolView) -> nat {
    match message {
        ProtocolView::BothRequestPlaceBlocks(items) => items.len(),
        ProtocolView::BothRequestUpdateBlocks(items) => items.len(),
        _ => 0,
    }
}

/// A batch of blocks to place takes the world from `v` to `w` and has the
/// server send `out`.
pub open spec fn place_dispatched(
    v: SceneView,
    items: Seq<ProtocolPlaceBlock>,
    w: SceneView,
    out: Seq<OutgoingView>,
) -> bool {
    exists|k: nat| #[trigger]
        placed_count(v, items, k) && w == placed_upto(v, items, k) && out == place_replies(
            v,
            items,
            k,
        )
}

/// A batch of changes takes the world from `v` to `w` and has the server send `out`.
pub open spec fn update_dispatched(
    v: SceneView,
    items: Seq<ProtocolUpdateBlock>,
    w: SceneView,
    out: Seq<OutgoingView>,
) -> bool {
    exists|k: nat| #[trigger]
        updated_count(v, items, k) && w == updated_world(v, items, k) && out == update_replies(
            items,
            k,
        )
}

/// A batch of blocks to remove takes the world from `v` to `w` and has the
/// server send `out`.
pub open spec fn remove_dispatched(
    v: SceneView,
    items: Seq<ProtocolRemoveBlock>,
    w: SceneView,
    out: Seq<OutgoingView>,
) -> bool {
    exists|k: nat| #[trigger]
        removed_count(v, items, k) && w == removed_upto(v, items, k) && out == remove_replies(
            items,
            k,
        )
}

/// A client that joins has what it tells of itself recorded, and is sent
/// every block of the world; a peer without a session is not answered.
pub open spec fn join_dispatched(
    v: SceneView,
    s: Seq<SessionView>,
    origin: Seq<char>,
    client: ClientView,
    t: Seq<SessionView>,
    out: Seq<OutgoingView>,
) -> bool {
    match session_rank(s, origin) {
        Some(i) => {
            &&& t == s.update(i, (origin, Some(client)))
            &&& out.len() == 1
            &&& out[0].0 == Audience::Origin
            &&& out[0].1 matches ProtocolView::BothRequestPlaceBlocks(listing)
            &&& world_listing(v, listing)
        },
        None => t == s && out.len() == 0,
    }
}

/// The sessions once the peer `origin` has left.
pub open spec fn left(s: Seq<SessionView>, origin: Seq<char>) -> Seq<SessionView> {
    match session_rank(s, origin) {
        Some(i) => s.remove(i),
        None => s,
    }
}

/// What a request of the session `origin` does: to the world, which goes from
/// `v` to `w`; to the sessions, which go from `s` to `t`; and what the server
/// sends. A batch is carried out in order and stops at the first request that
/// is refused; what was done before stays done.
pub open spec fn dispatched(
    v: SceneView,
    s: Seq<SessionView>,
    origin: Seq<char>,
    message: ProtocolView,
    w: SceneView,
    t: Seq<SessionView>,
    out: Seq<OutgoingView>,
) -> bool {
    match message {
        ProtocolView::BothRequestPlaceBlocks(items) => t == s && place_dispatched(v, items, w, out),
        ProtocolView::BothRequestUpdateBlocks(items) => t == s && update_dispatched(
            v,
            items,
            w,
            out,
        ),
        ProtocolView::BothRequestRemoveBlocks(items) => t == s && remove_dispatched(
            v,
            items,
            w,
            out,
        ),
        ProtocolView::ClientRequestJoin(client) => w == v && join_dispatched(
            v,
            s,
            origin,
            client,
            t,
            out,
        ),
        ProtocolView::ClientRequestLeave => w == v && out.len() == 0 && t == left(s, origin),
        _ => w == v && t == s && out.len() == 0,
    }
}

fn reply(ok: bool, message: &str) -> (out: Outgoing)
    ensures
        out.audience == Audience::Origin,
        out.message@ == ProtocolView::BothResponse(ResponseView { ok, message: message@ }),
{
    Outgoing {
        audience: Audience::Origin,
        message: Protocol::BothResponse(
            ProtocolResponse { ok, message: String::from_str(message) },
        ),
    }
}

/// Places the blocks of a batch in order, up to the first that cannot be
/// placed, and returns the requests that were carried out, each with the
/// identifier of its block.
pub fn place_blocks(scene: &mut Scene, items: &Vec<ProtocolPlaceBlock>) -> (placed: Vec<
    ProtocolPlaceBlock,
>)
    requires
        old(scene).wf(),
        old(scene).room_for(items.len() as nat),
    ensures
        final(scene).wf(),
        placed_count(old(scene)@, items@, placed@.len() as nat),
        final(scene)@ == placed_upto(old(scene)@, items@, placed@.len() as nat),
        placed@ == stamped(old(scene)@, items@).take(placed@.len() as int),
        forall|k: nat|
            old(scene).room_for(k + items.len() as nat) ==> #[trigger] final(scene).room_for(k),
        final(scene).grown(old(scene), items.len() as nat),
{
    let ghost v = scene@;
    let mut placed: Vec<ProtocolPlaceBlock> = Vec::new();
    let mut i: usize = 0;
    while i < items.len()
        invariant
            i <= items.len(),
            placed@.len() == i,
            scene.wf(),
            scene.room_for((items.len() - i) as nat),
            v == old(scene)@,
            scene@ == placed_upto(v, items@, i as nat),
            scene.grown(old(scene), i as nat),
            forall|j: int| 0 <= j < i ==> #[trigger] admitted(v, items@, j),
            placed@ == stamped(v, items@).take(i as int),
        decreases items.len() - i,
    {
        let item = items[i];
        let ghost before = placed@;
        if !(item.data.is_timed() && item.data.can_stand(item.position, item.rotation)) {
            return placed;
        }
        match scene.add_block(item.data, item.position, item.rotation) {
            Some(id) => {
                placed.push(
                    ProtocolPlaceBlock {
                        id: Some(id),
                        position: item.position,
                        rotation: item.rotation,
                        data: item.data,
                    },
                );
                proof {
                    assert(placed_upto(v, items@, (i + 1) as nat) == place_step(
                        placed_upto(v, items@, i as nat),
                        items@[i as int],
                    ));
                    assert(placed@ =~= stamped(v, items@).take(i + 1));
                }
            },
            None => {
                return placed;
            },
        }
        i = i + 1;
    }
    placed
}

/// Carries out the changes of a batch in order, up to the first that is
/// refused, and returns how many were carried out.
pub fn update_blocks(scene: &mut Scene, items: &Vec<ProtocolUpdateBlock>) -> (done: usize)
    requires
        old(scene).wf(),
        old(scene).room_for(items.len() as nat),
    ensures
        final(scene).wf(),
        updated_count(old(scene)@, items@, done as nat),
        final(scene)@ == updated_world(old(scene)@, items@, done as nat),
        forall|k: nat|
            old(scene).room_for(k + items.len() as nat) ==> #[trigger] final(scene).room_for(k),
        final(scene).grown(old(scene), items.len() as nat),
{
    let ghost v = scene@;
    let mut i: usize = 0;
    while i < items.len()
        invariant
            i <= items.len(),
            scene.wf(),
            scene.room_for((items.len() - i) as nat),
            v == old(scene)@,
            scene@ == updated_upto(v, items@, i as nat),
            scene.grown(old(scene), i as nat),
            forall|j: int| 0 <= j < i ==> #[trigger] change_accepted(v, items@, j),
        decreases items.len() - i,
    {
        let item = items[i];
        let ghost now = scene@;
        assert(updated_upto(v, items@, (i + 1) as nat) == update_step(now, items@[i as int]));
        let done = match scene.get_block(item.id) {
            Some(entry) => {
                if item.position.is_some() || item.rotation.is_some() {
                    let block = match item.data {
                        Some(data) => data,
                        None => entry.2,
                    };
                    let position = match item.position {
                        Some(position) => position,
                        None => entry.0,
                    };
                    let rotation = match item.rotation {
                        Some(rotation) => rotation,
                        None => entry.1,
                    };
                    if block.is_timed() && block.can_stand(position, rotation) {
                        scene.replace_block(item.id, block, position, rotation).is_some()
                    } else {
                        false
                    }
                } else {
                    match item.data {
                        Some(data) => {
                            // only a state that leaves the block its voxels is taken
                            if data.is_timed() && data.same_structure(&entry.2) {
                                scene.update_block(item.id, data).is_some()
                            } else {
                                false
                            }
                        },
                        None => false,
                    }
                }
            },
            None => false,
        };
        if !done {
            return i;
        }
        i = i + 1;
    }
    i
}

/// Removes the blocks of a batch in order, up to the first that is not in the
/// world, and returns how many were removed.
pub fn remove_blocks(scene: &mut Scene, items: &Vec<ProtocolRemoveBlock>) -> (done: usize)
    requires
        old(scene).wf(),
    ensures
        final(scene).wf(),
        removed_count(old(scene)@, items@, done as nat),
        final(scene)@ == removed_upto(old(scene)@, items@, done as nat),
        forall|k: nat| old(scene).room_for(k) ==> #[trigger] final(scene).room_for(k),
        final(scene).grown(old(scene), 0),
{
    let ghost v = scene@;
    let mut i: usize = 0;
    while i < items.len()
        invariant
            i <= items.len(),
            scene.wf(),
            v == old(scene)@,
            scene@ == removed_upto(v, items@, i as nat),
            forall|j: int| 0 <= j < i ==> #[trigger] removal_found(v, items@, j),
            forall|k: nat| old(scene).room_for(k) ==> #[trigger] scene.room_for(k),
            scene.grown(old(scene), 0),
        decreases items.len() - i,
    {
        let ghost now = scene@;
        assert(removed_upto(v, items@, (i + 1) as nat) == now.removed(items@[i as int].id));
        if scene.remove_block(items[i].id).is_none() {
            return i;
        }
        i = i + 1;
    }
    i
}

/// Lists every block of the world with its identifier.
pub fn world_blocks(scene: &Scene) -> (listing: Vec<ProtocolPlaceBlock>)
    ensures
        world_listing(scene@, listing@),
{
    let ids = scene.get_block_ids();
    let mut listing: Vec<ProtocolPlaceBlock> = Vec::new();
    let mut i: usize = 0;
    while i < ids.len()
        invariant
            i <= ids.len(),
            ids@.no_duplicates(),
            ids@.to_set() == scene@.blocks.dom(),
            listing@.len() == i,
            forall|k: int|
                0 <= k < i ==> (#[trigger] listing@[k]).id == Some(ids@[k]) && listed_block(
                    scene@,
                    listing@[k],
                ),
        decreases ids.len() - i,
    {
        assert(ids@.to_set().contains(ids@[i as int]));
        match scene.get_block(ids[i]) {
            Some(entry) => {
                listing.push(
                    ProtocolPlaceBlock {
                        id: Some(ids[i]),
                        position: entry.0,
                        rotation: entry.1,
                        data: entry.2,
                    },
                );
            },
            None => {},
        }
        i = i + 1;
    }
    proof {
        assert forall|id: InstanceID| #[trigger] scene@.blocks.contains_key(id) implies exists|
            i: int,
        |
            0 <= i < listing@.len() && (#[trigger] listing@[i]).id == Some(id) by {
            assert(ids@.to_set().contains(id));
            let k = choose|k: int| 0 <= k < ids@.len() && ids@[k] == id;
            assert(listing@[k].id == Some(id));
        }
    }
    listing
}

/// Carries out the request of the session `origin` and returns what the
/// server is to send, in order.
pub fn dispatch(
    scene: &mut Scene,
    sessions: &mut Sessions,
    origin: &ClientID,
    message: Protocol,
) -> (out: Vec<Outgoing>)
    requires
        old(scene).wf(),
        old(sessions).wf(),
        old(scene).room_for(batch_len(message@)),
    ensures
        final(scene).wf(),
        final(sessions).wf(),
        dispatched(
            old(scene)@,
            old(sessions)@,
            origin@,
            message@,
            final(scene)@,
            final(sessions)@,
            outgoing_view(out@),
        ),
        forall|k: nat|
            old(scene).room_for(k + batch_len(message@)) ==> #[trigger] final(scene).room_for(k),
{
    let ghost v = scene@;
    let ghost s = sessions@;
    let ghost m = message@;
    let mut out: Vec<Outgoing> = Vec::new();
    match message {
        Protocol::BothRequestPlaceBlocks(items) => {
            let placed = place_blocks(scene, &items);
            let ghost k = placed@.len() as nat;
            if placed.len() == items.len() {
                out.push(reply(true, ""));
                out.push(
                    Outgoing {
                        audience: Audience::Joined,
                        message: Protocol::BothRequestPlaceBlocks(placed),
                    },
                );
                proof {
                    assert(stamped(v, items@).take(items@.len() as int) =~= stamped(v, items@));
                    assert(outgoing_view(out@) =~= place_replies(v, items@, k));
                }
            } else {
                let item = items[placed.len()];
                if item.data.is_timed() && item.data.can_stand(item.position, item.rotation) {
                    out.push(reply(false, "block overlaps existing block"));
                } else {
                    out.push(reply(false, "block cannot be placed"));
                }
                proof {
                    assert(outgoing_view(out@) =~= place_replies(v, items@, k));
                }
            }
            assert(placed_count(v, items@, k));
            assert(place_dispatched(v, items@, scene@, outgoing_view(out@)));
            assert(dispatched(v, s, origin@, m, scene@, sessions@, outgoing_view(out@)));
        },
        Protocol::BothRequestUpdateBlocks(items) => {
            let done = update_blocks(scene, &items);
            if done == items.len() {
                out.push(reply(true, ""));
                out.push(
                    Outgoing {
                        audience: Audience::Joined,
                        message: Protocol::BothRequestUpdateBlocks(items),
                    },
                );
            } else {
                out.push(reply(false, "block overlaps existing block"));
            }
            proof {
                let k = done as nat;
                assert(outgoing_view(out@) =~= update_replies(items@, k));
                assert(m == ProtocolView::BothRequestUpdateBlocks(items@));
                assert(updated_count(v, items@, k) && scene@ == updated_world(v, items@, k)
                    && outgoing_view(out@) == update_replies(items@, k));
                assert(update_dispatched(v, items@, scene@, outgoing_view(out@)));
                assert(dispatched(v, s, origin@, m, scene@, sessions@, outgoing_view(out@)));
            }
        },
        Protocol::BothRequestRemoveBlocks(items) => {
            let done = remove_blocks(scene, &items);
            if done == items.len() {
                out.push(reply(true, ""));
                out.push(
                    Outgoing {
                        audience: Audience::Everyone,
                        message: Protocol::BothRequestRemoveBlocks(items),
                    },
                );
            } else {
                out.push(reply(false, "failed to remove block (block might not exist)"));
            }
            proof {
                let k = done as nat;
                assert(outgoing_view(out@) =~= remove_replies(items@, k));
                assert(m == ProtocolView::BothRequestRemoveBlocks(items@));
                assert(removed_count(v, items@, k) && scene@ == removed_upto(v, items@, k)
                    && outgoing_view(out@) == remove_replies(items@, k));
                assert(remove_dispatched(v, items@, scene@, outgoing_view(out@)));
                assert(sessions@ == s);
                assert(dispatched(v, s, origin@, m, scene@, sessions@, outgoing_view(out@)));
            }
        },
        Protocol::ClientRequestJoin(client) => {
            match sessions.join(origin, client) {
                Some(_) => {
                    let listing = world_blocks(scene);
                    out.push(
                        Outgoing {
                            audience: Audience::Origin,
                            message: Protocol::BothRequestPlaceBlocks(listing),
                        },
                    );
                },
                None => {},
            }
            assert(dispatched(v, s, origin@, m, scene@, sessions@, outgoing_view(out@)));
        },
        Protocol::ClientRequestLeave => {
            let _ = sessions.leave(origin);
            assert(dispatched(v, s, origin@, m, scene@, sessions@, outgoing_view(out@)));
        },
        _ => {
            assert(dispatched(v, s, origin@, m, scene@, sessions@, outgoing_view(out@)));
        },
    }
    out
}

/// How many blocks the request can add to the world.
pub fn batch_size(message: &Protocol) -> (n: usize)
    ensures
        n == batch_len(message@),
{
    match message {
        Protocol::BothRequestPlaceBlocks(items) => items.len(),
        Protocol::BothRequestUpdateBlocks(items) => items.len(),
        _ => 0,
    }
}

/// Carries out the request as `dispatch` does where the scene has room for
/// the blocks that the request can add. Where it has not, the session is
/// told so and nothing changes.
pub fn serve(
    scene: &mut Scene,
    sessions: &mut Sessions,
    origin: &ClientID,
    message: Protocol,
) -> (out: Vec<Outgoing>)
    requires
        old(scene).wf(),
        old(sessions).wf(),
    ensures
        final(scene).wf(),
        final(sessions).wf(),
        old(scene).room_for(batch_len(message@)) ==> dispatched(
            old(scene)@,
            old(sessions)@,
            origin@,
            message@,
            final(scene)@,
            final(sessions)@,
            outgoing_view(out@),
        ),
        !old(scene).room_for(batch_len(message@)) ==> final(scene)@ == old(scene)@
            && final(sessions)@ == old(sessions)@
            && outgoing_view(out@) == seq![refused_reply("no room for more blocks"@)],
{
    if scene.has_room_for(batch_size(&message)) {
        dispatch(scene, sessions, origin, message)
    } else {
        let mut out: Vec<Outgoing> = Vec::new();
        out.push(reply(false, "no room for more blocks"));
        assert(outgoing_view(out@) =~= seq![refused_reply("no room for more blocks"@)]);
        out
    }
}

/// Ends every session: returns the notice that the server is to send to all
/// of them, and forgets them.
pub fn shut_down(sessions: &mut Sessions) -> (notice: Outgoing)
    ensures
        final(sessions).wf(),
        final(sessions)@ == Seq::<SessionView>::empty(),
        notice.audience == Audience::Everyone,
        notice.message@ == ProtocolView::ServerRequestKick,
{
    sessions.clear();
    Outgoing { audience: Audience::Everyone, message: Protocol::ServerRequestKick }
}

/// Simulates one tick and returns what the server is to send to every
/// session: first the counter and the joined clients, then the blocks that
/// changed.
/// Nothing happens once the counter has reached the greatest `u32`.
pub fn tick(scene: &mut Scene, sessions: &Sessions) -> (out: Vec<Outgoing>)
    requires
        old(scene).wf(),
    ensures
        final(scene).wf(),
        forall|k: nat| old(scene).room_for(k) ==> #[trigger] final(scene).room_for(k),
        old(scene)@.ticks == u32::MAX ==> final(scene)@ == old(scene)@ && out@.len() == 0,
        old(scene)@.ticks < u32::MAX ==> {
            &&& final(scene)@ == old(scene)@.ticked()
            &&& out@.len() == 2
            &&& outgoing_view(out@)[0] == (
                Audience::Everyone,
                ProtocolView::ServerResponseMetadata {
                    ticks: (old(scene)@.ticks + 1) as u32,
                    clients: joined_clients(sessions@),
                },
            )
            &&& outgoing_view(out@)[1].0 == Audience::Everyone
            &&& outgoing_view(out@)[1].1 matches ProtocolView::BothRequestUpdateBlocks(deltas)
            &&& tick_listing(old(scene)@, deltas)
        },
{
    let ghost v = scene@;
    let mut out: Vec<Outgoing> = Vec::new();
    if scene.get_ticks() == u32::MAX {
        return out;
    }
    let updates = scene.simulate_tick();
    let clients = sessions.clients();
    out.push(
        Outgoing {
            audience: Audience::Everyone,
            message: Protocol::ServerResponseMetadata(
                ProtocolResponseMetadata { ticks: scene.get_ticks(), clients },
            ),
        },
    );
    let mut deltas: Vec<ProtocolUpdateBlock> = Vec::new();
    let mut i: usize = 0;
    while i < updates.len()
        invariant
            i <= updates.len(),
            scene@ == v.ticked(),
            updates@.to_set() == v.tick_delta(),
            deltas@.len() == i,
            forall|k: int|
                0 <= k < i ==> (#[trigger] deltas@[k]).id == updates@[k] && listed_delta(
                    v,
                    deltas@[k],
                ),
        decreases updates.len() - i,
    {
        assert(updates@.to_set().contains(updates@[i as int]));
        match scene.get_block(updates[i]) {
            Some(entry) => {
                deltas.push(
                    ProtocolUpdateBlock {
                        id: updates[i],
                        position: None,
                        rotation: None,
                        data: Some(entry.2),
                    },
                );
            },
            None => {},
        }
        i = i + 1;
    }
    proof {
        assert forall|id: InstanceID| #[trigger] v.tick_delta().contains(id) implies exists|i: int|
            0 <= i < deltas@.len() && (#[trigger] deltas@[i]).id == id by {
            assert(updates@.to_set().contains(id));
            let k = choose|k: int| 0 <= k < updates@.len() && updates@[k] == id;
            assert(deltas@[k].id == id);
        }
    }
    out.push(
        Outgoing {
            audience: Audience::Everyone,
            message: Protocol::BothRequestUpdateBlocks(deltas),
        },
    );
    out
}

} // verus!
