use crate::block::{Block, is_terminal_name, Orient};
use crate::circuit::{circuit_edges, circuit_nodes};
use crate::grid::{Coord, InstanceID};
use crate::scene::{
    cell_known, cell_noded, covers, lemma_fits_valid, lemma_placed_structure, restorable, restored,
    Saved, Scene, SceneView, sound_entry, terminal_at, voxel_at, voxels_of,
};
use vstd::prelude::*;
use vstd::set::fold::{is_fun_commutative, lemma_fold_empty, lemma_fold_insert};
use vstd::set_lib::lemma_set_disjoint_lens;

verus! {

/// The number of voxels of the blocks `ids`, all taken together.
pub open spec fn voxel_count(v: SceneView, ids: Set<InstanceID>) -> nat {
    ids.fold(0nat, |sum: nat, id: InstanceID| sum + voxels_of(v.blocks[id]).len())
}

/// The cells that hold a voxel of one of the blocks `ids`.
pub open spec fn cells_of(v: SceneView, ids: Set<InstanceID>) -> Set<Coord> {
    Set::new(|c: Coord| v.space.contains_key(c) && ids.contains(v.space[c].0))
}

/// A block fills as many cells as it has voxels.
proof fn lemma_block_cells(v: SceneView, id: InstanceID)
    requires
        v.valid(),
        v.blocks.contains_key(id),
    ensures
        cells_of(v, set![id]).finite(),
        cells_of(v, set![id]).len() == voxels_of(v.blocks[id]).len(),
{
    let s = voxels_of(v.blocks[id]);
    let places = Seq::new(s.len(), |i: int| s[i].1);
    assert(sound_entry(v.blocks[id]));
    lemma_placed_structure(v.blocks[id]);
    assert(places.no_duplicates());
    places.unique_seq_to_set();
    assert forall|c: Coord| places.to_set().contains(c) <==> cells_of(v, set![id]).contains(c) by {
        if places.to_set().contains(c) {
            let i = choose|i: int| 0 <= i < places.len() && places[i] == c;
            assert(v.voxel_in_space(id, i));
        }
        if cells_of(v, set![id]).contains(c) {
            assert(v.cell_backed(c));
            let i = choose|i: int| 0 <= i < s.len() && #[trigger] s[i] == (v.space[c].1, c);
            assert(places[i] == c);
        }
    }
    assert(places.to_set() =~= cells_of(v, set![id]));
}

/// Some blocks fill as many cells as they have voxels, all taken together.
proof fn lemma_cells_count(v: SceneView, ids: Set<InstanceID>)
    requires
        v.valid(),
        ids.finite(),
        ids.subset_of(v.blocks.dom()),
    ensures
        cells_of(v, ids).finite(),
        cells_of(v, ids).len() == voxel_count(v, ids),
    decreases ids.len(),
{
    let f = |sum: nat, id: InstanceID| sum + voxels_of(v.blocks[id]).len();
    assert(is_fun_commutative(f));
    if ids.is_empty() {
        assert(ids =~= Set::empty());
        lemma_fold_empty(0nat, f);
        assert(cells_of(v, ids) =~= Set::empty());
    } else {
        let a = ids.choose();
        let rest = ids.remove(a);
        lemma_cells_count(v, rest);
        lemma_block_cells(v, a);
        let own = cells_of(v, set![a]);
        assert(cells_of(v, ids) =~= cells_of(v, rest) + own);
        assert(cells_of(v, rest).disjoint(own));
        lemma_set_disjoint_lens(cells_of(v, rest), own);
        lemma_fold_insert(rest, 0nat, f, a);
        assert(rest.insert(a) =~= ids);
    }
}

/// The grid holds as many cells as the placed blocks have voxels, all taken
/// together.
pub proof fn law_cell_count(scene: &Scene)
    requires
        scene.wf(),
    ensures
        scene@.space.dom().finite(),
        scene@.space.len() == voxel_count(scene@, scene@.blocks.dom()),
{
    let v = scene@;
    law_world_valid(scene);
    lemma_cells_count(v, v.blocks.dom());
    assert forall|c: Coord| v.space.dom().contains(c) <==> cells_of(v, v.blocks.dom()).contains(
        c,
    ) by {
        if v.space.contains_key(c) {
            assert(v.cell_backed(c));
        }
    }
    assert(v.space.dom() =~= cells_of(v, v.blocks.dom()));
}

/// A well-formed scene shows a valid world.
pub proof fn law_world_valid(scene: &Scene)
    requires
        scene.wf(),
    ensures
        scene@.valid(),
{
    lemma_fits_valid(
        scene.blocks@,
        scene.space@,
        circuit_nodes(scene.circuit),
        circuit_edges(scene.circuit),
        scene.ticks,
    );
}

/// No cell holds voxels of two blocks: voxels of different blocks stand at
/// different positions.
pub proof fn law_cells_exclusive(scene: &Scene, a: InstanceID, i: int, b: InstanceID, j: int)
    requires
        scene.wf(),
        scene@.blocks.contains_key(a),
        scene@.blocks.contains_key(b),
        a != b,
        0 <= i < voxels_of(scene@.blocks[a]).len(),
        0 <= j < voxels_of(scene@.blocks[b]).len(),
    ensures
        voxels_of(scene@.blocks[a])[i].1 != voxels_of(scene@.blocks[b])[j].1,
{
    law_world_valid(scene);
    assert(scene@.voxel_in_space(a, i));
    assert(scene@.voxel_in_space(b, j));
}

/// Every terminal in the grid has its circuit node, no other cell has one,
/// and no node belongs to two cells.
pub proof fn law_terminals_have_nodes(scene: &Scene, a: Coord, b: Coord)
    requires
        scene.wf(),
        scene@.space.contains_key(a),
        scene@.space.contains_key(b),
    ensures
        scene.node_at(a) is Some <==> scene@.is_terminal(a),
        scene.node_at(a) is Some && scene.node_at(a) == scene.node_at(b) ==> a == b,
{
    let cells = scene.space@;
    let nodes = circuit_nodes(scene.circuit);
    assert(cell_known(scene.blocks@, cells, a));
    assert(cell_noded(cells, nodes, a));
    assert(cell_noded(cells, nodes, b));
}

/// Every link joins terminals of two different placed blocks.
pub proof fn law_links_join_blocks(scene: &Scene, p: (Coord, Coord))
    requires
        scene.wf(),
        scene@.links.contains_key(p),
    ensures
        scene@.is_terminal(p.0),
        scene@.is_terminal(p.1),
        scene@.blocks.contains_key(scene@.space[p.0].0),
        scene@.blocks.contains_key(scene@.space[p.1].0),
        scene@.space[p.0].0 != scene@.space[p.1].0,
{
    law_world_valid(scene);
    assert(scene@.link_sound(p));
    assert(scene@.cell_backed(p.0));
    assert(scene@.cell_backed(p.1));
}

/// After a tick every link has power exactly if one of the two blocks that it
/// joins puts out power.
pub proof fn law_tick_lights_links(v: SceneView, p: (Coord, Coord))
    requires
        v.valid(),
        v.links.contains_key(p),
    ensures
        v.ticked().links.contains_key(p),
        v.ticked().links[p] == (v.ticked().blocks[v.ticked().space[p.0].0].2.circuit_power()
            == Some(true) || v.ticked().blocks[v.ticked().space[p.1].0].2.circuit_power() == Some(
            true,
        )),
{
    assert(v.link_sound(p));
    assert(v.cell_backed(p.0));
    assert(v.cell_backed(p.1));
}

/// Placing a block and removing it again gives back the world as it was.
pub proof fn law_add_then_remove(
    v: SceneView,
    id: InstanceID,
    block: Block,
    position: Coord,
    orientation: Orient,
)
    requires
        v.valid(),
        !v.blocks.contains_key(id),
        !v.overlaps(voxels_of((position, orientation, block))),
    ensures
        v.placed(id, block, position, orientation).removed(id) == v,
{
    let s = voxels_of((position, orientation, block));
    let mid = v.placed(id, block, position, orientation);
    let back = mid.removed(id);
    assert(back.blocks =~= v.blocks);
    assert forall|c: Coord| back.space.contains_key(c) <==> v.space.contains_key(c) by {
        if v.space.contains_key(c) {
            assert(v.cell_backed(c));
        }
        if mid.space.contains_key(c) && !v.space.contains_key(c) {
            assert(mid.space[c].0 == id);
        }
    }
    assert(back.space =~= v.space);
    assert forall|p: (Coord, Coord)| back.links.contains_key(p) <==> v.links.contains_key(p) by {
        if v.links.contains_key(p) {
            assert(v.link_sound(p));
            assert(v.cell_backed(p.0));
            assert(v.cell_backed(p.1));
        }
        if mid.links.contains_key(p) && !v.links.contains_key(p) {
            assert(v.fresh_link(s, p));
            if terminal_at(s, p.0) {
                let i = choose|i: int|
                    0 <= i < s.len() && (#[trigger] s[i]).1 == p.0 && is_terminal_name(
                        s[i].0,
                    );
                assert(!v.space.contains_key(s[i].1));
                assert(covers(s, p.0));
                assert(mid.owned_by(id, p.0));
            } else {
                let i = choose|i: int|
                    0 <= i < s.len() && (#[trigger] s[i]).1 == p.1 && is_terminal_name(
                        s[i].0,
                    );
                assert(!v.space.contains_key(s[i].1));
                assert(covers(s, p.1));
                assert(mid.owned_by(id, p.1));
            }
        }
    }
    assert(back.links =~= v.links);
}

/// Giving a block a state with the voxels that it has leaves the world valid.
pub proof fn law_updated_valid(v: SceneView, id: InstanceID, block: Block)
    requires
        v.valid(),
        v.takes(id, block),
        block.timed(),
    ensures
        v.updated(id, block).valid(),
{
    let w = v.updated(id, block);
    let now = v.blocks[id];
    crate::block::lemma_structures_differ(block, now.2);
    crate::scene::lemma_same_structure(block, now.2);
    assert(sound_entry(now));
    assert(voxels_of(w.blocks[id]) == voxels_of(now));
    assert forall|i: int| 0 <= i < block.structure().len() implies #[trigger] now.1.turned(
        block.structure()[i].1,
    ).reaches(now.0) by {
        assert(now.1.turned(now.2.structure()[i].1).reaches(now.0));
    }
    assert forall|x: InstanceID| w.blocks.contains_key(x) implies sound_entry(
        #[trigger] w.blocks[x],
    ) by {
        if x != id {
            assert(sound_entry(v.blocks[x]));
        }
    }
    assert forall|x: InstanceID, i: int|
        w.blocks.contains_key(x) && 0 <= i < voxels_of(w.blocks[x]).len() implies #[trigger] w.voxel_in_space(
        x,
        i,
    ) by {
        assert(v.voxel_in_space(x, i));
    }
    assert forall|c: Coord| w.space.contains_key(c) implies #[trigger] w.cell_backed(c) by {
        assert(v.cell_backed(c));
        let x = v.space[c].0;
        let i = choose|i: int|
            0 <= i < voxels_of(v.blocks[x]).len() && #[trigger] voxels_of(v.blocks[x])[i] == (
                v.space[c].1,
                c,
            );
        assert(voxels_of(w.blocks[x])[i] == (w.space[c].1, c));
    }
    assert forall|p: (Coord, Coord)| w.links.contains_key(p) implies #[trigger] w.link_sound(p) by {
        assert(v.link_sound(p));
    }
    assert forall|a: Coord, b: Coord| #[trigger] w.near(a, b) implies w.links.contains_key(
        (a, b),
    ) by {
        assert(v.near(a, b));
    }
}

/// Placing a block where it fits leaves the world valid.
pub proof fn law_placed_valid(
    v: SceneView,
    id: InstanceID,
    block: Block,
    position: Coord,
    orientation: Orient,
)
    requires
        v.valid(),
        !v.blocks.contains_key(id),
        block.sound(),
        block.stands(position, orientation),
        !v.overlaps(voxels_of((position, orientation, block))),
    ensures
        v.placed(id, block, position, orientation).valid(),
{
    let entry = (position, orientation, block);
    let s = voxels_of(entry);
    let w = v.placed(id, block, position, orientation);
    lemma_placed_structure(entry);
    assert forall|c: Coord| covers(s, c) implies !v.space.contains_key(c) && w.space[c] == (
        id,
        s[voxel_at(s, c)].0,
    ) && s[voxel_at(s, c)].1 == c by {
        let i = choose|i: int| 0 <= i < s.len() && (#[trigger] s[i]).1 == c;
        assert(!v.space.contains_key(s[i].1));
    }
    assert forall|x: InstanceID, i: int|
        w.blocks.contains_key(x) && 0 <= i < voxels_of(w.blocks[x]).len() implies #[trigger] w.voxel_in_space(
        x,
        i,
    ) by {
        if x == id {
            assert(covers(s, s[i].1));
            assert(voxel_at(s, s[i].1) == i);
        } else {
            assert(v.voxel_in_space(x, i));
        }
    }
    assert forall|c: Coord| w.space.contains_key(c) implies #[trigger] w.cell_backed(c) by {
        if v.space.contains_key(c) {
            assert(v.cell_backed(c));
            let x = v.space[c].0;
            let i = choose|i: int|
                0 <= i < voxels_of(v.blocks[x]).len() && #[trigger] voxels_of(v.blocks[x])[i] == (
                    v.space[c].1,
                    c,
                );
            assert(voxels_of(w.blocks[x])[i] == (w.space[c].1, c));
        } else {
            let i = voxel_at(s, c);
            assert(voxels_of(w.blocks[id])[i] == (w.space[c].1, c));
        }
    }
    assert forall|p: (Coord, Coord)| w.links.contains_key(p) implies #[trigger] w.link_sound(p) by {
        if v.links.contains_key(p) {
            assert(v.link_sound(p));
            assert(v.cell_backed(p.0));
            assert(v.cell_backed(p.1));
        } else {
            assert(v.fresh_link(s, p));
            assert(p.0.adjacent(p.1) == p.1.adjacent(p.0));
            assert(v.fresh_link(s, (p.1, p.0)));
            if terminal_at(s, p.0) && v.is_terminal(p.1) {
                let i = choose|i: int|
                    0 <= i < s.len() && (#[trigger] s[i]).1 == p.0 && is_terminal_name(s[i].0);
                assert(covers(s, p.0));
                assert(voxel_at(s, p.0) == i);
                assert(v.cell_backed(p.1));
                if v.links.contains_key((p.1, p.0)) {
                    assert(v.link_sound((p.1, p.0)));
                }
            } else {
                let i = choose|i: int|
                    0 <= i < s.len() && (#[trigger] s[i]).1 == p.1 && is_terminal_name(s[i].0);
                assert(covers(s, p.1));
                assert(voxel_at(s, p.1) == i);
                assert(v.cell_backed(p.0));
                if v.links.contains_key((p.1, p.0)) {
                    assert(v.link_sound((p.1, p.0)));
                }
            }
        }
    }
    assert forall|a: Coord, b: Coord| #[trigger] w.near(a, b) implies w.links.contains_key(
        (a, b),
    ) by {
        if v.space.contains_key(a) && v.space.contains_key(b) {
            assert(v.near(a, b));
        } else if v.space.contains_key(b) {
            assert(covers(s, a));
            assert(terminal_at(s, a)) by {
                let i = voxel_at(s, a);
                assert(s[i].1 == a && is_terminal_name(s[i].0));
            }
            assert(v.fresh_link(s, (a, b)));
        } else if v.space.contains_key(a) {
            assert(covers(s, b));
            assert(terminal_at(s, b)) by {
                let i = voxel_at(s, b);
                assert(s[i].1 == b && is_terminal_name(s[i].0));
            }
            assert(v.fresh_link(s, (a, b)));
        } else {
            assert(covers(s, a) && covers(s, b));
        }
    }
}

/// A cell of a valid world is a cell of every valid world with the same blocks.
proof fn lemma_cell_in_both(v: SceneView, w: SceneView, c: Coord)
    requires
        v.valid(),
        w.valid(),
        v.blocks == w.blocks,
        v.space.contains_key(c),
    ensures
        w.space.contains_key(c),
        w.space[c] == v.space[c],
{
    assert(v.cell_backed(c));
    let x = v.space[c].0;
    let i = choose|i: int|
        0 <= i < voxels_of(v.blocks[x]).len() && #[trigger] voxels_of(v.blocks[x])[i] == (
            v.space[c].1,
            c,
        );
    assert(w.voxel_in_space(x, i));
}

/// Two valid worlds with the same blocks have the same cells and the same links.
pub proof fn law_world_from_blocks(v: SceneView, w: SceneView)
    requires
        v.valid(),
        w.valid(),
        v.blocks == w.blocks,
    ensures
        v.space == w.space,
        v.links.dom() == w.links.dom(),
{
    assert forall|c: Coord| #[trigger] v.space.contains_key(c) implies w.space.contains_key(c)
        && w.space[c] == v.space[c] by {
        lemma_cell_in_both(v, w, c);
    }
    assert forall|c: Coord| #[trigger] w.space.contains_key(c) implies v.space.contains_key(c) by {
        lemma_cell_in_both(w, v, c);
    }
    assert forall|c: Coord| v.space.contains_key(c) <==> w.space.contains_key(c) by {}
    assert(v.space =~= w.space);
    assert forall|p: (Coord, Coord)| v.links.contains_key(p) <==> w.links.contains_key(p) by {
        if v.links.contains_key(p) {
            assert(v.link_sound(p));
            assert(w.near(p.0, p.1));
        }
        if w.links.contains_key(p) {
            assert(w.link_sound(p));
            assert(v.near(p.0, p.1));
        }
    }
    assert(v.links.dom() =~= w.links.dom());
}

/// The list holds every block of the world once, as the world holds it.
pub open spec fn saves(v: SceneView, saved: Seq<Saved>) -> bool {
    &&& forall|i: int|
        0 <= i < saved.len() ==> v.blocks.contains_key((#[trigger] saved[i]).0) && v.blocks[saved[i].0]
            == (saved[i].1, saved[i].2, saved[i].3)
    &&& forall|i: int, j: int|
        0 <= i < saved.len() && 0 <= j < saved.len() && i != j ==> (#[trigger] saved[i]).0 != (
        #[trigger] saved[j]).0
    &&& forall|id: InstanceID| #[trigger]
        v.blocks.contains_key(id) ==> exists|i: int|
            0 <= i < saved.len() && (#[trigger] saved[i]).0 == id
}

/// The first `k` saved blocks can be put back one after the other, and make
/// a valid world that holds just them.
proof fn lemma_restore_prefix(v: SceneView, saved: Seq<Saved>, k: nat)
    requires
        v.valid(),
        saves(v, saved),
        k <= saved.len(),
    ensures
        restored(saved, v.ticks, k).valid(),
        restored(saved, v.ticks, k).ticks == v.ticks,
        forall|i: int| 0 <= i < k ==> #[trigger] restorable(saved, v.ticks, i),
        forall|id: InstanceID| #[trigger]
            restored(saved, v.ticks, k).blocks.contains_key(id) ==> v.blocks.contains_key(id)
                && restored(saved, v.ticks, k).blocks[id] == v.blocks[id] && exists|i: int|
                0 <= i < k && (#[trigger] saved[i]).0 == id,
        forall|i: int|
            0 <= i < k ==> restored(saved, v.ticks, k).blocks.contains_key(
                (#[trigger] saved[i]).0,
            ),
    decreases k,
{
    if k > 0 {
        let before = restored(saved, v.ticks, (k - 1) as nat);
        lemma_restore_prefix(v, saved, (k - 1) as nat);
        let item = saved[k - 1];
        let entry = (item.1, item.2, item.3);
        let s = voxels_of(entry);
        assert(sound_entry(v.blocks[item.0]));
        assert(!before.blocks.contains_key(item.0)) by {
            if before.blocks.contains_key(item.0) {
                let i = choose|i: int| 0 <= i < k - 1 && (#[trigger] saved[i]).0 == item.0;
                assert(saved[i].0 != saved[k - 1].0);
            }
        }
        assert(!before.overlaps(s)) by {
            if before.overlaps(s) {
                let i = choose|i: int|
                    0 <= i < s.len() && before.space.contains_key((#[trigger] s[i]).1);
                let c = s[i].1;
                assert(before.cell_backed(c));
                let x = before.space[c].0;
                let j = choose|j: int|
                    0 <= j < voxels_of(before.blocks[x]).len() && #[trigger] voxels_of(
                        before.blocks[x],
                    )[j] == (before.space[c].1, c);
                assert(v.voxel_in_space(x, j));
                assert(v.voxel_in_space(item.0, i));
            }
        }
        assert(restorable(saved, v.ticks, k - 1));
        law_placed_valid(before, item.0, item.3, item.1, item.2);
        let after = restored(saved, v.ticks, k);
        assert forall|id: InstanceID| #[trigger] after.blocks.contains_key(id) implies exists|
            i: int,
        | 0 <= i < k && (#[trigger] saved[i]).0 == id by {
            if id == item.0 {
                assert(saved[k - 1].0 == id);
            } else {
                let i = choose|i: int| 0 <= i < k - 1 && (#[trigger] saved[i]).0 == id;
                assert(0 <= i < k && saved[i].0 == id);
            }
        }
    }
}

/// A world can be built again from its blocks: each of them can be put back
/// in its turn, in whatever order they are listed, and the world that comes
/// of it has the same blocks, cells and links, and the same count of ticks.
pub proof fn law_restore(v: SceneView, saved: Seq<Saved>)
    requires
        v.valid(),
        saves(v, saved),
    ensures
        forall|i: int| 0 <= i < saved.len() ==> #[trigger] restorable(saved, v.ticks, i),
        restored(saved, v.ticks, saved.len()).blocks == v.blocks,
        restored(saved, v.ticks, saved.len()).space == v.space,
        restored(saved, v.ticks, saved.len()).links.dom() == v.links.dom(),
        restored(saved, v.ticks, saved.len()).ticks == v.ticks,
{
    let w = restored(saved, v.ticks, saved.len());
    lemma_restore_prefix(v, saved, saved.len());
    assert forall|id: InstanceID| v.blocks.contains_key(id) implies w.blocks.contains_key(id) by {
        let i = choose|i: int| 0 <= i < saved.len() && (#[trigger] saved[i]).0 == id;
        assert(w.blocks.contains_key(saved[i].0));
    }
    assert(w.blocks =~= v.blocks);
    law_world_from_blocks(v, w);
}

/// A tick is a function of the world: from equal worlds it gives equal
/// worlds and reports the same blocks as changed.
pub proof fn law_tick_deterministic(first: &Scene, second: &Scene)
    requires
        first.wf(),
        second.wf(),
        first@ == second@,
    ensures
        first@.ticked() == second@.ticked(),
        first@.tick_delta() == second@.tick_delta(),
{
}

} // verus!
