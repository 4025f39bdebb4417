use crate::block::{
    Block, is_circuit_voxel, is_terminal_name, lemma_names_distinct, lemma_offsets_small,
    names_distinct, Orient, places_distinct, small, Structure, structure_view,
};
use crate::circuit::{
    Circuit, circuit_add_node, circuit_edge_count, circuit_edge_endpoints, circuit_edge_indices,
    circuit_edge_weight, circuit_edges, circuit_empty, circuit_node_count, circuit_node_weight,
    circuit_nodes, circuit_remove_node, circuit_update_edge, edge_upserted, EdgeID, Edges,
    edges_without, EdgeView, joined, joins, Nodes, touches,
};
use crate::grid::{
    adjacent_entries, Cell, cell_view, CellView, Coord, entries_view, Grid, held, InstanceID,
    NodeID,
};
use std::collections::HashMap;
use vstd::prelude::*;

verus! {

broadcast use vstd::std_specs::hash::group_hash_axioms;

pub const OFF: bool = false;

pub const ON: bool = true;

/// A placed block: its position, its orientation and the block itself.
pub type Entry = (Coord, Orient, Block);

pub type Blocks = Map<InstanceID, Entry>;

pub type Cells = Map<Coord, CellView>;

/// The voxels of a placed block, at their positions in the grid.
pub open spec fn voxels_of(e: Entry) -> Structure {
    e.2.global_structure(e.0, e.1)
}

/// Some voxel of the structure stands at `c`.
pub open spec fn covers(s: Structure, c: Coord) -> bool {
    exists|i: int| 0 <= i < s.len() && (#[trigger] s[i]).1 == c
}

/// The voxel of the structure that stands at `c`.
pub open spec fn voxel_at(s: Structure, c: Coord) -> int {
    choose|i: int| 0 <= i < s.len() && (#[trigger] s[i]).1 == c
}

/// Some terminal of the structure stands at `c`.
pub open spec fn terminal_at(s: Structure, c: Coord) -> bool {
    exists|i: int| 0 <= i < s.len() && (#[trigger] s[i]).1 == c && is_terminal_name(s[i].0)
}

/// A block that a scene can hold: at a position where every voxel is
/// representable, not air, and a clock only with a rate.
pub open spec fn sound_entry(e: Entry) -> bool {
    e.2.stands(e.0, e.1) && e.2.sound()
}

/// The least number from `k` on that is no identifier of a block.
pub open spec fn free_from(blocks: Map<InstanceID, Entry>, k: nat) -> nat
    decreases u32::MAX + 1 - k,
{
    if k > u32::MAX || !blocks.contains_key(k as u32) {
        k
    } else {
        free_from(blocks, k + 1)
    }
}

/// Where every number of a range is the identifier of a block, there are at
/// least as many blocks as the range has numbers.
pub proof fn lemma_range_in_use(blocks: Map<InstanceID, Entry>, from: nat, count: nat)
    requires
        blocks.dom().finite(),
        from + count <= u32::MAX + 1,
        forall|k: nat| from <= k < from + count ==> blocks.contains_key(#[trigger] (k as u32)),
    ensures
        count <= blocks.len(),
    decreases count,
{
    if count > 0 {
        let last = (from + count - 1) as u32;
        assert(blocks.contains_key(((from + count - 1) as nat) as u32));
        let rest = blocks.remove(last);
        assert forall|k: nat| from <= k < from + count - 1 implies rest.contains_key(
            #[trigger] (k as u32),
        ) by {
            assert(blocks.contains_key(k as u32));
        }
        lemma_range_in_use(rest, from, (count - 1) as nat);
    }
}

/// The world as its users see it: the placed blocks, which voxel fills which
/// cell, the power of the link between each pair of linked terminals (under
/// both orders of the pair), and the tick counter.
pub struct SceneView {
    pub blocks: Map<InstanceID, Entry>,
    pub space: Map<Coord, (InstanceID, Seq<char>)>,
    pub links: Map<(Coord, Coord), bool>,
    pub ticks: u32,
}

impl SceneView {
    /// The world without any block, before the first tick.
    pub open spec fn empty() -> SceneView {
        SceneView { blocks: Map::empty(), space: Map::empty(), links: Map::empty(), ticks: 0 }
    }

    /// The identifier that the next added block gets: the number of blocks
    /// where no block has that, else the next number above it that no block has.
    pub open spec fn next_id(self) -> InstanceID {
        free_from(self.blocks, self.blocks.len()) as u32
    }

    /// Some voxel of the structure would fall on an occupied cell.
    pub open spec fn overlaps(self, s: Structure) -> bool {
        exists|i: int| 0 <= i < s.len() && self.space.contains_key((#[trigger] s[i]).1)
    }

    /// The cell at `c` holds a terminal.
    pub open spec fn is_terminal(self, c: Coord) -> bool {
        self.space.contains_key(c) && is_terminal_name(self.space[c].1)
    }

    /// The cell at `c` holds a voxel of the block `id`.
    pub open spec fn owned_by(self, id: InstanceID, c: Coord) -> bool {
        self.space.contains_key(c) && self.space[c].0 == id
    }

    /// The pair is a terminal of the structure and an adjacent terminal of the
    /// world, in either order.
    pub open spec fn fresh_link(self, s: Structure, p: (Coord, Coord)) -> bool {
        p.0.adjacent(p.1) && ((terminal_at(s, p.0) && self.is_terminal(p.1)) || (terminal_at(
            s,
            p.1,
        ) && self.is_terminal(p.0)))
    }

    /// The world after the block was placed under `id`: its voxels fill their
    /// cells, and each of its terminals is linked, without power, to every
    /// adjacent terminal that was there.
    pub open spec fn placed(
        self,
        id: InstanceID,
        block: Block,
        position: Coord,
        orientation: Orient,
    ) -> SceneView {
        let s = voxels_of((position, orientation, block));
        SceneView {
            blocks: self.blocks.insert(id, (position, orientation, block)),
            space: Map::new(
                |c: Coord| self.space.contains_key(c) || covers(s, c),
                |c: Coord|
                    if self.space.contains_key(c) {
                        self.space[c]
                    } else {
                        (id, s[voxel_at(s, c)].0)
                    },
            ),
            links: Map::new(
                |p: (Coord, Coord)| self.links.contains_key(p) || self.fresh_link(s, p),
                |p: (Coord, Coord)|
                    if self.links.contains_key(p) {
                        self.links[p]
                    } else {
                        false
                    },
            ),
            ticks: self.ticks,
        }
    }

    /// The world after the block `id` was removed, with its cells and the
    /// links of its terminals.
    pub open spec fn removed(self, id: InstanceID) -> SceneView {
        SceneView {
            blocks: self.blocks.remove(id),
            space: Map::new(
                |c: Coord| self.space.contains_key(c) && self.space[c].0 != id,
                |c: Coord| self.space[c],
            ),
            links: Map::new(
                |p: (Coord, Coord)|
                    self.links.contains_key(p) && !self.owned_by(id, p.0) && !self.owned_by(
                        id,
                        p.1,
                    ),
                |p: (Coord, Coord)| self.links[p],
            ),
            ticks: self.ticks,
        }
    }

    /// Whether the block `id` can take the state `block` in a valid world:
    /// it is there, and its voxels are those of `block`.
    pub open spec fn takes(self, id: InstanceID, block: Block) -> bool {
        self.blocks.contains_key(id) && block.structure() == self.blocks[id].2.structure()
    }

    /// The world after the payload of the block `id` was replaced: cells and
    /// links stay as they are.
    pub open spec fn updated(self, id: InstanceID, block: Block) -> SceneView {
        SceneView {
            blocks: self.blocks.insert(id, (self.blocks[id].0, self.blocks[id].1, block)),
            ..self
        }
    }

    /// The cell of voxel `i` of the block `id` holds that voxel.
    pub open spec fn voxel_in_space(self, id: InstanceID, i: int) -> bool {
        let v = voxels_of(self.blocks[id])[i];
        self.space.contains_key(v.1) && self.space[v.1] == (id, v.0)
    }

    /// The cell at `c` holds a voxel of a placed block.
    pub open spec fn cell_backed(self, c: Coord) -> bool {
        let id = self.space[c].0;
        self.blocks.contains_key(id) && exists|i: int|
            0 <= i < voxels_of(self.blocks[id]).len() && #[trigger] voxels_of(self.blocks[id])[i]
                == (self.space[c].1, c)
    }

    /// The link joins adjacent terminals of two different blocks and has the
    /// same power under both orders of the pair.
    pub open spec fn link_sound(self, p: (Coord, Coord)) -> bool {
        &&& self.links.contains_key((p.1, p.0))
        &&& self.links[(p.1, p.0)] == self.links[p]
        &&& self.is_terminal(p.0)
        &&& self.is_terminal(p.1)
        &&& self.space[p.0].0 != self.space[p.1].0
        &&& p.0.adjacent(p.1)
    }

    /// The cells at `a` and `b` hold adjacent terminals of two different blocks.
    pub open spec fn near(self, a: Coord, b: Coord) -> bool {
        &&& self.is_terminal(a)
        &&& self.is_terminal(b)
        &&& self.space[a].0 != self.space[b].0
        &&& a.adjacent(b)
    }

    /// What holds of every world that the operations of a scene produce.
    pub open spec fn valid(self) -> bool {
        &&& self.blocks.dom().finite()
        &&& forall|id: InstanceID|
            self.blocks.contains_key(id) ==> sound_entry(#[trigger] self.blocks[id])
        &&& forall|id: InstanceID, i: int|
            self.blocks.contains_key(id) && 0 <= i < voxels_of(self.blocks[id]).len()
                ==> #[trigger] self.voxel_in_space(id, i)
        &&& forall|c: Coord| self.space.contains_key(c) ==> #[trigger] self.cell_backed(c)
        &&& forall|p: (Coord, Coord)| self.links.contains_key(p) ==> #[trigger] self.link_sound(p)
        &&& forall|a: Coord, b: Coord| #[trigger] self.near(a, b) ==> self.links.contains_key((a, b))
    }
}

/// Every placed block is one that a scene can hold.
pub open spec fn entries_sound(blocks: Blocks) -> bool {
    forall|id: InstanceID| blocks.contains_key(id) ==> sound_entry(#[trigger] blocks[id])
}

/// The cell of voxel `i` of the block `id` holds that voxel, with a node
/// exactly where the voxel is a terminal.
pub open spec fn voxel_stored(blocks: Blocks, cells: Cells, id: InstanceID, i: int) -> bool {
    let v = voxels_of(blocks[id])[i];
    &&& cells.contains_key(v.1)
    &&& cells[v.1].0 == id
    &&& cells[v.1].1 == v.0
}

/// Every voxel of every placed block is stored in its cell.
pub open spec fn blocks_stored(blocks: Blocks, cells: Cells) -> bool {
    forall|id: InstanceID, i: int|
        blocks.contains_key(id) && 0 <= i < voxels_of(blocks[id]).len() ==> #[trigger] voxel_stored(
            blocks,
            cells,
            id,
            i,
        )
}

/// The cell at `c` holds a voxel of a placed block, with a node exactly where
/// the voxel is a terminal.
pub open spec fn cell_known(blocks: Blocks, cells: Cells, c: Coord) -> bool {
    let id = cells[c].0;
    &&& blocks.contains_key(id)
    &&& exists|i: int|
        0 <= i < voxels_of(blocks[id]).len() && #[trigger] voxels_of(blocks[id])[i] == (
            cells[c].1,
            c,
        )
    &&& cells[c].2 is Some <==> is_terminal_name(cells[c].1)
}

/// Every cell holds a voxel of a placed block.
pub open spec fn cells_known(blocks: Blocks, cells: Cells) -> bool {
    forall|c: Coord| cells.contains_key(c) ==> #[trigger] cell_known(blocks, cells, c)
}

/// The node of the cell at `c`, if it has one, carries the cell's voxel.
pub open spec fn cell_noded(cells: Cells, nodes: Nodes, c: Coord) -> bool {
    cells[c].2 is Some ==> nodes.contains_key(cells[c].2->0) && nodes[cells[c].2->0] == (
        cells[c].0,
        cells[c].1,
        c,
    )
}

/// Every node of a cell carries the cell's voxel.
pub open spec fn cells_noded(cells: Cells, nodes: Nodes) -> bool {
    forall|c: Coord| cells.contains_key(c) ==> #[trigger] cell_noded(cells, nodes, c)
}

/// The node `n` is the node of the cell at its position.
pub open spec fn node_celled(cells: Cells, nodes: Nodes, n: NodeID) -> bool {
    cells.contains_key(nodes[n].2) && cells[nodes[n].2] == (nodes[n].0, nodes[n].1, Some(n))
}

/// Every node is the node of the cell at its position.
pub open spec fn nodes_celled(cells: Cells, nodes: Nodes) -> bool {
    forall|n: NodeID| nodes.contains_key(n) ==> #[trigger] node_celled(cells, nodes, n)
}

/// The edge joins two nodes of different blocks at adjacent positions.
pub open spec fn edge_sound(nodes: Nodes, e: EdgeView) -> bool {
    &&& nodes.contains_key(e.0)
    &&& nodes.contains_key(e.1)
    &&& nodes[e.0].0 != nodes[e.1].0
    &&& nodes[e.0].2.adjacent(nodes[e.1].2)
}

/// Every edge joins two nodes of different blocks at adjacent positions.
pub open spec fn edges_sound(nodes: Nodes, edges: Edges) -> bool {
    forall|e: EdgeID| edges.contains_key(e) ==> edge_sound(nodes, #[trigger] edges[e])
}

/// No two edges join the same pair of nodes.
pub open spec fn edges_simple(edges: Edges) -> bool {
    forall|e1: EdgeID, e2: EdgeID|
        #[trigger] edges.contains_key(e1) && #[trigger] edges.contains_key(e2) && joins(
            edges[e1],
            edges[e2].0,
            edges[e2].1,
        ) ==> e1 == e2
}

/// The cells at `a` and `b` hold adjacent terminals of two different blocks.
pub open spec fn near_cells(cells: Cells, a: Coord, b: Coord) -> bool {
    &&& cells.contains_key(a)
    &&& cells.contains_key(b)
    &&& is_terminal_name(cells[a].1)
    &&& is_terminal_name(cells[b].1)
    &&& cells[a].0 != cells[b].0
    &&& a.adjacent(b)
}

/// Adjacent terminals of two different blocks are joined by an edge.
pub open spec fn edges_complete(cells: Cells, edges: Edges) -> bool {
    forall|a: Coord, b: Coord| #[trigger]
        near_cells(cells, a, b) ==> cells[a].2 is Some && cells[b].2 is Some && joined(
            edges,
            cells[a].2->0,
            cells[b].2->0,
        )
}

/// How the blocks, the grid and the circuit graph of a scene fit together.
pub open spec fn fits(blocks: Blocks, cells: Cells, nodes: Nodes, edges: Edges) -> bool {
    &&& blocks.dom().finite()
    &&& nodes.dom().finite()
    &&& edges.dom().finite()
    &&& entries_sound(blocks)
    &&& blocks_stored(blocks, cells)
    &&& cells_known(blocks, cells)
    &&& cells_noded(cells, nodes)
    &&& nodes_celled(cells, nodes)
    &&& edges_sound(nodes, edges)
    &&& edges_simple(edges)
    &&& edges_complete(cells, edges)
}

/// The terminals at `a` and `b` are linked by an edge of the circuit.
pub open spec fn linked(cells: Cells, edges: Edges, a: Coord, b: Coord) -> bool {
    &&& cells.contains_key(a)
    &&& cells.contains_key(b)
    &&& cells[a].2 is Some
    &&& cells[b].2 is Some
    &&& joined(edges, cells[a].2->0, cells[b].2->0)
}

/// An edge between the terminals at `a` and `b`.
pub open spec fn link_edge(cells: Cells, edges: Edges, a: Coord, b: Coord) -> EdgeID {
    choose|e: EdgeID| #[trigger]
        edges.contains_key(e) && joins(edges[e], cells[a].2->0, cells[b].2->0)
}

/// The links of the world: the power of the edge between each pair of linked terminals.
pub open spec fn links_of(cells: Cells, edges: Edges) -> Map<(Coord, Coord), bool> {
    Map::new(
        |p: (Coord, Coord)| linked(cells, edges, p.0, p.1),
        |p: (Coord, Coord)| edges[link_edge(cells, edges, p.0, p.1)].2,
    )
}

/// The occupancy of the world: which voxel of which block fills each cell.
pub open spec fn space_of(cells: Cells) -> Map<Coord, (InstanceID, Seq<char>)> {
    Map::new(|c: Coord| cells.contains_key(c), |c: Coord| (cells[c].0, cells[c].1))
}

/// Voxel `j` of the new block `id` is stored in the grid under the handle
/// `handles[j]`, which is a new node exactly where the voxel is a terminal.
pub open spec fn voxel_settled(
    n0: Nodes,
    c1: Cells,
    n1: Nodes,
    id: InstanceID,
    s: Structure,
    handles: Seq<Option<NodeID>>,
    j: int,
) -> bool {
    &&& c1.contains_key(s[j].1)
    &&& c1[s[j].1] == (id, s[j].0, handles[j])
    &&& handles[j] is Some <==> is_terminal_name(s[j].0)
    &&& handles[j] is Some ==> {
        &&& !n0.contains_key(handles[j]->0)
        &&& n1.contains_key(handles[j]->0)
        &&& n1[handles[j]->0] == (id, s[j].0, s[j].1)
    }
}

/// The cell at `c` was there before, unchanged, or holds one of the first
/// `upto` voxels of the new block.
pub open spec fn cell_placed(c0: Cells, c1: Cells, s: Structure, upto: int, c: Coord) -> bool {
    if c0.contains_key(c) {
        c1[c] == c0[c]
    } else {
        exists|j: int| 0 <= j < upto && (#[trigger] s[j]).1 == c
    }
}

/// The node `n` was there before, unchanged, or is the handle of one of the
/// first `upto` voxels of the new block.
pub open spec fn node_placed(
    n0: Nodes,
    n1: Nodes,
    handles: Seq<Option<NodeID>>,
    upto: int,
    n: NodeID,
) -> bool {
    if n0.contains_key(n) {
        n1[n] == n0[n]
    } else {
        exists|j: int| 0 <= j < upto && #[trigger] handles[j] == Some(n)
    }
}

/// The first `upto` voxels of the new block `id` are in the grid and its
/// terminals among them in the graph, beside all that was there before.
pub open spec fn settled(
    c0: Cells,
    n0: Nodes,
    c1: Cells,
    n1: Nodes,
    id: InstanceID,
    s: Structure,
    handles: Seq<Option<NodeID>>,
    upto: int,
) -> bool {
    &&& n1.dom().finite()
    &&& n1.len() <= n0.len() + upto
    &&& forall|c: Coord| #[trigger] c0.contains_key(c) ==> c1.contains_key(c)
    &&& forall|n: NodeID| #[trigger] n0.contains_key(n) ==> n1.contains_key(n)
    &&& forall|c: Coord| #[trigger] c1.contains_key(c) ==> cell_placed(c0, c1, s, upto, c)
    &&& forall|n: NodeID| #[trigger] n1.contains_key(n) ==> node_placed(n0, n1, handles, upto, n)
    &&& forall|j: int|
        0 <= j < upto ==> #[trigger] voxel_settled(n0, c1, n1, id, s, handles, j)
}

/// Stores the voxels of a new block in the grid, with a new circuit node for
/// each terminal.
fn settle(
    circuit: &mut Circuit,
    space: &mut Grid,
    id: InstanceID,
    voxels: &Vec<(String, Coord)>,
) -> (handles: Vec<Option<NodeID>>)
    requires
        names_distinct(structure_view(voxels@)),
        places_distinct(structure_view(voxels@)),
        circuit_nodes(*old(circuit)).dom().finite(),
        circuit_nodes(*old(circuit)).len() + voxels.len() < u32::MAX,
        forall|i: int|
            0 <= i < voxels.len() ==> !old(space)@.contains_key(
                (#[trigger] structure_view(voxels@)[i]).1,
            ),
        forall|c: Coord| #[trigger] old(space)@.contains_key(c) ==> old(space)@[c].0 != id,
    ensures
        handles.len() == voxels.len(),
        settled(
            old(space)@,
            circuit_nodes(*old(circuit)),
            final(space)@,
            circuit_nodes(*final(circuit)),
            id,
            structure_view(voxels@),
            handles@,
            voxels.len() as int,
        ),
        circuit_edges(*final(circuit)) == circuit_edges(*old(circuit)),
{
    let ghost c0 = space@;
    let ghost n0 = circuit_nodes(*circuit);
    let ghost s = structure_view(voxels@);
    let mut handles: Vec<Option<NodeID>> = Vec::new();
    let mut i: usize = 0;
    while i < voxels.len()
        invariant
            i <= voxels.len(),
            handles.len() == i,
            s == structure_view(voxels@),
            names_distinct(s),
            places_distinct(s),
            n0.dom().finite(),
            n0.len() + voxels.len() < u32::MAX,
            forall|k: int| 0 <= k < voxels.len() ==> !c0.contains_key((#[trigger] s[k]).1),
            forall|c: Coord| #[trigger] c0.contains_key(c) ==> c0[c].0 != id,
            settled(c0, n0, space@, circuit_nodes(*circuit), id, s, handles@, i as int),
            circuit_edges(*circuit) == circuit_edges(*old(circuit)),
        decreases voxels.len() - i,
    {
        let ghost c_mid = space@;
        let ghost n_mid = circuit_nodes(*circuit);
        let ghost h_mid = handles@;
        let name = voxels[i].0.clone();
        let at = voxels[i].1;
        assert(s[i as int] == (name@, at));
        let handle = if is_circuit_voxel(name.as_str()) {
            Some(circuit_add_node(circuit, id, name.clone(), at))
        } else {
            None
        };
        let ghost n_new = circuit_nodes(*circuit);
        proof {
            assert forall|c: Coord| c_mid.contains_key(c) implies c_mid[c] != (
                id,
                name@,
                handle,
            ) by {
                assert(cell_placed(c0, c_mid, s, i as int, c));
                if !c0.contains_key(c) {
                    let j = choose|j: int| 0 <= j < i && (#[trigger] s[j]).1 == c;
                    assert(voxel_settled(n0, c_mid, n_mid, id, s, h_mid, j));
                    assert(s[j].0 != s[i as int].0);
                }
            }
            assert(!held(c_mid, (id, name@, handle)));
        }
        let stored = space.set(at, (id, name, handle));
        handles.push(handle);
        proof {
            let c_new = space@;
            let h_new = handles@;
            assert(c_new == c_mid.insert(at, (id, s[i as int].0, handle)));
            assert forall|j: int| 0 <= j < i + 1 implies #[trigger] voxel_settled(
                n0,
                c_new,
                n_new,
                id,
                s,
                h_new,
                j,
            ) by {
                if j < i {
                    assert(voxel_settled(n0, c_mid, n_mid, id, s, h_mid, j));
                    assert(s[j].1 != s[i as int].1);
                    assert(h_new[j] == h_mid[j]);
                }
            }
            assert forall|c: Coord| #[trigger] c_new.contains_key(c) implies cell_placed(
                c0,
                c_new,
                s,
                i + 1,
                c,
            ) by {
                if c == at {
                    assert(s[i as int].1 == c);
                } else {
                    assert(cell_placed(c0, c_mid, s, i as int, c));
                    if !c0.contains_key(c) {
                        let j = choose|j: int| 0 <= j < i && (#[trigger] s[j]).1 == c;
                        assert(0 <= j < i + 1 && s[j].1 == c);
                    }
                }
            }
            assert forall|n: NodeID| #[trigger] n_new.contains_key(n) implies node_placed(
                n0,
                n_new,
                h_new,
                i + 1,
                n,
            ) by {
                if handle == Some(n) {
                    assert(h_new[i as int] == Some(n));
                    if n0.contains_key(n) {
                        assert(n_mid.contains_key(n));
                    }
                } else {
                    assert(n_mid.contains_key(n));
                    assert(node_placed(n0, n_mid, h_mid, i as int, n));
                    if !n0.contains_key(n) {
                        let j = choose|j: int| 0 <= j < i && #[trigger] h_mid[j] == Some(n);
                        assert(0 <= j < i + 1 && h_new[j] == Some(n));
                    }
                }
            }
        }
        i = i + 1;
    }
    handles
}

/// The node of a grid entry.
pub open spec fn entry_node(e: (Coord, CellView)) -> Option<NodeID> {
    let cell = e.1;
    cell.2
}

/// The grid entry holds a terminal of a block other than `id`.
pub open spec fn wanted(id: InstanceID, e: (Coord, CellView)) -> bool {
    let cell = e.1;
    is_terminal_name(cell.1) && cell.0 != id
}

/// The edge `e` was there before and is as it was, but for its power where it
/// touches `h`, which may have gone.
pub open spec fn edge_kept(e0: Edges, e1: Edges, h: NodeID, e: EdgeID) -> bool {
    &&& e1.contains_key(e)
    &&& e1[e] == e0[e] || (touches(e0[e], h) && e1[e] == (e0[e].0, e0[e].1, false))
}

/// The edge `e` is new: it runs, without power, from `h` to the node of one
/// of the first `upto` entries that are wanted.
pub open spec fn edge_made(
    e1: Edges,
    h: NodeID,
    id: InstanceID,
    adj: Seq<(Coord, CellView)>,
    upto: int,
    e: EdgeID,
) -> bool {
    exists|k: int|
        0 <= k < upto && wanted(id, #[trigger] adj[k]) && e1[e] == (
            h,
            entry_node(adj[k])->0,
            false,
        )
}

/// The node `h` is joined to the node of each of the first `upto` entries
/// that are wanted, and nothing else was added.
pub open spec fn connected(
    e0: Edges,
    e1: Edges,
    h: NodeID,
    id: InstanceID,
    adj: Seq<(Coord, CellView)>,
    upto: int,
) -> bool {
    &&& e1.dom().finite()
    &&& e1.len() <= e0.len() + upto
    &&& edges_simple(e0) ==> edges_simple(e1)
    &&& forall|e: EdgeID| #[trigger] e0.contains_key(e) ==> edge_kept(e0, e1, h, e)
    &&& forall|e: EdgeID|
        #[trigger] e1.contains_key(e) && !e0.contains_key(e) ==> edge_made(e1, h, id, adj, upto, e)
    &&& forall|k: int|
        0 <= k < upto && wanted(id, #[trigger] adj[k]) ==> joined(e1, h, entry_node(adj[k])->0)
}

/// Links the terminal `h` of the block `id` to every listed terminal of another block.
fn connect(circuit: &mut Circuit, h: NodeID, id: InstanceID, adj: &Vec<(Coord, Cell)>)
    requires
        circuit_nodes(*old(circuit)).contains_key(h),
        circuit_edges(*old(circuit)).dom().finite(),
        circuit_edges(*old(circuit)).len() + adj.len() < u32::MAX,
        forall|k: int|
            0 <= k < adj.len() && wanted(id, #[trigger] entries_view(adj@)[k]) ==> entry_node(
                entries_view(adj@)[k],
            ) is Some && circuit_nodes(*old(circuit)).contains_key(
                entry_node(entries_view(adj@)[k])->0,
            ),
    ensures
        circuit_nodes(*final(circuit)) == circuit_nodes(*old(circuit)),
        connected(
            circuit_edges(*old(circuit)),
            circuit_edges(*final(circuit)),
            h,
            id,
            entries_view(adj@),
            adj.len() as int,
        ),
{
    let ghost e0 = circuit_edges(*circuit);
    let ghost near = entries_view(adj@);
    let mut k: usize = 0;
    while k < adj.len()
        invariant
            k <= adj.len(),
            near == entries_view(adj@),
            circuit_nodes(*circuit) == circuit_nodes(*old(circuit)),
            circuit_nodes(*circuit).contains_key(h),
            e0.dom().finite(),
            e0.len() + adj.len() < u32::MAX,
            forall|i: int|
                0 <= i < adj.len() && wanted(id, #[trigger] near[i]) ==> entry_node(near[i]) is Some
                    && circuit_nodes(*circuit).contains_key(entry_node(near[i])->0),
            connected(e0, circuit_edges(*circuit), h, id, near, k as int),
        decreases adj.len() - k,
    {
        let ghost e_mid = circuit_edges(*circuit);
        assert(near[k as int] == (adj@[k as int].0, cell_view(adj@[k as int].1)));
        let owner = adj[k].1.0;
        let terminal = is_circuit_voxel(adj[k].1.1.as_str());
        if terminal && owner != id {
            assert(wanted(id, near[k as int]));
            let node = adj[k].1.2.unwrap();
            let e = circuit_update_edge(circuit, h, node, false);
            proof {
                let e_new = circuit_edges(*circuit);
                assert(edge_upserted(e_mid, e_new, h, node, false, e));
                assert(e_new.contains_key(e) && joins(e_new[e], h, node));
                assert forall|x: EdgeID| #[trigger] e0.contains_key(x) implies edge_kept(
                    e0,
                    e_new,
                    h,
                    x,
                ) by {
                    assert(edge_kept(e0, e_mid, h, x));
                }
                assert forall|x: EdgeID| #[trigger]
                    e_new.contains_key(x) && !e0.contains_key(x) implies edge_made(
                    e_new,
                    h,
                    id,
                    near,
                    k + 1,
                    x,
                ) by {
                    if e_mid.contains_key(x) {
                        assert(edge_made(e_mid, h, id, near, k as int, x));
                        let i = choose|i: int|
                            0 <= i < k && wanted(id, #[trigger] near[i]) && e_mid[x] == (
                                h,
                                entry_node(near[i])->0,
                                false,
                            );
                        assert(0 <= i < k + 1 && wanted(id, near[i]) && e_new[x] == (
                            h,
                            entry_node(near[i])->0,
                            false,
                        ));
                    } else {
                        assert(x == e);
                        assert(0 <= k < k + 1 && wanted(id, near[k as int]) && e_new[x] == (
                            h,
                            entry_node(near[k as int])->0,
                            false,
                        ));
                    }
                }
                assert forall|i: int| 0 <= i < k + 1 && wanted(id, #[trigger] near[i]) implies joined(
                    e_new,
                    h,
                    entry_node(near[i])->0,
                ) by {
                    if i < k {
                        let x = choose|x: EdgeID| #[trigger]
                            e_mid.contains_key(x) && joins(e_mid[x], h, entry_node(near[i])->0);
                        assert(e_new.contains_key(x) && joins(
                            e_new[x],
                            h,
                            entry_node(near[i])->0,
                        ));
                    }
                }
                if edges_simple(e0) {
                    assert(edges_simple(e_mid));
                    assert forall|x: EdgeID, y: EdgeID|
                        #[trigger] e_new.contains_key(x) && #[trigger] e_new.contains_key(y)
                            && joins(e_new[x], e_new[y].0, e_new[y].1) implies x == y by {
                        if x != y {
                            if x != e && y != e {
                                assert(e_mid.contains_key(x) && e_mid.contains_key(y));
                            } else if joined(e_mid, h, node) {
                                assert(e_mid.contains_key(x) && e_mid.contains_key(y));
                            } else if x == e {
                                assert(e_mid.contains_key(y));
                                assert(joins(e_mid[y], h, node));
                            } else {
                                assert(e_mid.contains_key(x));
                                assert(joins(e_mid[x], h, node));
                            }
                        }
                    }
                }
            }
        } else {
            assert(!wanted(id, near[k as int]));
            proof {
                let e_new = e_mid;
                assert forall|x: EdgeID| #[trigger]
                    e_new.contains_key(x) && !e0.contains_key(x) implies edge_made(
                    e_new,
                    h,
                    id,
                    near,
                    k + 1,
                    x,
                ) by {
                    assert(edge_made(e_mid, h, id, near, k as int, x));
                    let i = choose|i: int|
                        0 <= i < k && wanted(id, #[trigger] near[i]) && e_mid[x] == (
                            h,
                            entry_node(near[i])->0,
                            false,
                        );
                    assert(0 <= i < k + 1 && wanted(id, near[i]) && e_new[x] == (
                        h,
                        entry_node(near[i])->0,
                        false,
                    ));
                }
            }
        }
        k = k + 1;
    }
}

/// The cell at `c` held a terminal before the block was placed, next to voxel `j`.
pub open spec fn near_terminal(c0: Cells, s: Structure, j: int, c: Coord) -> bool {
    c0.contains_key(c) && is_terminal_name(c0[c].1) && c.adjacent(s[j].1)
}

/// The edge `e` runs, without power, from a terminal among the first `upto`
/// voxels of the new block to an adjacent terminal that was there before.
pub open spec fn edge_fresh(
    c0: Cells,
    e1: Edges,
    s: Structure,
    handles: Seq<Option<NodeID>>,
    upto: int,
    e: EdgeID,
) -> bool {
    exists|j: int, c: Coord|
        0 <= j < upto && handles[j] is Some && #[trigger] near_terminal(c0, s, j, c) && e1[e] == (
            handles[j]->0,
            c0[c].2->0,
            false,
        )
}

/// The terminals among the first `upto` voxels of the new block are joined to
/// every adjacent terminal that was there before, and to nothing else; the
/// edges from before are as they were.
pub open spec fn linked_up(
    c0: Cells,
    e0: Edges,
    e1: Edges,
    s: Structure,
    handles: Seq<Option<NodeID>>,
    upto: int,
) -> bool {
    &&& e1.dom().finite()
    &&& e1.len() <= e0.len() + 6 * upto
    &&& edges_simple(e1)
    &&& forall|e: EdgeID| #[trigger] e0.contains_key(e) ==> e1.contains_key(e) && e1[e] == e0[e]
    &&& forall|e: EdgeID|
        #[trigger] e1.contains_key(e) && !e0.contains_key(e) ==> edge_fresh(
            c0,
            e1,
            s,
            handles,
            upto,
            e,
        )
    &&& forall|j: int, c: Coord|
        0 <= j < upto && handles[j] is Some && #[trigger] near_terminal(c0, s, j, c) ==> joined(
            e1,
            handles[j]->0,
            c0[c].2->0,
        )
}

/// A listed neighbour of voxel `j` that belongs to another block was there
/// before the block was placed, and has its node.
proof fn lemma_near_is_old(
    b0: Blocks,
    c0: Cells,
    n0: Nodes,
    e0: Edges,
    c1: Cells,
    n1: Nodes,
    id: InstanceID,
    s: Structure,
    handles: Seq<Option<NodeID>>,
    j: int,
    near: Seq<(Coord, CellView)>,
    k: int,
)
    requires
        fits(b0, c0, n0, e0),
        settled(c0, n0, c1, n1, id, s, handles, s.len() as int),
        0 <= j < s.len(),
        near.to_set() == adjacent_entries(c1, s[j].1),
        0 <= k < near.len(),
        wanted(id, near[k]),
    ensures
        near_terminal(c0, s, j, near[k].0),
        near[k].1 == c0[near[k].0],
        entry_node(near[k]) is Some,
        n0.contains_key(entry_node(near[k])->0),
        n1.contains_key(entry_node(near[k])->0),
        n0[entry_node(near[k])->0].2 == near[k].0,
{
    let c = near[k].0;
    assert(near.to_set().contains(near[k]));
    assert(adjacent_entries(c1, s[j].1).contains(near[k]));
    assert(c1.contains_key(c));
    assert(cell_placed(c0, c1, s, s.len() as int, c));
    if !c0.contains_key(c) {
        let i = choose|i: int| 0 <= i < s.len() && (#[trigger] s[i]).1 == c;
        assert(voxel_settled(n0, c1, n1, id, s, handles, i));
    }
    assert(cell_known(b0, c0, c));
    assert(cell_noded(c0, n0, c));
}

/// Linking one more terminal of the new block keeps what `linked_up` says.
proof fn lemma_link_step(
    b0: Blocks,
    c0: Cells,
    n0: Nodes,
    e0: Edges,
    c1: Cells,
    n1: Nodes,
    id: InstanceID,
    s: Structure,
    handles: Seq<Option<NodeID>>,
    j: int,
    e_mid: Edges,
    e_new: Edges,
    near: Seq<(Coord, CellView)>,
)
    requires
        fits(b0, c0, n0, e0),
        !b0.contains_key(id),
        settled(c0, n0, c1, n1, id, s, handles, s.len() as int),
        handles.len() == s.len(),
        0 <= j < s.len(),
        handles[j] is Some,
        linked_up(c0, e0, e_mid, s, handles, j),
        near.to_set() == adjacent_entries(c1, s[j].1),
        near.len() <= 6,
        connected(e_mid, e_new, handles[j]->0, id, near, near.len() as int),
    ensures
        linked_up(c0, e0, e_new, s, handles, j + 1),
{
    let h = handles[j]->0;
    assert(voxel_settled(n0, c1, n1, id, s, handles, j));
    assert forall|e: EdgeID| #[trigger] e0.contains_key(e) implies e_new.contains_key(e)
        && e_new[e] == e0[e] by {
        assert(e_mid.contains_key(e));
        assert(edge_kept(e_mid, e_new, h, e));
        assert(edge_sound(n0, e0[e]));
    }
    assert forall|e: EdgeID| #[trigger] e_new.contains_key(e) && !e0.contains_key(e) implies edge_fresh(
        c0,
        e_new,
        s,
        handles,
        j + 1,
        e,
    ) by {
        if e_mid.contains_key(e) {
            assert(edge_fresh(c0, e_mid, s, handles, j, e));
            let (i, c) = choose|i: int, c: Coord|
                0 <= i < j && handles[i] is Some && #[trigger] near_terminal(c0, s, i, c)
                    && e_mid[e] == (handles[i]->0, c0[c].2->0, false);
            assert(edge_kept(e_mid, e_new, h, e));
            assert(0 <= i < j + 1 && handles[i] is Some && near_terminal(c0, s, i, c) && e_new[e]
                == (handles[i]->0, c0[c].2->0, false));
        } else {
            assert(edge_made(e_new, h, id, near, near.len() as int, e));
            let k = choose|k: int|
                0 <= k < near.len() && wanted(id, #[trigger] near[k]) && e_new[e] == (
                    h,
                    entry_node(near[k])->0,
                    false,
                );
            lemma_near_is_old(b0, c0, n0, e0, c1, n1, id, s, handles, j, near, k);
            let c = near[k].0;
            assert(0 <= j < j + 1 && handles[j] is Some && near_terminal(c0, s, j, c) && e_new[e]
                == (handles[j]->0, c0[c].2->0, false));
        }
    }
    assert forall|i: int, c: Coord|
        0 <= i < j + 1 && handles[i] is Some && #[trigger] near_terminal(
            c0,
            s,
            i,
            c,
        ) implies joined(e_new, handles[i]->0, c0[c].2->0) by {
        if i < j {
            let x = choose|x: EdgeID| #[trigger]
                e_mid.contains_key(x) && joins(e_mid[x], handles[i]->0, c0[c].2->0);
            assert(edge_kept(e_mid, e_new, h, x));
            assert(e_new.contains_key(x) && joins(e_new[x], handles[i]->0, c0[c].2->0));
        } else {
            assert(c1.contains_key(c));
            assert(cell_placed(c0, c1, s, s.len() as int, c));
            let entry = (c, c1[c]);
            assert(adjacent_entries(c1, s[j].1).contains(entry));
            assert(near.to_set().contains(entry));
            let k = choose|k: int| 0 <= k < near.len() && near[k] == entry;
            assert(cell_known(b0, c0, c));
            assert(wanted(id, near[k]));
        }
    }
    assert(e_new.len() <= e0.len() + 6 * (j + 1));
}

/// Once a new block is settled and linked up, the scene fits together again.
#[verifier::rlimit(40)]
proof fn lemma_placed_fits(
    b0: Blocks,
    c0: Cells,
    n0: Nodes,
    e0: Edges,
    c1: Cells,
    n1: Nodes,
    e1: Edges,
    id: InstanceID,
    entry: Entry,
    handles: Seq<Option<NodeID>>,
)
    requires
        fits(b0, c0, n0, e0),
        !b0.contains_key(id),
        sound_entry(entry),
        handles.len() == voxels_of(entry).len(),
        settled(c0, n0, c1, n1, id, voxels_of(entry), handles, voxels_of(entry).len() as int),
        linked_up(c0, e0, e1, voxels_of(entry), handles, voxels_of(entry).len() as int),
    ensures
        fits(b0.insert(id, entry), c1, n1, e1),
{
    let b1 = b0.insert(id, entry);
    let s = voxels_of(entry);
    let len = s.len() as int;
    assert forall|x: InstanceID, i: int|
        b1.contains_key(x) && 0 <= i < voxels_of(b1[x]).len() implies #[trigger] voxel_stored(
        b1,
        c1,
        x,
        i,
    ) by {
        if x == id {
            assert(voxel_settled(n0, c1, n1, id, s, handles, i));
        } else {
            assert(voxel_stored(b0, c0, x, i));
            let c = voxels_of(b0[x])[i].1;
            assert(c1.contains_key(c));
            assert(cell_placed(c0, c1, s, len, c));
        }
    }
    assert forall|c: Coord| c1.contains_key(c) implies #[trigger] cell_known(b1, c1, c) by {
        assert(cell_placed(c0, c1, s, len, c));
        if c0.contains_key(c) {
            assert(cell_known(b0, c0, c));
            let x = c0[c].0;
            let i = choose|i: int|
                0 <= i < voxels_of(b0[x]).len() && #[trigger] voxels_of(b0[x])[i] == (c0[c].1, c);
            assert(b0.contains_key(x));
            assert(x != id);
            assert(b1.contains_key(x) && b1[x] == b0[x]);
            assert(c1[c] == c0[c]);
            assert(0 <= i < voxels_of(b1[x]).len() && voxels_of(b1[x])[i] == (c1[c].1, c));
        } else {
            let j = choose|j: int| 0 <= j < len && (#[trigger] s[j]).1 == c;
            assert(voxel_settled(n0, c1, n1, id, s, handles, j));
            assert(c1[c] == (id, s[j].0, handles[j]));
            assert(b1.contains_key(id) && b1[id] == entry);
            assert(0 <= j < voxels_of(b1[id]).len() && voxels_of(b1[id])[j] == (c1[c].1, c));
        }
    }
    assert forall|c: Coord| c1.contains_key(c) implies #[trigger] cell_noded(c1, n1, c) by {
        assert(cell_placed(c0, c1, s, len, c));
        if c0.contains_key(c) {
            assert(cell_noded(c0, n0, c));
            if c0[c].2 is Some {
                let n = c0[c].2->0;
                assert(n1.contains_key(n));
                assert(node_placed(n0, n1, handles, len, n));
            }
        } else {
            let j = choose|j: int| 0 <= j < len && (#[trigger] s[j]).1 == c;
            assert(voxel_settled(n0, c1, n1, id, s, handles, j));
        }
    }
    assert forall|n: NodeID| n1.contains_key(n) implies #[trigger] node_celled(c1, n1, n) by {
        assert(node_placed(n0, n1, handles, len, n));
        if n0.contains_key(n) {
            assert(node_celled(c0, n0, n));
            let c = n0[n].2;
            assert(c1.contains_key(c));
            assert(cell_placed(c0, c1, s, len, c));
        } else {
            let j = choose|j: int| 0 <= j < len && #[trigger] handles[j] == Some(n);
            assert(voxel_settled(n0, c1, n1, id, s, handles, j));
        }
    }
    assert forall|e: EdgeID| e1.contains_key(e) implies edge_sound(n1, #[trigger] e1[e]) by {
        if e0.contains_key(e) {
            assert(edge_sound(n0, e0[e]));
            assert(n1.contains_key(e0[e].0) && n1.contains_key(e0[e].1));
            assert(node_placed(n0, n1, handles, len, e0[e].0));
            assert(node_placed(n0, n1, handles, len, e0[e].1));
        } else {
            assert(edge_fresh(c0, e1, s, handles, len, e));
            let (j, c) = choose|j: int, c: Coord|
                0 <= j < len && handles[j] is Some && #[trigger] near_terminal(c0, s, j, c)
                    && e1[e] == (handles[j]->0, c0[c].2->0, false);
            assert(voxel_settled(n0, c1, n1, id, s, handles, j));
            assert(cell_known(b0, c0, c));
            assert(cell_noded(c0, n0, c));
            let nb = c0[c].2->0;
            assert(n1.contains_key(nb));
            assert(node_placed(n0, n1, handles, len, nb));
        }
    }
    assert forall|a: Coord, b: Coord| #[trigger] near_cells(c1, a, b) implies c1[a].2 is Some
        && c1[b].2 is Some && joined(e1, c1[a].2->0, c1[b].2->0) by {
        assert(cell_placed(c0, c1, s, len, a));
        assert(cell_placed(c0, c1, s, len, b));
        if c0.contains_key(a) && c0.contains_key(b) {
            assert(near_cells(c0, a, b));
            let x = choose|x: EdgeID| #[trigger]
                e0.contains_key(x) && joins(e0[x], c0[a].2->0, c0[b].2->0);
            assert(e1.contains_key(x) && joins(e1[x], c1[a].2->0, c1[b].2->0));
        } else if c0.contains_key(b) {
            let j = choose|j: int| 0 <= j < len && (#[trigger] s[j]).1 == a;
            assert(voxel_settled(n0, c1, n1, id, s, handles, j));
            assert(b.adjacent(a) == a.adjacent(b));
            assert(near_terminal(c0, s, j, b));
            assert(cell_known(b0, c0, b));
            let x = choose|x: EdgeID| #[trigger]
                e1.contains_key(x) && joins(e1[x], handles[j]->0, c0[b].2->0);
            assert(e1.contains_key(x) && joins(e1[x], c1[a].2->0, c1[b].2->0));
        } else if c0.contains_key(a) {
            let j = choose|j: int| 0 <= j < len && (#[trigger] s[j]).1 == b;
            assert(voxel_settled(n0, c1, n1, id, s, handles, j));
            assert(near_terminal(c0, s, j, a));
            assert(cell_known(b0, c0, a));
            let x = choose|x: EdgeID| #[trigger]
                e1.contains_key(x) && joins(e1[x], handles[j]->0, c0[a].2->0);
            assert(e1.contains_key(x) && joins(e1[x], c1[a].2->0, c1[b].2->0));
        } else {
            let i = choose|i: int| 0 <= i < len && (#[trigger] s[i]).1 == a;
            let j = choose|j: int| 0 <= j < len && (#[trigger] s[j]).1 == b;
            assert(voxel_settled(n0, c1, n1, id, s, handles, i));
            assert(voxel_settled(n0, c1, n1, id, s, handles, j));
        }
    }
}

/// Once a new block is settled and linked up, the world is the one that
/// `placed` describes.
proof fn lemma_placed_view(
    b0: Blocks,
    c0: Cells,
    n0: Nodes,
    e0: Edges,
    c1: Cells,
    n1: Nodes,
    e1: Edges,
    id: InstanceID,
    entry: Entry,
    handles: Seq<Option<NodeID>>,
    ticks: u32,
)
    requires
        fits(b0, c0, n0, e0),
        !b0.contains_key(id),
        sound_entry(entry),
        places_distinct(voxels_of(entry)),
        handles.len() == voxels_of(entry).len(),
        forall|i: int|
            0 <= i < voxels_of(entry).len() ==> !c0.contains_key((#[trigger] voxels_of(entry)[i]).1),
        settled(c0, n0, c1, n1, id, voxels_of(entry), handles, voxels_of(entry).len() as int),
        linked_up(c0, e0, e1, voxels_of(entry), handles, voxels_of(entry).len() as int),
        fits(b0.insert(id, entry), c1, n1, e1),
    ensures
        (SceneView {
            blocks: b0.insert(id, entry),
            space: space_of(c1),
            links: links_of(c1, e1),
            ticks,
        }) == (SceneView { blocks: b0, space: space_of(c0), links: links_of(c0, e0), ticks }).placed(
            id,
            entry.2,
            entry.0,
            entry.1,
        ),
{
    let s = voxels_of(entry);
    let len = s.len() as int;
    let before = SceneView { blocks: b0, space: space_of(c0), links: links_of(c0, e0), ticks };
    let want = before.placed(id, entry.2, entry.0, entry.1);
    assert(voxels_of((entry.0, entry.1, entry.2)) == s);
    assert forall|c: Coord| space_of(c1).contains_key(c) <==> want.space.contains_key(c) by {
        if c1.contains_key(c) {
            assert(cell_placed(c0, c1, s, len, c));
        }
        if covers(s, c) {
            let j = choose|j: int| 0 <= j < len && (#[trigger] s[j]).1 == c;
            assert(voxel_settled(n0, c1, n1, id, s, handles, j));
        }
    }
    assert forall|c: Coord| space_of(c1).contains_key(c) implies space_of(c1)[c]
        == want.space[c] by {
        assert(cell_placed(c0, c1, s, len, c));
        if !c0.contains_key(c) {
            let j = choose|j: int| 0 <= j < len && (#[trigger] s[j]).1 == c;
            assert(voxel_settled(n0, c1, n1, id, s, handles, j));
            let i = voxel_at(s, c);
            assert(i == j);
        }
    }
    assert(space_of(c1) =~= want.space);
    assert forall|p: (Coord, Coord)| links_of(c1, e1).contains_key(p) <==> want.links.contains_key(
        p,
    ) by {
        lemma_placed_links(b0, c0, n0, e0, c1, n1, e1, id, entry, handles, p);
    }
    assert forall|p: (Coord, Coord)| links_of(c1, e1).contains_key(p) implies links_of(c1, e1)[p]
        == want.links[p] by {
        lemma_placed_links(b0, c0, n0, e0, c1, n1, e1, id, entry, handles, p);
    }
    assert(links_of(c1, e1) =~= want.links);
}

/// Whether two cells are linked once a new block is settled and linked up,
/// and with which power.
proof fn lemma_placed_links(
    b0: Blocks,
    c0: Cells,
    n0: Nodes,
    e0: Edges,
    c1: Cells,
    n1: Nodes,
    e1: Edges,
    id: InstanceID,
    entry: Entry,
    handles: Seq<Option<NodeID>>,
    p: (Coord, Coord),
)
    requires
        fits(b0, c0, n0, e0),
        !b0.contains_key(id),
        handles.len() == voxels_of(entry).len(),
        forall|i: int|
            0 <= i < voxels_of(entry).len() ==> !c0.contains_key((#[trigger] voxels_of(entry)[i]).1),
        settled(c0, n0, c1, n1, id, voxels_of(entry), handles, voxels_of(entry).len() as int),
        linked_up(c0, e0, e1, voxels_of(entry), handles, voxels_of(entry).len() as int),
        fits(b0.insert(id, entry), c1, n1, e1),
    ensures
        linked(c1, e1, p.0, p.1) <==> linked(c0, e0, p.0, p.1) || (SceneView {
            blocks: b0,
            space: space_of(c0),
            links: links_of(c0, e0),
            ticks: 0,
        }).fresh_link(voxels_of(entry), p),
        linked(c0, e0, p.0, p.1) ==> links_of(c1, e1)[p] == links_of(c0, e0)[p],
        linked(c1, e1, p.0, p.1) && !linked(c0, e0, p.0, p.1) ==> links_of(c1, e1)[p] == false,
{
    let s = voxels_of(entry);
    let len = s.len() as int;
    let before = SceneView { blocks: b0, space: space_of(c0), links: links_of(c0, e0), ticks: 0 };
    let (a, b) = p;
    if linked(c0, e0, a, b) {
        let x = link_edge(c0, e0, a, b);
        assert(c1.contains_key(a) && c1.contains_key(b));
        assert(cell_placed(c0, c1, s, len, a));
        assert(cell_placed(c0, c1, s, len, b));
        assert(e1.contains_key(x) && joins(e1[x], c1[a].2->0, c1[b].2->0));
        assert(linked(c1, e1, a, b));
        let y = link_edge(c1, e1, a, b);
        assert(e1.contains_key(y) && joins(e1[y], c1[a].2->0, c1[b].2->0));
        assert(x == y);
    }
    if before.fresh_link(s, p) {
        if terminal_at(s, a) && before.is_terminal(b) {
            let j = choose|j: int|
                0 <= j < len && (#[trigger] s[j]).1 == a && is_terminal_name(s[j].0);
            assert(voxel_settled(n0, c1, n1, id, s, handles, j));
            assert(near_terminal(c0, s, j, b)) by {
                assert(b.adjacent(a) == a.adjacent(b));
            }
            assert(cell_placed(c0, c1, s, len, b)) by {
                assert(c1.contains_key(b));
            }
            assert(cell_known(b0, c0, b));
            let x = choose|x: EdgeID| #[trigger]
                e1.contains_key(x) && joins(e1[x], handles[j]->0, c0[b].2->0);
            assert(joins(e1[x], c1[a].2->0, c1[b].2->0));
            assert(linked(c1, e1, a, b));
        } else {
            let j = choose|j: int|
                0 <= j < len && (#[trigger] s[j]).1 == b && is_terminal_name(s[j].0);
            assert(voxel_settled(n0, c1, n1, id, s, handles, j));
            assert(near_terminal(c0, s, j, a));
            assert(cell_placed(c0, c1, s, len, a)) by {
                assert(c1.contains_key(a));
            }
            assert(cell_known(b0, c0, a));
            let x = choose|x: EdgeID| #[trigger]
                e1.contains_key(x) && joins(e1[x], handles[j]->0, c0[a].2->0);
            assert(joins(e1[x], c1[a].2->0, c1[b].2->0));
            assert(linked(c1, e1, a, b));
        }
    }
    if linked(c1, e1, a, b) {
        let na = c1[a].2->0;
        let nb = c1[b].2->0;
        let y = link_edge(c1, e1, a, b);
        assert(e1.contains_key(y) && joins(e1[y], na, nb));
        assert(cell_noded(c1, n1, a));
        assert(cell_noded(c1, n1, b));
        if e0.contains_key(y) {
            assert(edge_sound(n0, e0[y]));
            assert(node_placed(n0, n1, handles, len, na));
            assert(node_placed(n0, n1, handles, len, nb));
            assert(node_celled(c0, n0, na));
            assert(node_celled(c0, n0, nb));
            assert(e0.contains_key(y) && joins(e0[y], c0[a].2->0, c0[b].2->0));
            assert(linked(c0, e0, a, b));
        } else {
            assert(edge_fresh(c0, e1, s, handles, len, y));
            let (j, c) = choose|j: int, c: Coord|
                0 <= j < len && handles[j] is Some && #[trigger] near_terminal(c0, s, j, c)
                    && e1[y] == (handles[j]->0, c0[c].2->0, false);
            assert(voxel_settled(n0, c1, n1, id, s, handles, j));
            assert(cell_known(b0, c0, c));
            assert(cell_noded(c0, n0, c));
            let nc = c0[c].2->0;
            assert(n1.contains_key(nc));
            assert(node_placed(n0, n1, handles, len, nc));
            assert(links_of(c1, e1)[p] == false);
            if na == handles[j]->0 {
                assert(a == s[j].1);
                assert(b == c);
                assert(a.adjacent(b) == b.adjacent(a));
                assert(terminal_at(s, a));
                assert(before.is_terminal(b));
            } else {
                assert(b == s[j].1);
                assert(a == c);
                assert(terminal_at(s, b));
                assert(before.is_terminal(a));
            }
            assert(before.fresh_link(s, p));
            if linked(c0, e0, a, b) {
                assert(false);
            }
        }
    }
}

/// The voxels of a placed block have distinct names and distinct positions,
/// and there are at most nine of them.
pub proof fn lemma_placed_structure(entry: Entry)
    requires
        entry.2.stands(entry.0, entry.1),
    ensures
        names_distinct(voxels_of(entry)),
        places_distinct(voxels_of(entry)),
        voxels_of(entry).len() <= 9,
{
    let b = entry.2;
    let s = voxels_of(entry);
    lemma_names_distinct(b);
    lemma_offsets_small(b);
    assert forall|i: int, j: int| 0 <= i < s.len() && 0 <= j < s.len() && i != j implies s[i].0
        != s[j].0 by {
        assert(s[i].0 == b.structure()[i].0);
        assert(s[j].0 == b.structure()[j].0);
    }
    assert forall|i: int, j: int| 0 <= i < s.len() && 0 <= j < s.len() && i != j implies s[i].1
        != s[j].1 by {
        let a = b.structure()[i].1;
        let c = b.structure()[j].1;
        assert(small(a) && small(c));
        assert(a != c);
        assert(entry.1.turned(a).reaches(entry.0));
        assert(entry.1.turned(c).reaches(entry.0));
        assert(s[i].1 == entry.1.turned(a).plus(entry.0));
        assert(s[j].1 == entry.1.turned(c).plus(entry.0));
    }
}

/// One of the first `upto` voxels of the structure stands at `c`.
pub open spec fn gone(s: Structure, upto: int, c: Coord) -> bool {
    exists|k: int| 0 <= k < upto && (#[trigger] s[k]).1 == c
}

/// The grid and the graph once the first `upto` voxels of a block were taken
/// out: their cells, the nodes at those cells and the edges of those nodes
/// are gone, and everything else is as it was.
pub open spec fn cleared(
    c0: Cells,
    n0: Nodes,
    e0: Edges,
    c1: Cells,
    n1: Nodes,
    e1: Edges,
    s: Structure,
    upto: int,
) -> bool {
    &&& n1.dom().finite()
    &&& e1.dom().finite()
    &&& n1.len() <= n0.len()
    &&& e1.len() <= e0.len()
    &&& forall|c: Coord| #[trigger] c1.contains_key(c) ==> c0.contains_key(c) && c1[c] == c0[c]
    &&& forall|c: Coord|
        #[trigger] c0.contains_key(c) ==> (c1.contains_key(c) <==> !gone(s, upto, c))
    &&& forall|n: NodeID| #[trigger] n1.contains_key(n) ==> n0.contains_key(n) && n1[n] == n0[n]
    &&& forall|n: NodeID|
        #[trigger] n0.contains_key(n) ==> (n1.contains_key(n) <==> !gone(s, upto, n0[n].2))
    &&& forall|e: EdgeID| #[trigger] e1.contains_key(e) ==> e0.contains_key(e) && e1[e] == e0[e]
    &&& forall|e: EdgeID|
        #[trigger] e0.contains_key(e) ==> (e1.contains_key(e) <==> n1.contains_key(e0[e].0)
            && n1.contains_key(e0[e].1))
}

/// Taking one more voxel of the block out keeps what `cleared` says.
proof fn lemma_clear_step(
    b0: Blocks,
    c0: Cells,
    n0: Nodes,
    e0: Edges,
    c_mid: Cells,
    n_mid: Nodes,
    e_mid: Edges,
    c1: Cells,
    n1: Nodes,
    e1: Edges,
    id: InstanceID,
    i: int,
)
    requires
        fits(b0, c0, n0, e0),
        b0.contains_key(id),
        0 <= i < voxels_of(b0[id]).len(),
        cleared(c0, n0, e0, c_mid, n_mid, e_mid, voxels_of(b0[id]), i),
        c1 == c_mid.remove(voxels_of(b0[id])[i].1),
        c0[voxels_of(b0[id])[i].1].2 is Some ==> n1 == n_mid.remove(
            c0[voxels_of(b0[id])[i].1].2->0,
        ) && e1 == edges_without(e_mid, c0[voxels_of(b0[id])[i].1].2->0),
        c0[voxels_of(b0[id])[i].1].2 is None ==> n1 == n_mid && e1 == e_mid,
    ensures
        cleared(c0, n0, e0, c1, n1, e1, voxels_of(b0[id]), i + 1),
{
    let s = voxels_of(b0[id]);
    let at = s[i].1;
    lemma_placed_structure(b0[id]);
    assert(voxel_stored(b0, c0, id, i));
    assert(cell_noded(c0, n0, at));
    assert forall|c: Coord| #[trigger] c0.contains_key(c) implies (c1.contains_key(c) <==> !gone(
        s,
        i + 1,
        c,
    )) by {
        if gone(s, i + 1, c) {
            let k = choose|k: int| 0 <= k < i + 1 && (#[trigger] s[k]).1 == c;
            if k < i {
                assert(gone(s, i, c));
            }
        } else {
            if gone(s, i, c) {
                let k = choose|k: int| 0 <= k < i && (#[trigger] s[k]).1 == c;
                assert(0 <= k < i + 1 && s[k].1 == c);
            }
            assert(s[i].1 != c);
        }
    }
    assert forall|n: NodeID| #[trigger] n0.contains_key(n) implies (n1.contains_key(n) <==> !gone(
        s,
        i + 1,
        n0[n].2,
    )) by {
        let c = n0[n].2;
        assert(node_celled(c0, n0, n));
        if gone(s, i + 1, c) {
            let k = choose|k: int| 0 <= k < i + 1 && (#[trigger] s[k]).1 == c;
            if k < i {
                assert(gone(s, i, c));
            }
        } else {
            if gone(s, i, c) {
                let k = choose|k: int| 0 <= k < i && (#[trigger] s[k]).1 == c;
                assert(0 <= k < i + 1 && s[k].1 == c);
            }
            assert(s[i].1 != c);
        }
    }
    assert forall|e: EdgeID| #[trigger] e0.contains_key(e) implies (e1.contains_key(e)
        <==> n1.contains_key(e0[e].0) && n1.contains_key(e0[e].1)) by {
        assert(edge_sound(n0, e0[e]));
        if e_mid.contains_key(e) {
            assert(e_mid[e] == e0[e]);
        }
    }
    if c0[at].2 is Some {
        let n = c0[at].2->0;
        assert(!gone(s, i, at)) by {
            if gone(s, i, at) {
                let k = choose|k: int| 0 <= k < i && (#[trigger] s[k]).1 == at;
                assert(s[k].1 != s[i].1);
            }
        }
        assert(n_mid.contains_key(n));
        vstd::set_lib::lemma_len_subset(e1.dom(), e_mid.dom());
    }
}

/// Once every voxel of a block is taken out and the block is struck from the
/// registry, the scene fits together again and the world is the one that
/// `removed` describes.
proof fn lemma_removed(
    b0: Blocks,
    c0: Cells,
    n0: Nodes,
    e0: Edges,
    c1: Cells,
    n1: Nodes,
    e1: Edges,
    id: InstanceID,
    ticks: u32,
)
    requires
        fits(b0, c0, n0, e0),
        b0.contains_key(id),
        cleared(c0, n0, e0, c1, n1, e1, voxels_of(b0[id]), voxels_of(b0[id]).len() as int),
    ensures
        fits(b0.remove(id), c1, n1, e1),
        (SceneView { blocks: b0.remove(id), space: space_of(c1), links: links_of(c1, e1), ticks })
            == (SceneView { blocks: b0, space: space_of(c0), links: links_of(c0, e0), ticks }).removed(
            id,
        ),
{
    let s = voxels_of(b0[id]);
    let len = s.len() as int;
    let b1 = b0.remove(id);
    let before = SceneView { blocks: b0, space: space_of(c0), links: links_of(c0, e0), ticks };
    let want = before.removed(id);
    assert forall|c: Coord| #[trigger] c0.contains_key(c) implies (gone(s, len, c) <==> c0[c].0
        == id) by {
        if gone(s, len, c) {
            let k = choose|k: int| 0 <= k < len && (#[trigger] s[k]).1 == c;
            assert(voxel_stored(b0, c0, id, k));
        }
        if c0[c].0 == id {
            assert(cell_known(b0, c0, c));
            let k = choose|k: int| 0 <= k < len && #[trigger] s[k] == (c0[c].1, c);
            assert(s[k].1 == c);
        }
    }
    assert forall|x: InstanceID, i: int|
        b1.contains_key(x) && 0 <= i < voxels_of(b1[x]).len() implies #[trigger] voxel_stored(
        b1,
        c1,
        x,
        i,
    ) by {
        assert(voxel_stored(b0, c0, x, i));
    }
    assert forall|c: Coord| c1.contains_key(c) implies #[trigger] cell_known(b1, c1, c) by {
        assert(cell_known(b0, c0, c));
        let x = c0[c].0;
        let i = choose|i: int|
            0 <= i < voxels_of(b0[x]).len() && #[trigger] voxels_of(b0[x])[i] == (c0[c].1, c);
        assert(voxels_of(b1[x])[i] == (c1[c].1, c));
    }
    assert forall|c: Coord| c1.contains_key(c) implies #[trigger] cell_noded(c1, n1, c) by {
        assert(cell_noded(c0, n0, c));
    }
    assert forall|n: NodeID| n1.contains_key(n) implies #[trigger] node_celled(c1, n1, n) by {
        assert(node_celled(c0, n0, n));
    }
    assert forall|e: EdgeID| e1.contains_key(e) implies edge_sound(n1, #[trigger] e1[e]) by {
        assert(edge_sound(n0, e0[e]));
    }
    assert forall|a: Coord, b: Coord| #[trigger] near_cells(c1, a, b) implies c1[a].2 is Some
        && c1[b].2 is Some && joined(e1, c1[a].2->0, c1[b].2->0) by {
        assert(near_cells(c0, a, b));
        let x = choose|x: EdgeID| #[trigger]
            e0.contains_key(x) && joins(e0[x], c0[a].2->0, c0[b].2->0);
        assert(cell_noded(c0, n0, a));
        assert(cell_noded(c0, n0, b));
        assert(e1.contains_key(x) && joins(e1[x], c1[a].2->0, c1[b].2->0));
    }
    assert(space_of(c1) =~= want.space);
    assert forall|p: (Coord, Coord)| links_of(c1, e1).contains_key(p) <==> want.links.contains_key(
        p,
    ) by {
        let (a, b) = p;
        if linked(c1, e1, a, b) {
            let y = link_edge(c1, e1, a, b);
            assert(e0.contains_key(y) && joins(e0[y], c0[a].2->0, c0[b].2->0));
        }
        if want.links.contains_key(p) {
            let x = link_edge(c0, e0, a, b);
            assert(cell_noded(c0, n0, a));
            assert(cell_noded(c0, n0, b));
            assert(e1.contains_key(x) && joins(e1[x], c1[a].2->0, c1[b].2->0));
        }
    }
    assert forall|p: (Coord, Coord)| links_of(c1, e1).contains_key(p) implies links_of(c1, e1)[p]
        == want.links[p] by {
        let (a, b) = p;
        let y = link_edge(c1, e1, a, b);
        let x = link_edge(c0, e0, a, b);
        assert(e0.contains_key(y) && joins(e0[y], c0[a].2->0, c0[b].2->0));
        assert(e0.contains_key(x) && joins(e0[x], c0[a].2->0, c0[b].2->0));
        assert(x == y);
    }
    assert(links_of(c1, e1) =~= want.links);
}

/// Blocks with one structure fill the same cells wherever they stand.
pub proof fn lemma_same_structure(a: Block, b: Block)
    requires
        a.structure() == b.structure(),
    ensures
        forall|position: Coord, orientation: Orient|
            voxels_of((position, orientation, a)) == voxels_of((position, orientation, b)),
{
    assert forall|position: Coord, orientation: Orient|
        voxels_of((position, orientation, a)) == voxels_of((position, orientation, b)) by {
        assert(a.global_structure(position, orientation) =~= b.global_structure(
            position,
            orientation,
        ));
    }
}

/// Replacing the payload of a block by one with the same structure leaves
/// the scene fitting together.
pub proof fn lemma_updated_fits(
    b0: Blocks,
    c0: Cells,
    n0: Nodes,
    e0: Edges,
    id: InstanceID,
    block: Block,
)
    requires
        fits(b0, c0, n0, e0),
        b0.contains_key(id),
        block.timed(),
        block.structure() == b0[id].2.structure(),
    ensures
        fits(b0.insert(id, (b0[id].0, b0[id].1, block)), c0, n0, e0),
{
    let b1 = b0.insert(id, (b0[id].0, b0[id].1, block));
    lemma_same_structure(block, b0[id].2);
    crate::block::lemma_structures_differ(block, b0[id].2);
    assert(sound_entry(b0[id]));
    assert(voxels_of(b1[id]) == voxels_of(b0[id]));
    assert forall|x: InstanceID, i: int|
        b1.contains_key(x) && 0 <= i < voxels_of(b1[x]).len() implies #[trigger] voxel_stored(
        b1,
        c0,
        x,
        i,
    ) by {
        assert(voxel_stored(b0, c0, x, i));
    }
    assert forall|c: Coord| c0.contains_key(c) implies #[trigger] cell_known(b1, c0, c) by {
        assert(cell_known(b0, c0, c));
        let x = c0[c].0;
        let i = choose|i: int|
            0 <= i < voxels_of(b0[x]).len() && #[trigger] voxels_of(b0[x])[i] == (c0[c].1, c);
        assert(voxels_of(b1[x])[i] == (c0[c].1, c));
    }
}

/// A scene that fits together shows a valid world.
pub proof fn lemma_fits_valid(b: Blocks, c: Cells, n: Nodes, e: Edges, ticks: u32)
    requires
        fits(b, c, n, e),
    ensures
        (SceneView { blocks: b, space: space_of(c), links: links_of(c, e), ticks }).valid(),
{
    let v = SceneView { blocks: b, space: space_of(c), links: links_of(c, e), ticks };
    assert forall|id: InstanceID, i: int|
        v.blocks.contains_key(id) && 0 <= i < voxels_of(v.blocks[id]).len() implies #[trigger] v.voxel_in_space(
        id,
        i,
    ) by {
        assert(voxel_stored(b, c, id, i));
    }
    assert forall|at: Coord| v.space.contains_key(at) implies #[trigger] v.cell_backed(at) by {
        assert(cell_known(b, c, at));
    }
    assert forall|p: (Coord, Coord)| v.links.contains_key(p) implies #[trigger] v.link_sound(p) by {
        let (a, z) = p;
        let x = link_edge(c, e, a, z);
        assert(e.contains_key(x) && joins(e[x], c[a].2->0, c[z].2->0));
        assert(joins(e[x], c[z].2->0, c[a].2->0));
        assert(linked(c, e, z, a));
        let y = link_edge(c, e, z, a);
        assert(e.contains_key(y) && joins(e[y], c[z].2->0, c[a].2->0));
        assert(x == y);
        assert(cell_known(b, c, a));
        assert(cell_known(b, c, z));
        assert(cell_noded(c, n, a));
        assert(cell_noded(c, n, z));
        assert(edge_sound(n, e[x]));
        assert(a.adjacent(z) == z.adjacent(a));
    }
    assert forall|a: Coord, z: Coord| #[trigger] v.near(a, z) implies v.links.contains_key(
        (a, z),
    ) by {
        assert(near_cells(c, a, z));
    }
}

/// The world after a wire was placed at each of the first `k` positions of the
/// path, each under the identifier that follows the last one in use.
pub open spec fn wired(v: SceneView, path: Seq<Coord>, k: nat) -> SceneView
    decreases k,
{
    if k == 0 {
        v
    } else {
        let w = wired(v, path, (k - 1) as nat);
        w.placed(
            w.next_id(),
            Block::Wire(crate::block::VoxelPowered { powered: false }),
            path[k - 1],
            Orient::FORWARD,
        )
    }
}

/// Each position of the path is adjacent to the one before it.
pub open spec fn continuous(path: Seq<Coord>) -> bool {
    forall|i: int| 0 <= i < path.len() - 1 ==> (#[trigger] path[i]).adjacent(path[i + 1])
}

/// A wire can be placed at every position of the path: the cells are free and
/// representable, and no position comes twice.
pub open spec fn wire_fits(v: SceneView, path: Seq<Coord>) -> bool {
    &&& path.no_duplicates()
    &&& forall|i: int|
        0 <= i < path.len() ==> !v.space.contains_key(#[trigger] path[i])
}

/// The first `k` wires of a path fill no cells but their own, beside those
/// that were filled before.
pub open spec fn wires_laid(v: SceneView, w: SceneView, path: Seq<Coord>, k: int) -> bool {
    forall|c: Coord| #[trigger]
        w.space.contains_key(c) ==> v.space.contains_key(c) || exists|i: int|
            0 <= i < k && #[trigger] path[i] == c
}

/// The structure of a wire at `at` is its one terminal there.
pub proof fn lemma_wire_structure(at: Coord)
    ensures
        Block::Wire(crate::block::VoxelPowered { powered: false }).stands(at, Orient::FORWARD),
        voxels_of((at, Orient::FORWARD, Block::Wire(crate::block::VoxelPowered { powered: false }))).len()
            == 1,
        voxels_of(
            (at, Orient::FORWARD, Block::Wire(crate::block::VoxelPowered { powered: false })),
        )[0].1 == at,
{
}

/// The entry tells of a link of the world the power that it has.
pub open spec fn link_listed(v: SceneView, entry: (Coord, Coord, bool)) -> bool {
    v.links.contains_key((entry.0, entry.1)) && v.links[(entry.0, entry.1)] == entry.2
}

/// Some entry of the list tells of the link between the two terminals, under
/// one order of the pair or the other.
pub open spec fn lists_link(listing: Seq<(Coord, Coord, bool)>, p: (Coord, Coord)) -> bool {
    exists|i: int|
        0 <= i < listing.len() && same_pair(#[trigger] listing[i], (p.0, p.1, listing[i].2))
}

/// The two entries tell of the same pair of terminals, in either order.
pub open spec fn same_pair(a: (Coord, Coord, bool), b: (Coord, Coord, bool)) -> bool {
    (a.0 == b.0 && a.1 == b.1) || (a.0 == b.1 && a.1 == b.0)
}

/// The list holds every link of the world once, with its power.
pub open spec fn links_listing(v: SceneView, listing: Seq<(Coord, Coord, bool)>) -> bool {
    &&& forall|i: int| 0 <= i < listing.len() ==> link_listed(v, #[trigger] listing[i])
    &&& forall|p: (Coord, Coord)| #[trigger] v.links.contains_key(p) ==> lists_link(listing, p)
    &&& forall|i: int, j: int|
        0 <= i < listing.len() && 0 <= j < listing.len() && same_pair(
            #[trigger] listing[i],
            #[trigger] listing[j],
        ) ==> i == j
}

/// A block to put back into a world: its identifier, its position, its
/// orientation and the block itself.
pub type Saved = (InstanceID, Coord, Orient, Block);

/// The world that holds the first `k` of the saved blocks, without power on
/// any link, at the given count of ticks.
pub open spec fn restored(saved: Seq<Saved>, ticks: u32, k: nat) -> SceneView
    decreases k,
{
    if k == 0 {
        SceneView { blocks: Map::empty(), space: Map::empty(), links: Map::empty(), ticks }
    } else {
        let item = saved[k - 1];
        restored(saved, ticks, (k - 1) as nat).placed(item.0, item.3, item.1, item.2)
    }
}

/// The saved block `i` can be put back once those before it are: it is a
/// block that a scene can hold, its identifier is free and so are its cells.
pub open spec fn restorable(saved: Seq<Saved>, ticks: u32, i: int) -> bool {
    let item = saved[i];
    let before = restored(saved, ticks, i as nat);
    &&& item.3.sound()
    &&& item.3.stands(item.1, item.2)
    &&& !before.blocks.contains_key(item.0)
    &&& !before.overlaps(voxels_of((item.1, item.2, item.3)))
}

/// The links of `links` with the one between `a` and `b`, if there is one,
/// set to `power`.
pub open spec fn link_set(
    links: Map<(Coord, Coord), bool>,
    a: Coord,
    b: Coord,
    power: bool,
) -> Map<(Coord, Coord), bool> {
    if links.contains_key((a, b)) {
        links.insert((a, b), power).insert((b, a), power)
    } else {
        links
    }
}

/// The authoritative world: the placed blocks, the grid of their voxels and
/// the circuit graph of their terminals.
pub struct Scene {
    pub(crate) blocks: HashMap<InstanceID, Entry>,
    pub(crate) circuit: Circuit,
    pub(crate) space: Grid,
    pub(crate) ticks: u32,
}

impl View for Scene {
    type V = SceneView;

    open(crate) spec fn view(&self) -> SceneView {
        SceneView {
            blocks: self.blocks@,
            space: space_of(self.space@),
            links: links_of(self.space@, circuit_edges(self.circuit)),
            ticks: self.ticks,
        }
    }
}

impl Scene {
    /// The grid and the circuit graph hold exactly what the placed blocks call for.
    pub open(crate) spec fn wf(&self) -> bool {
        fits(self.blocks@, self.space@, circuit_nodes(self.circuit), circuit_edges(self.circuit))
    }

    /// The scene can take `k` more blocks: the circuit graph has nine nodes
    /// and fifty-four edges left for each, whatever their kind, and twice the
    /// number of blocks stays an identifier.
    pub open(crate) spec fn room_for(&self, k: nat) -> bool {
        &&& circuit_nodes(self.circuit).len() + 9 * k < u32::MAX
        &&& circuit_edges(self.circuit).len() + 54 * k < u32::MAX
        &&& 2 * (self.blocks@.len() + k) <= u32::MAX
    }

    /// The scene holds what `k` blocks can bring at most.
    pub open(crate) spec fn within(&self, k: nat) -> bool {
        &&& circuit_nodes(self.circuit).len() <= 9 * k
        &&& circuit_edges(self.circuit).len() <= 54 * k
        &&& self.blocks@.len() <= k
    }

    /// The scene has grown by `k` blocks at most since it was `before`.
    pub open(crate) spec fn grown(&self, before: &Scene, k: nat) -> bool {
        &&& circuit_nodes(self.circuit).len() <= circuit_nodes(before.circuit).len() + 9 * k
        &&& circuit_edges(self.circuit).len() <= circuit_edges(before.circuit).len() + 54 * k
        &&& self.blocks@.len() <= before.blocks@.len() + k
    }

    /// The nodes of the circuit graph: each with its block, the name of its
    /// voxel and its cell.
    pub open(crate) spec fn nodes(&self) -> Nodes {
        circuit_nodes(self.circuit)
    }

    /// Every cell stands under the node that it has in `before`.
    pub open(crate) spec fn same_handles(&self, before: &Scene) -> bool {
        forall|c: Coord| #[trigger] self.node_at(c) == before.node_at(c)
    }

    /// Every cell stands under the node that it has in `before`, and the
    /// circuit has the nodes of `before`, each with what it carries there.
    pub open(crate) spec fn same_circuit(&self, before: &Scene) -> bool {
        self.same_handles(before) && self.nodes() == before.nodes()
    }

    /// Every cell of `before` is there, under the node that it had, and every
    /// node of `before` is there, with what it carried.
    pub open(crate) spec fn extends(&self, before: &Scene) -> bool {
        &&& forall|c: Coord|
            before.space@.contains_key(c) ==> self.space@.contains_key(c) && #[trigger] self.node_at(
                c,
            ) == before.node_at(c)
        &&& forall|n: NodeID| #[trigger]
            before.nodes().contains_key(n) ==> self.nodes().contains_key(n) && self.nodes()[n]
                == before.nodes()[n]
    }

    /// What belongs to blocks other than `id` is as in `before`: each of
    /// their cells is there, under the node that it had, and their nodes are
    /// the same, each with what it carried.
    pub open(crate) spec fn keeps_others(&self, before: &Scene, id: InstanceID) -> bool {
        &&& forall|c: Coord|
            before.space@.contains_key(c) && before.space@[c].0 != id ==> self.space@.contains_key(
                c,
            ) && #[trigger] self.node_at(c) == before.node_at(c)
        &&& forall|n: NodeID| #[trigger]
            before.nodes().contains_key(n) && before.nodes()[n].0 != id
                ==> self.nodes().contains_key(n) && self.nodes()[n] == before.nodes()[n]
        &&& forall|n: NodeID| #[trigger]
            self.nodes().contains_key(n) && self.nodes()[n].0 != id ==> before.nodes().contains_key(
                n,
            )
    }

    /// The scene can take one more block.
    pub open(crate) spec fn roomy(&self) -> bool {
        self.room_for(1)
    }

    /// The world without any block, before the first tick.
    pub fn new() -> (scene: Scene)
        ensures
            scene.wf(),
            scene@ == SceneView::empty(),
            forall|k: nat| 54 * k < u32::MAX ==> #[trigger] scene.room_for(k),
            scene.within(0),
    {
        let scene = Scene {
            blocks: HashMap::new(),
            circuit: circuit_empty(),
            space: Grid::new(),
            ticks: 0,
        };
        proof {
            assert(scene@.space =~= SceneView::empty().space);
            assert(scene@.links =~= SceneView::empty().links);
        }
        scene
    }

    /// Get world tick count
    pub fn get_ticks(&self) -> (ticks: u32)
        ensures
            ticks == self@.ticks,
    {
        self.ticks
    }

    /// Retrieve a copy of all blocks and corresponding states
    pub fn get_world_blocks(&self) -> (blocks: HashMap<InstanceID, (Coord, Orient, Block)>)
        ensures
            blocks@ == self@.blocks,
    {
        self.blocks.clone()
    }

    /// Get block data
    pub fn get_block(&self, id: InstanceID) -> (entry: Option<(Coord, Orient, Block)>)
        ensures
            entry == (if self@.blocks.contains_key(id) {
                Some(self@.blocks[id])
            } else {
                None
            }),
    {
        match self.blocks.get(&id) {
            Some(entry) => Some(*entry),
            None => None,
        }
    }

    /// The identifier that the next added block gets: the number of blocks
    /// where no block has that, else the next number above it that no block has.
    pub fn next_id(&self) -> (id: InstanceID)
        requires
            self.roomy(),
        ensures
            id == self@.next_id(),
            !self@.blocks.contains_key(id),
    {
        let n = self.blocks.len();
        let mut id: u32 = n as u32;
        while self.blocks.contains_key(&id)
            invariant
                self.roomy(),
                n == self.blocks@.len(),
                n <= id,
                id - n <= n,
                forall|k: nat| n <= k < id ==> self.blocks@.contains_key(#[trigger] (k as u32)),
                free_from(self.blocks@, n as nat) == free_from(self.blocks@, id as nat),
            decreases 2 * n - id,
        {
            proof {
                assert forall|k: nat| n <= k < id + 1 implies self.blocks@.contains_key(
                    #[trigger] (k as u32),
                ) by {
                    if k == id {
                        assert(self.blocks@.contains_key(id));
                    }
                }
                lemma_range_in_use(self.blocks@, n as nat, (id - n + 1) as nat);
                assert(free_from(self.blocks@, id as nat) == free_from(
                    self.blocks@,
                    (id + 1) as nat,
                ));
            }
            id = id + 1;
        }
        id
    }

    /// Adds the given block at the given location and updates the internal circuit
    ///
    /// Returns the block's ID, or `None` if the block is air or overlaps an
    /// existing block
    pub fn add_block(&mut self, block: Block, location: Coord, orientation: Orient) -> (id: Option<
        InstanceID,
    >)
        requires
            old(self).wf(),
            old(self).roomy(),
            block.timed(),
            block.stands(location, orientation),
        ensures
            final(self).wf(),
            block is Air || old(self)@.overlaps(voxels_of((location, orientation, block)))
                ==> id is None && final(self)@ == old(self)@,
            !(block is Air) && !old(self)@.overlaps(voxels_of((location, orientation, block)))
                ==> id == Some(old(self)@.next_id()) && !old(self)@.blocks.contains_key(id->0)
                && final(self)@ == old(self)@.placed(id->0, block, location, orientation),
            id is None ==> *final(self) == *old(self),
            id is None ==> final(self).same_circuit(old(self)),
            id is Some ==> final(self).keeps_others(old(self), id->0),
            final(self).extends(old(self)),
            forall|k: nat| old(self).room_for(k + 1) ==> #[trigger] final(self).room_for(k),
            final(self).grown(old(self), 1),
    {
        let id = self.next_id();
        self.add_block_with_id(id, block, location, orientation)
    }

    /// Adds the given block under the identifier `id`, which must not be in
    /// use. Air is not added.
    pub fn add_block_with_id(
        &mut self,
        id: InstanceID,
        block: Block,
        location: Coord,
        orientation: Orient,
    ) -> (placed: Option<InstanceID>)
        requires
            old(self).wf(),
            old(self).roomy(),
            !old(self)@.blocks.contains_key(id),
            block.timed(),
            block.stands(location, orientation),
        ensures
            final(self).wf(),
            block is Air || old(self)@.overlaps(voxels_of((location, orientation, block)))
                ==> placed is None && final(self)@ == old(self)@,
            !(block is Air) && !old(self)@.overlaps(voxels_of((location, orientation, block)))
                ==> placed == Some(id) && final(self)@ == old(self)@.placed(
                id,
                block,
                location,
                orientation,
            ),
            placed is None ==> *final(self) == *old(self),
            placed is None ==> final(self).same_circuit(old(self)),
            final(self).keeps_others(old(self), id),
            final(self).extends(old(self)),
            forall|k: nat| old(self).room_for(k + 1) ==> #[trigger] final(self).room_for(k),
            final(self).grown(old(self), 1),
    {
        // Air occupies nothing and is not stored
        match block {
            Block::Air => {
                return None;
            },
            _ => {},
        }
        let ghost entry = (location, orientation, block);
        let ghost s = voxels_of(entry);
        let ghost b0 = self.blocks@;
        let ghost c0 = self.space@;
        let ghost n0 = circuit_nodes(self.circuit);
        let ghost e0 = circuit_edges(self.circuit);
        let voxels = block.get_global_structure(location, orientation);
        proof {
            lemma_placed_structure(entry);
        }
        // Check if block overlaps existing block
        let mut i: usize = 0;
        while i < voxels.len()
            invariant
                i <= voxels.len(),
                s == structure_view(voxels@),
                *self == *old(self),
                self.wf(),
                s == voxels_of((location, orientation, block)),
                c0 == self.space@,
                forall|k: int| 0 <= k < i ==> !c0.contains_key((#[trigger] s[k]).1),
            decreases voxels.len() - i,
        {
            assert(s[i as int].1 == voxels@[i as int].1);
            if self.space.contains(voxels[i].1) {
                assert(self@.space.contains_key(s[i as int].1));
                assert(self@.overlaps(s));
                return None;
            }
            i = i + 1;
        }
        assert(!self@.overlaps(s)) by {
            if self@.overlaps(s) {
                let k = choose|k: int|
                    0 <= k < s.len() && self@.space.contains_key((#[trigger] s[k]).1);
                assert(!c0.contains_key(s[k].1));
            }
        }
        // Add block
        self.blocks.insert(id, (location, orientation, block));
        // Add all voxels to the grid, and the terminals to the circuit
        proof {
            assert forall|c: Coord| #[trigger] c0.contains_key(c) implies c0[c].0 != id by {
                assert(cell_known(b0, c0, c));
            }
        }
        let handles = settle(&mut self.circuit, &mut self.space, id, &voxels);
        let ghost c1 = self.space@;
        let ghost n1 = circuit_nodes(self.circuit);
        // Connect each terminal to the adjacent terminals of other blocks
        let mut j: usize = 0;
        while j < voxels.len()
            invariant
                j <= voxels.len(),
                voxels.len() <= 9,
                handles.len() == voxels.len(),
                s == structure_view(voxels@),
                fits(b0, c0, n0, e0),
                !b0.contains_key(id),
                e0.len() + 54 < u32::MAX,
                settled(c0, n0, c1, n1, id, s, handles@, s.len() as int),
                self.space@ == c1,
                circuit_nodes(self.circuit) == n1,
                self.blocks@ == b0.insert(id, entry),
                self.ticks == old(self).ticks,
                linked_up(c0, e0, circuit_edges(self.circuit), s, handles@, j as int),
            decreases voxels.len() - j,
        {
            let ghost e_mid = circuit_edges(self.circuit);
            match handles[j] {
                Some(h) => {
                    assert(s[j as int].1 == voxels@[j as int].1);
                    let adj = self.space.get_adjacent(voxels[j].1);
                    let ghost near = entries_view(adj@);
                    proof {
                        assert(voxel_settled(n0, c1, n1, id, s, handles@, j as int));
                        assert forall|k: int|
                            0 <= k < adj.len() && wanted(id, #[trigger] near[k]) implies entry_node(
                            near[k],
                        ) is Some && n1.contains_key(entry_node(near[k])->0) by {
                            lemma_near_is_old(
                                b0,
                                c0,
                                n0,
                                e0,
                                c1,
                                n1,
                                id,
                                s,
                                handles@,
                                j as int,
                                near,
                                k,
                            );
                        }
                    }
                    connect(&mut self.circuit, h, id, &adj);
                    proof {
                        lemma_link_step(
                            b0,
                            c0,
                            n0,
                            e0,
                            c1,
                            n1,
                            id,
                            s,
                            handles@,
                            j as int,
                            e_mid,
                            circuit_edges(self.circuit),
                            near,
                        );
                    }
                },
                None => {
                    proof {
                        assert forall|e: EdgeID| #[trigger]
                            e_mid.contains_key(e) && !e0.contains_key(e) implies edge_fresh(
                            c0,
                            e_mid,
                            s,
                            handles@,
                            j + 1,
                            e,
                        ) by {
                            assert(edge_fresh(c0, e_mid, s, handles@, j as int, e));
                            let (i, c) = choose|i: int, c: Coord|
                                0 <= i < j && handles@[i] is Some && #[trigger] near_terminal(
                                    c0,
                                    s,
                                    i,
                                    c,
                                ) && e_mid[e] == (handles@[i]->0, c0[c].2->0, false);
                            assert(0 <= i < j + 1 && handles@[i] is Some && near_terminal(
                                c0,
                                s,
                                i,
                                c,
                            ) && e_mid[e] == (handles@[i]->0, c0[c].2->0, false));
                        }
                    }
                },
            }
            j = j + 1;
        }
        proof {
            let e1 = circuit_edges(self.circuit);
            lemma_placed_fits(b0, c0, n0, e0, c1, n1, e1, id, entry, handles@);
            lemma_placed_view(b0, c0, n0, e0, c1, n1, e1, id, entry, handles@, self.ticks);
            assert forall|c: Coord| c0.contains_key(c) implies c1.contains_key(c) && c1[c]
                == c0[c] by {
                assert(cell_placed(c0, c1, s, s.len() as int, c));
            }
            assert forall|n: NodeID| #[trigger] n0.contains_key(n) implies n1.contains_key(n)
                && n1[n] == n0[n] by {
                assert(node_placed(n0, n1, handles@, s.len() as int, n));
            }
            assert forall|n: NodeID| #[trigger] n1.contains_key(n) && n1[n].0 != id implies n0.contains_key(
                n,
            ) by {
                assert(node_placed(n0, n1, handles@, s.len() as int, n));
                if !n0.contains_key(n) {
                    let k = choose|k: int| 0 <= k < s.len() && #[trigger] handles@[k] == Some(n);
                    assert(voxel_settled(n0, c1, n1, id, s, handles@, k));
                }
            }
            assert(self.extends(old(self)));
            assert(self.keeps_others(old(self), id));
        }
        Some(id)
    }

    /// Convenience function used when a block needs to be moved and change state
    ///
    /// The block is taken out and put in again as given, under its identifier;
    /// it is lost where its new cells are taken, or where air is to take its place.
    pub fn replace_block(
        &mut self,
        id: InstanceID,
        block: Block,
        location: Coord,
        orientation: Orient,
    ) -> (done: Option<()>)
        requires
            old(self).wf(),
            old(self).roomy(),
            block.timed(),
            block.stands(location, orientation),
        ensures
            final(self).wf(),
            !old(self)@.blocks.contains_key(id) ==> done is None && final(self)@ == old(self)@,
            old(self)@.blocks.contains_key(id) && (block is Air || old(self)@.removed(id).overlaps(
                voxels_of((location, orientation, block)),
            )) ==> done is None && final(self)@ == old(self)@.removed(id),
            !(block is Air) && old(self)@.blocks.contains_key(id) && !old(self)@.removed(
                id,
            ).overlaps(voxels_of((location, orientation, block))) ==> done is Some && final(self)@
                == old(self)@.removed(id).placed(id, block, location, orientation),
            !old(self)@.blocks.contains_key(id) ==> *final(self) == *old(self),
            !old(self)@.blocks.contains_key(id) ==> final(self).same_circuit(old(self)),
            final(self).keeps_others(old(self), id),
            forall|k: nat| old(self).room_for(k + 1) ==> #[trigger] final(self).room_for(k),
            final(self).grown(old(self), 1),
    {
        match self.remove_block(id) {
            None => None,
            Some(_) => {
                let ghost mid = *self;
                let placed = self.add_block_with_id(id, block, location, orientation);
                proof {
                    assert forall|c: Coord|
                        old(self).space@.contains_key(c) && old(self).space@[c].0
                            != id implies self.space@.contains_key(c) && #[trigger] self.node_at(c)
                        == old(self).node_at(c) by {
                        assert(mid.node_at(c) == old(self).node_at(c));
                        assert(self.node_at(c) == mid.node_at(c));
                    }
                    assert forall|n: NodeID| #[trigger]
                        self.nodes().contains_key(n) && self.nodes()[n].0
                            != id implies old(self).nodes().contains_key(n) by {
                        assert(mid.nodes().contains_key(n));
                    }
                }
                match placed {
                    Some(_) => Some(()),
                    None => None,
                }
            },
        }
    }

    /// Updates the block state with the given ID
    ///
    /// Returns the old block state. Only the payload changes, whatever it
    /// is: the cells, the nodes and the links stay as they are. The scene
    /// stays well-formed where the new payload has the voxels of the old one
    /// and, for a clock, a rate; a block is given other voxels by
    /// `replace_block`.
    pub fn update_block(&mut self, id: InstanceID, block: Block) -> (previous: Option<Block>)
        ensures
            !old(self)@.blocks.contains_key(id) ==> previous is None && *final(self) == *old(self),
            old(self)@.blocks.contains_key(id) ==> previous == Some(old(self)@.blocks[id].2)
                && final(self)@ == old(self)@.updated(id, block),
            final(self).same_circuit(old(self)),
            old(self).wf() && block.timed() && old(self)@.takes(id, block) ==> final(self).wf(),
            forall|k: nat| old(self).room_for(k) ==> #[trigger] final(self).room_for(k),
            final(self).grown(old(self), 0),
    {
        let entry = match self.blocks.get(&id) {
            Some(entry) => *entry,
            None => {
                return None;
            },
        };
        proof {
            if self.wf() && block.timed() && self@.takes(id, block) {
                lemma_updated_fits(
                    self.blocks@,
                    self.space@,
                    circuit_nodes(self.circuit),
                    circuit_edges(self.circuit),
                    id,
                    block,
                );
            }
        }
        self.blocks.insert(id, (entry.0, entry.1, block));
        proof {
            assert(self.blocks@.dom() =~= old(self).blocks@.dom());
        }
        Some(entry.2)
    }

    /// Removes the block with the given ID from all internal data structures
    pub fn remove_block(&mut self, id: InstanceID) -> (removed: Option<(Coord, Orient, Block)>)
        requires
            old(self).wf(),
        ensures
            final(self).wf(),
            forall|k: nat| old(self).room_for(k) ==> #[trigger] final(self).room_for(k),
            final(self).grown(old(self), 0),
            !old(self)@.blocks.contains_key(id) ==> removed is None && final(self)@ == old(
                self,
            )@,
            old(self)@.blocks.contains_key(id) ==> removed == Some(old(self)@.blocks[id])
                && final(self)@ == old(self)@.removed(id),
            removed is None ==> *final(self) == *old(self),
            removed is None ==> final(self).same_circuit(old(self)),
            final(self).keeps_others(old(self), id),
            old(self).extends(final(self)),
    {
        let entry = match self.blocks.get(&id) {
            Some(entry) => *entry,
            None => {
                return None;
            },
        };
        let ghost b0 = self.blocks@;
        let ghost c0 = self.space@;
        let ghost n0 = circuit_nodes(self.circuit);
        let ghost e0 = circuit_edges(self.circuit);
        let ghost s = voxels_of(entry);
        assert(sound_entry(b0[id]));
        let voxels = entry.2.get_global_structure(entry.0, entry.1);
        let mut i: usize = 0;
        while i < voxels.len()
            invariant
                i <= voxels.len(),
                s == structure_view(voxels@),
                s == voxels_of(b0[id]),
                fits(b0, c0, n0, e0),
                b0.contains_key(id),
                self.blocks@ == b0,
                self.ticks == old(self).ticks,
                cleared(
                    c0,
                    n0,
                    e0,
                    self.space@,
                    circuit_nodes(self.circuit),
                    circuit_edges(self.circuit),
                    s,
                    i as int,
                ),
            decreases voxels.len() - i,
        {
            let ghost c_mid = self.space@;
            let ghost n_mid = circuit_nodes(self.circuit);
            let ghost e_mid = circuit_edges(self.circuit);
            assert(s[i as int].1 == voxels@[i as int].1);
            proof {
                lemma_placed_structure(b0[id]);
                assert(voxel_stored(b0, c0, id, i as int));
                assert(!gone(s, i as int, s[i as int].1)) by {
                    if gone(s, i as int, s[i as int].1) {
                        let k = choose|k: int|
                            0 <= k < i && (#[trigger] s[k]).1 == s[i as int].1;
                        assert(s[k].1 != s[i as int].1);
                    }
                }
                assert(c_mid.contains_key(s[i as int].1));
            }
            match self.space.remove(voxels[i].1) {
                Some(cell) => {
                    match cell.2 {
                        Some(node) => {
                            let _ = circuit_remove_node(&mut self.circuit, node);
                        },
                        None => {},
                    }
                },
                None => {},
            }
            proof {
                lemma_clear_step(
                    b0,
                    c0,
                    n0,
                    e0,
                    c_mid,
                    n_mid,
                    e_mid,
                    self.space@,
                    circuit_nodes(self.circuit),
                    circuit_edges(self.circuit),
                    id,
                    i as int,
                );
            }
            i = i + 1;
        }
        proof {
            lemma_removed(
                b0,
                c0,
                n0,
                e0,
                self.space@,
                circuit_nodes(self.circuit),
                circuit_edges(self.circuit),
                id,
                self.ticks,
            );
            let c1 = self.space@;
            let n1 = circuit_nodes(self.circuit);
            assert forall|c: Coord| c0.contains_key(c) && c0[c].0 != id implies c1.contains_key(
                c,
            ) by {
                if gone(s, s.len() as int, c) {
                    let k = choose|k: int| 0 <= k < s.len() && (#[trigger] s[k]).1 == c;
                    assert(voxel_stored(b0, c0, id, k));
                }
            }
            assert forall|n: NodeID| #[trigger] n0.contains_key(n) && n0[n].0 != id implies n1.contains_key(
                n,
            ) by {
                assert(node_celled(c0, n0, n));
                if gone(s, s.len() as int, n0[n].2) {
                    let k = choose|k: int| 0 <= k < s.len() && (#[trigger] s[k]).1 == n0[n].2;
                    assert(voxel_stored(b0, c0, id, k));
                }
            }
            assert(old(self).extends(self));
            assert(self.keeps_others(old(self), id));
        }
        self.blocks.remove(&id)
    }

    /// Add a wire that follows the given path
    ///
    /// Returns the wire block IDs if the path is valid, `None` if not
    pub fn add_wire(&mut self, path: Vec<Coord>) -> (ids: Option<Vec<InstanceID>>)
        requires
            old(self).wf(),
            old(self).room_for(path.len() as nat),
            continuous(path@) ==> wire_fits(old(self)@, path@),
        ensures
            final(self).wf(),
            path.len() == 0 || !continuous(path@) ==> ids is None && final(self)@ == old(self)@,
            path.len() > 0 && continuous(path@) ==> ids is Some && ids->0.len() == path.len()
                && final(self)@ == wired(old(self)@, path@, path.len() as nat) && forall|i: int|
                0 <= i < path.len() ==> #[trigger] ids->0[i] == wired(
                    old(self)@,
                    path@,
                    i as nat,
                ).next_id(),
            ids is None ==> *final(self) == *old(self),
            ids is None ==> final(self).same_circuit(old(self)),
            final(self).extends(old(self)),
            forall|k: nat|
                old(self).room_for(k + path.len() as nat) ==> #[trigger] final(self).room_for(k),
    {
        if path.len() == 0 {
            return None;
        }
        // Verify path is continuous
        let mut step: usize = 1;
        while step < path.len()
            invariant
                1 <= step <= path.len(),
                *self == *old(self),
                self.wf(),
                forall|i: int| 0 <= i < step - 1 ==> (#[trigger] path@[i]).adjacent(path@[i + 1]),
            decreases path.len() - step,
        {
            if !path[step - 1].is_adjacent(&path[step]) {
                assert(!continuous(path@)) by {
                    if continuous(path@) {
                        assert(path@[step - 1].adjacent(path@[step - 1 + 1]));
                    }
                }
                return None;
            }
            step = step + 1;
        }
        assert(continuous(path@));
        let ghost v = self@;
        let mut ids: Vec<InstanceID> = Vec::new();
        let mut i: usize = 0;
        proof {
            crate::laws::law_world_valid(self);
        }
        while i < path.len()
            invariant
                i <= path.len(),
                self.wf(),
                self.room_for((path.len() - i) as nat),
                v == old(self)@,
                wire_fits(v, path@),
                self@ == wired(v, path@, i as nat),
                wires_laid(v, self@, path@, i as int),
                self.grown(old(self), i as nat),
                self.extends(old(self)),
                ids.len() == i,
                forall|k: int| 0 <= k < i ==> #[trigger] ids@[k] == wired(v, path@, k as nat).next_id(),
            decreases path.len() - i,
        {
            let ghost w = self@;
            let ghost mid = *self;
            let at = path[i];
            let wire = Block::Wire(crate::block::VoxelPowered { powered: false });
            proof {
                lemma_wire_structure(at);
                let s = voxels_of((at, Orient::FORWARD, wire));
                assert(!w.overlaps(s)) by {
                    if w.overlaps(s) {
                        let k = choose|k: int|
                            0 <= k < s.len() && w.space.contains_key((#[trigger] s[k]).1);
                        assert(w.space.contains_key(at));
                        assert(!v.space.contains_key(path@[i as int]));
                        let j = choose|j: int| 0 <= j < i && #[trigger] path@[j] == at;
                        assert(path@[j] != path@[i as int]);
                    }
                }
            }
            let id = self.add_block(wire, at, Orient::FORWARD);
            proof {
                let after = self@;
                assert(after == w.placed(w.next_id(), wire, at, Orient::FORWARD));
                assert(wired(v, path@, (i + 1) as nat) == after);
                assert forall|c: Coord| #[trigger] after.space.contains_key(c) implies v.space.contains_key(
                    c,
                ) || exists|k: int| 0 <= k < i + 1 && #[trigger] path@[k] == c by {
                    if !w.space.contains_key(c) {
                        let s = voxels_of((at, Orient::FORWARD, wire));
                        let k = choose|k: int| 0 <= k < s.len() && (#[trigger] s[k]).1 == c;
                        assert(path@[i as int] == c);
                    } else if !v.space.contains_key(c) {
                        let k = choose|k: int| 0 <= k < i && #[trigger] path@[k] == c;
                        assert(0 <= k < i + 1 && path@[k] == c);
                    }
                }
                assert forall|c: Coord| old(self).space@.contains_key(c) implies self.space@.contains_key(
                    c,
                ) && #[trigger] self.node_at(c) == old(self).node_at(c) by {
                    assert(mid.node_at(c) == old(self).node_at(c));
                    assert(self.node_at(c) == mid.node_at(c));
                }
                assert forall|n: NodeID| #[trigger]
                    old(self).nodes().contains_key(n) implies self.nodes().contains_key(n)
                    && self.nodes()[n] == old(self).nodes()[n] by {
                    assert(mid.nodes().contains_key(n));
                }
            }
            match id {
                Some(id) => {
                    ids.push(id);
                },
                None => {},
            }
            i = i + 1;
        }
        Some(ids)
    }

    /// Get the voxels coordinates (global) associated with the provided block
    pub fn get_voxel_locations(&self, id: InstanceID) -> (places: Vec<Coord>)
        requires
            self.wf(),
            self@.blocks.contains_key(id),
        ensures
            places@.len() == voxels_of(self@.blocks[id]).len(),
            forall|i: int|
                0 <= i < places@.len() ==> #[trigger] places@[i] == voxels_of(self@.blocks[id])[i].1,
    {
        assert(sound_entry(self.blocks@[id]));
        let entry = match self.blocks.get(&id) {
            Some(entry) => *entry,
            None => (Coord::zero(), Orient::FORWARD, Block::Air),
        };
        let voxels = entry.2.get_global_structure(entry.0, entry.1);
        let mut places: Vec<Coord> = Vec::new();
        let mut i: usize = 0;
        while i < voxels.len()
            invariant
                i <= voxels.len(),
                structure_view(voxels@) == voxels_of(self@.blocks[id]),
                places@.len() == i,
                forall|k: int|
                    0 <= k < i ==> #[trigger] places@[k] == voxels_of(self@.blocks[id])[k].1,
            decreases voxels.len() - i,
        {
            assert(structure_view(voxels@)[i as int].1 == voxels@[i as int].1);
            places.push(voxels[i].1);
            i = i + 1;
        }
        places
    }

    /// Get the circuit nodes associated with the provided block
    pub fn get_circuit_nodes(&self, id: InstanceID) -> (terminals: Vec<(String, NodeID)>)
        requires
            self.wf(),
            self@.blocks.contains_key(id),
        ensures
            terminals@.len() == self@.blocks[id].2.global_circuit_voxels(
                self@.blocks[id].0,
                self@.blocks[id].1,
            ).len(),
            forall|i: int|
                0 <= i < terminals@.len() ==> {
                    let v = self@.blocks[id].2.global_circuit_voxels(
                        self@.blocks[id].0,
                        self@.blocks[id].1,
                    )[i];
                    &&& (#[trigger] terminals@[i]).0@ == v.0
                    &&& self.node_at(v.1) == Some(terminals@[i].1)
                },
    {
        assert(sound_entry(self.blocks@[id]));
        let entry = match self.blocks.get(&id) {
            Some(entry) => *entry,
            None => (Coord::zero(), Orient::FORWARD, Block::Air),
        };
        let voxels = entry.2.get_global_circuit_voxels(entry.0, entry.1);
        let ghost want = structure_view(voxels@);
        let ghost all = voxels_of(self@.blocks[id]);
        let ghost pred = |v: (Seq<char>, Coord)| is_terminal_name(v.0);
        let mut terminals: Vec<(String, NodeID)> = Vec::new();
        let mut i: usize = 0;
        while i < voxels.len()
            invariant
                i <= voxels.len(),
                self.wf(),
                self@.blocks.contains_key(id),
                want == structure_view(voxels@),
                all == voxels_of(self@.blocks[id]),
                pred == |v: (Seq<char>, Coord)| is_terminal_name(v.0),
                want == all.filter(pred),
                terminals@.len() == i,
                forall|k: int|
                    0 <= k < i ==> (#[trigger] terminals@[k]).0@ == want[k].0 && self.node_at(
                        want[k].1,
                    ) == Some(terminals@[k].1),
            decreases voxels.len() - i,
        {
            assert(want[i as int] == (voxels@[i as int].0@, voxels@[i as int].1));
            proof {
                all.lemma_filter_contains_rev(pred, want[i as int]);
                assert(all.filter(pred).contains(want[i as int]));
                assert(all.contains(want[i as int]));
                let k = choose|k: int| 0 <= k < all.len() && all[k] == want[i as int];
                all.lemma_filter_pred(pred, i as int);
                assert(voxel_stored(self.blocks@, self.space@, id, k));
                assert(cell_known(self.blocks@, self.space@, all[k].1));
            }
            let node = match self.space.get(voxels[i].1) {
                Some(cell) => {
                    match cell.2 {
                        Some(node) => node,
                        None => 0,
                    }
                },
                None => 0,
            };
            terminals.push((voxels[i].0.clone(), node));
            i = i + 1;
        }
        terminals
    }

    /// The circuit node of the terminal at `c`, if a terminal stands there.
    pub open(crate) spec fn node_at(&self, c: Coord) -> Option<NodeID> {
        if self.space@.contains_key(c) {
            self.space@[c].2
        } else {
            None
        }
    }

    /// The number of occupied cells.
    pub fn cell_count(&self) -> (n: usize)
        ensures
            self@.space.dom().finite(),
            n == self@.space.len(),
    {
        let n = self.space.len();
        assert(self@.space.dom() =~= self.space@.dom());
        n
    }

    /// Which block fills the cell at `location`, and with which voxel.
    pub fn get_cell(&self, location: Coord) -> (cell: Option<(InstanceID, String)>)
        ensures
            match cell {
                Some(found) => self@.space.contains_key(location) && self@.space[location] == (
                    found.0,
                    found.1@,
                ),
                None => !self@.space.contains_key(location),
            },
    {
        match self.space.get(location) {
            Some(cell) => Some((cell.0, cell.1)),
            None => None,
        }
    }

    /// The power of the link between the terminals at `a` and `b`, if they are linked.
    pub fn get_link(&self, a: Coord, b: Coord) -> (power: Option<bool>)
        requires
            self.wf(),
        ensures
            power is Some == self@.links.contains_key((a, b)),
            power is Some ==> power->0 == self@.links[(a, b)],
    {
        let ghost c = self.space@;
        let ghost n = circuit_nodes(self.circuit);
        let ghost e = circuit_edges(self.circuit);
        let first = match self.space.get(a) {
            Some(cell) => cell.2,
            None => None,
        };
        let second = match self.space.get(b) {
            Some(cell) => cell.2,
            None => None,
        };
        match (first, second) {
            (Some(x), Some(y)) => {
                let listed = circuit_edge_indices(&self.circuit);
                let mut t: usize = 0;
                while t < listed.len()
                    invariant
                        t <= listed.len(),
                        self.wf(),
                        c == self.space@,
                        e == circuit_edges(self.circuit),
                        c.contains_key(a) && c[a].2 == Some(x),
                        c.contains_key(b) && c[b].2 == Some(y),
                        listed@.to_set() == e.dom(),
                        forall|k: int| 0 <= k < t ==> !joins(e[#[trigger] listed@[k]], x, y),
                    decreases listed.len() - t,
                {
                    let k = listed[t];
                    assert(listed@.to_set().contains(k));
                    let ends = circuit_edge_endpoints(&self.circuit, k);
                    let power = circuit_edge_weight(&self.circuit, k);
                    match (ends, power) {
                        (Some(ends), Some(power)) => {
                            if (ends.0 == x && ends.1 == y) || (ends.0 == y && ends.1 == x) {
                                proof {
                                    assert(e.contains_key(k) && joins(e[k], x, y));
                                    assert(linked(c, e, a, b));
                                    let chosen = link_edge(c, e, a, b);
                                    assert(e.contains_key(chosen) && joins(e[chosen], x, y));
                                    assert(chosen == k);
                                }
                                return Some(power);
                            }
                        },
                        _ => {},
                    }
                    t = t + 1;
                }
                proof {
                    if linked(c, e, a, b) {
                        let chosen = link_edge(c, e, a, b);
                        assert(e.contains_key(chosen) && joins(e[chosen], x, y));
                        assert(listed@.to_set().contains(chosen));
                        let k = choose|k: int| 0 <= k < listed@.len() && listed@[k] == chosen;
                        assert(!joins(e[listed@[k]], x, y));
                    }
                }
                None
            },
            _ => None,
        }
    }

    /// The links of the world, each once, with its two terminals and its power.
    pub fn get_links(&self) -> (listing: Vec<(Coord, Coord, bool)>)
        requires
            self.wf(),
        ensures
            links_listing(self@, listing@),
    {
        let ghost b = self.blocks@;
        let ghost c = self.space@;
        let ghost n = circuit_nodes(self.circuit);
        let ghost e = circuit_edges(self.circuit);
        let edge_indices = circuit_edge_indices(&self.circuit);
        let mut listing: Vec<(Coord, Coord, bool)> = Vec::new();
        let mut t: usize = 0;
        while t < edge_indices.len()
            invariant
                t <= edge_indices.len(),
                self.wf(),
                b == self.blocks@,
                c == self.space@,
                n == circuit_nodes(self.circuit),
                e == circuit_edges(self.circuit),
                edge_indices@.to_set() == e.dom(),
                listing@.len() == t,
                forall|k: int|
                    0 <= k < t ==> #[trigger] listing@[k] == (
                        n[e[edge_indices@[k]].0].2,
                        n[e[edge_indices@[k]].1].2,
                        e[edge_indices@[k]].2,
                    ),
            decreases edge_indices.len() - t,
        {
            let x = edge_indices[t];
            proof {
                assert(edge_indices@.to_set().contains(x));
                assert(e.contains_key(x));
                assert(edge_sound(n, e[x]));
            }
            let ends = circuit_edge_endpoints(&self.circuit, x);
            let power = circuit_edge_weight(&self.circuit, x);
            let entry = match (ends, power) {
                (Some(ends), Some(power)) => {
                    match (
                        circuit_node_weight(&self.circuit, ends.0),
                        circuit_node_weight(&self.circuit, ends.1),
                    ) {
                        (Some(from), Some(to)) => (from.2, to.2, power),
                        _ => (Coord::zero(), Coord::zero(), power),
                    }
                },
                _ => (Coord::zero(), Coord::zero(), false),
            };
            listing.push(entry);
            t = t + 1;
        }
        proof {
            let v = self@;
            let rows = listing@;
            assert forall|k: int| 0 <= k < rows.len() implies link_listed(v, #[trigger] rows[k]) by {
                let x = edge_indices@[k];
                assert(edge_indices@.to_set().contains(x));
                assert(e.contains_key(x) && joins(e[x], e[x].0, e[x].1));
                crate::tick::lemma_edge_is_link(b, c, n, e, e[x].0, e[x].1);
                let chosen = link_edge(c, e, rows[k].0, rows[k].1);
                assert(e.contains_key(chosen) && joins(e[chosen], e[x].0, e[x].1));
                assert(chosen == x);
            }
            assert forall|p: (Coord, Coord)| #[trigger] v.links.contains_key(p) implies lists_link(
                rows,
                p,
            ) by {
                let x = link_edge(c, e, p.0, p.1);
                assert(e.contains_key(x) && joins(e[x], c[p.0].2->0, c[p.1].2->0));
                assert(cell_noded(c, n, p.0));
                assert(cell_noded(c, n, p.1));
                assert(edge_indices@.to_set().contains(x));
                let k = choose|k: int| 0 <= k < edge_indices@.len() && edge_indices@[k] == x;
                assert(same_pair(rows[k], (p.0, p.1, rows[k].2)));
            }
            assert forall|i: int, j: int|
                0 <= i < rows.len() && 0 <= j < rows.len() && same_pair(
                    #[trigger] rows[i],
                    #[trigger] rows[j],
                ) implies i == j by {
                let x = edge_indices@[i];
                let y = edge_indices@[j];
                assert(edge_indices@.to_set().contains(x));
                assert(edge_indices@.to_set().contains(y));
                assert(edge_sound(n, e[x]));
                assert(edge_sound(n, e[y]));
                assert(node_celled(c, n, e[x].0));
                assert(node_celled(c, n, e[x].1));
                assert(node_celled(c, n, e[y].0));
                assert(node_celled(c, n, e[y].1));
                assert(joins(e[x], e[y].0, e[y].1));
                assert(x == y);
            }
        }
        listing
    }

    /// Builds the world that holds the saved blocks, each under its
    /// identifier, at the given count of ticks and without power on any
    /// link. Returns `None` where one of the blocks cannot be put back.
    pub fn restore(saved: &Vec<Saved>, ticks: u32) -> (scene: Option<Scene>)
        requires
            54 * saved.len() < u32::MAX,
        ensures
            match scene {
                Some(scene) => scene.wf() && scene@ == restored(saved@, ticks, saved@.len())
                    && forall|i: int| 0 <= i < saved@.len() ==> #[trigger] restorable(
                    saved@,
                    ticks,
                    i,
                ),
                None => exists|i: int| 0 <= i < saved@.len() && !#[trigger] restorable(
                    saved@,
                    ticks,
                    i,
                ),
            },
            scene is Some ==> forall|k: nat|
                54 * (k + saved.len()) < u32::MAX ==> #[trigger] scene->0.room_for(k),
    {
        let mut scene = Scene::new();
        assert(scene.room_for(saved.len() as nat));
        scene.ticks = ticks;
        proof {
            assert(scene@.space =~= restored(saved@, ticks, 0).space);
            assert(scene@.links =~= restored(saved@, ticks, 0).links);
        }
        let mut i: usize = 0;
        while i < saved.len()
            invariant
                i <= saved.len(),
                scene.wf(),
                scene.room_for((saved.len() - i) as nat),
                scene@ == restored(saved@, ticks, i as nat),
                scene.within(i as nat),
                forall|k: int| 0 <= k < i ==> #[trigger] restorable(saved@, ticks, k),
            decreases saved.len() - i,
        {
            let item = saved[i];
            assert(restored(saved@, ticks, (i + 1) as nat) == scene@.placed(
                item.0,
                item.3,
                item.1,
                item.2,
            ));
            if !(item.3.is_sound() && item.3.can_stand(item.1, item.2))
                || scene.blocks.contains_key(&item.0) {
                assert(!restorable(saved@, ticks, i as int));
                return None;
            }
            match scene.add_block_with_id(item.0, item.3, item.1, item.2) {
                Some(_) => {},
                None => {
                    assert(!restorable(saved@, ticks, i as int));
                    return None;
                },
            }
            i = i + 1;
        }
        Some(scene)
    }

    /// Sets the power of the link between the terminals at `a` and `b`, if
    /// they are linked, and tells whether they are.
    pub fn set_link(&mut self, a: Coord, b: Coord, power: bool) -> (linked: bool)
        requires
            old(self).wf(),
        ensures
            final(self).wf(),
            linked == old(self)@.links.contains_key((a, b)),
            final(self)@ == (SceneView {
                links: link_set(old(self)@.links, a, b, power),
                ..old(self)@
            }),
            final(self).same_circuit(old(self)),
            forall|k: nat| old(self).room_for(k) ==> #[trigger] final(self).room_for(k),
            final(self).grown(old(self), 0),
    {
        let ghost blocks = self.blocks@;
        let ghost c = self.space@;
        let ghost n = circuit_nodes(self.circuit);
        let ghost e0 = circuit_edges(self.circuit);
        let first = match self.space.get(a) {
            Some(cell) => cell.2,
            None => None,
        };
        let second = match self.space.get(b) {
            Some(cell) => cell.2,
            None => None,
        };
        match (first, second) {
            (Some(x), Some(y)) => {
                if self.get_link(a, b).is_some() {
                    proof {
                        assert(linked(c, e0, a, b));
                        assert(cell_noded(c, n, a));
                        assert(cell_noded(c, n, b));
                    }
                    let k = circuit_update_edge(&mut self.circuit, x, y, power);
                    proof {
                        let e1 = circuit_edges(self.circuit);
                        let chosen = link_edge(c, e0, a, b);
                        assert(e0.contains_key(chosen) && joins(e0[chosen], x, y));
                        assert(k == chosen);
                        assert(e1 == e0.insert(k, (e0[k].0, e0[k].1, power)));
                        assert forall|j: EdgeID| e1.contains_key(j) implies edge_sound(
                            n,
                            #[trigger] e1[j],
                        ) by {
                            assert(edge_sound(n, e0[j]));
                        }
                        assert(edges_simple(e1)) by {
                            assert forall|k1: EdgeID, k2: EdgeID|
                                #[trigger] e1.contains_key(k1) && #[trigger] e1.contains_key(k2)
                                    && joins(e1[k1], e1[k2].0, e1[k2].1) implies k1 == k2 by {
                                assert(e0.contains_key(k1) && e0.contains_key(k2));
                                assert(joins(e0[k1], e0[k2].0, e0[k2].1));
                            }
                        }
                        assert forall|p: Coord, q: Coord| #[trigger]
                            near_cells(c, p, q) implies c[p].2 is Some && c[q].2 is Some && joined(
                            e1,
                            c[p].2->0,
                            c[q].2->0,
                        ) by {
                            let j = choose|j: EdgeID| #[trigger]
                                e0.contains_key(j) && joins(e0[j], c[p].2->0, c[q].2->0);
                            assert(e1.contains_key(j) && joins(e1[j], c[p].2->0, c[q].2->0));
                        }
                        let want = link_set(links_of(c, e0), a, b, power);
                        assert forall|p: (Coord, Coord)| links_of(c, e1).contains_key(p)
                            <==> want.contains_key(p) by {
                            if linked(c, e1, p.0, p.1) {
                                let j = link_edge(c, e1, p.0, p.1);
                                assert(e0.contains_key(j) && joins(
                                    e0[j],
                                    c[p.0].2->0,
                                    c[p.1].2->0,
                                ));
                            }
                            if linked(c, e0, p.0, p.1) {
                                let j = link_edge(c, e0, p.0, p.1);
                                assert(e1.contains_key(j) && joins(
                                    e1[j],
                                    c[p.0].2->0,
                                    c[p.1].2->0,
                                ));
                            }
                            if p == (b, a) {
                                assert(joins(e0[k], y, x));
                                assert(linked(c, e0, b, a));
                            }
                        }
                        assert forall|p: (Coord, Coord)| links_of(c, e1).contains_key(
                            p,
                        ) implies links_of(c, e1)[p] == want[p] by {
                            let j1 = link_edge(c, e1, p.0, p.1);
                            let j0 = link_edge(c, e0, p.0, p.1);
                            assert(e1.contains_key(j1) && joins(
                                e1[j1],
                                c[p.0].2->0,
                                c[p.1].2->0,
                            ));
                            assert(e0.contains_key(j1) && joins(
                                e0[j1],
                                c[p.0].2->0,
                                c[p.1].2->0,
                            ));
                            assert(e0.contains_key(j0) && joins(
                                e0[j0],
                                c[p.0].2->0,
                                c[p.1].2->0,
                            ));
                            assert(j0 == j1);
                            assert(cell_noded(c, n, p.0));
                            assert(cell_noded(c, n, p.1));
                            if j1 == k {
                                assert(node_celled(c, n, x));
                                assert(node_celled(c, n, y));
                                assert(p == (a, b) || p == (b, a));
                            } else {
                                if p == (a, b) || p == (b, a) {
                                    assert(joins(e0[j1], x, y));
                                }
                            }
                        }
                        assert(links_of(c, e1) =~= want);
                    }
                    true
                } else {
                    false
                }
            },
            _ => false,
        }
    }

    /// Whether the circuit graph can take the terminals and links of one more block.
    pub fn is_roomy(&self) -> (b: bool)
        ensures
            b == self.roomy(),
    {
        self.has_room_for(1)
    }

    /// Whether the scene can take `k` more blocks.
    pub fn has_room_for(&self, k: usize) -> (b: bool)
        ensures
            b == self.room_for(k as nat),
    {
        let nodes = circuit_node_count(&self.circuit);
        let edges = circuit_edge_count(&self.circuit);
        let blocks = self.blocks.len();
        if k > 0xffff_ffff || nodes > 0xffff_ffff || edges > 0xffff_ffff || blocks > 0xffff_ffff {
            false
        } else {
            let k: u64 = k as u64;
            nodes as u64 + 9 * k < 0xffff_ffff && edges as u64 + 54 * k < 0xffff_ffff && 2 * (
                blocks as u64 + k) <= 0xffff_ffff
        }
    }
}

impl Default for Scene {
    fn default() -> (scene: Scene)
        ensures
            scene.wf(),
            scene@ == SceneView::empty(),
            forall|k: nat| 54 * k < u32::MAX ==> #[trigger] scene.room_for(k),
    {
        Scene::new()
    }
}

} // verus!
