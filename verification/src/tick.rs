use crate::block::{
    Block, is_terminal_name, Layout, lemma_terminals, Orient, Structure, structure_view,
    terminal_name, VoxelPowered,
};
use crate::circuit::{
    circuit_edge_endpoints, circuit_edge_indices, circuit_edges, circuit_neighbors,
    circuit_node_count, circuit_node_weight, circuit_nodes, circuit_update_edge, EdgeID, Edges,
    joined, joins, neighbours_of, Nodes,
};
use crate::grid::{Coord, InstanceID, NodeID};
use crate::scene::{
    Blocks, cell_known, cell_noded, Cells, edge_sound, edges_simple, Entry, fits, lemma_fits_valid,
    lemma_placed_structure, link_edge, linked, links_of, node_celled, OFF, Scene, SceneView,
    sound_entry, space_of, voxel_stored, voxels_of,
};
use std::collections::HashMap;
use std::collections::HashSet;
use vstd::prelude::*;
use vstd::std_specs::iter::IteratorSpec;

verus! {

broadcast use vstd::std_specs::hash::group_hash_axioms;

/// Where the voxel called `name` stands.
pub open spec fn place_of(s: Structure, name: Seq<char>) -> Coord {
    s[choose|i: int| 0 <= i < s.len() && (#[trigger] s[i]).0 == name].1
}

/// A chain of positions runs from `a` to `b`.
pub open spec fn runs(path: Seq<Coord>, a: Coord, b: Coord) -> bool {
    path.len() > 0 && path[0] == a && path[path.len() - 1] == b
}

impl SceneView {
    /// The block whose voxel fills the cell at `c`.
    pub open spec fn block_at(self, c: Coord) -> Block {
        self.blocks[self.space[c].0].2
    }

    /// Whether the terminal at `c` is a source that emits power.
    pub open spec fn source_power(self, c: Coord) -> bool {
        self.space.contains_key(c) && self.block_at(c).emits(self.space[c].1)
    }

    /// Whether the terminal at `c` is linked to a source that emits power.
    pub open spec fn fed(self, c: Coord) -> bool {
        exists|n: Coord| #[trigger] self.links.contains_key((c, n)) && self.source_power(n)
    }

    /// Whether power comes in at the named terminal of the block `id`.
    pub open spec fn input(self, id: InstanceID, name: Option<Seq<char>>) -> bool {
        name is Some && self.fed(place_of(voxels_of(self.blocks[id]), name->0))
    }

    /// The state of the block `id` after the tick, from the powers that come
    /// in before the tick. A wire stays as it is here.
    pub open spec fn stepped(self, id: InstanceID) -> Block {
        let b = self.blocks[id].2;
        b.next(self.ticks + 1, self.input(id, b.first_input()), self.input(id, b.second_input()))
    }

    /// The cell at `c` holds the terminal of a wire.
    pub open spec fn is_wire(self, c: Coord) -> bool {
        self.space.contains_key(c) && self.block_at(c) is Wire
    }

    /// A chain of wire terminals, each linked to the next.
    pub open spec fn wire_path(self, path: Seq<Coord>) -> bool {
        &&& forall|i: int| 0 <= i < path.len() ==> self.is_wire(#[trigger] path[i])
        &&& forall|i: int|
            0 <= i < path.len() - 1 ==> #[trigger] self.links.contains_key((path[i], path[i + 1]))
    }

    /// The wire terminals at `a` and `b` belong to one wire network.
    pub open spec fn same_network(self, a: Coord, b: Coord) -> bool {
        exists|path: Seq<Coord>| #[trigger] self.wire_path(path) && runs(path, a, b)
    }

    /// Some wire of the network of `a` has power before the tick.
    pub open spec fn network_was_on(self, a: Coord) -> bool {
        exists|w: Coord| #[trigger]
            self.same_network(a, w) && self.block_at(w).circuit_power() == Some(true)
    }

    /// Whether the terminal at `n` belongs to a block other than a wire and
    /// is a source that emits power once that block has stepped.
    pub open spec fn drives(self, n: Coord) -> bool {
        &&& self.space.contains_key(n)
        &&& !(self.block_at(n) is Wire)
        &&& self.stepped(self.space[n].0).emits(self.space[n].1)
    }

    /// Some wire of the network of `a` is linked to a terminal that drives it.
    pub open spec fn network_fed(self, a: Coord) -> bool {
        exists|w: Coord, n: Coord| #[trigger]
            self.same_network(a, w) && #[trigger] self.links.contains_key((w, n)) && self.drives(n)
    }

    /// The network of the wire `id` changes its power with the tick.
    pub open spec fn flips(self, id: InstanceID) -> bool {
        let at = place_of(voxels_of(self.blocks[id]), terminal_name("wire"@));
        self.network_fed(at) != self.network_was_on(at)
    }

    /// The state of the block `id` after the tick: a wire takes the new power
    /// of its network where that differs from the old one; every other block steps.
    pub open spec fn advanced(self, id: InstanceID) -> Block {
        match self.blocks[id].2 {
            Block::Wire(data) => {
                let at = place_of(voxels_of(self.blocks[id]), terminal_name("wire"@));
                if self.flips(id) {
                    Block::Wire(VoxelPowered { powered: self.network_fed(at) })
                } else {
                    Block::Wire(data)
                }
            },
            _ => self.stepped(id),
        }
    }

    /// Whether the tick changes the state of the block `id`.
    pub open spec fn changes(self, id: InstanceID) -> bool {
        self.advanced(id) != self.blocks[id].2
    }

    /// The blocks whose state the tick changes, which it reports.
    pub open spec fn tick_delta(self) -> Set<InstanceID> {
        Set::new(|id: InstanceID| self.blocks.contains_key(id) && self.changes(id))
    }

    /// The blocks after the tick.
    pub open spec fn ticked_blocks(self) -> Map<InstanceID, Entry> {
        Map::new(
            |id: InstanceID| self.blocks.contains_key(id),
            |id: InstanceID| (self.blocks[id].0, self.blocks[id].1, self.advanced(id)),
        )
    }

    /// Whether the block that fills the cell at `c` puts out power after the tick.
    pub open spec fn power_after(self, c: Coord) -> bool {
        self.advanced(self.space[c].0).circuit_power() == Some(true)
    }

    /// The world after one tick: every block in its next state, every link
    /// with the power of either of its two blocks, the counter one higher.
    pub open spec fn ticked(self) -> SceneView {
        SceneView {
            blocks: self.ticked_blocks(),
            space: self.space,
            links: Map::new(
                |p: (Coord, Coord)| self.links.contains_key(p),
                |p: (Coord, Coord)| self.power_after(p.0) || self.power_after(p.1),
            ),
            ticks: (self.ticks + 1) as u32,
        }
    }
}

/// The rank of the first input among the voxels of a block that has one.
pub open spec fn first_rank(b: Block) -> int {
    if b.layout() == Layout::Shell {
        6
    } else {
        0
    }
}

/// Where the inputs of a placed block stand among its voxels.
pub proof fn lemma_input_places(entry: Entry)
    requires
        entry.2.stands(entry.0, entry.1),
    ensures
        entry.2.first_input() is Some ==> place_of(voxels_of(entry), entry.2.first_input()->0)
            == voxels_of(entry)[first_rank(entry.2)].1 && voxels_of(entry).len() > first_rank(
            entry.2,
        ) && is_terminal_name(entry.2.first_input()->0),
        entry.2.second_input() is Some ==> place_of(voxels_of(entry), entry.2.second_input()->0)
            == voxels_of(entry)[7].1 && voxels_of(entry).len() == 9,
        entry.2 is Wire ==> place_of(voxels_of(entry), terminal_name("wire"@)) == voxels_of(
            entry,
        )[0].1 && voxels_of(entry).len() == 1 && voxels_of(entry)[0].0 == terminal_name("wire"@),
{
    let b = entry.2;
    let s = voxels_of(entry);
    lemma_placed_structure(entry);
    if b.first_input() is Some {
        let name = b.first_input()->0;
        let k = first_rank(b);
        assert(s[k].0 == b.structure()[k].0);
        assert(s[k].0 == name);
        let i = choose|i: int| 0 <= i < s.len() && (#[trigger] s[i]).0 == name;
        assert(i == k);
    }
    if b.second_input() is Some {
        let name = b.second_input()->0;
        assert(s[7].0 == b.structure()[7].0);
        assert(s[7].0 == name);
        let i = choose|i: int| 0 <= i < s.len() && (#[trigger] s[i]).0 == name;
        assert(i == 7);
    }
    if b is Wire {
        let name = terminal_name("wire"@);
        assert(s[0].0 == b.structure()[0].0);
        let i = choose|i: int| 0 <= i < s.len() && (#[trigger] s[i]).0 == name;
        assert(i == 0);
    }
}

/// An edge between two nodes is a link between their cells.
pub proof fn lemma_edge_is_link(
    b: Blocks,
    c: Cells,
    n: Nodes,
    e: Edges,
    x: NodeID,
    y: NodeID,
)
    requires
        fits(b, c, n, e),
        joined(e, x, y),
    ensures
        n.contains_key(x),
        n.contains_key(y),
        c.contains_key(n[x].2),
        c.contains_key(n[y].2),
        c[n[x].2] == (n[x].0, n[x].1, Some(x)),
        c[n[y].2] == (n[y].0, n[y].1, Some(y)),
        b.contains_key(n[x].0),
        b.contains_key(n[y].0),
        is_terminal_name(n[x].1),
        is_terminal_name(n[y].1),
        linked(c, e, n[x].2, n[y].2),
        links_of(c, e).contains_key((n[x].2, n[y].2)),
{
    let k = choose|k: EdgeID| #[trigger] e.contains_key(k) && joins(e[k], x, y);
    assert(edge_sound(n, e[k]));
    assert(node_celled(c, n, x));
    assert(node_celled(c, n, y));
    assert(cell_known(b, c, n[x].2));
    assert(cell_known(b, c, n[y].2));
}

/// A link between two cells is an edge between their nodes.
pub proof fn lemma_link_is_edge(b: Blocks, c: Cells, n: Nodes, e: Edges, p: Coord, q: Coord)
    requires
        fits(b, c, n, e),
        links_of(c, e).contains_key((p, q)),
    ensures
        c.contains_key(p),
        c.contains_key(q),
        c[p].2 is Some,
        c[q].2 is Some,
        joined(e, c[p].2->0, c[q].2->0),
        n.contains_key(c[p].2->0),
        n.contains_key(c[q].2->0),
        n[c[p].2->0] == (c[p].0, c[p].1, p),
        n[c[q].2->0] == (c[q].0, c[q].1, q),
        b.contains_key(c[p].0),
        b.contains_key(c[q].0),
        links_of(c, e).contains_key((q, p)),
{
    assert(cell_noded(c, n, p));
    assert(cell_noded(c, n, q));
    assert(cell_known(b, c, p));
    assert(cell_known(b, c, q));
    let k = choose|k: EdgeID| #[trigger] e.contains_key(k) && joins(e[k], c[p].2->0, c[q].2->0);
    assert(joins(e[k], c[q].2->0, c[p].2->0));
    assert(linked(c, e, q, p));
}

/// Some listed node stands at `w`.
pub open spec fn covered(n: Nodes, found: Seq<NodeID>, w: Coord) -> bool {
    exists|i: int| 0 <= i < found.len() && n[#[trigger] found[i]].2 == w
}

/// Every wire terminal that is linked to the listed node `x` is listed too.
pub open spec fn closed_at(v: SceneView, n: Nodes, found: Seq<NodeID>, x: NodeID) -> bool {
    forall|q: Coord| #[trigger]
        v.links.contains_key((n[x].2, q)) && v.is_wire(q) ==> covered(n, found, q)
}

/// The listed node is the node of a wire terminal in the network of `root`.
pub open spec fn member(v: SceneView, n: Nodes, root: Coord, x: NodeID) -> bool {
    n.contains_key(x) && v.is_wire(n[x].2) && v.same_network(root, n[x].2)
}

/// The list holds the nodes of the wire network of `root`, each once.
pub open spec fn lists_network(v: SceneView, n: Nodes, root: Coord, found: Seq<NodeID>) -> bool {
    &&& found.no_duplicates()
    &&& forall|i: int| 0 <= i < found.len() ==> member(v, n, root, #[trigger] found[i])
    &&& forall|w: Coord| #[trigger] v.same_network(root, w) ==> covered(n, found, w)
}

/// A wire terminal is in its own network.
pub proof fn lemma_network_refl(v: SceneView, a: Coord)
    requires
        v.is_wire(a),
    ensures
        v.same_network(a, a),
{
    let path = seq![a];
    assert(v.wire_path(path) && runs(path, a, a));
}

/// A wire terminal that is linked to one of a network belongs to that network.
pub proof fn lemma_network_extend(v: SceneView, a: Coord, b: Coord, q: Coord)
    requires
        v.same_network(a, b),
        v.links.contains_key((b, q)),
        v.is_wire(q),
    ensures
        v.same_network(a, q),
{
    let path = choose|path: Seq<Coord>| #[trigger] v.wire_path(path) && runs(path, a, b);
    let longer = path.push(q);
    assert forall|i: int| 0 <= i < longer.len() implies v.is_wire(#[trigger] longer[i]) by {
        if i < path.len() {
            assert(longer[i] == path[i]);
        }
    }
    assert forall|i: int| 0 <= i < longer.len() - 1 implies #[trigger] v.links.contains_key(
        (longer[i], longer[i + 1]),
    ) by {
        if i < path.len() - 1 {
            assert(longer[i] == path[i] && longer[i + 1] == path[i + 1]);
            assert(v.links.contains_key((path[i], path[i + 1])));
        }
    }
    assert(v.wire_path(longer) && runs(longer, a, q));
}

/// Networks are symmetric where links are.
pub proof fn lemma_network_sym(v: SceneView, a: Coord, b: Coord)
    requires
        v.valid(),
        v.same_network(a, b),
    ensures
        v.same_network(b, a),
{
    let path = choose|path: Seq<Coord>| #[trigger] v.wire_path(path) && runs(path, a, b);
    let back = path.reverse();
    assert forall|i: int| 0 <= i < back.len() implies v.is_wire(#[trigger] back[i]) by {
        assert(back[i] == path[path.len() - 1 - i]);
    }
    assert forall|i: int| 0 <= i < back.len() - 1 implies #[trigger] v.links.contains_key(
        (back[i], back[i + 1]),
    ) by {
        let k = path.len() - 2 - i;
        assert(back[i] == path[k + 1] && back[i + 1] == path[k]);
        assert(v.links.contains_key((path[k], path[k + 1])));
        assert(v.link_sound((path[k], path[k + 1])));
    }
    assert(v.wire_path(back) && runs(back, b, a));
}

/// Networks are transitive.
pub proof fn lemma_network_trans(v: SceneView, a: Coord, b: Coord, c: Coord)
    requires
        v.same_network(a, b),
        v.same_network(b, c),
    ensures
        v.same_network(a, c),
{
    let first = choose|path: Seq<Coord>| #[trigger] v.wire_path(path) && runs(path, a, b);
    let second = choose|path: Seq<Coord>| #[trigger] v.wire_path(path) && runs(path, b, c);
    let whole = first + second.skip(1);
    assert forall|i: int| 0 <= i < whole.len() implies v.is_wire(#[trigger] whole[i]) by {
        if i < first.len() {
            assert(whole[i] == first[i]);
        } else {
            assert(whole[i] == second[i - first.len() + 1]);
        }
    }
    assert forall|i: int| 0 <= i < whole.len() - 1 implies #[trigger] v.links.contains_key(
        (whole[i], whole[i + 1]),
    ) by {
        if i < first.len() - 1 {
            assert(whole[i] == first[i] && whole[i + 1] == first[i + 1]);
            assert(v.links.contains_key((first[i], first[i + 1])));
        } else {
            let k = i - first.len() + 1;
            assert(whole[i] == second[k] && whole[i + 1] == second[k + 1]);
            assert(v.links.contains_key((second[k], second[k + 1])));
        }
    }
    assert(whole[whole.len() - 1] == c) by {
        if second.len() == 1 {
            assert(whole =~= first);
        } else {
            assert(whole[whole.len() - 1] == second[second.len() - 1]);
        }
    }
    assert(v.wire_path(whole) && runs(whole, a, c));
}

/// A list that holds the root and is closed under links between wire
/// terminals covers every terminal of the root's network.
pub proof fn lemma_closed_covers(
    v: SceneView,
    n: Nodes,
    found: Seq<NodeID>,
    path: Seq<Coord>,
    k: int,
)
    requires
        v.wire_path(path),
        0 <= k < path.len(),
        covered(n, found, path[0]),
        forall|i: int| 0 <= i < found.len() ==> closed_at(v, n, found, #[trigger] found[i]),
    ensures
        covered(n, found, path[k]),
    decreases k,
{
    if k > 0 {
        lemma_closed_covers(v, n, found, path, k - 1);
        let i = choose|i: int| 0 <= i < found.len() && n[#[trigger] found[i]].2 == path[k - 1];
        assert(closed_at(v, n, found, found[i]));
        assert(v.links.contains_key((path[k - 1], path[k - 1 + 1])));
        assert(v.is_wire(path[k]));
    }
}

/// Listing one more node covers what was covered.
pub proof fn lemma_covered_push(n: Nodes, found: Seq<NodeID>, m: NodeID, w: Coord)
    requires
        covered(n, found, w),
    ensures
        covered(n, found.push(m), w),
{
    let i = choose|i: int| 0 <= i < found.len() && n[#[trigger] found[i]].2 == w;
    assert(found.push(m)[i] == found[i]);
}

/// A list of distinct nodes of the graph is no longer than the graph has nodes.
pub proof fn lemma_found_bound(n: Nodes, found: Seq<NodeID>)
    requires
        n.dom().finite(),
        found.no_duplicates(),
        forall|i: int| 0 <= i < found.len() ==> n.contains_key(#[trigger] found[i]),
    ensures
        found.len() <= n.len(),
{
    found.unique_seq_to_set();
    assert(found.to_set().subset_of(n.dom())) by {
        assert forall|x: NodeID| found.to_set().contains(x) implies n.dom().contains(x) by {
            let i = choose|i: int| 0 <= i < found.len() && found[i] == x;
            assert(n.contains_key(found[i]));
        }
    }
    vstd::set_lib::lemma_len_subset(found.to_set(), n.dom());
}

/// Two terminals of one network have one fate: their network had power or
/// not, and is driven or not, for both alike.
pub proof fn lemma_network_fate(v: SceneView, a: Coord, b: Coord)
    requires
        v.valid(),
        v.same_network(a, b),
    ensures
        v.network_was_on(a) == v.network_was_on(b),
        v.network_fed(a) == v.network_fed(b),
{
    lemma_network_sym(v, a, b);
    if v.network_was_on(a) {
        let w = choose|w: Coord| #[trigger]
            v.same_network(a, w) && v.block_at(w).circuit_power() == Some(true);
        lemma_network_trans(v, b, a, w);
    }
    if v.network_was_on(b) {
        let w = choose|w: Coord| #[trigger]
            v.same_network(b, w) && v.block_at(w).circuit_power() == Some(true);
        lemma_network_trans(v, a, b, w);
    }
    if v.network_fed(a) {
        let (w, q) = choose|w: Coord, q: Coord| #[trigger]
            v.same_network(a, w) && #[trigger] v.links.contains_key((w, q)) && v.drives(q);
        lemma_network_trans(v, b, a, w);
    }
    if v.network_fed(b) {
        let (w, q) = choose|w: Coord, q: Coord| #[trigger]
            v.same_network(b, w) && #[trigger] v.links.contains_key((w, q)) && v.drives(q);
        lemma_network_trans(v, a, b, w);
    }
}

/// The next states of the blocks other than wires that have a terminal.
pub open spec fn steps_known(v: SceneView, updated: Map<InstanceID, Block>) -> bool {
    &&& forall|id: InstanceID| #[trigger]
        updated.contains_key(id) ==> v.blocks.contains_key(id) && !(v.blocks[id].2 is Wire)
            && updated[id] == v.stepped(id)
    &&& forall|id: InstanceID| #[trigger]
        v.blocks.contains_key(id) && !(v.blocks[id].2 is Wire) && v.blocks[id].2.circuit_block()
            ==> updated.contains_key(id)
}

/// Some terminal that is linked to the one at `c` drives it.
pub open spec fn driven_at(v: SceneView, c: Coord) -> bool {
    exists|q: Coord| #[trigger] v.links.contains_key((c, q)) && v.drives(q)
}

impl Scene {
    /// Whether the block that owns the node is a wire.
    fn owner_is_wire(&self, node: NodeID) -> (wire: bool)
        requires
            self.wf(),
            circuit_nodes(self.circuit).contains_key(node),
        ensures
            wire == self@.is_wire(circuit_nodes(self.circuit)[node].2),
            wire ==> self@.block_at(circuit_nodes(self.circuit)[node].2).circuit_power() == Some(
                self.blocks@[circuit_nodes(self.circuit)[node].0].2->Wire_0.powered,
            ),
    {
        proof {
            assert(node_celled(self.space@, circuit_nodes(self.circuit), node));
            assert(cell_known(self.blocks@, self.space@, circuit_nodes(self.circuit)[node].2));
        }
        match circuit_node_weight(&self.circuit, node) {
            Some(weight) => {
                match self.blocks.get(&weight.0) {
                    Some(entry) => {
                        match entry.2 {
                            Block::Wire(_) => true,
                            _ => false,
                        }
                    },
                    None => false,
                }
            },
            None => false,
        }
    }

    /// The nodes of the wire network that the wire node `root` belongs to.
    fn wire_network(&self, root: NodeID) -> (found: Vec<NodeID>)
        requires
            self.wf(),
            circuit_nodes(self.circuit).contains_key(root),
            self@.is_wire(circuit_nodes(self.circuit)[root].2),
        ensures
            lists_network(
                self@,
                circuit_nodes(self.circuit),
                circuit_nodes(self.circuit)[root].2,
                found@,
            ),
    {
        let ghost v = self@;
        let ghost b = self.blocks@;
        let ghost c = self.space@;
        let ghost n = circuit_nodes(self.circuit);
        let ghost e = circuit_edges(self.circuit);
        let ghost at = n[root].2;
        let total = circuit_node_count(&self.circuit);
        let mut found: Vec<NodeID> = Vec::new();
        let mut seen: HashSet<NodeID> = HashSet::new();
        found.push(root);
        seen.insert(root);
        let mut head: usize = 0;
        proof {
            lemma_network_refl(v, at);
            let none = Seq::<NodeID>::empty();
            none.lemma_push_to_set_commute(root);
            assert(found@ =~= none.push(root));
            assert(none.to_set() =~= Set::<NodeID>::empty());
            assert(seen@ =~= found@.to_set());
        }
        while head < found.len()
            invariant
                self.wf(),
                v == self@,
                b == self.blocks@,
                c == self.space@,
                n == circuit_nodes(self.circuit),
                e == circuit_edges(self.circuit),
                at == n[root].2,
                n.dom().finite(),
                total == n.len(),
                head <= found.len(),
                found.len() >= 1,
                found@[0] == root,
                found@.no_duplicates(),
                seen@ == found@.to_set(),
                forall|i: int| 0 <= i < found.len() ==> member(v, n, at, #[trigger] found@[i]),
                forall|i: int| 0 <= i < head ==> closed_at(v, n, found@, #[trigger] found@[i]),
            decreases total - head,
        {
            proof {
                lemma_found_bound(n, found@);
            }
            let x = found[head];
            assert(member(v, n, at, found@[head as int]));
            let listed = circuit_neighbors(&self.circuit, x);
            let mut k: usize = 0;
            while k < listed.len()
                invariant
                    self.wf(),
                    v == self@,
                    b == self.blocks@,
                    c == self.space@,
                    n == circuit_nodes(self.circuit),
                    e == circuit_edges(self.circuit),
                    at == n[root].2,
                    head < found.len(),
                    found.len() >= 1,
                    found@[0] == root,
                    x == found@[head as int],
                    member(v, n, at, x),
                    found@.no_duplicates(),
                    seen@ == found@.to_set(),
                    k <= listed.len(),
                    neighbours_of(e, x, listed@),
                    forall|i: int| 0 <= i < found.len() ==> member(v, n, at, #[trigger] found@[i]),
                    forall|i: int| 0 <= i < head ==> closed_at(v, n, found@, #[trigger] found@[i]),
                    forall|j: int|
                        0 <= j < k && v.is_wire(n[#[trigger] listed@[j]].2) ==> covered(
                            n,
                            found@,
                            n[listed@[j]].2,
                        ),
                decreases listed.len() - k,
            {
                let m = listed[k];
                let ghost before = found@;
                proof {
                    assert(listed@.contains(m));
                    lemma_edge_is_link(b, c, n, e, x, m);
                }
                let known = seen.contains(&m);
                if known {
                    proof {
                        assert(before.to_set().contains(m));
                        let i = choose|i: int| 0 <= i < before.len() && before[i] == m;
                        assert(n[before[i]].2 == n[m].2);
                    }
                } else if self.owner_is_wire(m) {
                    proof {
                        lemma_network_extend(v, at, n[x].2, n[m].2);
                        before.lemma_push_to_set_commute(m);
                    }
                    seen.insert(m);
                    found.push(m);
                    proof {
                        let after = found@;
                        assert(after == before.push(m));
                        assert(!before.to_set().contains(m));
                        assert(after.no_duplicates()) by {
                            assert forall|i: int, j: int|
                                0 <= i < after.len() && 0 <= j < after.len() && i != j implies after[i]
                                != after[j] by {
                                if i < before.len() && j < before.len() {
                                    assert(before[i] != before[j]);
                                } else if i < before.len() {
                                    assert(before.to_set().contains(before[i]));
                                } else {
                                    assert(before.to_set().contains(before[j]));
                                }
                            }
                        }
                        assert forall|i: int| 0 <= i < after.len() implies member(
                            v,
                            n,
                            at,
                            #[trigger] after[i],
                        ) by {
                            if i < before.len() {
                                assert(member(v, n, at, before[i]));
                            }
                        }
                        assert forall|i: int| 0 <= i < head implies closed_at(
                            v,
                            n,
                            after,
                            #[trigger] after[i],
                        ) by {
                            assert(closed_at(v, n, before, before[i]));
                            assert forall|q: Coord| #[trigger]
                                v.links.contains_key((n[after[i]].2, q)) && v.is_wire(
                                    q,
                                ) implies covered(n, after, q) by {
                                lemma_covered_push(n, before, m, q);
                            }
                        }
                        assert forall|j: int|
                            0 <= j < k + 1 && v.is_wire(n[#[trigger] listed@[j]].2) implies covered(
                            n,
                            after,
                            n[listed@[j]].2,
                        ) by {
                            if j < k {
                                lemma_covered_push(n, before, m, n[listed@[j]].2);
                            } else {
                                assert(after[before.len() as int] == m);
                            }
                        }
                    }
                }
                k = k + 1;
            }
            proof {
                assert forall|q: Coord| #[trigger]
                    v.links.contains_key((n[x].2, q)) && v.is_wire(q) implies covered(
                    n,
                    found@,
                    q,
                ) by {
                    lemma_link_is_edge(b, c, n, e, n[x].2, q);
                    assert(node_celled(c, n, x));
                    let m = c[q].2->0;
                    assert(listed@.contains(m));
                    let j = choose|j: int| 0 <= j < listed@.len() && listed@[j] == m;
                    assert(n[listed@[j]].2 == q);
                }
                assert(closed_at(v, n, found@, found@[head as int]));
            }
            head = head + 1;
        }
        proof {
            assert forall|w: Coord| #[trigger] v.same_network(at, w) implies covered(
                n,
                found@,
                w,
            ) by {
                let path = choose|path: Seq<Coord>| #[trigger] v.wire_path(path) && runs(path, at, w);
                assert(n[found@[0]].2 == path[0]);
                lemma_closed_covers(v, n, found@, path, path.len() - 1);
            }
        }
        found
    }

    /// Whether some wire of the listed network has power.
    fn network_power(&self, found: &Vec<NodeID>, Ghost(at): Ghost<Coord>) -> (on: bool)
        requires
            self.wf(),
            lists_network(self@, circuit_nodes(self.circuit), at, found@),
        ensures
            on == self@.network_was_on(at),
    {
        let ghost v = self@;
        let ghost n = circuit_nodes(self.circuit);
        let mut i: usize = 0;
        while i < found.len()
            invariant
                self.wf(),
                v == self@,
                n == circuit_nodes(self.circuit),
                lists_network(v, n, at, found@),
                i <= found.len(),
                forall|j: int|
                    0 <= j < i ==> v.block_at(n[#[trigger] found@[j]].2).circuit_power() != Some(
                        true,
                    ),
            decreases found.len() - i,
        {
            let x = found[i];
            assert(member(v, n, at, found@[i as int]));
            proof {
                assert(node_celled(self.space@, n, x));
                assert(cell_known(self.blocks@, self.space@, n[x].2));
            }
            let powered = match circuit_node_weight(&self.circuit, x) {
                Some(weight) => {
                    match self.blocks.get(&weight.0) {
                        Some(entry) => {
                            match entry.2 {
                                Block::Wire(data) => data.powered,
                                _ => false,
                            }
                        },
                        None => false,
                    }
                },
                None => false,
            };
            if powered {
                assert(v.same_network(at, n[x].2) && v.block_at(n[x].2).circuit_power() == Some(
                    true,
                ));
                return true;
            }
            i = i + 1;
        }
        proof {
            if v.network_was_on(at) {
                let w = choose|w: Coord| #[trigger]
                    v.same_network(at, w) && v.block_at(w).circuit_power() == Some(true);
                assert(covered(n, found@, w));
                let j = choose|j: int| 0 <= j < found@.len() && n[#[trigger] found@[j]].2 == w;
                assert(v.block_at(n[found@[j]].2).circuit_power() != Some(true));
            }
        }
        false
    }

    /// Whether a terminal of a block other than a wire, in its next state,
    /// drives the node.
    fn node_driven(&self, updated: &HashMap<InstanceID, Block>, node: NodeID) -> (driven: bool)
        requires
            self.wf(),
            circuit_nodes(self.circuit).contains_key(node),
            steps_known(self@, updated@),
        ensures
            driven == driven_at(self@, circuit_nodes(self.circuit)[node].2),
    {
        let ghost v = self@;
        let ghost b = self.blocks@;
        let ghost c = self.space@;
        let ghost n = circuit_nodes(self.circuit);
        let ghost e = circuit_edges(self.circuit);
        let ghost at = n[node].2;
        let listed = circuit_neighbors(&self.circuit, node);
        let mut i: usize = 0;
        while i < listed.len()
            invariant
                i <= listed.len(),
                self.wf(),
                v == self@,
                b == self.blocks@,
                c == self.space@,
                n == circuit_nodes(self.circuit),
                e == circuit_edges(self.circuit),
                n.contains_key(node),
                at == n[node].2,
                steps_known(v, updated@),
                neighbours_of(e, node, listed@),
                forall|k: int| 0 <= k < i ==> !v.drives(n[#[trigger] listed@[k]].2),
            decreases listed.len() - i,
        {
            let m = listed[i];
            proof {
                assert(listed@.contains(m));
                lemma_edge_is_link(b, c, n, e, node, m);
                lemma_owner_has_terminal(b, c, n[m].2);
            }
            let drives = match circuit_node_weight(&self.circuit, m) {
                Some(weight) => {
                    match updated.get(&weight.0) {
                        Some(after) => after.voxel_emits(&weight.1),
                        None => false,
                    }
                },
                None => false,
            };
            if drives {
                proof {
                    let q = n[m].2;
                    assert(v.links.contains_key((at, q)) && v.drives(q));
                }
                return true;
            }
            i = i + 1;
        }
        proof {
            if driven_at(v, at) {
                let q = choose|q: Coord| #[trigger] v.links.contains_key((at, q)) && v.drives(q);
                lemma_link_is_edge(b, c, n, e, at, q);
                assert(node_celled(c, n, node));
                let m = c[q].2->0;
                assert(listed@.contains(m));
                let k = choose|k: int| 0 <= k < listed@.len() && listed@[k] == m;
                assert(!v.drives(n[listed@[k]].2));
            }
        }
        false
    }

    /// Whether a terminal of a block other than a wire, in its next state,
    /// drives some wire of the listed network.
    fn network_driven(
        &self,
        found: &Vec<NodeID>,
        updated: &HashMap<InstanceID, Block>,
        Ghost(at): Ghost<Coord>,
    ) -> (fed: bool)
        requires
            self.wf(),
            lists_network(self@, circuit_nodes(self.circuit), at, found@),
            steps_known(self@, updated@),
        ensures
            fed == self@.network_fed(at),
    {
        let ghost v = self@;
        let ghost n = circuit_nodes(self.circuit);
        let mut i: usize = 0;
        while i < found.len()
            invariant
                self.wf(),
                v == self@,
                n == circuit_nodes(self.circuit),
                lists_network(v, n, at, found@),
                steps_known(v, updated@),
                i <= found.len(),
                forall|j: int| 0 <= j < i ==> !driven_at(v, n[#[trigger] found@[j]].2),
            decreases found.len() - i,
        {
            let x = found[i];
            assert(member(v, n, at, found@[i as int]));
            if self.node_driven(updated, x) {
                proof {
                    let w = n[x].2;
                    let q = choose|q: Coord| #[trigger] v.links.contains_key((w, q)) && v.drives(q);
                    assert(v.same_network(at, w) && v.links.contains_key((w, q)) && v.drives(q));
                }
                return true;
            }
            i = i + 1;
        }
        proof {
            if v.network_fed(at) {
                let (w, q) = choose|w: Coord, q: Coord| #[trigger]
                    v.same_network(at, w) && #[trigger] v.links.contains_key((w, q)) && v.drives(q);
                assert(covered(n, found@, w));
                let j = choose|j: int| 0 <= j < found@.len() && n[#[trigger] found@[j]].2 == w;
                assert(!driven_at(v, n[found@[j]].2));
            }
        }
        false
    }
}

/// Once every block is written and every edge relit, the links are those of
/// the world after the tick.
pub proof fn lemma_lit_links(
    v: SceneView,
    b0: Blocks,
    b1: Blocks,
    c: Cells,
    n: Nodes,
    e0: Edges,
    e1: Edges,
)
    requires
        fits(b0, c, n, e0),
        fits(b1, c, n, e1),
        v.blocks == b0,
        v.space == space_of(c),
        v.links == links_of(c, e0),
        b1 == v.ticked_blocks(),
        all_lit(b1, n, e0, e1),
    ensures
        links_of(c, e1) == v.ticked().links,
{
    let want = v.ticked().links;
    assert forall|p: (Coord, Coord)| links_of(c, e1).contains_key(p) <==> want.contains_key(p) by {
        let (a, z) = p;
        if linked(c, e1, a, z) {
            let x = link_edge(c, e1, a, z);
            assert(e0.contains_key(x) && joins(e0[x], c[a].2->0, c[z].2->0));
        }
        if linked(c, e0, a, z) {
            let x = link_edge(c, e0, a, z);
            assert(e1.contains_key(x) && joins(e1[x], c[a].2->0, c[z].2->0));
        }
    }
    assert forall|p: (Coord, Coord)| links_of(c, e1).contains_key(p) implies links_of(c, e1)[p]
        == want[p] by {
        let (a, z) = p;
        let x = link_edge(c, e1, a, z);
        assert(e1.contains_key(x) && joins(e1[x], c[a].2->0, c[z].2->0));
        assert(edge_lit(b1, n, e1, x));
        assert(cell_noded(c, n, a));
        assert(cell_noded(c, n, z));
        assert(cell_known(b1, c, a));
        assert(cell_known(b1, c, z));
    }
    assert(links_of(c, e1) =~= want);
}

impl Scene {
    /// The identifiers of the placed blocks, each once.
    pub fn get_block_ids(&self) -> (ids: Vec<InstanceID>)
        ensures
            ids@.no_duplicates(),
            ids@.to_set() == self@.blocks.dom(),
    {
        let mut ids: Vec<InstanceID> = Vec::new();
        for id in it: self.blocks.keys()
            invariant
                ids@ == it.seq().take(it.index() as int).unref(),
                it.seq() == self.blocks.keys().remaining(),
        {
            ids.push(*id);
        }
        let ghost keys = self.blocks.keys().remaining();
        assert(ids@ == keys.unref());
        assert(ids@.no_duplicates()) by {
            assert forall|i: int, j: int|
                0 <= i < ids@.len() && 0 <= j < ids@.len() && i != j implies ids@[i] != ids@[j] by {
                assert(keys[i] != keys[j]);
            }
        }
        ids
    }

    /// Computes the next state of every block other than a wire that has a
    /// terminal, lists those that change, and lists the wires.
    fn step_blocks(&self, ids: &Vec<InstanceID>) -> (out: (
        HashMap<InstanceID, Block>,
        Vec<(InstanceID, Block)>,
        Vec<InstanceID>,
    ))
        requires
            self.wf(),
            self.ticks < u32::MAX,
            ids@.no_duplicates(),
            ids@.to_set() == self.blocks@.dom(),
        ensures
            swept(self@, ids@, ids.len() as int, out.0@, out.1@, out.2@),
    {
        let ghost v = self@;
        let mut updated: HashMap<InstanceID, Block> = HashMap::new();
        let mut commits: Vec<(InstanceID, Block)> = Vec::new();
        let mut wires: Vec<InstanceID> = Vec::new();
        let mut t: usize = 0;
        while t < ids.len()
            invariant
                self.wf(),
                self.ticks < u32::MAX,
                v == self@,
                ids@.no_duplicates(),
                ids@.to_set() == self.blocks@.dom(),
                t <= ids.len(),
                swept(v, ids@, t as int, updated@, commits@, wires@),
            decreases ids.len() - t,
        {
            let id = ids[t];
            let ghost u0 = updated@;
            let ghost c0 = commits@;
            let ghost w0 = wires@;
            proof {
                assert(ids@.to_set().contains(id));
                assert(v.blocks.contains_key(id));
                assert forall|j: int| 0 <= j < c0.len() implies (#[trigger] c0[j]).0 != id by {
                    assert(due_step(v, ids@, t as int, c0[j]));
                    let k = choose|k: int| 0 <= k < t && #[trigger] ids@[k] == c0[j].0;
                    assert(ids@[k] != ids@[t as int]);
                }
            }
            let entry = match self.blocks.get(&id) {
                Some(entry) => *entry,
                None => (Coord::zero(), Orient::FORWARD, Block::Air),
            };
            match entry.2 {
                Block::Wire(_) => {
                    wires.push(id);
                    assert(wires@[w0.len() as int] == id);
                },
                _ => {
                    if entry.2.is_circuit_block() {
                        let after = self.next_state(id, &entry);
                        updated.insert(id, after);
                        if after != entry.2 {
                            commits.push((id, after));
                            assert(commits@[c0.len() as int] == (id, after));
                        }
                    } else {
                        assert(v.stepped(id) == entry.2) by {
                            lemma_block_without_terminal(entry.2);
                        }
                    }
                },
            }
            proof {
                let u1 = updated@;
                let c1 = commits@;
                let w1 = wires@;
                assert forall|j: int| 0 <= j < c1.len() implies due_step(
                    v,
                    ids@,
                    t + 1,
                    #[trigger] c1[j],
                ) by {
                    if j < c0.len() {
                        assert(c1[j] == c0[j]);
                        assert(due_step(v, ids@, t as int, c0[j]));
                        let k = choose|k: int| 0 <= k < t && #[trigger] ids@[k] == c0[j].0;
                        assert(0 <= k < t + 1 && ids@[k] == c1[j].0);
                    } else {
                        assert(0 <= t < t + 1 && ids@[t as int] == c1[j].0);
                    }
                }
                assert forall|j: int, k: int|
                    0 <= j < c1.len() && 0 <= k < c1.len() && j != k implies (#[trigger] c1[j]).0 != (
                #[trigger] c1[k]).0 by {
                    if j < c0.len() && k < c0.len() {
                        assert(c0[j].0 != c0[k].0);
                    } else if j < c0.len() {
                        assert(c0[j].0 != id);
                    } else {
                        assert(c0[k].0 != id);
                    }
                }
                assert forall|j: int| 0 <= j < w1.len() implies v.blocks.contains_key(
                    #[trigger] w1[j],
                ) && v.blocks[w1[j]].2 is Wire by {
                    if j < w0.len() {
                        assert(w1[j] == w0[j]);
                    }
                }
                assert forall|k: int| 0 <= k < t + 1 implies looked_at(
                    v,
                    u1,
                    c1,
                    w1,
                    #[trigger] ids@[k],
                ) by {
                    let x = ids@[k];
                    if k < t {
                        assert(looked_at(v, u0, c0, w0, x));
                        if v.blocks[x].2 is Wire {
                            let j = choose|j: int| 0 <= j < w0.len() && w0[j] == x;
                            assert(w1[j] == x);
                        } else if v.changes(x) {
                            let j = choose|j: int| 0 <= j < c0.len() && (#[trigger] c0[j]).0 == x;
                            assert(c1[j].0 == x);
                        }
                    }
                }
            }
            t = t + 1;
        }
        (updated, commits, wires)
    }

    /// Settles the wires of one network: where the network flips, lists each
    /// of them that does not have the new power yet.
    fn settle_network(
        &self,
        found: &Vec<NodeID>,
        flip: bool,
        power: bool,
        commits: &mut Vec<(InstanceID, Block)>,
        done: &mut HashSet<InstanceID>,
        Ghost(at): Ghost<Coord>,
    )
        requires
            self.wf(),
            lists_network(self@, circuit_nodes(self.circuit), at, found@),
            flip == (self@.network_fed(at) != self@.network_was_on(at)),
            power == self@.network_fed(at),
            sweeping(self@, old(commits)@, old(done)@),
            forall|i: int|
                0 <= i < found.len() ==> !old(done)@.contains(
                    circuit_nodes(self.circuit)[#[trigger] found@[i]].0,
                ),
        ensures
            sweeping(self@, final(commits)@, final(done)@),
            forall|id: InstanceID| #[trigger] old(done)@.contains(id) ==> final(done)@.contains(id),
            forall|i: int|
                0 <= i < found.len() ==> final(done)@.contains(
                    circuit_nodes(self.circuit)[#[trigger] found@[i]].0,
                ),
    {
        let ghost v = self@;
        let ghost b = self.blocks@;
        let ghost c = self.space@;
        let ghost n = circuit_nodes(self.circuit);
        let ghost e = circuit_edges(self.circuit);
        let ghost d0 = done@;
        proof {
            lemma_fits_valid(b, c, n, e, self.ticks);
        }
        let mut i: usize = 0;
        while i < found.len()
            invariant
                self.wf(),
                v == self@,
                v.valid(),
                b == self.blocks@,
                c == self.space@,
                n == circuit_nodes(self.circuit),
                e == circuit_edges(self.circuit),
                lists_network(v, n, at, found@),
                flip == (v.network_fed(at) != v.network_was_on(at)),
                power == v.network_fed(at),
                done_closed(v, d0),
                forall|k: int| 0 <= k < found.len() ==> !d0.contains(n[#[trigger] found@[k]].0),
                i <= found.len(),
                network_swept(v, n, found@, i as int, flip, d0, done@, commits@),
            decreases found.len() - i,
        {
            let x = found[i];
            let ghost c0 = commits@;
            let ghost done0 = done@;
            assert(member(v, n, at, found@[i as int]));
            proof {
                assert(node_celled(c, n, x));
                assert(cell_known(b, c, n[x].2));
                lemma_wire_node(b, c, n, e, x, self.ticks);
                lemma_network_fate(v, at, n[x].2);
            }
            let (owner, lit) = match circuit_node_weight(&self.circuit, x) {
                Some(weight) => {
                    match self.blocks.get(&weight.0) {
                        Some(entry) => {
                            match entry.2 {
                                Block::Wire(data) => (weight.0, data.powered),
                                _ => (weight.0, power),
                            }
                        },
                        None => (weight.0, power),
                    }
                },
                None => (0, power),
            };
            let pushed = flip && lit != power;
            assert(owner == n[x].0);
            assert(v.blocks[owner].2 == Block::Wire(VoxelPowered { powered: lit }));
            assert(v.flips(owner) == flip);
            assert(v.changes(owner) == pushed);
            proof {
                assert forall|j: int| 0 <= j < c0.len() implies (#[trigger] c0[j]).0 != owner by {
                    if c0[j].0 == owner {
                        assert(due(v, c0[j]));
                        assert(!d0.contains(n[found@[i as int]].0));
                        let k = choose|k: int| 0 <= k < i && n[#[trigger] found@[k]].0 == owner;
                        lemma_wire_node(b, c, n, e, found@[k], self.ticks);
                        assert(found@[k] != found@[i as int]);
                    }
                }
            }
            done.insert(owner);
            if pushed {
                commits.push((owner, Block::Wire(VoxelPowered { powered: power })));
                assert(commits@[c0.len() as int].0 == owner);
            }
            proof {
                let c1 = commits@;
                let done1 = done@;
                assert forall|j: int| 0 <= j < c1.len() implies due(v, #[trigger] c1[j]) by {
                    if j < c0.len() {
                        assert(c1[j] == c0[j]);
                    }
                }
                assert forall|j: int, k: int|
                    0 <= j < c1.len() && 0 <= k < c1.len() && j != k implies (#[trigger] c1[j]).0 != (
                #[trigger] c1[k]).0 by {
                    if j < c0.len() && k < c0.len() {
                        assert(c0[j].0 != c0[k].0);
                    } else if j < c0.len() {
                        assert(c0[j].0 != owner);
                    } else {
                        assert(c0[k].0 != owner);
                    }
                }
                assert forall|id: InstanceID|
                    v.blocks.contains_key(id) && !(v.blocks[id].2 is Wire) && #[trigger] v.changes(
                        id,
                    ) implies listed_in(c1, id) by {
                    if pushed {
                        lemma_listed_push(c0, c1[c0.len() as int], id);
                        assert(c1 =~= c0.push(c1[c0.len() as int]));
                    }
                }
                assert forall|id: InstanceID| #[trigger] d0.contains(id) implies done1.contains(id)
                    && decided(v, c1, id) by {
                    assert(decided(v, c0, id));
                    if pushed && v.changes(id) {
                        lemma_listed_push(c0, c1[c0.len() as int], id);
                        assert(c1 =~= c0.push(c1[c0.len() as int]));
                    }
                }
                assert forall|id: InstanceID| #[trigger] done1.contains(id) implies d0.contains(id)
                    || owned_among(n, found@, i + 1, id) by {
                    if id == owner {
                        assert(0 <= i < i + 1 && n[found@[i as int]].0 == id);
                    } else if !d0.contains(id) {
                        assert(done0.contains(id));
                        let k = choose|k: int| 0 <= k < i && n[#[trigger] found@[k]].0 == id;
                        assert(0 <= k < i + 1 && n[found@[k]].0 == id);
                    }
                }
                assert forall|k: int| 0 <= k < i + 1 implies done1.contains(
                    n[#[trigger] found@[k]].0,
                ) && (v.changes(n[found@[k]].0) ==> listed_in(c1, n[found@[k]].0)) by {
                    if pushed {
                        assert(c1 =~= c0.push(c1[c0.len() as int]));
                        if k < i && v.changes(n[found@[k]].0) {
                            lemma_listed_push(c0, c1[c0.len() as int], n[found@[k]].0);
                        }
                    }
                }
                assert forall|j: int|
                    0 <= j < c1.len() && v.blocks[(#[trigger] c1[j]).0].2 is Wire implies d0.contains(
                    c1[j].0,
                ) || owned_among(n, found@, i + 1, c1[j].0) by {
                    if j < c0.len() {
                        assert(c1[j] == c0[j]);
                        if !d0.contains(c0[j].0) {
                            let k = choose|k: int|
                                0 <= k < i && n[#[trigger] found@[k]].0 == c0[j].0;
                            assert(0 <= k < i + 1 && n[found@[k]].0 == c0[j].0);
                        }
                    } else {
                        assert(0 <= i < i + 1 && n[found@[i as int]].0 == c1[j].0);
                    }
                }
            }
            i = i + 1;
        }
        proof {
            let c1 = commits@;
            let done1 = done@;
            assert forall|id: InstanceID| #[trigger] done1.contains(id) implies decided(
                v,
                c1,
                id,
            ) by {
                if !d0.contains(id) {
                    let k = choose|k: int| 0 <= k < found@.len() && n[#[trigger] found@[k]].0 == id;
                    assert(member(v, n, at, found@[k]));
                    assert(node_celled(c, n, found@[k]));
                    assert(cell_known(b, c, n[found@[k]].2));
                    lemma_wire_node(b, c, n, e, found@[k], self.ticks);
                    lemma_network_fate(v, at, n[found@[k]].2);
                }
            }
            assert forall|j: int|
                0 <= j < c1.len() && v.blocks[(#[trigger] c1[j]).0].2 is Wire implies done1.contains(
                c1[j].0,
            ) by {
                if !d0.contains(c1[j].0) {
                    let k = choose|k: int|
                        0 <= k < found@.len() && n[#[trigger] found@[k]].0 == c1[j].0;
                }
            }
            assert forall|id: InstanceID, other: InstanceID|
                done1.contains(id) && v.blocks.contains_key(other) && v.blocks[other].2 is Wire
                    && #[trigger] v.same_network(
                    wire_place(v, id),
                    wire_place(v, other),
                ) implies done1.contains(other) by {
                if !d0.contains(id) {
                    let k = choose|k: int| 0 <= k < found@.len() && n[#[trigger] found@[k]].0 == id;
                    assert(member(v, n, at, found@[k]));
                    assert(node_celled(c, n, found@[k]));
                    assert(cell_known(b, c, n[found@[k]].2));
                    lemma_wire_node(b, c, n, e, found@[k], self.ticks);
                    lemma_network_trans(v, at, wire_place(v, id), wire_place(v, other));
                    assert(covered(n, found@, wire_place(v, other)));
                    let m = choose|m: int|
                        0 <= m < found@.len() && n[#[trigger] found@[m]].2 == wire_place(v, other);
                    lemma_wire_cell(b, c, n, e, other, self.ticks);
                    assert(node_celled(c, n, found@[m]));
                    assert(member(v, n, at, found@[m]));
                    assert(n[found@[m]].0 == other);
                }
            }
        }
    }

    /// Settles every wire: lists each that takes another power with its network.
    fn step_wires(
        &self,
        wires: &Vec<InstanceID>,
        updated: &HashMap<InstanceID, Block>,
        commits: &mut Vec<(InstanceID, Block)>,
    )
        requires
            self.wf(),
            steps_known(self@, updated@),
            sweeping(self@, old(commits)@, Set::empty()),
            forall|j: int|
                0 <= j < wires.len() ==> self@.blocks.contains_key(#[trigger] wires@[j])
                    && self@.blocks[wires@[j]].2 is Wire,
            forall|id: InstanceID|
                self@.blocks.contains_key(id) && self@.blocks[id].2 is Wire ==> wires@.contains(id),
        ensures
            settles(self@, final(commits)@),
    {
        let ghost v = self@;
        let ghost b = self.blocks@;
        let ghost c = self.space@;
        let ghost n = circuit_nodes(self.circuit);
        let ghost e = circuit_edges(self.circuit);
        let mut done: HashSet<InstanceID> = HashSet::new();
        let mut t: usize = 0;
        proof {
            lemma_fits_valid(b, c, n, e, self.ticks);
        }
        while t < wires.len()
            invariant
                self.wf(),
                v == self@,
                v.valid(),
                b == self.blocks@,
                c == self.space@,
                n == circuit_nodes(self.circuit),
                e == circuit_edges(self.circuit),
                steps_known(v, updated@),
                forall|j: int|
                    0 <= j < wires.len() ==> v.blocks.contains_key(#[trigger] wires@[j])
                        && v.blocks[wires@[j]].2 is Wire,
                t <= wires.len(),
                sweeping(v, commits@, done@),
                forall|k: int| 0 <= k < t ==> done@.contains(#[trigger] wires@[k]),
            decreases wires.len() - t,
        {
            let id = wires[t];
            let ghost d0 = done@;
            if !done.contains(&id) {
                proof {
                    lemma_wire_cell(b, c, n, e, id, self.ticks);
                    assert(sound_entry(b[id]));
                }
                let entry = match self.blocks.get(&id) {
                    Some(entry) => *entry,
                    None => (Coord::zero(), Orient::FORWARD, Block::Air),
                };
                let voxels = entry.2.get_global_structure(entry.0, entry.1);
                assert(voxels_of(entry)[0].1 == voxels@[0].1);
                let root = match self.space.get(voxels[0].1) {
                    Some(cell) => {
                        match cell.2 {
                            Some(node) => node,
                            None => 0,
                        }
                    },
                    None => 0,
                };
                let ghost at = wire_place(v, id);
                assert(n.contains_key(root) && n[root].2 == at && n[root].0 == id);
                let found = self.wire_network(root);
                let was_on = self.network_power(&found, Ghost(at));
                let fed = self.network_driven(&found, updated, Ghost(at));
                proof {
                    assert forall|i: int| 0 <= i < found.len() implies !d0.contains(
                        n[#[trigger] found@[i]].0,
                    ) by {
                        let x = found@[i];
                        assert(member(v, n, at, x));
                        if d0.contains(n[x].0) {
                            assert(node_celled(c, n, x));
                            assert(cell_known(b, c, n[x].2));
                            lemma_wire_node(b, c, n, e, x, self.ticks);
                            lemma_network_sym(v, at, n[x].2);
                            assert(v.same_network(wire_place(v, n[x].0), wire_place(v, id)));
                        }
                    }
                    lemma_network_refl(v, at);
                    assert(covered(n, found@, at));
                }
                self.settle_network(&found, was_on != fed, fed, commits, &mut done, Ghost(at));
                proof {
                    let m = choose|m: int| 0 <= m < found@.len() && n[#[trigger] found@[m]].2 == at;
                    assert(member(v, n, at, found@[m]));
                    assert(node_celled(c, n, found@[m]));
                    assert(node_celled(c, n, root));
                    assert(done@.contains(n[found@[m]].0));
                }
            }
            t = t + 1;
        }
        proof {
            assert forall|id: InstanceID|
                v.blocks.contains_key(id) && #[trigger] v.changes(id) implies listed_in(
                commits@,
                id,
            ) by {
                if v.blocks[id].2 is Wire {
                    assert(wires@.contains(id));
                    let k = choose|k: int| 0 <= k < wires@.len() && wires@[k] == id;
                    assert(done@.contains(wires@[k]));
                    assert(decided(v, commits@, id));
                }
            }
        }
    }

    /// Performs one simulation tick of the circuit
    ///
    /// Returns all the blocks that changed state
    pub fn simulate_tick(&mut self) -> (changed: Vec<InstanceID>)
        requires
            old(self).wf(),
            old(self)@.ticks < u32::MAX,
        ensures
            final(self).wf(),
            final(self)@ == old(self)@.ticked(),
            changed@.to_set() == old(self)@.tick_delta(),
            changed@.no_duplicates(),
            final(self).same_circuit(old(self)),
            forall|k: nat| old(self).room_for(k) ==> #[trigger] final(self).room_for(k),
            final(self).grown(old(self), 0),
    {
        let ghost v = self@;
        let ghost b0 = self.blocks@;
        let ghost c = self.space@;
        let ghost n = circuit_nodes(self.circuit);
        let ghost e0 = circuit_edges(self.circuit);
        let ids = self.get_block_ids();
        let (updated, mut commits, wires) = self.step_blocks(&ids);
        proof {
            let full = ids@.len() as int;
            assert forall|id: InstanceID| v.blocks.contains_key(id) implies looked_at(
                v,
                updated@,
                commits@,
                wires@,
                id,
            ) by {
                assert(ids@.to_set().contains(id));
                let t = choose|t: int| 0 <= t < ids@.len() && ids@[t] == id;
                assert(looked_at(v, updated@, commits@, wires@, ids@[t]));
            }
            assert forall|j: int| 0 <= j < commits@.len() implies due(v, #[trigger] commits@[j]) by {
                assert(due_step(v, ids@, full, commits@[j]));
            }
            assert forall|j: int|
                0 <= j < commits@.len() && v.blocks[(#[trigger] commits@[j]).0].2 is Wire implies Set::<
                InstanceID,
            >::empty().contains(commits@[j].0) by {
                assert(due_step(v, ids@, full, commits@[j]));
            }
            assert(sweeping(v, commits@, Set::empty()));
            assert(steps_known(v, updated@));
        }
        self.step_wires(&wires, &updated, &mut commits);
        let mut changed: Vec<InstanceID> = Vec::new();
        let mut j: usize = 0;
        while j < commits.len()
            invariant
                j <= commits.len(),
                changed@.len() == j,
                forall|k: int| 0 <= k < j ==> #[trigger] changed@[k] == commits@[k].0,
            decreases commits.len() - j,
        {
            changed.push(commits[j].0);
            j = j + 1;
        }
        proof {
            assert forall|id: InstanceID| changed@.to_set().contains(id) <==> v.tick_delta().contains(
                id,
            ) by {
                if changed@.to_set().contains(id) {
                    let k = choose|k: int| 0 <= k < changed@.len() && changed@[k] == id;
                    assert(due(v, commits@[k]));
                }
                if v.tick_delta().contains(id) {
                    let k = choose|k: int| 0 <= k < commits@.len() && (#[trigger] commits@[k]).0 == id;
                    assert(changed@[k] == id);
                }
            }
            assert(changed@.to_set() =~= v.tick_delta());
        }
        self.commit(&commits, Ghost(v));
        let ghost b1 = self.blocks@;
        self.refresh_edges();
        self.ticks = self.ticks + 1;
        proof {
            let e1 = circuit_edges(self.circuit);
            assert(b1.dom() =~= b0.dom());
            lemma_lit_links(v, b0, b1, c, n, e0, e1);
            assert(self@.links == v.ticked().links);
            assert(self@.space == v.ticked().space);
        }
        changed
    }
}

/// A block without a terminal stays as it is.
pub proof fn lemma_block_without_terminal(b: Block)
    requires
        !b.circuit_block(),
    ensures
        forall|now: int, x: bool, y: bool| #[trigger] b.next(now, x, y) == b,
{
    lemma_terminals(b);
    if b.layout() == Layout::Terminal || b.layout() == Layout::Through {
        assert(is_terminal_name(b.structure()[0].0));
    }
    if b.layout() == Layout::Shell {
        assert(is_terminal_name(b.structure()[6].0));
    }
}

/// The block whose terminal fills a cell has a terminal.
pub proof fn lemma_owner_has_terminal(b: Blocks, c: Cells, at: Coord)
    requires
        crate::scene::cells_known(b, c),
        c.contains_key(at),
        is_terminal_name(c[at].1),
    ensures
        b.contains_key(c[at].0),
        b[c[at].0].2.circuit_block(),
{
    assert(cell_known(b, c, at));
    let id = c[at].0;
    let i = choose|i: int|
        0 <= i < voxels_of(b[id]).len() && #[trigger] voxels_of(b[id])[i] == (c[at].1, at);
    assert(b[id].2.structure()[i].0 == c[at].1);
}

/// Where the terminal of the wire `id` stands.
pub open spec fn wire_place(v: SceneView, id: InstanceID) -> Coord {
    place_of(voxels_of(v.blocks[id]), terminal_name("wire"@))
}

/// One of the first `upto` identifiers is `id`.
pub open spec fn among(ids: Seq<InstanceID>, upto: int, id: InstanceID) -> bool {
    exists|t: int| 0 <= t < upto && #[trigger] ids[t] == id
}

/// The entry names a block other than a wire, among the first `upto`, that
/// the tick changes, with its next state.
pub open spec fn due_step(
    v: SceneView,
    ids: Seq<InstanceID>,
    upto: int,
    commit: (InstanceID, Block),
) -> bool {
    due(v, commit) && !(v.blocks[commit.0].2 is Wire) && among(ids, upto, commit.0)
}

/// What is known of the identifier `id` once it has been looked at: its next
/// state where it has a terminal and is no wire, its entry in the list where
/// it changes, its place among the wires where it is one.
pub open spec fn looked_at(
    v: SceneView,
    updated: Map<InstanceID, Block>,
    commits: Seq<(InstanceID, Block)>,
    wires: Seq<InstanceID>,
    id: InstanceID,
) -> bool {
    if v.blocks[id].2 is Wire {
        wires.contains(id)
    } else {
        &&& v.blocks[id].2.circuit_block() ==> updated.contains_key(id)
        &&& v.changes(id) ==> listed_in(commits, id)
    }
}

/// The first `upto` blocks have been looked at.
pub open spec fn swept(
    v: SceneView,
    ids: Seq<InstanceID>,
    upto: int,
    updated: Map<InstanceID, Block>,
    commits: Seq<(InstanceID, Block)>,
    wires: Seq<InstanceID>,
) -> bool {
    &&& forall|id: InstanceID| #[trigger]
        updated.contains_key(id) ==> v.blocks.contains_key(id) && !(v.blocks[id].2 is Wire)
            && updated[id] == v.stepped(id)
    &&& forall|j: int| 0 <= j < commits.len() ==> due_step(v, ids, upto, #[trigger] commits[j])
    &&& forall|j: int, k: int|
        0 <= j < commits.len() && 0 <= k < commits.len() && j != k ==> (#[trigger] commits[j]).0 != (
        #[trigger] commits[k]).0
    &&& forall|j: int|
        0 <= j < wires.len() ==> v.blocks.contains_key(#[trigger] wires[j]) && v.blocks[wires[j]].2 is Wire
    &&& forall|t: int| 0 <= t < upto ==> looked_at(v, updated, commits, wires, #[trigger] ids[t])
}

/// The wire `id` is settled: it is listed where the tick changes it.
pub open spec fn decided(v: SceneView, commits: Seq<(InstanceID, Block)>, id: InstanceID) -> bool {
    &&& v.blocks.contains_key(id)
    &&& v.blocks[id].2 is Wire
    &&& v.changes(id) ==> listed_in(commits, id)
}

/// With a wire, every wire of its network is among the settled ones.
pub open spec fn done_closed(v: SceneView, done: Set<InstanceID>) -> bool {
    forall|id: InstanceID, other: InstanceID|
        done.contains(id) && v.blocks.contains_key(other) && v.blocks[other].2 is Wire
            && #[trigger] v.same_network(wire_place(v, id), wire_place(v, other)) ==> done.contains(
            other,
        )
}

/// The blocks other than wires are settled, and so are the wires in `done`.
pub open spec fn sweeping(
    v: SceneView,
    commits: Seq<(InstanceID, Block)>,
    done: Set<InstanceID>,
) -> bool {
    &&& forall|j: int| 0 <= j < commits.len() ==> due(v, #[trigger] commits[j])
    &&& forall|j: int, k: int|
        0 <= j < commits.len() && 0 <= k < commits.len() && j != k ==> (#[trigger] commits[j]).0 != (
        #[trigger] commits[k]).0
    &&& forall|id: InstanceID|
        v.blocks.contains_key(id) && !(v.blocks[id].2 is Wire) && #[trigger] v.changes(id)
            ==> listed_in(commits, id)
    &&& forall|id: InstanceID| #[trigger] done.contains(id) ==> decided(v, commits, id)
    &&& forall|j: int|
        0 <= j < commits.len() && v.blocks[(#[trigger] commits[j]).0].2 is Wire ==> done.contains(
            commits[j].0,
        )
    &&& done_closed(v, done)
}

/// Listing one more entry keeps what was listed.
pub proof fn lemma_listed_push(
    commits: Seq<(InstanceID, Block)>,
    commit: (InstanceID, Block),
    id: InstanceID,
)
    requires
        listed_in(commits, id),
    ensures
        listed_in(commits.push(commit), id),
{
    let j = choose|j: int| 0 <= j < commits.len() && (#[trigger] commits[j]).0 == id;
    assert(commits.push(commit)[j].0 == id);
}

/// The node of a wire stands at the wire's terminal, and the wire has no other node.
pub proof fn lemma_wire_node(b: Blocks, c: Cells, n: Nodes, e: Edges, x: NodeID, ticks: u32)
    requires
        fits(b, c, n, e),
        n.contains_key(x),
        b.contains_key(n[x].0),
        b[n[x].0].2 is Wire,
    ensures
        n[x].2 == wire_place(
            SceneView { blocks: b, space: space_of(c), links: links_of(c, e), ticks },
            n[x].0,
        ),
        c.contains_key(n[x].2),
        c[n[x].2].2 == Some(x),
        c[n[x].2].0 == n[x].0,
{
    let id = n[x].0;
    assert(node_celled(c, n, x));
    assert(cell_known(b, c, n[x].2));
    assert(sound_entry(b[id]));
    lemma_input_places(b[id]);
}

/// The terminal of a placed wire is in the grid, with the wire's node.
pub proof fn lemma_wire_cell(b: Blocks, c: Cells, n: Nodes, e: Edges, id: InstanceID, ticks: u32)
    requires
        fits(b, c, n, e),
        b.contains_key(id),
        b[id].2 is Wire,
    ensures
        ({
            let v = SceneView { blocks: b, space: space_of(c), links: links_of(c, e), ticks };
            let at = wire_place(v, id);
            &&& at == voxels_of(b[id])[0].1
            &&& voxels_of(b[id]).len() == 1
            &&& c.contains_key(at)
            &&& c[at].0 == id
            &&& c[at].2 is Some
            &&& n.contains_key(c[at].2->0)
            &&& n[c[at].2->0].0 == id
            &&& n[c[at].2->0].2 == at
            &&& v.is_wire(at)
        }),
{
    assert(sound_entry(b[id]));
    lemma_input_places(b[id]);
    assert(voxel_stored(b, c, id, 0));
    let at = voxels_of(b[id])[0].1;
    assert(cell_known(b, c, at));
    assert(cell_noded(c, n, at));
}

/// With the first `upto` of the listed nodes, their wires are settled.
pub open spec fn network_swept(
    v: SceneView,
    n: Nodes,
    found: Seq<NodeID>,
    upto: int,
    flip: bool,
    d0: Set<InstanceID>,
    done: Set<InstanceID>,
    commits: Seq<(InstanceID, Block)>,
) -> bool {
    &&& forall|j: int| 0 <= j < commits.len() ==> due(v, #[trigger] commits[j])
    &&& forall|j: int, k: int|
        0 <= j < commits.len() && 0 <= k < commits.len() && j != k ==> (#[trigger] commits[j]).0 != (
        #[trigger] commits[k]).0
    &&& forall|id: InstanceID|
        v.blocks.contains_key(id) && !(v.blocks[id].2 is Wire) && #[trigger] v.changes(id)
            ==> listed_in(commits, id)
    &&& forall|id: InstanceID| #[trigger] d0.contains(id) ==> done.contains(id) && decided(v, commits, id)
    &&& forall|id: InstanceID| #[trigger]
        done.contains(id) ==> d0.contains(id) || owned_among(n, found, upto, id)
    &&& forall|i: int|
        0 <= i < upto ==> done.contains(n[#[trigger] found[i]].0) && (v.changes(n[found[i]].0)
            ==> listed_in(commits, n[found[i]].0))
    &&& forall|j: int|
        0 <= j < commits.len() && v.blocks[(#[trigger] commits[j]).0].2 is Wire ==> d0.contains(
            commits[j].0,
        ) || owned_among(n, found, upto, commits[j].0)
}

/// One of the first `upto` listed nodes belongs to the block `id`.
pub open spec fn owned_among(n: Nodes, found: Seq<NodeID>, upto: int, id: InstanceID) -> bool {
    exists|i: int| 0 <= i < upto && n[#[trigger] found[i]].0 == id
}

/// What a tick has to write: each listed block is one that the tick changes,
/// with its next state, and no block that the tick changes is missing or
/// listed twice.
pub open spec fn settles(v: SceneView, commits: Seq<(InstanceID, Block)>) -> bool {
    &&& forall|j: int| 0 <= j < commits.len() ==> due(v, #[trigger] commits[j])
    &&& forall|id: InstanceID|
        v.blocks.contains_key(id) && #[trigger] v.changes(id) ==> listed_in(commits, id)
    &&& forall|j: int, k: int|
        0 <= j < commits.len() && 0 <= k < commits.len() && j != k ==> (#[trigger] commits[j]).0 != (
        #[trigger] commits[k]).0
}

/// The entry names a block that the tick changes, with its next state.
pub open spec fn due(v: SceneView, commit: (InstanceID, Block)) -> bool {
    &&& v.blocks.contains_key(commit.0)
    &&& v.changes(commit.0)
    &&& commit.1 == v.advanced(commit.0)
    &&& commit.1.kind() == v.blocks[commit.0].2.kind()
    &&& commit.1.sound()
}

/// Some entry of the list names the block `id`.
pub open spec fn listed_in(commits: Seq<(InstanceID, Block)>, id: InstanceID) -> bool {
    exists|j: int| 0 <= j < commits.len() && (#[trigger] commits[j]).0 == id
}

/// The first `upto` entries are written, and every other block is as it was.
pub open spec fn written(
    b0: Blocks,
    b1: Blocks,
    commits: Seq<(InstanceID, Block)>,
    upto: int,
) -> bool {
    &&& b1.dom() == b0.dom()
    &&& forall|id: InstanceID| #[trigger]
        b1.contains_key(id) ==> b1[id].0 == b0[id].0 && b1[id].1 == b0[id].1 && b1[id].2.kind()
            == b0[id].2.kind()
    &&& forall|id: InstanceID| #[trigger]
        b1.contains_key(id) && !listed_in(commits.take(upto), id) ==> b1[id] == b0[id]
    &&& forall|j: int| 0 <= j < upto ==> b1[(#[trigger] commits[j]).0].2 == commits[j].1
}

/// The edge `x` has the power of either of the blocks that own its endpoints.
pub open spec fn edge_lit(b: Blocks, n: Nodes, e: Edges, x: EdgeID) -> bool {
    e[x].2 == (b[n[e[x].0].0].2.circuit_power() == Some(true) || b[n[e[x].1].0].2.circuit_power()
        == Some(true))
}

/// The edges are the same as before but for their power, and the first
/// `upto` listed edges have the power of their blocks.
pub open spec fn relit(
    b: Blocks,
    n: Nodes,
    e0: Edges,
    e1: Edges,
    listed: Seq<EdgeID>,
    upto: int,
) -> bool {
    &&& e1.dom() == e0.dom()
    &&& forall|x: EdgeID| #[trigger]
        e1.contains_key(x) ==> e1[x].0 == e0[x].0 && e1[x].1 == e0[x].1
    &&& forall|t: int| 0 <= t < upto ==> edge_lit(b, n, e1, #[trigger] listed[t])
}

/// The edges are the same as before but for their power, and each has the
/// power of either of the blocks that own its endpoints.
pub open spec fn all_lit(b: Blocks, n: Nodes, e0: Edges, e1: Edges) -> bool {
    &&& e1.dom() == e0.dom()
    &&& forall|x: EdgeID| #[trigger]
        e1.contains_key(x) ==> e1[x].0 == e0[x].0 && e1[x].1 == e0[x].1 && edge_lit(b, n, e1, x)
}

impl Scene {
    /// Writes the next states that a tick has computed.
    fn commit(&mut self, commits: &Vec<(InstanceID, Block)>, Ghost(v): Ghost<SceneView>)
        requires
            old(self).wf(),
            v.blocks == old(self)@.blocks,
            settles(v, commits@),
        ensures
            final(self).wf(),
            final(self)@.blocks == v.ticked_blocks(),
            final(self).space == old(self).space,
            final(self).circuit == old(self).circuit,
            final(self).ticks == old(self).ticks,
    {
        let ghost b0 = self.blocks@;
        let mut j: usize = 0;
        while j < commits.len()
            invariant
                j <= commits.len(),
                self.wf(),
                v.blocks == b0,
                settles(v, commits@),
                self.space == old(self).space,
                self.circuit == old(self).circuit,
                self.ticks == old(self).ticks,
                written(b0, self.blocks@, commits@, j as int),
            decreases commits.len() - j,
        {
            let ghost b_mid = self.blocks@;
            let id = commits[j].0;
            let block = commits[j].1;
            assert(due(v, commits@[j as int]));
            assert(b_mid.contains_key(id));
            let entry = match self.blocks.get(&id) {
                Some(entry) => *entry,
                None => (Coord::zero(), Orient::FORWARD, block),
            };
            proof {
                crate::scene::lemma_updated_fits(
                    b_mid,
                    self.space@,
                    circuit_nodes(self.circuit),
                    circuit_edges(self.circuit),
                    id,
                    block,
                );
            }
            self.blocks.insert(id, (entry.0, entry.1, block));
            proof {
                let b_new = self.blocks@;
                assert(b_new.dom() =~= b0.dom());
                assert forall|x: InstanceID| #[trigger]
                    b_new.contains_key(x) && !listed_in(commits@.take(j + 1), x) implies b_new[x]
                    == b0[x] by {
                    if x == id {
                        assert(commits@.take(j + 1)[j as int].0 == id);
                    } else {
                        if listed_in(commits@.take(j as int), x) {
                            let k = choose|k: int|
                                0 <= k < j && (#[trigger] commits@.take(j as int)[k]).0 == x;
                            assert(commits@.take(j + 1)[k].0 == x);
                        }
                    }
                }
                assert forall|k: int| 0 <= k < j + 1 implies b_new[(#[trigger] commits@[k]).0].2
                    == commits@[k].1 by {
                    if k < j {
                        assert(commits@[k].0 != commits@[j as int].0);
                    }
                }
            }
            j = j + 1;
        }
        proof {
            let b1 = self.blocks@;
            assert(commits@.take(commits@.len() as int) =~= commits@);
            assert forall|id: InstanceID| b1.contains_key(id) implies b1[id]
                == v.ticked_blocks()[id] by {
                if listed_in(commits@, id) {
                    let k = choose|k: int| 0 <= k < commits@.len() && (#[trigger] commits@[k]).0 == id;
                    assert(due(v, commits@[k]));
                } else {
                    assert(!v.changes(id));
                }
            }
            assert(b1 =~= v.ticked_blocks());
        }
    }

    /// Sets the power of every link to the power of either of its two blocks.
    fn refresh_edges(&mut self)
        requires
            old(self).wf(),
        ensures
            final(self).wf(),
            final(self).blocks == old(self).blocks,
            final(self).space == old(self).space,
            final(self).ticks == old(self).ticks,
            circuit_nodes(final(self).circuit) == circuit_nodes(old(self).circuit),
            all_lit(
                old(self).blocks@,
                circuit_nodes(old(self).circuit),
                circuit_edges(old(self).circuit),
                circuit_edges(final(self).circuit),
            ),
    {
        let ghost b = self.blocks@;
        let ghost c = self.space@;
        let ghost n = circuit_nodes(self.circuit);
        let ghost e0 = circuit_edges(self.circuit);
        let edge_indices = circuit_edge_indices(&self.circuit);
        let mut t: usize = 0;
        while t < edge_indices.len()
            invariant
                t <= edge_indices.len(),
                edge_indices@.to_set() == e0.dom(),
                fits(b, c, n, e0),
                self.wf(),
                self.blocks@ == b,
                self.blocks == old(self).blocks,
                self.space == old(self).space,
                self.ticks == old(self).ticks,
                circuit_nodes(self.circuit) == n,
                relit(b, n, e0, circuit_edges(self.circuit), edge_indices@, t as int),
            decreases edge_indices.len() - t,
        {
            let ghost e_mid = circuit_edges(self.circuit);
            let x = edge_indices[t];
            proof {
                assert(edge_indices@.to_set().contains(x));
                assert(e_mid.contains_key(x));
                assert(edge_sound(n, e_mid[x]));
                assert(joined(e_mid, e_mid[x].0, e_mid[x].1));
                lemma_edge_is_link(b, c, n, e_mid, e_mid[x].0, e_mid[x].1);
            }
            let power = match circuit_edge_endpoints(&self.circuit, x) {
                Some(ends) => {
                    let a = self.owner_power(ends.0);
                    let z = self.owner_power(ends.1);
                    let power = a || z;
                    let y = circuit_update_edge(&mut self.circuit, ends.0, ends.1, power);
                    assert(y == x);
                    power
                },
                None => false,
            };
            proof {
                let e_new = circuit_edges(self.circuit);
                assert(e_new == e_mid.insert(x, (e_mid[x].0, e_mid[x].1, power)));
                assert(e_new.dom() =~= e0.dom());
                assert forall|k: int| 0 <= k < t + 1 implies edge_lit(
                    b,
                    n,
                    e_new,
                    #[trigger] edge_indices@[k],
                ) by {
                    if k < t {
                        assert(edge_lit(b, n, e_mid, edge_indices@[k]));
                    }
                }
                assert forall|k: EdgeID| e_new.contains_key(k) implies edge_sound(
                    n,
                    #[trigger] e_new[k],
                ) by {
                    assert(edge_sound(n, e_mid[k]));
                }
                assert forall|p: Coord, q: Coord| #[trigger]
                    crate::scene::near_cells(c, p, q) implies c[p].2 is Some && c[q].2 is Some
                    && joined(e_new, c[p].2->0, c[q].2->0) by {
                    let j = choose|j: EdgeID| #[trigger]
                        e_mid.contains_key(j) && joins(e_mid[j], c[p].2->0, c[q].2->0);
                    assert(e_new.contains_key(j) && joins(e_new[j], c[p].2->0, c[q].2->0));
                }
                assert(edges_simple(e_new)) by {
                    assert forall|k1: EdgeID, k2: EdgeID|
                        #[trigger] e_new.contains_key(k1) && #[trigger] e_new.contains_key(k2)
                            && joins(e_new[k1], e_new[k2].0, e_new[k2].1) implies k1 == k2 by {
                        assert(e_mid.contains_key(k1) && e_mid.contains_key(k2));
                        assert(joins(e_mid[k1], e_mid[k2].0, e_mid[k2].1));
                    }
                }
            }
            t = t + 1;
        }
        proof {
            let e1 = circuit_edges(self.circuit);
            assert forall|x: EdgeID| #[trigger] e1.contains_key(x) implies edge_lit(b, n, e1, x) by {
                assert(edge_indices@.to_set().contains(x));
                let k = choose|k: int| 0 <= k < edge_indices@.len() && edge_indices@[k] == x;
                assert(edge_lit(b, n, e1, edge_indices@[k]));
            }
        }
    }

    /// Whether the block that owns the node puts out power.
    fn owner_power(&self, node: NodeID) -> (power: bool)
        requires
            self.wf(),
            circuit_nodes(self.circuit).contains_key(node),
        ensures
            power == (self.blocks@[circuit_nodes(self.circuit)[node].0].2.circuit_power() == Some(
                true,
            )),
    {
        proof {
            assert(node_celled(self.space@, circuit_nodes(self.circuit), node));
            assert(cell_known(self.blocks@, self.space@, circuit_nodes(self.circuit)[node].2));
        }
        match circuit_node_weight(&self.circuit, node) {
            Some(weight) => {
                match self.blocks.get(&weight.0) {
                    Some(entry) => {
                        match entry.2.get_circuit_power() {
                            Some(power) => power,
                            None => OFF,
                        }
                    },
                    None => OFF,
                }
            },
            None => OFF,
        }
    }
}

impl Scene {
    /// Determine if any of the given node's edges are independently powered
    pub(crate) fn get_edge_independent_power(&self, node: NodeID) -> (power: bool)
        requires
            self.wf(),
            circuit_nodes(self.circuit).contains_key(node),
        ensures
            power == self@.fed(circuit_nodes(self.circuit)[node].2),
    {
        let ghost b = self.blocks@;
        let ghost c = self.space@;
        let ghost n = circuit_nodes(self.circuit);
        let ghost e = circuit_edges(self.circuit);
        let ghost at = n[node].2;
        let listed = circuit_neighbors(&self.circuit, node);
        let mut i: usize = 0;
        while i < listed.len()
            invariant
                i <= listed.len(),
                self.wf(),
                b == self.blocks@,
                c == self.space@,
                n == circuit_nodes(self.circuit),
                e == circuit_edges(self.circuit),
                n.contains_key(node),
                at == n[node].2,
                neighbours_of(e, node, listed@),
                forall|k: int|
                    0 <= k < i ==> !b[n[#[trigger] listed@[k]].0].2.emits(n[listed@[k]].1),
            decreases listed.len() - i,
        {
            let m = listed[i];
            proof {
                assert(listed@.contains(m));
                lemma_edge_is_link(b, c, n, e, node, m);
            }
            let emits = match circuit_node_weight(&self.circuit, m) {
                Some(weight) => {
                    match self.blocks.get(&weight.0) {
                        Some(entry) => entry.2.voxel_emits(&weight.1),
                        None => false,
                    }
                },
                None => false,
            };
            if emits {
                proof {
                    let q = n[m].2;
                    assert(self@.links.contains_key((at, q)));
                    assert(self@.source_power(q));
                }
                return true;
            }
            i = i + 1;
        }
        proof {
            if self@.fed(at) {
                let q = choose|q: Coord| #[trigger]
                    self@.links.contains_key((at, q)) && self@.source_power(q);
                lemma_link_is_edge(b, c, n, e, at, q);
                assert(node_celled(c, n, node));
                let m = c[q].2->0;
                assert(listed@.contains(m));
                let k = choose|k: int| 0 <= k < listed@.len() && listed@[k] == m;
                assert(!b[n[listed@[k]].0].2.emits(n[listed@[k]].1));
            }
        }
        false
    }

    /// Whether power comes in at voxel `rank` of the block, which is a terminal.
    fn input_power(&self, voxels: &Vec<(String, Coord)>, rank: usize, Ghost(id): Ghost<
        InstanceID,
    >) -> (power: bool)
        requires
            self.wf(),
            self@.blocks.contains_key(id),
            structure_view(voxels@) == voxels_of(self@.blocks[id]),
            rank < voxels.len(),
            is_terminal_name(voxels_of(self@.blocks[id])[rank as int].0),
        ensures
            power == self@.fed(voxels_of(self@.blocks[id])[rank as int].1),
    {
        let ghost s = voxels_of(self@.blocks[id]);
        assert(s[rank as int].1 == voxels@[rank as int].1);
        proof {
            assert(voxel_stored(self.blocks@, self.space@, id, rank as int));
            assert(cell_known(self.blocks@, self.space@, s[rank as int].1));
            assert(cell_noded(self.space@, circuit_nodes(self.circuit), s[rank as int].1));
        }
        match self.space.get(voxels[rank].1) {
            Some(cell) => {
                match cell.2 {
                    Some(node) => self.get_edge_independent_power(node),
                    None => false,
                }
            },
            None => false,
        }
    }

    /// The state of the block `id` after the tick, from the powers that come in now.
    pub(crate) fn next_state(&self, id: InstanceID, entry: &Entry) -> (after: Block)
        requires
            self.wf(),
            self.ticks < u32::MAX,
            self@.blocks.contains_key(id),
            *entry == self@.blocks[id],
        ensures
            after == self@.stepped(id),
            after.kind() == entry.2.kind(),
            after.sound(),
    {
        proof {
            assert(sound_entry(self.blocks@[id]));
            lemma_input_places(*entry);
            lemma_terminals(entry.2);
        }
        let now: u32 = self.ticks + 1;
        match entry.2 {
            Block::Pixel(_) | Block::NOTGate(_) | Block::Diode(_) | Block::ToggleLatch(_)
            | Block::PulseLatch(_) => {
                let voxels = entry.2.get_global_structure(entry.0, entry.1);
                let a = self.input_power(&voxels, 0, Ghost(id));
                entry.2.advance(now, a, false)
            },
            Block::ANDGate(_) | Block::ORGate(_) | Block::XORGate(_) | Block::NANDGate(_)
            | Block::NORGate(_) | Block::XNORGate(_) | Block::MemoryLatch(_) => {
                let voxels = entry.2.get_global_structure(entry.0, entry.1);
                assert(voxels_of(*entry)[7].0 == entry.2.structure()[7].0);
                let a = self.input_power(&voxels, 6, Ghost(id));
                let b = self.input_power(&voxels, 7, Ghost(id));
                entry.2.advance(now, a, b)
            },
            _ => entry.2.advance(now, false, false),
        }
    }
}

} // verus!
