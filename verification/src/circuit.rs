use crate::grid::{Coord, InstanceID, NodeID};
use petgraph::stable_graph::{EdgeIndex, NodeIndex, StableGraph};
use petgraph::Undirected;
use vstd::prelude::*;

verus! {

/// `petgraph::stable_graph::StableGraph`, taken as an opaque type: what it
/// holds is told by `circuit_nodes`, `circuit_edges` and the functions below.
#[verifier::external_type_specification]
#[verifier::external_body]
#[verifier::reject_recursive_types(N)]
#[verifier::reject_recursive_types(E)]
#[verifier::reject_recursive_types(Ty)]
#[verifier::reject_recursive_types(Ix)]
pub struct ExStableGraph<N, E, Ty, Ix>(StableGraph<N, E, Ty, Ix>);

/// `petgraph::Undirected`, the marker of a graph whose edges have no direction.
#[verifier::external_type_specification]
#[verifier::external_body]
pub struct ExUndirected(Undirected);

pub type EdgeID = u32;

/// The circuit graph: a node per terminal voxel, carrying the owning block, the
/// voxel's name and its position; an undirected edge per link, carrying its power.
pub type Circuit = StableGraph<(InstanceID, String, (i32, i32, i32)), bool, Undirected, u32>;

/// What a node carries: the owning block, the voxel's name and its position.
pub type NodeView = (InstanceID, Seq<char>, Coord);

/// What an edge is: its two endpoints, in the order they were given, and its power.
pub type EdgeView = (NodeID, NodeID, bool);

pub type Nodes = Map<NodeID, NodeView>;

pub type Edges = Map<EdgeID, EdgeView>;

/// The nodes that the graph holds, by index.
pub uninterp spec fn circuit_nodes(g: Circuit) -> Map<NodeID, NodeView>;

/// The edges that the graph holds, by index.
pub uninterp spec fn circuit_edges(g: Circuit) -> Map<EdgeID, EdgeView>;

/// The edge runs between `a` and `b`, in either direction.
pub open spec fn joins(e: EdgeView, a: NodeID, b: NodeID) -> bool {
    (e.0 == a && e.1 == b) || (e.0 == b && e.1 == a)
}

/// Some edge runs between `a` and `b`.
pub open spec fn joined(edges: Edges, a: NodeID, b: NodeID) -> bool {
    exists|e: EdgeID| #[trigger] edges.contains_key(e) && joins(edges[e], a, b)
}

/// The edge touches the node `a`.
pub open spec fn touches(e: EdgeView, a: NodeID) -> bool {
    e.0 == a || e.1 == a
}

/// The graph holds no node and no edge.
pub open spec fn graph_is_empty(nodes: Nodes, edges: Edges) -> bool {
    nodes == Map::<NodeID, NodeView>::empty() && edges == Map::<EdgeID, EdgeView>::empty()
}

/// The map is finite and has `n` entries.
pub open spec fn sized<K, V>(m: Map<K, V>, n: usize) -> bool {
    m.dom().finite() && m.len() == n
}

/// The edges of `before` that do not touch the node `a`.
pub open spec fn edges_without(before: Edges, a: NodeID) -> Edges {
    Map::new(|e: EdgeID| before.contains_key(e) && !touches(before[e], a), |e: EdgeID| before[e])
}

/// What `update_edge` does to the edges: where an edge runs between `a` and
/// `b`, the edge `e` is one such and only its power changes; otherwise `e` is
/// a new edge from `a` to `b`.
pub open spec fn edge_upserted(
    before: Edges,
    after: Edges,
    a: NodeID,
    b: NodeID,
    power: bool,
    e: EdgeID,
) -> bool {
    if joined(before, a, b) {
        &&& before.contains_key(e)
        &&& joins(before[e], a, b)
        &&& after == before.insert(e, (before[e].0, before[e].1, power))
    } else {
        &&& !before.contains_key(e)
        &&& after == before.insert(e, (a, b, power))
    }
}

/// The neighbours of `a`: the other endpoint of each edge that touches it.
pub open spec fn neighbours_of(edges: Edges, a: NodeID, listed: Seq<NodeID>) -> bool {
    forall|b: NodeID| #[trigger] listed.contains(b) <==> joined(edges, a, b)
}

/// `StableGraph::default`: a graph without nodes or edges.
#[verifier::external_body]
pub(crate) fn circuit_empty() -> (g: Circuit)
    ensures
        graph_is_empty(circuit_nodes(g), circuit_edges(g)),
{
    StableGraph::default()
}

/// `StableGraph::node_count`: the number of nodes, which is finite.
#[verifier::external_body]
pub(crate) fn circuit_node_count(g: &Circuit) -> (n: usize)
    ensures
        sized(circuit_nodes(*g), n),
{
    g.node_count()
}

/// `StableGraph::edge_count`: the number of edges, which is finite.
#[verifier::external_body]
pub(crate) fn circuit_edge_count(g: &Circuit) -> (n: usize)
    ensures
        sized(circuit_edges(*g), n),
{
    g.edge_count()
}

/// `StableGraph::add_node`: adds a node under an index that no node had, and
/// leaves the other nodes and the edges as they were. It panics when the graph
/// holds as many nodes as the index type can number, which `requires` leaves out.
#[verifier::external_body]
pub(crate) fn circuit_add_node(g: &mut Circuit, owner: InstanceID, name: String, at: Coord) -> (n:
    NodeID)
    requires
        circuit_nodes(*old(g)).dom().finite(),
        circuit_nodes(*old(g)).len() < u32::MAX,
    ensures
        !circuit_nodes(*old(g)).contains_key(n),
        circuit_nodes(*final(g)) == circuit_nodes(*old(g)).insert(n, (owner, name@, at)),
        circuit_edges(*final(g)) == circuit_edges(*old(g)),
{
    g.add_node((owner, name, (at.x, at.y, at.z))).index() as u32
}

/// `StableGraph::remove_node`: removes the node and every edge that touches
/// it, and returns the block that owned it; nothing changes where there is no
/// such node.
#[verifier::external_body]
pub(crate) fn circuit_remove_node(g: &mut Circuit, n: NodeID) -> (owner: Option<InstanceID>)
    ensures
        owner is Some == circuit_nodes(*old(g)).contains_key(n),
        owner is Some ==> owner->0 == circuit_nodes(*old(g))[n].0,
        circuit_nodes(*final(g)) == circuit_nodes(*old(g)).remove(n),
        circuit_edges(*final(g)) == edges_without(circuit_edges(*old(g)), n),
{
    g.remove_node(NodeIndex::new(n as usize)).map(|weight| weight.0)
}

/// `StableGraph::node_weight`: what the node carries, if there is such a node.
#[verifier::external_body]
pub(crate) fn circuit_node_weight(g: &Circuit, n: NodeID) -> (weight: Option<
    (InstanceID, String, Coord),
>)
    ensures
        match weight {
            Some(w) => circuit_nodes(*g).contains_key(n) && circuit_nodes(*g)[n] == (w.0, w.1@, w.2),
            None => !circuit_nodes(*g).contains_key(n),
        },
{
    match g.node_weight(NodeIndex::new(n as usize)) {
        Some(&(owner, ref name, (x, y, z))) => Some((owner, name.clone(), Coord { x, y, z })),
        None => None,
    }
}

/// `StableGraph::neighbors`: for an undirected graph, the other endpoint of
/// every edge that touches the node.
#[verifier::external_body]
pub(crate) fn circuit_neighbors(g: &Circuit, n: NodeID) -> (listed: Vec<NodeID>)
    ensures
        neighbours_of(circuit_edges(*g), n, listed@),
{
    g.neighbors(NodeIndex::new(n as usize)).map(|b| b.index() as u32).collect()
}

/// `StableGraph::update_edge`: sets the power of an edge between the two nodes
/// where there is one, and adds an edge otherwise; the nodes stay as they were.
/// It panics when a node is missing, or when it has to add an edge and no edge
/// index is left, which `requires` leaves out.
#[verifier::external_body]
pub(crate) fn circuit_update_edge(g: &mut Circuit, a: NodeID, b: NodeID, power: bool) -> (e: EdgeID)
    requires
        circuit_nodes(*old(g)).contains_key(a),
        circuit_nodes(*old(g)).contains_key(b),
        joined(circuit_edges(*old(g)), a, b) || (circuit_edges(*old(g)).dom().finite()
            && circuit_edges(*old(g)).len() < u32::MAX),
    ensures
        edge_upserted(circuit_edges(*old(g)), circuit_edges(*final(g)), a, b, power, e),
        circuit_nodes(*final(g)) == circuit_nodes(*old(g)),
{
    g.update_edge(NodeIndex::new(a as usize), NodeIndex::new(b as usize), power).index() as u32
}

/// `StableGraph::edge_indices`: the index of every edge, each once.
#[verifier::external_body]
pub(crate) fn circuit_edge_indices(g: &Circuit) -> (listed: Vec<EdgeID>)
    ensures
        listed@.to_set() == circuit_edges(*g).dom(),
        listed@.no_duplicates(),
{
    g.edge_indices().map(|e| e.index() as u32).collect()
}

/// `StableGraph::edge_endpoints`: the two endpoints of the edge, if there is
/// such an edge.
#[verifier::external_body]
pub(crate) fn circuit_edge_endpoints(g: &Circuit, e: EdgeID) -> (ends: Option<(NodeID, NodeID)>)
    ensures
        match ends {
            Some(pair) => circuit_edges(*g).contains_key(e) && pair.0 == circuit_edges(*g)[e].0
                && pair.1 == circuit_edges(*g)[e].1,
            None => !circuit_edges(*g).contains_key(e),
        },
{
    g.edge_endpoints(EdgeIndex::new(e as usize)).map(|(a, b)| (a.index() as u32, b.index() as u32))
}

/// `StableGraph::edge_weight`: the power of the edge, if there is such an edge.
#[verifier::external_body]
pub(crate) fn circuit_edge_weight(g: &Circuit, e: EdgeID) -> (power: Option<bool>)
    ensures
        power is Some == circuit_edges(*g).contains_key(e),
        power is Some ==> power->0 == circuit_edges(*g)[e].2,
{
    g.edge_weight(EdgeIndex::new(e as usize)).copied()
}

} // verus!
