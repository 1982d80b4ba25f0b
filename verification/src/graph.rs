use vstd::prelude::*;
use crate::model::{connected_over, edge_connects, has_path, no_shorter_path, node_range};

verus! {

// ---------------------------------------------------------------------------
// The topology type and its trusted boundary.
//
// The topology is a petgraph stable graph: edge identities survive the
// removal of other edges, which is what keeps the route cache meaningful
// across trials.  Verus sees the graph through two uninterpreted content
// functions, `graph_nodes` and `graph_edges`, and a handful of trusted
// wrappers whose contracts state what petgraph's documentation and source
// promise.
// ---------------------------------------------------------------------------

#[verifier::external_type_specification]
#[verifier::external_body]
#[verifier::reject_recursive_types(N)]
#[verifier::reject_recursive_types(E)]
#[verifier::reject_recursive_types(Ty)]
#[verifier::reject_recursive_types(Ix)]
pub struct ExStableGraph<N, E, Ty, Ix>(petgraph::stable_graph::StableGraph<N, E, Ty, Ix>);

#[verifier::external_type_specification]
#[verifier::external_body]
pub struct ExUndirected(petgraph::Undirected);

/// The undirected network under test.
pub type Network = petgraph::stable_graph::StableGraph<(), (), petgraph::Undirected>;

/// The set of node indices of the graph.
pub uninterp spec fn graph_nodes(g: Network) -> Set<int>;

/// The contents of the graph: each present edge identity, mapped to the pair
/// of node indices it joins (in the order the edge was inserted with).
pub uninterp spec fn graph_edges(g: Network) -> Map<int, (int, int)>;

/// True when the graph's edge arena has no vacant slot, i.e. no edge was
/// ever removed that has not been reused; fresh edge identities are then
/// assigned densely, 0, 1, 2, ...
pub uninterp spec fn graph_no_vacant_edge(g: Network) -> bool;

/// True when the graph's node arena has no vacant slot, i.e. no node was
/// ever removed that has not been reused; fresh node indices are then
/// assigned densely, 0, 1, 2, ...  Without this, `add_node` reuses the most
/// recently freed slot, whose index need not be the occupied count.
pub uninterp spec fn graph_no_vacant_node(g: Network) -> bool;

/// The node indices are exactly 0 .. count, as produced by building the
/// graph with `add_node` alone.
pub open spec fn nodes_dense(g: Network) -> bool {
    &&& graph_nodes(g).finite()
    &&& graph_nodes(g) =~= node_range(graph_nodes(g).len() as int)
}

/// Relies on `StableGraph::default`: the new graph has no node, no edge,
/// and no vacant slot in either arena.
#[verifier::external_body]
pub fn new_network() -> (g: Network)
    ensures
        graph_nodes(g) == Set::<int>::empty(),
        graph_edges(g) == crate::model::empty_edges(),
        graph_no_vacant_edge(g),
        graph_no_vacant_node(g),
{
    petgraph::stable_graph::StableGraph::default()
}

/// Relies on `StableGraph::add_node`: with no vacant node slot, the node
/// free-list is empty and the new node is appended at the next sequential
/// index; with a vacancy petgraph would instead reuse the most recently
/// freed slot, so the sequential claim is guarded by `graph_no_vacant_node`.
#[verifier::external_body]
pub fn add_node(g: &mut Network) -> (r: u32)
    requires
        graph_nodes(*old(g)).finite(),
        graph_no_vacant_node(*old(g)),
        graph_nodes(*old(g)).len() < 0xffff_ffff,
    ensures
        r as int == graph_nodes(*old(g)).len(),
        graph_nodes(*final(g)) == graph_nodes(*old(g)).insert(r as int),
        graph_edges(*final(g)) == graph_edges(*old(g)),
        graph_no_vacant_edge(*final(g)) == graph_no_vacant_edge(*old(g)),
        graph_no_vacant_node(*final(g)),
{
    g.add_node(()).index() as u32
}

/// Relies on `StableGraph::add_edge`: the edge is stored under a fresh
/// identity and joins `a` to `b`; with no vacant slot the identity is the
/// next sequential one.  Panics only if an endpoint does not exist or the
/// index type is exhausted, which the preconditions exclude.
#[verifier::external_body]
pub fn add_edge_raw(g: &mut Network, a: u32, b: u32) -> (r: u32)
    requires
        graph_nodes(*old(g)).contains(a as int),
        graph_nodes(*old(g)).contains(b as int),
        graph_edges(*old(g)).dom().finite(),
        graph_edges(*old(g)).dom().len() < 0xffff_0000,
    ensures
        !graph_edges(*old(g)).dom().contains(r as int),
        graph_edges(*final(g)) == graph_edges(*old(g)).insert(r as int, (a as int, b as int)),
        graph_nodes(*final(g)) == graph_nodes(*old(g)),
        graph_no_vacant_edge(*old(g)) ==> graph_no_vacant_edge(*final(g)) && r as int
            == graph_edges(*old(g)).dom().len(),
        graph_no_vacant_node(*final(g)) == graph_no_vacant_node(*old(g)),
{
    g.add_edge(
        petgraph::stable_graph::NodeIndex::new(a as usize),
        petgraph::stable_graph::NodeIndex::new(b as usize),
        (),
    ).index() as u32
}

/// Relies on `StableGraph::remove_edge`: the edge, if present, disappears;
/// nodes and other edges are untouched.
#[verifier::external_body]
pub fn remove_edge_raw(g: &mut Network, id: u32)
    ensures
        graph_edges(*final(g)) == graph_edges(*old(g)).remove(id as int),
        graph_nodes(*final(g)) == graph_nodes(*old(g)),
{
    g.remove_edge(petgraph::stable_graph::EdgeIndex::new(id as usize));
}

/// Relies on `Clone for StableGraph`: the copy has the same nodes and the
/// same edges under the same identities, free-lists included.
#[verifier::external_body]
pub fn clone_network(g: &Network) -> (r: Network)
    ensures
        graph_nodes(r) == graph_nodes(*g),
        graph_edges(r) == graph_edges(*g),
        graph_no_vacant_edge(r) == graph_no_vacant_edge(*g),
        graph_no_vacant_node(r) == graph_no_vacant_node(*g),
{
    g.clone()
}

/// Relies on `StableGraph::node_count`.
#[verifier::external_body]
pub fn node_count_raw(g: &Network) -> (r: usize)
    ensures
        r as int == graph_nodes(*g).len(),
{
    g.node_count()
}

/// Relies on `StableGraph::edge_endpoints`: `Some` exactly for a present
/// edge, with the endpoints it was inserted with.
#[verifier::external_body]
pub fn edge_endpoints_raw(g: &Network, id: u32) -> (r: Option<(u32, u32)>)
    ensures
        match r {
            Some(ab) => graph_edges(*g).dom().contains(id as int) && graph_edges(*g)[id as int]
                == (ab.0 as int, ab.1 as int),
            None => !graph_edges(*g).dom().contains(id as int),
        },
{
    match g.edge_endpoints(petgraph::stable_graph::EdgeIndex::new(id as usize)) {
        Some((a, b)) => Some((a.index() as u32, b.index() as u32)),
        None => None,
    }
}

/// Relies on `StableGraph::find_edge`: on an undirected graph it returns an
/// edge joining `a` and `b` in either direction, or `None` if there is none.
#[verifier::external_body]
pub fn find_edge_raw(g: &Network, a: u32, b: u32) -> (r: Option<u32>)
    ensures
        match r {
            Some(id) => graph_edges(*g).dom().contains(id as int) && (graph_edges(*g)[id as int]
                == (a as int, b as int) || graph_edges(*g)[id as int] == (b as int, a as int)),
            None => !edge_connects(graph_edges(*g), a as int, b as int),
        },
{
    match g.find_edge(
        petgraph::stable_graph::NodeIndex::new(a as usize),
        petgraph::stable_graph::NodeIndex::new(b as usize),
    ) {
        Some(e) => Some(e.index() as u32),
        None => None,
    }
}

/// Relies on `StableGraph::edge_indices`: it yields each present edge
/// identity exactly once.
#[verifier::external_body]
pub fn edge_id_list(g: &Network) -> (r: Vec<u32>)
    ensures
        forall|k: int| 0 <= k < r@.len() ==> graph_edges(*g).dom().contains(#[trigger] r@[k] as int),
        forall|id: int|
            #[trigger] graph_edges(*g).dom().contains(id) ==> exists|k: int|
                0 <= k < r@.len() && #[trigger] r@[k] as int == id,
        forall|k1: int, k2: int| 0 <= k1 < k2 < r@.len() ==> r@[k1] != r@[k2],
{
    g.edge_indices().map(|e| e.index() as u32).collect()
}

/// Relies on `petgraph::algo::dijkstra` from node 0 with unit edge costs:
/// the returned map holds exactly the nodes reachable from node 0, so its
/// size equals the node count exactly when every node is reachable.
#[verifier::external_body]
pub fn dijkstra_reach_count(g: &Network) -> (r: usize)
    requires
        graph_nodes(*g).contains(0),
    ensures
        r as int <= graph_nodes(*g).len(),
        (r as int == graph_nodes(*g).len()) <==> connected_over(graph_edges(*g), graph_nodes(*g)),
{
    petgraph::algo::dijkstra(g, petgraph::stable_graph::NodeIndex::new(0), None, |_e| 1u32).len()
}

/// Exec mirror of node-index equality, for the search's goal test.
pub fn node_index_is(a: usize, b: u32) -> (r: bool)
    ensures
        r == (a == b as usize),
{
    a == b as usize
}

/// Relies on `petgraph::algo::astar` with unit edge costs and a zero
/// estimate, i.e. an unweighted shortest-path search: it returns `Some`
/// exactly when the goal is reachable, and then a minimum-hop node walk from
/// `i` to `j` without repeated nodes.
#[verifier::external_body]
pub fn astar_route(g: &Network, i: u32, j: u32) -> (r: Option<Vec<u32>>)
    requires
        graph_nodes(*g).contains(i as int),
        graph_nodes(*g).contains(j as int),
        i != j,
    ensures
        r is Some <==> has_path(graph_edges(*g), i as int, j as int),
        match r {
            Some(p) => {
                &&& p@.len() >= 2
                &&& p@[0] == i
                &&& p@[p@.len() - 1] == j
                &&& forall|k: int|
                    0 <= k < p@.len() - 1 ==> edge_connects(
                        graph_edges(*g),
                        #[trigger] p@[k] as int,
                        p@[k + 1] as int,
                    )
                &&& forall|k1: int, k2: int| 0 <= k1 < k2 < p@.len() ==> p@[k1] != p@[k2]
                &&& no_shorter_path(graph_edges(*g), i as int, j as int, p@.len() - 1)
            },
            None => true,
        },
{
    match petgraph::algo::astar(
        g,
        petgraph::stable_graph::NodeIndex::new(i as usize),
        |goal| node_index_is(goal.index(), j),
        |_e| 1u32,
        |_n| 0u32,
    ) {
        Some((_, path)) => Some(path.into_iter().map(|v| v.index() as u32).collect()),
        None => None,
    }
}

} // verus!
