use vstd::prelude::*;

pub mod model;
pub mod graph;
pub mod routes;
pub mod flows;
pub mod delay;
pub mod network_testing;

use crate::graph::{
    add_edge_raw, add_node, dijkstra_reach_count, graph_edges, graph_no_vacant_edge,
    graph_no_vacant_node, graph_nodes, new_network, node_count_raw, nodes_dense, Network,
};
use crate::model::{connected_over, edge_ids_below, matrix_view, node_range};

verus! {

/// Number of nodes in the fixed benchmark network.
pub const NETWORK_SIZE: usize = 20;

/// Number of edges in the fixed benchmark network.
pub const NUM_EDGES: usize = 28;

/// Size of one packet, used to turn a link capacity into a packet rate.
pub const PACKET_SIZE: u32 = 12_000;

/// A square traffic-intensity matrix: entry `[i][j]` is the demand routed
/// from node `i` to node `j`; the diagonal is unused and zero.
pub type NodesMatrix = Vec<Vec<u32>>;

/// The node pairs of the benchmark network, in insertion order; the edge
/// with identity `k` joins `benchmark_pairs()[k]`.
pub open spec fn benchmark_pairs() -> Seq<(int, int)> {
    seq![
        (0int, 1int), (0int, 3int), (0int, 6int), (1int, 2int), (2int, 4int), (3int, 8int),
        (3int, 16int), (4int, 5int), (4int, 10int), (5int, 13int), (5int, 15int), (6int, 9int),
        (7int, 9int), (7int, 10int), (8int, 11int), (8int, 14int), (9int, 12int), (9int, 13int),
        (10int, 12int), (10int, 18int), (11int, 17int), (12int, 16int), (14int, 15int),
        (14int, 17int), (15int, 19int), (16int, 17int), (17int, 18int), (18int, 19int),
    ]
}

/// The edge map of the benchmark network: identities 0 .. NUM_EDGES, edge
/// `k` joining `benchmark_pairs()[k]`.
pub open spec fn benchmark_edges() -> Map<int, (int, int)> {
    Map::new(|id: int| 0 <= id < NUM_EDGES as int, |id: int| benchmark_pairs()[id])
}

/// Copy a fixed-size row into a vector.
fn array_to_vec<const N: usize>(a: &[u32; N]) -> (r: Vec<u32>)
    ensures
        r@ == a@,
{
    let mut r: Vec<u32> = Vec::new();
    let mut i: usize = 0;
    while i < N
        invariant
            i <= N,
            r@ == a@.take(i as int),
        decreases N - i,
    {
        r.push(a[i]);
        assert(a@.take(i as int).push(a@[i as int]) =~= a@.take(i as int + 1));
        i = i + 1;
    }
    assert(a@.take(N as int) =~= a@);
    r
}

/// Build the fixed benchmark topology: NETWORK_SIZE nodes and the NUM_EDGES
/// links of `benchmark_edges`, with edge identities assigned 0, 1, 2, ... in
/// insertion order.
pub fn create_network() -> (r: Network)
    ensures
        nodes_dense(r),
        graph_nodes(r).len() == NETWORK_SIZE as int,
        graph_edges(r) == benchmark_edges(),
        graph_no_vacant_edge(r),
        edge_ids_below(graph_edges(r), NUM_EDGES as int),
{
    let mut g = new_network();
    let mut i: usize = 0;
    proof {
        vstd::set_lib::lemma_int_range(0, 0);
    }
    while i < NETWORK_SIZE
        invariant
            i <= NETWORK_SIZE,
            graph_nodes(g) =~= node_range(i as int),
            graph_nodes(g).finite(),
            graph_nodes(g).len() == i as int,
            graph_edges(g) == crate::model::empty_edges(),
            graph_no_vacant_edge(g),
            graph_no_vacant_node(g),
        decreases NETWORK_SIZE - i,
    {
        proof {
            vstd::set_lib::lemma_int_range(0, i as int);
            vstd::set_lib::lemma_int_range(0, i as int + 1);
        }
        add_node(&mut g);
        i = i + 1;
        assert(graph_nodes(g) =~= node_range(i as int));
    }
    let pairs: [(u32, u32); 28] = [
        (0, 1), (0, 3), (0, 6), (1, 2), (2, 4), (3, 8), (3, 16), (4, 5), (4, 10), (5, 13),
        (5, 15), (6, 9), (7, 9), (7, 10), (8, 11), (8, 14), (9, 12), (9, 13), (10, 12), (10, 18),
        (11, 17), (12, 16), (14, 15), (14, 17), (15, 19), (16, 17), (17, 18), (18, 19),
    ];
    let mut k: usize = 0;
    while k < NUM_EDGES
        invariant
            k <= NUM_EDGES,
            graph_nodes(g) =~= node_range(NETWORK_SIZE as int),
            graph_nodes(g).finite(),
            graph_nodes(g).len() == NETWORK_SIZE as int,
            graph_no_vacant_edge(g),
            graph_edges(g).dom().finite(),
            graph_edges(g).dom().len() == k as int,
            pairs@ =~= Seq::new(28, |x: int| (
                ((benchmark_pairs()[x].0) as u32),
                ((benchmark_pairs()[x].1) as u32),
            )),
            forall|id: int| #[trigger] graph_edges(g).dom().contains(id) <==> 0 <= id < k as int,
            forall|id: int|
                0 <= id < k as int ==> #[trigger] graph_edges(g)[id] == benchmark_pairs()[id],
        decreases NUM_EDGES - k,
    {
        let (a, b) = pairs[k];
        proof {
            let bp = benchmark_pairs()[k as int];
            assert(bp.0 == a as int && bp.1 == b as int);
            assert(0 <= bp.0 < NETWORK_SIZE as int && 0 <= bp.1 < NETWORK_SIZE as int);
        }
        let id = add_edge_raw(&mut g, a, b);
        assert(id == k);
        k = k + 1;
    }
    assert(graph_edges(g) =~= benchmark_edges());
    g
}

/// The per-edge capacity table of the benchmark network, indexed by edge
/// identity.
pub open spec fn capacities_table() -> Seq<u32> {
    seq![
        100_000_000u32, 1_000_000u32, 10_000_000u32, 10_000_000u32, 100_000_000u32, 1_000_000u32,
        100_000_000u32, 10_000_000u32, 1_000_000u32, 100_000_000u32, 10_000_000u32,
        100_000_000u32, 100_000_000u32, 1_000_000u32, 10_000_000u32, 100_000_000u32, 1_000_000u32,
        100_000_000u32, 10_000_000u32, 1_000_000u32, 100_000_000u32, 10_000_000u32,
        100_000_000u32, 100_000_000u32, 10_000_000u32, 1_000_000u32, 10_000_000u32,
        100_000_000u32,
    ]
}

/// Build the capacity table of the benchmark network.
pub fn get_capacities() -> (r: Vec<u32>)
    ensures
        r@ == capacities_table(),
{
    let r = array_to_vec(&[
        100_000_000, 1_000_000, 10_000_000, 10_000_000, 100_000_000, 1_000_000, 100_000_000,
        10_000_000, 1_000_000, 100_000_000, 10_000_000, 100_000_000, 100_000_000, 1_000_000,
        10_000_000, 100_000_000, 1_000_000, 100_000_000, 10_000_000, 1_000_000, 100_000_000,
        10_000_000, 100_000_000, 100_000_000, 10_000_000, 1_000_000, 10_000_000, 100_000_000,
    ]);
    assert(r@ =~= capacities_table());
    r
}

/// The traffic-intensity matrix of the benchmark network.
pub open spec fn intensity_table() -> Seq<Seq<u32>> {
    seq![
        seq![0u32, 1u32, 2u32, 3u32, 4u32, 5u32, 6u32, 7u32, 6u32, 5u32, 4u32, 3u32, 8u32, 1u32, 2u32, 5u32, 9u32, 2u32, 1u32, 5u32],
        seq![5u32, 0u32, 2u32, 5u32, 1u32, 7u32, 4u32, 1u32, 9u32, 4u32, 1u32, 5u32, 9u32, 1u32, 2u32, 4u32, 3u32, 1u32, 2u32, 1u32],
        seq![7u32, 4u32, 0u32, 9u32, 4u32, 1u32, 5u32, 9u32, 1u32, 6u32, 5u32, 4u32, 3u32, 8u32, 1u32, 7u32, 4u32, 1u32, 9u32, 8u32],
        seq![9u32, 4u32, 1u32, 0u32, 9u32, 4u32, 5u32, 6u32, 7u32, 6u32, 5u32, 4u32, 5u32, 9u32, 1u32, 2u32, 4u32, 3u32, 2u32, 1u32],
        seq![1u32, 3u32, 8u32, 1u32, 0u32, 5u32, 8u32, 1u32, 5u32, 7u32, 6u32, 3u32, 3u32, 8u32, 7u32, 4u32, 4u32, 7u32, 7u32, 6u32],
        seq![5u32, 6u32, 1u32, 7u32, 3u32, 0u32, 7u32, 9u32, 5u32, 7u32, 4u32, 6u32, 4u32, 1u32, 9u32, 9u32, 4u32, 9u32, 4u32, 3u32],
        seq![8u32, 4u32, 1u32, 4u32, 2u32, 3u32, 0u32, 9u32, 7u32, 3u32, 1u32, 2u32, 5u32, 3u32, 8u32, 1u32, 4u32, 6u32, 9u32, 1u32],
        seq![6u32, 3u32, 3u32, 6u32, 1u32, 4u32, 4u32, 0u32, 2u32, 2u32, 9u32, 3u32, 7u32, 2u32, 9u32, 8u32, 6u32, 7u32, 1u32, 2u32],
        seq![4u32, 7u32, 3u32, 5u32, 3u32, 4u32, 6u32, 3u32, 0u32, 8u32, 3u32, 2u32, 8u32, 8u32, 1u32, 1u32, 1u32, 3u32, 9u32, 3u32],
        seq![8u32, 2u32, 8u32, 6u32, 1u32, 3u32, 4u32, 5u32, 3u32, 0u32, 5u32, 7u32, 7u32, 4u32, 5u32, 3u32, 1u32, 7u32, 5u32, 9u32],
        seq![3u32, 8u32, 2u32, 7u32, 1u32, 1u32, 4u32, 1u32, 2u32, 4u32, 0u32, 5u32, 3u32, 3u32, 1u32, 9u32, 6u32, 3u32, 9u32, 4u32],
        seq![3u32, 5u32, 9u32, 6u32, 9u32, 8u32, 7u32, 3u32, 9u32, 3u32, 5u32, 0u32, 2u32, 2u32, 4u32, 5u32, 6u32, 8u32, 2u32, 9u32],
        seq![3u32, 7u32, 8u32, 2u32, 2u32, 5u32, 5u32, 9u32, 2u32, 2u32, 3u32, 5u32, 0u32, 9u32, 4u32, 8u32, 4u32, 8u32, 2u32, 8u32],
        seq![2u32, 2u32, 5u32, 4u32, 4u32, 7u32, 4u32, 6u32, 2u32, 2u32, 6u32, 2u32, 8u32, 0u32, 6u32, 3u32, 5u32, 9u32, 6u32, 9u32],
        seq![2u32, 5u32, 8u32, 8u32, 1u32, 4u32, 7u32, 6u32, 3u32, 2u32, 5u32, 4u32, 2u32, 3u32, 0u32, 2u32, 7u32, 6u32, 1u32, 5u32],
        seq![2u32, 6u32, 8u32, 8u32, 3u32, 7u32, 1u32, 5u32, 5u32, 9u32, 5u32, 6u32, 6u32, 2u32, 1u32, 0u32, 2u32, 5u32, 7u32, 3u32],
        seq![4u32, 9u32, 3u32, 8u32, 5u32, 9u32, 2u32, 5u32, 6u32, 6u32, 6u32, 7u32, 1u32, 4u32, 8u32, 4u32, 0u32, 1u32, 6u32, 8u32],
        seq![7u32, 4u32, 6u32, 7u32, 6u32, 2u32, 8u32, 8u32, 6u32, 5u32, 4u32, 6u32, 2u32, 2u32, 6u32, 6u32, 4u32, 0u32, 7u32, 5u32],
        seq![3u32, 5u32, 4u32, 7u32, 6u32, 1u32, 6u32, 9u32, 5u32, 6u32, 1u32, 5u32, 1u32, 4u32, 7u32, 8u32, 9u32, 1u32, 0u32, 1u32],
        seq![7u32, 6u32, 3u32, 3u32, 5u32, 8u32, 8u32, 8u32, 5u32, 4u32, 1u32, 1u32, 5u32, 5u32, 9u32, 2u32, 8u32, 4u32, 2u32, 0u32],
    ]
}

/// Build the traffic-intensity matrix of the benchmark network.
#[verifier::rlimit(100)]
pub fn create_intensity_matrix() -> (r: NodesMatrix)
    ensures
        matrix_view(r) == intensity_table(),
{
    let mut m: NodesMatrix = Vec::new();
    m.push(array_to_vec(&[0, 1, 2, 3, 4, 5, 6, 7, 6, 5, 4, 3, 8, 1, 2, 5, 9, 2, 1, 5]));
    m.push(array_to_vec(&[5, 0, 2, 5, 1, 7, 4, 1, 9, 4, 1, 5, 9, 1, 2, 4, 3, 1, 2, 1]));
    m.push(array_to_vec(&[7, 4, 0, 9, 4, 1, 5, 9, 1, 6, 5, 4, 3, 8, 1, 7, 4, 1, 9, 8]));
    m.push(array_to_vec(&[9, 4, 1, 0, 9, 4, 5, 6, 7, 6, 5, 4, 5, 9, 1, 2, 4, 3, 2, 1]));
    m.push(array_to_vec(&[1, 3, 8, 1, 0, 5, 8, 1, 5, 7, 6, 3, 3, 8, 7, 4, 4, 7, 7, 6]));
    m.push(array_to_vec(&[5, 6, 1, 7, 3, 0, 7, 9, 5, 7, 4, 6, 4, 1, 9, 9, 4, 9, 4, 3]));
    m.push(array_to_vec(&[8, 4, 1, 4, 2, 3, 0, 9, 7, 3, 1, 2, 5, 3, 8, 1, 4, 6, 9, 1]));
    m.push(array_to_vec(&[6, 3, 3, 6, 1, 4, 4, 0, 2, 2, 9, 3, 7, 2, 9, 8, 6, 7, 1, 2]));
    m.push(array_to_vec(&[4, 7, 3, 5, 3, 4, 6, 3, 0, 8, 3, 2, 8, 8, 1, 1, 1, 3, 9, 3]));
    m.push(array_to_vec(&[8, 2, 8, 6, 1, 3, 4, 5, 3, 0, 5, 7, 7, 4, 5, 3, 1, 7, 5, 9]));
    m.push(array_to_vec(&[3, 8, 2, 7, 1, 1, 4, 1, 2, 4, 0, 5, 3, 3, 1, 9, 6, 3, 9, 4]));
    m.push(array_to_vec(&[3, 5, 9, 6, 9, 8, 7, 3, 9, 3, 5, 0, 2, 2, 4, 5, 6, 8, 2, 9]));
    m.push(array_to_vec(&[3, 7, 8, 2, 2, 5, 5, 9, 2, 2, 3, 5, 0, 9, 4, 8, 4, 8, 2, 8]));
    m.push(array_to_vec(&[2, 2, 5, 4, 4, 7, 4, 6, 2, 2, 6, 2, 8, 0, 6, 3, 5, 9, 6, 9]));
    m.push(array_to_vec(&[2, 5, 8, 8, 1, 4, 7, 6, 3, 2, 5, 4, 2, 3, 0, 2, 7, 6, 1, 5]));
    m.push(array_to_vec(&[2, 6, 8, 8, 3, 7, 1, 5, 5, 9, 5, 6, 6, 2, 1, 0, 2, 5, 7, 3]));
    m.push(array_to_vec(&[4, 9, 3, 8, 5, 9, 2, 5, 6, 6, 6, 7, 1, 4, 8, 4, 0, 1, 6, 8]));
    m.push(array_to_vec(&[7, 4, 6, 7, 6, 2, 8, 8, 6, 5, 4, 6, 2, 2, 6, 6, 4, 0, 7, 5]));
    m.push(array_to_vec(&[3, 5, 4, 7, 6, 1, 6, 9, 5, 6, 1, 5, 1, 4, 7, 8, 9, 1, 0, 1]));
    m.push(array_to_vec(&[7, 6, 3, 3, 5, 8, 8, 8, 5, 4, 1, 1, 5, 5, 9, 2, 8, 4, 2, 0]));
    assert(matrix_view(m) =~= intensity_table());
    m
}

/// Whether the graph is fully reachable from node 0: the single-source
/// search visits as many nodes as the graph has.
pub fn graph_connected(graph: &Network) -> (r: bool)
    requires
        graph_nodes(*graph).contains(0),
    ensures
        r == connected_over(graph_edges(*graph), graph_nodes(*graph)),
{
    let graph_size = node_count_raw(graph);
    let reached = dijkstra_reach_count(graph);
    graph_size == reached
}

} // verus!
