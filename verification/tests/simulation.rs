use netsim::delay::{calculate_delay, check_edges_capacity, meets_threshold, DelayValue};
use netsim::flows::get_flows;
use netsim::graph::Network;
use netsim::network_testing::{
    add_edge, apply_faults, disconnect_faulty_connections, edge_ids_fit, is_network_connected,
    matrix_ok, test_network, FAULT_DEN,
};
use netsim::routes::{check_cached_route_is_valid, generate_routes_cache};
use netsim::{create_intensity_matrix, create_network, get_capacities, graph_connected};
use petgraph::stable_graph::EdgeIndex;

fn triangle() -> Network {
    Network::from_edges(&[(0u32, 1u32), (1, 2), (0, 2)])
}

fn triangle_intensity() -> Vec<Vec<u32>> {
    vec![vec![0, 1, 1], vec![1, 0, 1], vec![1, 1, 0]]
}

#[test]
fn benchmark_network_shape() {
    let network = create_network();
    assert_eq!(network.node_count(), 20);
    assert_eq!(network.edge_count(), 28);
    // edge identities are assigned in insertion order
    let first = network.find_edge(0.into(), 1.into()).expect("has to be edge");
    assert_eq!(first.index(), 0);
    let last = network.find_edge(18.into(), 19.into()).expect("has to be edge");
    assert_eq!(last.index(), 27);
}

#[test]
fn benchmark_tables() {
    let capacities = get_capacities();
    assert_eq!(capacities.len(), 28);
    assert_eq!(capacities[0], 100_000_000);
    assert_eq!(capacities[27], 100_000_000);
    let intensity = create_intensity_matrix();
    assert_eq!(intensity.len(), 20);
    for (i, row) in intensity.iter().enumerate() {
        assert_eq!(row.len(), 20);
        assert_eq!(row[i], 0);
    }
    assert_eq!(intensity[0][1], 1);
    assert_eq!(intensity[19][18], 2);
}

#[test]
fn benchmark_is_connected() {
    let network = create_network();
    assert!(graph_connected(&network));
    assert!(is_network_connected(&network));
}

#[test]
fn triangle_routes_are_direct() {
    let tri = triangle();
    let cache = generate_routes_cache(&tri);
    // every pair of distinct nodes is adjacent, so every route is one hop
    for i in 0..3usize {
        for j in 0..3usize {
            let route = cache.get(i, j);
            if i == j {
                assert_eq!(route.len(), 0);
            } else {
                assert_eq!(route.len(), 1);
            }
        }
    }
}

#[test]
fn triangle_flows_two_units_per_edge() {
    let tri = triangle();
    let cache = generate_routes_cache(&tri);
    let intensity = triangle_intensity();
    let flows = get_flows(&intensity, &tri, &cache, 3);
    // each edge carries its two incident ordered pairs, one unit each way
    assert_eq!(flows, vec![2, 2, 2]);
}

#[test]
fn broken_cache_falls_back_to_fresh_search() {
    // build the cache on the full triangle, then remove the 0-1 edge: the
    // pair (0, 1) must be rerouted over 0-2 and 2-1, the unique shortest
    // detour, while the other pairs keep their direct edges
    let tri = triangle();
    let cache = generate_routes_cache(&tri);
    let intensity = triangle_intensity();
    let mut mutated = tri.clone();
    let e01 = mutated.find_edge(0.into(), 1.into()).unwrap();
    mutated.remove_edge(e01);
    let flows = get_flows(&intensity, &mutated, &cache, 3);
    assert_eq!(flows[e01.index()], 0);
    let e12 = tri.find_edge(1.into(), 2.into()).unwrap();
    let e02 = tri.find_edge(0.into(), 2.into()).unwrap();
    assert_eq!(flows[e12.index()], 4);
    assert_eq!(flows[e02.index()], 4);
}

#[test]
fn capacity_check_accepts_triangle() {
    let tri = triangle();
    let capacities = vec![netsim::PACKET_SIZE * 10; 3];
    let flows = vec![2, 2, 2];
    assert!(check_edges_capacity(&capacities, &tri, &flows));
}

#[test]
fn capacity_check_rejects_excess_flow() {
    // rate floor is 10 packets; a flow of 11 on one edge must be rejected,
    // whatever the other edges carry
    let tri = triangle();
    let capacities = vec![netsim::PACKET_SIZE * 10; 3];
    let flows = vec![11, 0, 0];
    assert!(!check_edges_capacity(&capacities, &tri, &flows));
    // equality at the floor is still accepted by the capacity check
    let flows_at_floor = vec![10, 0, 0];
    assert!(check_edges_capacity(&capacities, &tri, &flows_at_floor));
}

#[test]
fn triangle_delay_exact_value() {
    let tri = triangle();
    let capacities = vec![netsim::PACKET_SIZE * 10; 3];
    let intensity = triangle_intensity();
    let flows = vec![2, 2, 2];
    // each term is 2 * SCALE / (10 - 2) = SCALE / 4; three edges
    let delay = calculate_delay(&intensity, &tri, &capacities, &flows);
    assert_eq!(
        delay,
        DelayValue::Finite { scaled_sum: 750_000, total_intensity: 6 }
    );
    // the average delay is 750000 / (SCALE * 6) = 0.125
    assert!(meets_threshold(&delay, 1, 4));
    assert!(!meets_threshold(&delay, 1, 8));
    assert!(!meets_threshold(&delay, 1, 16));
}

#[test]
fn delay_is_infinite_at_saturation() {
    let tri = triangle();
    let capacities = vec![netsim::PACKET_SIZE * 10; 3];
    let intensity = triangle_intensity();
    // the capacity divides evenly here, so a flow of 10 loads the edge to
    // exactly its capacity: the capacity check still accepts it, but the
    // delay is infinite and never meets any threshold
    let flows = vec![10, 0, 0];
    let delay = calculate_delay(&intensity, &tri, &capacities, &flows);
    assert_eq!(delay, DelayValue::Infinite);
    assert!(!meets_threshold(&delay, 1_000_000, 1));
}

#[test]
fn delay_uses_exact_rate_for_indivisible_capacity() {
    // capacity 1_000_000 with packet size 12_000: the packet-rate floor is
    // 83, but the exact rate is 83.33..., so a flow of 83 loads the edge to
    // 996_000 of 1_000_000 and the delay stays finite:
    // 996_000 * SCALE / (1_000_000 - 996_000) = 249_000_000
    let tri = triangle();
    let capacities = vec![1_000_000; 3];
    let intensity = triangle_intensity();
    let flows = vec![83, 0, 0];
    assert!(check_edges_capacity(&capacities, &tri, &flows));
    let delay = calculate_delay(&intensity, &tri, &capacities, &flows);
    assert_eq!(
        delay,
        DelayValue::Finite { scaled_sum: 249_000_000, total_intensity: 6 }
    );
    // the average delay is 249e6 / (SCALE * 6) = 41.5 exactly
    assert!(meets_threshold(&delay, 42, 1));
    assert!(!meets_threshold(&delay, 41, 1));
    assert!(meets_threshold(&delay, 84, 2));
    // the threshold test is strict: a threshold equal to the delay fails
    assert!(!meets_threshold(&delay, 83, 2));
    assert!(!meets_threshold(&delay, 41_500, 1_000));
    // a small flow: 12_000 * SCALE / 988_000 floors to 12_145
    let one = calculate_delay(&intensity, &tri, &capacities, &vec![1, 0, 0]);
    assert_eq!(
        one,
        DelayValue::Finite { scaled_sum: 12_145, total_intensity: 6 }
    );
}

#[test]
fn delay_grows_with_flow() {
    let tri = triangle();
    let capacities = vec![netsim::PACKET_SIZE * 10; 3];
    let intensity = triangle_intensity();
    let d1 = calculate_delay(&intensity, &tri, &capacities, &vec![2, 2, 2]);
    let d2 = calculate_delay(&intensity, &tri, &capacities, &vec![3, 2, 2]);
    match (d1, d2) {
        (
            DelayValue::Finite { scaled_sum: s1, .. },
            DelayValue::Finite { scaled_sum: s2, .. },
        ) => assert!(s1 <= s2),
        _ => panic!("both delays should be finite"),
    }
}

#[test]
fn cached_route_validity_tracks_removal() {
    let tri = triangle();
    let cache = generate_routes_cache(&tri);
    let route_01 = cache.get(0, 1).clone();
    assert!(check_cached_route_is_valid(&tri, &route_01));
    let mut broken = tri.clone();
    broken.remove_edge(EdgeIndex::new(route_01[0] as usize));
    assert!(!check_cached_route_is_valid(&broken, &route_01));
}

#[test]
fn fault_injection_extremes() {
    let tri = triangle();
    let mut untouched = tri.clone();
    disconnect_faulty_connections(&mut untouched, 0);
    assert_eq!(untouched.edge_count(), 3);
    let mut razed = tri.clone();
    disconnect_faulty_connections(&mut razed, FAULT_DEN);
    assert_eq!(razed.edge_count(), 0);
    assert_eq!(razed.node_count(), 3);
    assert!(!is_network_connected(&razed));
}

#[test]
fn fault_rule_is_deterministic_given_draws() {
    // with explicit draws the mutation is a pure function of its inputs:
    // the edge listed at position x fails exactly when draws[x] < p
    let tri = triangle();
    let ids = vec![0u32, 1, 2];
    let draws = vec![0u64, FAULT_DEN - 1, 0];
    let mut a = tri.clone();
    apply_faults(&mut a, &ids, &draws, 1);
    assert_eq!(a.edge_count(), 1);
    assert!(a.edge_endpoints(EdgeIndex::new(1)).is_some());
    assert!(a.edge_endpoints(EdgeIndex::new(0)).is_none());
    assert!(a.edge_endpoints(EdgeIndex::new(2)).is_none());
    // replaying the same draws reproduces the same mutation
    let mut b = tri.clone();
    apply_faults(&mut b, &ids, &draws, 1);
    assert_eq!(b.edge_count(), 1);
    assert!(b.edge_endpoints(EdgeIndex::new(1)).is_some());
    // the boundary survives: a draw equal to p keeps its edge
    let mut c = tri.clone();
    apply_faults(&mut c, &ids, &draws, FAULT_DEN - 1);
    assert_eq!(c.edge_count(), 1);
    assert!(c.edge_endpoints(EdgeIndex::new(1)).is_some());
}

#[test]
fn connectivity_detects_isolated_node() {
    let mut tri = triangle();
    let e01 = tri.find_edge(0.into(), 1.into()).unwrap();
    tri.remove_edge(e01);
    assert!(is_network_connected(&tri));
    let e12 = tri.find_edge(1.into(), 2.into()).unwrap();
    tri.remove_edge(e12);
    assert!(!is_network_connected(&tri));
}

#[test]
fn trials_with_no_faults_are_deterministic() {
    // with p = 0 the topology is never mutated, so every trial decides the
    // same way: all trials succeed, or none does
    let tri = triangle();
    let cache = generate_routes_cache(&tri);
    let intensity = triangle_intensity();
    let capacities = vec![netsim::PACKET_SIZE * 10; 3];
    let s_pass = test_network(&tri, &intensity, &capacities, 0, 1, 4, &cache, 5);
    assert_eq!(s_pass, 5);
    let s_fail = test_network(&tri, &intensity, &capacities, 0, 1, 8, &cache, 5);
    assert_eq!(s_fail, 0);
}

#[test]
fn trials_with_certain_faults_all_fail() {
    // with p = 1 every edge is removed in every trial, so every trial is
    // abandoned as disconnected
    let tri = triangle();
    let cache = generate_routes_cache(&tri);
    let intensity = triangle_intensity();
    let capacities = vec![netsim::PACKET_SIZE * 10; 3];
    let s = test_network(&tri, &intensity, &capacities, FAULT_DEN, 1_000_000, 1, &cache, 7);
    assert_eq!(s, 0);
}

#[test]
fn benchmark_trials_no_faults_agree() {
    let network = create_network();
    let cache = generate_routes_cache(&network);
    let intensity = create_intensity_matrix();
    let capacities = get_capacities();
    let a = test_network(&network, &intensity, &capacities, 0, 1_000_000, 1, &cache, 3);
    let b = test_network(&network, &intensity, &capacities, 0, 1_000_000, 1, &cache, 3);
    assert!(a == 0 || a == 3);
    assert_eq!(a, b);
}

#[test]
fn matrix_checker_accepts_and_rejects() {
    assert!(matrix_ok(&create_intensity_matrix()));
    assert!(matrix_ok(&triangle_intensity()));
    // not square
    assert!(!matrix_ok(&vec![vec![0, 1], vec![1, 0], vec![1, 1, 0]]));
    // ragged row
    assert!(!matrix_ok(&vec![vec![0, 1, 1], vec![1, 0], vec![1, 1, 0]]));
    // nonzero diagonal
    assert!(!matrix_ok(&vec![vec![0, 1, 1], vec![1, 5, 1], vec![1, 1, 0]]));
}

#[test]
fn edge_id_checker_tracks_table_length() {
    let tri = triangle();
    assert!(edge_ids_fit(&tri, 3));
    assert!(edge_ids_fit(&tri, 4));
    assert!(!edge_ids_fit(&tri, 2));
    assert!(edge_ids_fit(&create_network(), 28));
    assert!(!edge_ids_fit(&create_network(), 27));
}

#[test]
fn add_edge_grows_edge_count() {
    let mut network = create_network();
    add_edge(&mut network);
    assert_eq!(network.edge_count(), 29);
    assert_eq!(network.node_count(), 20);
}
