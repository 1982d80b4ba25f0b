use vstd::prelude::*;
use rand::Rng;
use crate::delay::{calculate_delay, check_edges_capacity, delay_value_ok, meets_threshold, DelayValue};
use crate::flows::{cache_all_present, cache_routes_seq, flows_view, get_flows};
use crate::graph::{
    add_edge_raw, clone_network, dijkstra_reach_count, edge_id_list, find_edge_raw, graph_edges,
    graph_nodes, node_count_raw, nodes_dense, remove_edge_raw, Network,
};
use crate::model::{
    capacity_ok, connected_over, delay_ok, delay_sum, edge_connects, edge_ids_below, flows_upto,
    intens_sum_upto, lemma_empty_disconnected, matrix_total, matrix_view, matrix_wf, node_range,
    route_edges_present, sub_topology,
};
use crate::routes::RoutesCache;
use crate::NodesMatrix;

verus! {

/// Resolution of the fault probability: a probability is given as a
/// numerator over this denominator, so `p_num == 0` means no edge ever
/// fails and `p_num == FAULT_DEN` means every edge fails in every trial.
pub const FAULT_DEN: u64 = 1_000_000_000;

/// Relies on rand's thread-local generator (`thread_rng` + `gen_range`):
/// one draw uniform over `0 .. n`.  Nothing is assumed of the value beyond
/// its range.
#[verifier::external_body]
fn draw_below(n: u64) -> (r: u64)
    requires
        n > 0,
    ensures
        r < n,
{
    rand::thread_rng().gen_range(0..n)
}

/// Whether the mutated topology is still fully reachable from node 0.
pub fn is_network_connected(network: &Network) -> (r: bool)
    requires
        graph_nodes(*network).contains(0),
    ensures
        r == connected_over(graph_edges(*network), graph_nodes(*network)),
{
    let network_size = node_count_raw(network);
    let reached = dijkstra_reach_count(network);
    network_size == reached
}

/// The listed edges whose draw falls below `p`, in list order: the edges a
/// trial removes.
pub open spec fn failing_prefix(ids: Seq<u32>, draws: Seq<u64>, p: u64, t: int) -> Seq<u32>
    decreases t,
{
    if t <= 0 {
        Seq::empty()
    } else {
        let r = failing_prefix(ids, draws, p, t - 1);
        if draws[t - 1] < p {
            r.push(ids[t - 1])
        } else {
            r
        }
    }
}

/// An edge appears among the failing ones exactly when some position lists
/// it with a draw below `p`.
proof fn lemma_failing_prefix(ids: Seq<u32>, draws: Seq<u64>, p: u64, t: int, id: u32)
    requires
        0 <= t <= ids.len(),
        ids.len() == draws.len(),
    ensures
        failing_prefix(ids, draws, p, t).contains(id) <==> exists|x: int|
            0 <= x < t && ids[x] == id && #[trigger] draws[x] < p,
    decreases t,
{
    if t > 0 {
        lemma_failing_prefix(ids, draws, p, t - 1, id);
        let r = failing_prefix(ids, draws, p, t - 1);
        if draws[t - 1] < p {
            let s = r.push(ids[t - 1]);
            if s.contains(id) {
                let i = choose|i: int| 0 <= i < s.len() && s[i] == id;
                if i < r.len() {
                    assert(r[i] == id);
                    assert(r.contains(id));
                } else {
                    assert(ids[t - 1] == id && draws[t - 1] < p);
                }
            }
            if exists|x: int| 0 <= x < t && ids[x] == id && #[trigger] draws[x] < p {
                let x = choose|x: int| 0 <= x < t && ids[x] == id && #[trigger] draws[x] < p;
                if x < t - 1 {
                    assert(r.contains(id));
                    let i = choose|i: int| 0 <= i < r.len() && r[i] == id;
                    assert(s[i] == id);
                } else {
                    assert(s[s.len() - 1] == id);
                }
                assert(s.contains(id));
            }
        } else {
            if exists|x: int| 0 <= x < t && ids[x] == id && #[trigger] draws[x] < p {
                let x = choose|x: int| 0 <= x < t && ids[x] == id && #[trigger] draws[x] < p;
                assert(x < t - 1);
            }
        }
    }
}

/// One uniform fault draw per listed edge, each below FAULT_DEN.
pub fn draw_fault_values(count: usize) -> (r: Vec<u64>)
    ensures
        r@.len() == count,
        forall|x: int| 0 <= x < count ==> #[trigger] r@[x] < FAULT_DEN,
{
    let mut r: Vec<u64> = Vec::new();
    let mut t: usize = 0;
    while t < count
        invariant
            0 <= t <= count,
            r@.len() == t,
            forall|x: int| 0 <= x < t ==> #[trigger] r@[x] < FAULT_DEN,
        decreases count - t,
    {
        r.push(draw_below(FAULT_DEN));
        t = t + 1;
    }
    r
}

/// Apply the per-edge fault rule for explicitly given draws: the edge
/// listed at position `x` is removed exactly when `draws[x] < p_num`, i.e.
/// it survives exactly when its draw is at least the failure probability
/// (the boundary draw == p survives).  Failing edges are collected first
/// and removed in one pass; identities are stable, so the removal order
/// cannot matter.  The function is deterministic in its arguments: a fixed
/// draw vector reproduces a trial's mutation exactly.
pub fn apply_faults(network: &mut Network, ids: &Vec<u32>, draws: &Vec<u64>, p_num: u64)
    requires
        ids@.len() == draws@.len(),
        forall|x: int, y: int| 0 <= x < y < ids@.len() ==> ids@[x] != ids@[y],
        forall|x: int|
            0 <= x < ids@.len() ==> graph_edges(*old(network)).dom().contains(
                #[trigger] ids@[x] as int,
            ),
    ensures
        sub_topology(graph_edges(*final(network)), graph_edges(*old(network))),
        graph_nodes(*final(network)) == graph_nodes(*old(network)),
        forall|x: int|
            0 <= x < ids@.len() ==> (graph_edges(*final(network)).dom().contains(
                #[trigger] ids@[x] as int,
            ) <==> draws@[x] >= p_num),
        forall|id: int|
            #[trigger] graph_edges(*old(network)).dom().contains(id) && (forall|x: int|
                0 <= x < ids@.len() ==> #[trigger] ids@[x] as int != id) ==> graph_edges(
                *final(network),
            ).dom().contains(id),
{
    let ghost m0 = graph_edges(*network);
    let mut kill: Vec<u32> = Vec::new();
    let mut t: usize = 0;
    while t < ids.len()
        invariant
            0 <= t <= ids@.len(),
            ids@.len() == draws@.len(),
            kill@ == failing_prefix(ids@, draws@, p_num, t as int),
        decreases ids@.len() - t,
    {
        if draws[t] < p_num {
            kill.push(ids[t]);
        }
        t = t + 1;
    }
    let ghost killseq = kill@;
    let mut u: usize = 0;
    while u < kill.len()
        invariant
            0 <= u <= kill@.len(),
            kill@ == killseq,
            m0 == graph_edges(*old(network)),
            graph_nodes(*network) == graph_nodes(*old(network)),
            sub_topology(graph_edges(*network), m0),
            forall|x: int|
                0 <= x < u ==> !graph_edges(*network).dom().contains(#[trigger] kill@[x] as int),
            forall|id: int|
                #[trigger] m0.dom().contains(id) && (forall|x: int|
                    0 <= x < u ==> #[trigger] kill@[x] as int != id) ==> graph_edges(
                    *network,
                ).dom().contains(id),
        decreases kill@.len() - u,
    {
        remove_edge_raw(network, kill[u]);
        u = u + 1;
    }
    proof {
        let m1 = graph_edges(*network);
        let len = ids@.len() as int;
        assert forall|x: int|
            0 <= x < len implies (m1.dom().contains(#[trigger] ids@[x] as int) <==> draws@[x]
            >= p_num) by {
            lemma_failing_prefix(ids@, draws@, p_num, len, ids@[x]);
            if draws@[x] < p_num {
                assert(killseq.contains(ids@[x]));
                let y = choose|y: int| 0 <= y < killseq.len() && killseq[y] == ids@[x];
                assert(!m1.dom().contains(killseq[y] as int));
            } else {
                assert forall|y: int| 0 <= y < killseq.len() implies #[trigger] killseq[y] as int
                    != ids@[x] as int by {
                    if killseq[y] as int == ids@[x] as int {
                        assert(killseq.contains(killseq[y]));
                        lemma_failing_prefix(ids@, draws@, p_num, len, killseq[y]);
                        let x2 = choose|x2: int|
                            0 <= x2 < len && ids@[x2] == killseq[y] && #[trigger] draws@[x2]
                                < p_num;
                        assert(ids@[x2] == ids@[x]);
                        assert(x2 == x);
                    }
                }
                assert(m0.dom().contains(ids@[x] as int));
            }
        }
        assert forall|id: int|
            #[trigger] m0.dom().contains(id) && (forall|x: int|
                0 <= x < len ==> #[trigger] ids@[x] as int != id) implies m1.dom().contains(
            id,
        ) by {
            assert forall|y: int| 0 <= y < killseq.len() implies #[trigger] killseq[y] as int
                != id by {
                if killseq[y] as int == id {
                    assert(killseq.contains(killseq[y]));
                    lemma_failing_prefix(ids@, draws@, p_num, len, killseq[y]);
                    let x2 = choose|x2: int|
                        0 <= x2 < len && ids@[x2] == killseq[y] && #[trigger] draws@[x2] < p_num;
                    assert(ids@[x2] as int == id);
                }
            }
        }
    }
}

/// One trial's fault-injection outcome, witnessed by the edge enumeration
/// and the draws that produced it: the listed edges are exactly the edges
/// of the topology before the trial, each with one ranged draw, and each
/// survives exactly when its draw is at least the failure probability.
pub open spec fn fault_outcome(
    m0: Map<int, (int, int)>,
    m1: Map<int, (int, int)>,
    ids: Seq<u32>,
    draws: Seq<u64>,
    p: u64,
) -> bool {
    &&& ids.len() == draws.len()
    &&& (forall|x: int| 0 <= x < draws.len() ==> #[trigger] draws[x] < FAULT_DEN)
    &&& (forall|x: int, y: int| 0 <= x < y < ids.len() ==> ids[x] != ids[y])
    &&& (forall|x: int| 0 <= x < ids.len() ==> m0.dom().contains(#[trigger] ids[x] as int))
    &&& (forall|id: int|
        #[trigger] m0.dom().contains(id) ==> exists|x: int|
            0 <= x < ids.len() && #[trigger] ids[x] as int == id)
    &&& (forall|x: int|
        0 <= x < ids.len() ==> (m1.dom().contains(#[trigger] ids[x] as int) <==> draws[x] >= p))
}

/// Inject faults: enumerate the edges, draw one uniform value for each, and
/// remove the edge exactly when the draw falls below `p_num / FAULT_DEN`.
/// Some enumeration and some ranged draws witness every outcome; with
/// `p_num == 0` the topology is untouched, with `p_num == FAULT_DEN` every
/// edge is removed.
pub fn disconnect_faulty_connections(network: &mut Network, p_num: u64)
    requires
        p_num <= FAULT_DEN,
    ensures
        sub_topology(graph_edges(*final(network)), graph_edges(*old(network))),
        graph_nodes(*final(network)) == graph_nodes(*old(network)),
        exists|ids: Seq<u32>, draws: Seq<u64>|
            fault_outcome(
                graph_edges(*old(network)),
                graph_edges(*final(network)),
                ids,
                draws,
                p_num,
            ),
        p_num == 0 ==> graph_edges(*final(network)) == graph_edges(*old(network)),
        p_num == FAULT_DEN ==> graph_edges(*final(network)).dom() == Set::<int>::empty(),
{
    let ghost m0 = graph_edges(*network);
    let ids = edge_id_list(network);
    let draws = draw_fault_values(ids.len());
    apply_faults(network, &ids, &draws, p_num);
    proof {
        let m1 = graph_edges(*network);
        assert(fault_outcome(m0, m1, ids@, draws@, p_num));
        if p_num == 0 {
            assert forall|id: int| #[trigger] m0.dom().contains(id) implies m1.dom().contains(
                id,
            ) by {
                let x = choose|x: int| 0 <= x < ids@.len() && #[trigger] ids@[x] as int == id;
                assert(draws@[x] >= 0);
            }
            assert(m1.dom() =~= m0.dom());
            assert(m1 =~= m0);
        }
        if p_num == FAULT_DEN {
            assert forall|id: int| !m1.dom().contains(id) by {
                if m1.dom().contains(id) {
                    assert(m0.dom().contains(id));
                    let x = choose|x: int| 0 <= x < ids@.len() && #[trigger] ids@[x] as int == id;
                    assert(draws@[x] < FAULT_DEN);
                    assert(!m1.dom().contains(ids@[x] as int));
                }
            }
            assert(m1.dom() =~= Set::<int>::empty());
        }
    }
}

/// Test, from outside, the driver's demands on an intensity matrix: few
/// enough nodes for the flat pair index, square with a zero diagonal, and a
/// total intensity that fits the per-edge flow accumulator.
pub fn matrix_ok(intensity_matrix: &NodesMatrix) -> (r: bool)
    ensures
        r == (intensity_matrix@.len() < 0x8000 && matrix_wf(matrix_view(*intensity_matrix))
            && matrix_total(matrix_view(*intensity_matrix)) < 0x1_0000_0000),
{
    let ghost im = matrix_view(*intensity_matrix);
    let n = intensity_matrix.len();
    if n >= 0x8000 {
        return false;
    }
    let mut i: usize = 0;
    while i < n
        invariant
            0 <= i <= n,
            im == matrix_view(*intensity_matrix),
            im.len() == n as int,
            intensity_matrix@.len() == n as int,
            forall|x: int| 0 <= x < i ==> #[trigger] im[x].len() == n as int,
            forall|x: int| 0 <= x < i ==> #[trigger] im[x][x] == 0,
        decreases n - i,
    {
        proof {
            assert(im[i as int] == intensity_matrix@[i as int]@);
        }
        if intensity_matrix[i].len() != n {
            return false;
        }
        if intensity_matrix[i][i] != 0 {
            return false;
        }
        i = i + 1;
    }
    assert(matrix_wf(im));
    let mut s: u64 = 0;
    let mut a: usize = 0;
    proof {
        assert(n * n < 0x8000 * 0x8000) by (nonlinear_arith)
            requires 0 <= n < 0x8000;
    }
    while a < n
        invariant
            0 <= a <= n,
            n < 0x8000,
            n * n <= 0x4000_0000,
            im == matrix_view(*intensity_matrix),
            matrix_wf(im),
            im.len() == n as int,
            intensity_matrix@.len() == n as int,
            s as int == intens_sum_upto(im, (a * n) as int),
            s as int <= (a * n) * 0xffff_ffff,
        decreases n - a,
    {
        let mut b: usize = 0;
        while b < n
            invariant
                0 <= a < n,
                0 <= b <= n,
                n < 0x8000,
                n * n <= 0x4000_0000,
                im == matrix_view(*intensity_matrix),
                matrix_wf(im),
                im.len() == n as int,
                intensity_matrix@.len() == n as int,
                s as int == intens_sum_upto(im, (a * n + b) as int),
                s as int <= (a * n + b) * 0xffff_ffff,
            decreases n - b,
        {
            let ghost k = (a * n + b) as int;
            proof {
                assert(a * n + b < n * n && (a + 1) * n <= n * n) by (nonlinear_arith)
                    requires 0 <= a < n && 0 <= b < n;
                vstd::arithmetic::div_mod::lemma_fundamental_div_mod_converse(
                    k,
                    n as int,
                    a as int,
                    b as int,
                );
                assert(im[a as int] == intensity_matrix@[a as int]@);
                assert(im[a as int].len() == im.len());
                if a == b {
                    assert(im[a as int][a as int] == 0);
                }
                assert((k + 1) * 0xffff_ffff <= 0x4000_0000 * 0xffff_ffff) by (nonlinear_arith)
                    requires 0 <= k + 1 <= 0x4000_0000;
                assert(k * 0xffff_ffff + 0xffff_ffff == (k + 1) * 0xffff_ffff) by (nonlinear_arith);
            }
            s = s + intensity_matrix[a][b] as u64;
            b = b + 1;
        }
        proof {
            assert((a + 1) * n == a * n + n) by (nonlinear_arith);
        }
        a = a + 1;
    }
    proof {
        assert(a * n == n * n);
    }
    s < 0x1_0000_0000
}

/// Test, from outside, that every present edge identity of the topology
/// lies below `num_edges`, so a capacity or flow table of that length
/// covers every edge.
pub fn edge_ids_fit(network: &Network, num_edges: usize) -> (r: bool)
    ensures
        r == edge_ids_below(graph_edges(*network), num_edges as int),
{
    let ghost m = graph_edges(*network);
    let ids = edge_id_list(network);
    let mut t: usize = 0;
    while t < ids.len()
        invariant
            0 <= t <= ids@.len(),
            m == graph_edges(*network),
            forall|x: int| 0 <= x < ids@.len() ==> m.dom().contains(#[trigger] ids@[x] as int),
            forall|id: int|
                #[trigger] m.dom().contains(id) ==> exists|x: int|
                    0 <= x < ids@.len() && #[trigger] ids@[x] as int == id,
            forall|x: int| 0 <= x < t ==> (#[trigger] ids@[x]) < num_edges,
        decreases ids@.len() - t,
    {
        if ids[t] as usize >= num_edges {
            proof {
                assert(m.dom().contains(ids@[t as int] as int));
            }
            return false;
        }
        t = t + 1;
    }
    proof {
        assert forall|id: int| #[trigger] m.dom().contains(id) implies 0 <= id
            < num_edges as int by {
            let x = choose|x: int| 0 <= x < ids@.len() && #[trigger] ids@[x] as int == id;
            assert(ids@[x] < num_edges);
        }
    }
    true
}

/// What a trial decides when no edge has failed: the fault-free topology is
/// connected (a precondition), every cached route is replayed verbatim, and
/// success is the capacity check together with the delay threshold on the
/// resulting flows.
pub open spec fn baseline_success(
    m: Map<int, (int, int)>,
    nodes: Set<int>,
    cache: RoutesCache,
    im: Seq<Seq<u32>>,
    caps: Seq<u32>,
    t_num: int,
    t_den: int,
) -> bool {
    let e = caps.len() as int;
    let flows = flows_upto(im, cache_routes_seq(cache), e, (cache.n * cache.n) as int);
    &&& connected_over(m, nodes)
    &&& capacity_ok(m, flows, caps, e)
    &&& delay_ok(delay_sum(m, flows, caps, e), matrix_total(im), t_num, t_den)
}

/// Every route of a well-formed cache survives in the topology it was built
/// against.
proof fn lemma_cache_present_on_base(cache: RoutesCache)
    requires
        cache.wf(),
    ensures
        cache_all_present(cache.base@, cache),
{
    assert forall|k: int|
        0 <= k < cache.n * cache.n implies route_edges_present(
        cache.base@,
        #[trigger] cache.route_at(k),
    ) by {
        assert(cache.entry_ok(k));
        let n = cache.n as int;
        if k / n == k % n {
            assert(cache.route_at(k).len() == 0);
        } else {
            let p = choose|p: Seq<int>|
                #[trigger] crate::model::route_witnessed_by(
                    cache.base@,
                    k / n,
                    k % n,
                    cache.route_at(k),
                    p,
                );
            assert forall|x: int|
                0 <= x < cache.route_at(k).len() implies cache.base@.dom().contains(
                #[trigger] cache.route_at(k)[x],
            ) by {}
        }
    }
}

/// Run `trials` Monte Carlo trials against the fixed topology: per trial,
/// clone, inject faults with probability `p_num / FAULT_DEN`, abandon the
/// trial if disconnected, aggregate flows over the cached (or recomputed)
/// routes, abandon if some edge exceeds its capacity, and count the trial a
/// success when the estimated average delay lies strictly below
/// `t_num / t_den`.  Returns the number of successes; the estimated
/// probability is that count over `trials`.
pub fn test_network(
    network: &Network,
    intensity_matrix: &NodesMatrix,
    capacities: &Vec<u32>,
    p_num: u64,
    t_num: u32,
    t_den: u32,
    routes_cache: &RoutesCache,
    trials: u64,
) -> (successes: u64)
    requires
        routes_cache.wf(),
        routes_cache.n < 0x8000,
        routes_cache.base@ == graph_edges(*network),
        nodes_dense(*network),
        graph_nodes(*network).len() == routes_cache.n as int,
        connected_over(graph_edges(*network), graph_nodes(*network)),
        matrix_wf(matrix_view(*intensity_matrix)),
        intensity_matrix@.len() == routes_cache.n as int,
        matrix_total(matrix_view(*intensity_matrix)) < 0x1_0000_0000,
        edge_ids_below(graph_edges(*network), capacities@.len() as int),
        capacities@.len() < 0x1_0000_0000,
        p_num <= FAULT_DEN,
        t_den > 0,
    ensures
        successes <= trials,
        p_num == 0 ==> successes == if baseline_success(
            graph_edges(*network),
            graph_nodes(*network),
            *routes_cache,
            matrix_view(*intensity_matrix),
            capacities@,
            t_num as int,
            t_den as int,
        ) {
            trials
        } else {
            0u64
        },
        p_num == FAULT_DEN && graph_nodes(*network).len() >= 2 ==> successes == 0,
{
    let ghost m0 = graph_edges(*network);
    let ghost nodes0 = graph_nodes(*network);
    let ghost im = matrix_view(*intensity_matrix);
    let ghost base_ok = baseline_success(
        m0,
        nodes0,
        *routes_cache,
        im,
        capacities@,
        t_num as int,
        t_den as int,
    );
    let mut s: u64 = 0;
    let mut t: u64 = 0;
    proof {
        vstd::set_lib::lemma_int_range(0, routes_cache.n as int);
    }
    while t < trials
        invariant
            0 <= t <= trials,
            s <= t,
            routes_cache.wf(),
            routes_cache.n < 0x8000,
            routes_cache.base@ == m0,
            m0 == graph_edges(*network),
            nodes0 == graph_nodes(*network),
            nodes_dense(*network),
            nodes0.len() == routes_cache.n as int,
            nodes0 =~= node_range(routes_cache.n as int),
            connected_over(m0, nodes0),
            im == matrix_view(*intensity_matrix),
            matrix_wf(im),
            intensity_matrix@.len() == routes_cache.n as int,
            matrix_total(im) < 0x1_0000_0000,
            edge_ids_below(m0, capacities@.len() as int),
            capacities@.len() < 0x1_0000_0000,
            p_num <= FAULT_DEN,
            t_den > 0,
            base_ok == baseline_success(
                m0,
                nodes0,
                *routes_cache,
                im,
                capacities@,
                t_num as int,
                t_den as int,
            ),
            p_num == 0 ==> s == if base_ok {
                t
            } else {
                0u64
            },
            p_num == FAULT_DEN && nodes0.len() >= 2 ==> s == 0,
        decreases trials - t,
    {
        let mut network_copy = clone_network(network);
        disconnect_faulty_connections(&mut network_copy, p_num);
        let ghost m1 = graph_edges(network_copy);
        proof {
            assert(sub_topology(m1, m0));
            assert(graph_nodes(network_copy) == nodes0);
            assert(nodes0.contains(0));
            if p_num == FAULT_DEN && nodes0.len() >= 2 {
                assert(node_range(routes_cache.n as int).contains(1));
                lemma_empty_disconnected(m1, nodes0, 1);
            }
        }
        if is_network_connected(&network_copy) {
            proof {
                assert(connected_over(m1, nodes0));
                if p_num == 0 {
                    assert(m1 == m0);
                    lemma_cache_present_on_base(*routes_cache);
                }
                // the mutated copy keeps the dense node set of the source
                assert(nodes_dense(network_copy));
            }
            let flows = get_flows(intensity_matrix, &network_copy, routes_cache, capacities.len());
            proof {
                assert forall|id: int|
                    #[trigger] m1.dom().contains(id) implies 0 <= id
                    < capacities@.len() as int by {
                    assert(m0.dom().contains(id));
                }
            }
            if check_edges_capacity(capacities, &network_copy, &flows) {
                let delay = calculate_delay(intensity_matrix, &network_copy, capacities, &flows);
                if meets_threshold(&delay, t_num, t_den) {
                    s = s + 1;
                    proof {
                        if p_num == 0 {
                            assert(cache_all_present(m1, *routes_cache));
                            assert(flows_view(flows@) == flows_upto(
                                im,
                                cache_routes_seq(*routes_cache),
                                capacities@.len() as int,
                                (routes_cache.n * routes_cache.n) as int,
                            ));
                            assert(capacity_ok(
                                m0,
                                flows_view(flows@),
                                capacities@,
                                capacities@.len() as int,
                            ));
                            assert(delay_value_ok(delay, t_num as int, t_den as int));
                            assert(delay matches DelayValue::Finite { .. });
                            assert(base_ok);
                        }
                    }
                } else {
                    proof {
                        if p_num == 0 {
                            assert(cache_all_present(m1, *routes_cache));
                            assert(flows_view(flows@) == flows_upto(
                                im,
                                cache_routes_seq(*routes_cache),
                                capacities@.len() as int,
                                (routes_cache.n * routes_cache.n) as int,
                            ));
                            match delay {
                                DelayValue::Finite { scaled_sum, total_intensity } => {
                                    assert(Some(scaled_sum as int) == delay_sum(
                                        m0,
                                        flows_view(flows@),
                                        capacities@,
                                        capacities@.len() as int,
                                    ));
                                    assert(!base_ok);
                                },
                                DelayValue::Infinite => {
                                    assert(delay_sum(
                                        m0,
                                        flows_view(flows@),
                                        capacities@,
                                        capacities@.len() as int,
                                    ) is None);
                                    assert(!base_ok);
                                },
                            }
                        }
                    }
                }
            } else {
                proof {
                    if p_num == 0 {
                        assert(cache_all_present(m1, *routes_cache));
                        assert(!capacity_ok(
                            m0,
                            flows_view(flows@),
                            capacities@,
                            capacities@.len() as int,
                        ));
                        assert(!base_ok);
                    }
                }
            }
        } else {
            proof {
                if p_num == 0 {
                    assert(m1 == m0);
                    assert(!base_ok);
                }
            }
        }
        t = t + 1;
    }
    s
}

/// Whether some unordered pair of distinct nodes is not yet joined by an
/// edge.
pub open spec fn has_free_pair(m: Map<int, (int, int)>, n: int) -> bool {
    exists|a: int, b: int| 0 <= a < b < n && !edge_connects(m, a, b)
}

/// Add one edge between two distinct, not yet adjacent nodes: a bounded
/// number of uniform random draws first, then — should they all collide —
/// a deterministic scan in node order, so the function always terminates.
pub fn add_edge(network: &mut Network)
    requires
        nodes_dense(*old(network)),
        2 <= graph_nodes(*old(network)).len() < 0x8000,
        graph_edges(*old(network)).dom().finite(),
        graph_edges(*old(network)).dom().len() < 0xffff_0000,
        has_free_pair(graph_edges(*old(network)), graph_nodes(*old(network)).len() as int),
    ensures
        graph_nodes(*final(network)) == graph_nodes(*old(network)),
        exists|id: int, a: int, b: int|
            {
                &&& !graph_edges(*old(network)).dom().contains(id)
                &&& a != b
                &&& graph_nodes(*old(network)).contains(a)
                &&& graph_nodes(*old(network)).contains(b)
                &&& !edge_connects(graph_edges(*old(network)), a, b)
                &&& graph_edges(*final(network)) == graph_edges(*old(network)).insert(id, (a, b))
            },
{
    let ghost m = graph_edges(*network);
    let ghost nodes = graph_nodes(*network);
    let n = node_count_raw(network);
    proof {
        vstd::set_lib::lemma_int_range(0, n as int);
    }
    let mut attempts: usize = 64;
    while attempts > 0
        invariant
            m == graph_edges(*network),
            nodes == graph_nodes(*network),
            m == graph_edges(*old(network)),
            nodes == graph_nodes(*old(network)),
            graph_nodes(*network) =~= node_range(n as int),
            2 <= n < 0x8000,
            nodes.len() == n as int,
            m.dom().finite(),
            m.dom().len() < 0xffff_0000,
        decreases attempts,
    {
        let first_node_indice = draw_below(n as u64) as u32;
        let second_node_indice = draw_below(n as u64) as u32;
        if first_node_indice != second_node_indice {
            match find_edge_raw(network, first_node_indice, second_node_indice) {
                Some(_) => {},
                None => {
                    let ghost fa = first_node_indice as int;
                    let ghost fb = second_node_indice as int;
                    let id = add_edge_raw(network, first_node_indice, second_node_indice);
                    proof {
                        assert(!m.dom().contains(id as int) && fa != fb && nodes.contains(fa)
                            && nodes.contains(fb) && !edge_connects(m, fa, fb) && graph_edges(
                            *network,
                        ) == m.insert(id as int, (fa, fb)));
                    }
                    return ;
                },
            }
        }
        attempts = attempts - 1;
    }
    let mut a: usize = 0;
    while a < n
        invariant
            0 <= a <= n,
            m == graph_edges(*network),
            nodes == graph_nodes(*network),
            m == graph_edges(*old(network)),
            nodes == graph_nodes(*old(network)),
            graph_nodes(*network) =~= node_range(n as int),
            2 <= n < 0x8000,
            nodes.len() == n as int,
            m.dom().finite(),
            m.dom().len() < 0xffff_0000,
            forall|x: int, y: int| 0 <= x < a && x < y < n ==> edge_connects(m, x, y),
        decreases n - a,
    {
        let mut b: usize = a + 1;
        while b < n
            invariant
                0 <= a < n,
                a < b <= n,
                m == graph_edges(*network),
                nodes == graph_nodes(*network),
                m == graph_edges(*old(network)),
                nodes == graph_nodes(*old(network)),
                graph_nodes(*network) =~= node_range(n as int),
                2 <= n < 0x8000,
                nodes.len() == n as int,
                m.dom().finite(),
                m.dom().len() < 0xffff_0000,
                forall|x: int, y: int| 0 <= x < a && x < y < n ==> edge_connects(m, x, y),
                forall|y: int| a < y < b ==> edge_connects(m, a as int, y),
            decreases n - b,
        {
            match find_edge_raw(network, a as u32, b as u32) {
                Some(_) => {},
                None => {
                    let ghost fa = a as int;
                    let ghost fb = b as int;
                    let id = add_edge_raw(network, a as u32, b as u32);
                    proof {
                        assert(!m.dom().contains(id as int) && fa != fb && nodes.contains(fa)
                            && nodes.contains(fb) && !edge_connects(m, fa, fb) && graph_edges(
                            *network,
                        ) == m.insert(id as int, (fa, fb)));
                    }
                    return ;
                },
            }
            b = b + 1;
        }
        a = a + 1;
    }
    proof {
        let (fa, fb) = choose|fa: int, fb: int|
            0 <= fa < fb < n as int && !edge_connects(m, fa, fb);
        assert(edge_connects(m, fa, fb));
        assert(false);
    }
}

} // verus!
