use vstd::prelude::*;
use vstd::arithmetic::div_mod::{lemma_div_is_ordered, lemma_div_is_ordered_by_denominator};
use vstd::arithmetic::mul::lemma_mul_inequality;

verus! {

// ---------------------------------------------------------------------------
// Mathematical model of an undirected network.
//
// A topology is modelled by the map from edge identity to the pair of node
// indices the edge joins, together with the set of node indices.  All spec
// reasoning about routing, connectivity, flows and delay happens over this
// model.
// ---------------------------------------------------------------------------

/// True when some edge of `m` joins nodes `a` and `b` (in either direction).
pub open spec fn edge_connects(m: Map<int, (int, int)>, a: int, b: int) -> bool {
    exists|id: int| #[trigger] m.dom().contains(id) && (m[id] == (a, b) || m[id] == (b, a))
}

/// `p` is a walk through the topology: every two consecutive entries are
/// joined by an edge.
pub open spec fn is_node_path(m: Map<int, (int, int)>, p: Seq<int>) -> bool {
    forall|k: int| 0 <= k < p.len() - 1 ==> #[trigger] edge_connects(m, p[k], p[k + 1])
}

/// A walk from `a` to `b` exists.
pub open spec fn has_path(m: Map<int, (int, int)>, a: int, b: int) -> bool {
    exists|p: Seq<int>|
        p.len() >= 1 && p[0] == a && p[p.len() - 1] == b && #[trigger] is_node_path(m, p)
}

/// Every node of `nodes` can be reached from the reference node 0.
pub open spec fn connected_over(m: Map<int, (int, int)>, nodes: Set<int>) -> bool {
    forall|v: int| #[trigger] nodes.contains(v) ==> has_path(m, 0, v)
}

/// The node indices 0 .. n.
pub open spec fn node_range(n: int) -> Set<int> {
    vstd::set_lib::set_int_range(0, n)
}

/// `m_sub` keeps a subset of the edges of `m`, each with its endpoints
/// unchanged.
pub open spec fn sub_topology(m_sub: Map<int, (int, int)>, m: Map<int, (int, int)>) -> bool {
    forall|id: int|
        #[trigger] m_sub.dom().contains(id) ==> m.dom().contains(id) && m_sub[id] == m[id]
}

/// The topology with no edges at all.
pub open spec fn empty_edges() -> Map<int, (int, int)> {
    Map::empty()
}

/// All edge identities of `m` lie below `e`.
pub open spec fn edge_ids_below(m: Map<int, (int, int)>, e: int) -> bool {
    forall|id: int| #[trigger] m.dom().contains(id) ==> 0 <= id < e
}

/// Every edge identity of `route` is still present in `m`.
pub open spec fn route_edges_present(m: Map<int, (int, int)>, route: Seq<int>) -> bool {
    forall|k: int| 0 <= k < route.len() ==> m.dom().contains(#[trigger] route[k])
}

/// `route` is a sequence of edge identities that forms a path from `i` to
/// `j`: some node walk `p` witnesses it, edge by edge.
pub open spec fn is_edge_route(m: Map<int, (int, int)>, i: int, j: int, route: Seq<int>) -> bool {
    exists|p: Seq<int>| #[trigger] route_witnessed_by(m, i, j, route, p)
}

/// The node walk `p` witnesses the edge route `route` from `i` to `j`.
pub open spec fn route_witnessed_by(
    m: Map<int, (int, int)>,
    i: int,
    j: int,
    route: Seq<int>,
    p: Seq<int>,
) -> bool {
    &&& p.len() == route.len() + 1
    &&& p[0] == i
    &&& p[p.len() - 1] == j
    &&& forall|k: int|
        0 <= k < route.len() ==> m.dom().contains(#[trigger] route[k]) && (m[route[k]] == (
        p[k],
        p[k + 1],
    ) || m[route[k]] == (p[k + 1], p[k]))
}

/// Every node walk from `i` to `j` in `m` uses at least `len` edges.
pub open spec fn no_shorter_path(m: Map<int, (int, int)>, i: int, j: int, len: int) -> bool {
    forall|q: Seq<int>|
        q.len() >= 1 && q[0] == i && q[q.len() - 1] == j && #[trigger] is_node_path(m, q)
            ==> q.len() - 1 >= len
}

// ---------------------------------------------------------------------------
// Lemmas about paths and connectivity.
// ---------------------------------------------------------------------------

/// Reversing a walk gives a walk: edges are undirected.
pub proof fn lemma_path_reverse(m: Map<int, (int, int)>, p: Seq<int>)
    requires
        is_node_path(m, p),
    ensures
        is_node_path(m, p.reverse()),
{
    let r = p.reverse();
    assert forall|k: int| 0 <= k < r.len() - 1 implies #[trigger] edge_connects(m, r[k], r[k + 1]) by {
        let k0 = p.len() - 2 - k;
        assert(r[k] == p[k0 + 1]);
        assert(r[k + 1] == p[k0]);
        assert(edge_connects(m, p[k0], p[k0 + 1]));
        let id = choose|id: int| #[trigger] m.dom().contains(id) && (m[id] == (p[k0], p[k0 + 1])
            || m[id] == (p[k0 + 1], p[k0]));
        assert(m.dom().contains(id) && (m[id] == (r[k + 1], r[k]) || m[id] == (r[k], r[k + 1])));
    }
}

/// Two walks that meet end to start concatenate to a walk.
pub proof fn lemma_path_concat(m: Map<int, (int, int)>, p1: Seq<int>, p2: Seq<int>)
    requires
        is_node_path(m, p1),
        is_node_path(m, p2),
        p1.len() >= 1,
        p2.len() >= 1,
        p1[p1.len() - 1] == p2[0],
    ensures
        is_node_path(m, p1 + p2.drop_first()),
{
    let q = p1 + p2.drop_first();
    assert forall|k: int| 0 <= k < q.len() - 1 implies #[trigger] edge_connects(m, q[k], q[k + 1]) by {
        if k < p1.len() - 1 {
            assert(q[k] == p1[k]);
            assert(q[k + 1] == p1[k + 1]);
            assert(edge_connects(m, p1[k], p1[k + 1]));
        } else {
            let k2 = k - p1.len() + 1;
            if k == p1.len() - 1 {
                assert(q[k] == p1[p1.len() - 1]);
            } else {
                assert(q[k] == p2.drop_first()[k - p1.len()]);
                assert(q[k] == p2[k2]);
            }
            assert(q[k + 1] == p2.drop_first()[k + 1 - p1.len()]);
            assert(q[k + 1] == p2[k2 + 1]);
            assert(edge_connects(m, p2[k2], p2[k2 + 1]));
        }
    }
}

/// In a topology where every node is reachable from node 0, every ordered
/// pair of nodes is joined by a walk.
pub proof fn lemma_connected_pairwise(
    m: Map<int, (int, int)>,
    nodes: Set<int>,
    i: int,
    j: int,
)
    requires
        connected_over(m, nodes),
        nodes.contains(i),
        nodes.contains(j),
    ensures
        has_path(m, i, j),
{
    let pi = choose|p: Seq<int>|
        p.len() >= 1 && p[0] == 0 && p[p.len() - 1] == i && #[trigger] is_node_path(m, p);
    let pj = choose|p: Seq<int>|
        p.len() >= 1 && p[0] == 0 && p[p.len() - 1] == j && #[trigger] is_node_path(m, p);
    lemma_path_reverse(m, pi);
    let ri = pi.reverse();
    assert(ri.len() >= 1 && ri[0] == i && ri[ri.len() - 1] == 0);
    lemma_path_concat(m, ri, pj);
    let q = ri + pj.drop_first();
    assert(q.len() >= 1 && q[0] == i);
    assert(q[q.len() - 1] == j) by {
        if pj.len() == 1 {
            assert(q =~= ri);
            assert(j == 0);
        } else {
            assert(q[q.len() - 1] == pj.drop_first()[pj.len() - 2]);
        }
    }
    assert(has_path(m, i, j));
}

/// With no edge left, no node other than 0 is reachable from 0.
pub proof fn lemma_empty_disconnected(m: Map<int, (int, int)>, nodes: Set<int>, v: int)
    requires
        m.dom() =~= Set::<int>::empty(),
        nodes.contains(v),
        v != 0,
    ensures
        !connected_over(m, nodes),
{
    if connected_over(m, nodes) {
        assert(has_path(m, 0, v));
        let p = choose|p: Seq<int>|
            p.len() >= 1 && p[0] == 0 && p[p.len() - 1] == v && #[trigger] is_node_path(m, p);
        assert(p.len() >= 2);
        let k0: int = 0;
        assert(edge_connects(m, p[k0], p[k0 + 1]));
        let id = choose|id: int| #[trigger] m.dom().contains(id) && (m[id] == (p[k0], p[k0 + 1])
            || m[id] == (p[k0 + 1], p[k0]));
        assert(m.dom().contains(id));
        assert(false);
    }
}

/// A walk in a sub-topology is a walk in the whole topology.
pub proof fn lemma_path_in_submap(m_sub: Map<int, (int, int)>, m: Map<int, (int, int)>, p: Seq<int>)
    requires
        sub_topology(m_sub, m),
        is_node_path(m_sub, p),
    ensures
        is_node_path(m, p),
{
    assert forall|k: int| 0 <= k < p.len() - 1 implies #[trigger] edge_connects(m, p[k], p[k + 1]) by {
        assert(edge_connects(m_sub, p[k], p[k + 1]));
        let id = choose|id: int| #[trigger] m_sub.dom().contains(id) && (m_sub[id] == (p[k], p[k + 1])
            || m_sub[id] == (p[k + 1], p[k]));
        assert(m_sub.dom().contains(id) && (m_sub[id] == (p[k], p[k + 1]) || m_sub[id] == (
        p[k + 1],
        p[k],
        )));
        assert(m.dom().contains(id) && m[id] == m_sub[id]);
    }
}

/// An edge route of the full topology whose edges all survive is an edge
/// route of the sub-topology.
pub proof fn lemma_route_in_submap(
    m_sub: Map<int, (int, int)>,
    m: Map<int, (int, int)>,
    i: int,
    j: int,
    route: Seq<int>,
)
    requires
        sub_topology(m_sub, m),
        is_edge_route(m, i, j, route),
        route_edges_present(m_sub, route),
    ensures
        is_edge_route(m_sub, i, j, route),
{
    let p = choose|p: Seq<int>| #[trigger] route_witnessed_by(m, i, j, route, p);
    assert(route_witnessed_by(m_sub, i, j, route, p));
}

// ---------------------------------------------------------------------------
// Flow aggregation.
// ---------------------------------------------------------------------------

/// Add `x` to the flow of every edge of `route` (entries out of range are
/// ignored; real routes never have any).
pub open spec fn bump(f: Seq<int>, route: Seq<int>, x: int) -> Seq<int>
    decreases route.len(),
{
    if route.len() == 0 {
        f
    } else {
        let g = bump(f, route.drop_last(), x);
        let id = route.last();
        if 0 <= id < g.len() {
            g.update(id, g[id] + x)
        } else {
            g
        }
    }
}

pub proof fn lemma_bump_len(f: Seq<int>, route: Seq<int>, x: int)
    ensures
        bump(f, route, x).len() == f.len(),
    decreases route.len(),
{
    if route.len() > 0 {
        lemma_bump_len(f, route.drop_last(), x);
    }
}

/// With no duplicate edge in the route, every flow grows by at most `x`.
pub proof fn lemma_bump_bound(f: Seq<int>, route: Seq<int>, x: int, e: int)
    requires
        route.no_duplicates(),
        0 <= e < f.len(),
        x >= 0,
    ensures
        f[e] <= bump(f, route, x)[e] <= f[e] + x,
    decreases route.len(),
{
    lemma_bump_len(f, route, x);
    if route.len() > 0 {
        assert(route.drop_last().no_duplicates());
        lemma_bump_bound(f, route.drop_last(), x, e);
        lemma_bump_len(f, route.drop_last(), x);
        let g = bump(f, route.drop_last(), x);
        let id = route.last();
        if 0 <= id < g.len() && id == e {
            // `e` occurs at the last position, hence nowhere earlier.
            assert(forall|k: int| 0 <= k < route.len() - 1 ==> route[k] != route.last());
            lemma_bump_untouched(f, route.drop_last(), x, e);
        }
    }
}

/// An edge that a route does not mention keeps its flow.
pub proof fn lemma_bump_untouched(f: Seq<int>, route: Seq<int>, x: int, e: int)
    requires
        0 <= e < f.len(),
        forall|k: int| 0 <= k < route.len() ==> route[k] != e,
    ensures
        bump(f, route, x)[e] == f[e],
    decreases route.len(),
{
    lemma_bump_len(f, route, x);
    if route.len() > 0 {
        assert(forall|k: int| 0 <= k < route.len() - 1 ==> route.drop_last()[k] != e);
        lemma_bump_untouched(f, route.drop_last(), x, e);
        lemma_bump_len(f, route.drop_last(), x);
        assert(route.last() == route[route.len() - 1]);
    }
}

/// The intensity of the ordered pair with flat index `k` (row `k / n`,
/// column `k % n`); diagonal pairs carry none.
pub open spec fn pair_intensity(im: Seq<Seq<u32>>, k: int) -> int {
    let n = im.len() as int;
    let i = k / n;
    let j = k % n;
    if i != j {
        im[i][j] as int
    } else {
        0
    }
}

/// Flows over `e` edges after routing the first `k` ordered pairs, pair `k'`
/// over `routes[k']`.
pub open spec fn flows_upto(im: Seq<Seq<u32>>, routes: Seq<Seq<int>>, e: int, k: int) -> Seq<int>
    decreases k,
{
    if k <= 0 {
        Seq::new(e as nat, |x: int| 0)
    } else {
        bump(flows_upto(im, routes, e, k - 1), routes[k - 1], pair_intensity(im, k - 1))
    }
}

/// Sum of the intensities of the first `k` ordered pairs.
pub open spec fn intens_sum_upto(im: Seq<Seq<u32>>, k: int) -> int
    decreases k,
{
    if k <= 0 {
        0
    } else {
        intens_sum_upto(im, k - 1) + pair_intensity(im, k - 1)
    }
}

/// Total traffic intensity of the matrix.
pub open spec fn matrix_total(im: Seq<Seq<u32>>) -> int {
    intens_sum_upto(im, (im.len() * im.len()) as int)
}

/// The spec-level contents of an intensity matrix.
pub open spec fn matrix_view(m: Vec<Vec<u32>>) -> Seq<Seq<u32>> {
    m@.map_values(|row: Vec<u32>| row@)
}

/// The matrix is square with a zero diagonal.
pub open spec fn matrix_wf(im: Seq<Seq<u32>>) -> bool {
    &&& forall|i: int| 0 <= i < im.len() ==> #[trigger] im[i].len() == im.len()
    &&& forall|i: int| 0 <= i < im.len() ==> #[trigger] im[i][i] == 0
}

pub proof fn lemma_intens_sum_monotone(im: Seq<Seq<u32>>, k1: int, k2: int)
    requires
        k1 <= k2,
    ensures
        intens_sum_upto(im, k1) <= intens_sum_upto(im, k2),
    decreases k2 - k1,
{
    if k1 < k2 {
        lemma_intens_sum_monotone(im, k1, k2 - 1);
        if k2 > 0 {
            let n = im.len() as int;
            if n > 0 {
                vstd::arithmetic::div_mod::lemma_mod_bound(k2 - 1, n);
            }
        }
    }
}

pub proof fn lemma_flows_upto_len(im: Seq<Seq<u32>>, routes: Seq<Seq<int>>, e: int, k: int)
    requires
        e >= 0,
    ensures
        flows_upto(im, routes, e, k).len() == e,
    decreases k,
{
    if k > 0 {
        lemma_flows_upto_len(im, routes, e, k - 1);
        lemma_bump_len(flows_upto(im, routes, e, k - 1), routes[k - 1], pair_intensity(im, k - 1));
    }
}

/// The flows after `k` pairs depend only on the first `k` routes.
pub proof fn lemma_flows_upto_prefix(
    im: Seq<Seq<u32>>,
    r1: Seq<Seq<int>>,
    r2: Seq<Seq<int>>,
    e: int,
    k: int,
)
    requires
        forall|x: int| 0 <= x < k ==> r1[x] == #[trigger] r2[x],
    ensures
        flows_upto(im, r1, e, k) == flows_upto(im, r2, e, k),
    decreases k,
{
    if k > 0 {
        lemma_flows_upto_prefix(im, r1, r2, e, k - 1);
    }
}

/// Every per-edge flow is bounded by the intensity routed so far, provided no
/// route repeats an edge.
pub proof fn lemma_flows_upto_bound(
    im: Seq<Seq<u32>>,
    routes: Seq<Seq<int>>,
    e: int,
    k: int,
    id: int,
)
    requires
        0 <= id < e,
        forall|k2: int| 0 <= k2 < k ==> (#[trigger] routes[k2]).no_duplicates(),
    ensures
        0 <= flows_upto(im, routes, e, k)[id] <= intens_sum_upto(im, k),
    decreases k,
{
    lemma_flows_upto_len(im, routes, e, k);
    if k > 0 {
        lemma_flows_upto_bound(im, routes, e, k - 1, id);
        lemma_flows_upto_len(im, routes, e, k - 1);
        lemma_bump_bound(flows_upto(im, routes, e, k - 1), routes[k - 1], pair_intensity(im, k - 1), id);
    }
}

// ---------------------------------------------------------------------------
// Capacity feasibility and queueing delay.
// ---------------------------------------------------------------------------

/// Every present edge's flow fits under its capacity, measured in packets.
pub open spec fn capacity_ok(
    m: Map<int, (int, int)>,
    flows: Seq<int>,
    caps: Seq<u32>,
    e: int,
) -> bool {
    forall|id: int|
        0 <= id < e && #[trigger] m.dom().contains(id) ==> flows[id] <= caps[id] as int
            / (crate::PACKET_SIZE as int)
}

/// Fixed-point scale of the delay metric: one unit is `1 / DELAY_SCALE` of
/// `flow / (rate - flow)`.
pub const DELAY_SCALE: u64 = 1_000_000;

/// Scaled sum of the per-edge M/M/1 terms over the present edges with
/// identity below `upto`.  The service rate of an edge is the exact rational
/// `capacity / PACKET_SIZE` (not its integer floor), so the term
/// `flow / (capacity / PACKET_SIZE - flow)`, cleared of the inner division,
/// is `flow * PACKET_SIZE / (capacity - flow * PACKET_SIZE)`; it is scaled
/// by DELAY_SCALE and floored once, at the scale.  `None` stands for an
/// infinite delay: some present edge's load `flow * PACKET_SIZE` has reached
/// its capacity, and the trial must fail the threshold test.
pub open spec fn delay_sum(
    m: Map<int, (int, int)>,
    flows: Seq<int>,
    caps: Seq<u32>,
    upto: int,
) -> Option<int>
    decreases upto,
{
    if upto <= 0 {
        Some(0)
    } else {
        match delay_sum(m, flows, caps, upto - 1) {
            None => None,
            Some(s) => {
                if m.dom().contains(upto - 1) {
                    let load = flows[upto - 1] * (crate::PACKET_SIZE as int);
                    let cap = caps[upto - 1] as int;
                    if load >= cap {
                        None
                    } else {
                        Some(s + (load * (DELAY_SCALE as int)) / (cap - load))
                    }
                } else {
                    Some(s)
                }
            },
        }
    }
}

/// Once some edge has saturated its service rate, the delay stays infinite
/// however many further edges are summed.
pub proof fn lemma_delay_sum_none_persists(
    m: Map<int, (int, int)>,
    flows: Seq<int>,
    caps: Seq<u32>,
    upto0: int,
    upto: int,
)
    requires
        delay_sum(m, flows, caps, upto0) is None,
        upto0 <= upto,
    ensures
        delay_sum(m, flows, caps, upto) is None,
    decreases upto - upto0,
{
    if upto0 < upto {
        lemma_delay_sum_none_persists(m, flows, caps, upto0, upto - 1);
    }
}

/// The average-delay threshold test: with `d` the scaled sum, the average
/// delay is `d / (DELAY_SCALE * total)`, and it must lie strictly below
/// `t_num / t_den`.  An infinite delay never meets the threshold.
pub open spec fn delay_ok(d: Option<int>, total: int, t_num: int, t_den: int) -> bool {
    match d {
        None => false,
        Some(s) => s * t_den < t_num * total * (DELAY_SCALE as int),
    }
}

/// `d2` is at least `d1`, with `None` (infinite) on top.
pub open spec fn delay_ge(d2: Option<int>, d1: Option<int>) -> bool {
    match d2 {
        None => true,
        Some(s2) => match d1 {
            None => false,
            Some(s1) => s2 >= s1,
        },
    }
}

/// Raising one edge's flow, all else fixed, never lowers the delay metric.
pub proof fn lemma_delay_monotone(
    m: Map<int, (int, int)>,
    f1: Seq<int>,
    f2: Seq<int>,
    caps: Seq<u32>,
    ch: int,
    upto: int,
)
    requires
        f1.len() == f2.len(),
        forall|id: int| 0 <= id < f1.len() && id != ch ==> f1[id] == #[trigger] f2[id],
        0 <= ch < f1.len() ==> 0 <= f1[ch] <= f2[ch],
        forall|id: int| 0 <= id < f1.len() ==> 0 <= #[trigger] f1[id],
        upto <= f1.len(),
        upto <= caps.len(),
    ensures
        delay_ge(delay_sum(m, f2, caps, upto), delay_sum(m, f1, caps, upto)),
    decreases upto,
{
    if upto > 0 {
        lemma_delay_monotone(m, f1, f2, caps, ch, upto - 1);
        let id = upto - 1;
        if m.dom().contains(id) {
            let cap = caps[id] as int;
            let l1 = f1[id] * (crate::PACKET_SIZE as int);
            let l2 = f2[id] * (crate::PACKET_SIZE as int);
            lemma_mul_inequality(f1[id], f2[id], crate::PACKET_SIZE as int);
            if l1 < cap && l2 < cap {
                // term is monotone in the flow: numerator grows, denominator
                // shrinks.
                let a1 = l1 * (DELAY_SCALE as int);
                let a2 = l2 * (DELAY_SCALE as int);
                lemma_mul_inequality(l1, l2, DELAY_SCALE as int);
                lemma_div_is_ordered(a1, a2, cap - l1);
                lemma_div_is_ordered_by_denominator(a2, cap - l2, cap - l1);
            }
        }
    }
}

/// Threshold tests respect the delay order: whenever the larger of two
/// delays meets a threshold, the smaller one meets it too.
pub proof fn lemma_delay_ok_monotone(d1: Option<int>, d2: Option<int>, total: int, t_num: int, t_den: int)
    requires
        delay_ge(d2, d1),
        t_den >= 0,
        d1 is Some,
        d1->0 >= 0,
    ensures
        delay_ok(d2, total, t_num, t_den) ==> delay_ok(d1, total, t_num, t_den),
{
    if d2 is Some {
        lemma_mul_inequality(d1->0, d2->0, t_den);
    }
}

} // verus!
