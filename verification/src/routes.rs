use vstd::prelude::*;
use crate::graph::{astar_route, find_edge_raw, edge_endpoints_raw, graph_edges, graph_nodes, node_count_raw, nodes_dense, Network};
use crate::model::{
    connected_over, edge_connects, is_edge_route, is_node_path, lemma_connected_pairwise,
    lemma_path_in_submap, lemma_route_in_submap, no_shorter_path, node_range, route_edges_present,
    route_witnessed_by, sub_topology,
};
use vstd::arithmetic::div_mod::lemma_fundamental_div_mod_converse;

verus! {

/// Precomputed shortest routes for every ordered node pair of the fault-free
/// topology, stored as sequences of edge identities.  The pair `(i, j)` is
/// kept at flat index `i * n + j`; the diagonal entries are empty.  The
/// ghost `base` remembers the edge map of the topology the cache was built
/// against: a cached route may be replayed on a mutated copy exactly when
/// all its edges are still present there.
pub struct RoutesCache {
    pub n: usize,
    pub routes: Vec<Vec<u32>>,
    pub base: Ghost<Map<int, (int, int)>>,
}

impl RoutesCache {
    /// The route stored at flat index `k`, as edge identities.
    pub open spec fn route_at(self, k: int) -> Seq<int> {
        self.routes@[k]@.map_values(|x: u32| x as int)
    }

    /// What one cache entry promises: for an off-diagonal pair, a duplicate
    /// free shortest edge route of the base topology; for the diagonal, an
    /// empty entry.
    pub open spec fn entry_ok(self, k: int) -> bool {
        let n = self.n as int;
        let i = k / n;
        let j = k % n;
        if i == j {
            self.route_at(k).len() == 0
        } else {
            &&& is_edge_route(self.base@, i, j, self.route_at(k))
            &&& self.route_at(k).no_duplicates()
            &&& no_shorter_path(self.base@, i, j, self.route_at(k).len() as int)
        }
    }

    /// Well-formedness of the whole cache.
    pub open spec fn wf(self) -> bool {
        &&& self.routes@.len() == self.n * self.n
        &&& self.n >= 1
        &&& forall|k: int| 0 <= k < self.n * self.n ==> #[trigger] self.entry_ok(k)
    }

    /// Read the cached route of the ordered pair `(i, j)`.
    pub fn get(&self, i: usize, j: usize) -> (r: &Vec<u32>)
        requires
            i < self.n,
            j < self.n,
            self.routes@.len() == self.n * self.n,
        ensures
            r@ == self.routes@[i * self.n + j]@,
    {
        let total = self.routes.len();
        proof {
            let n = self.n as int;
            assert(i * n + j < n * n) by (nonlinear_arith)
                requires 0 <= i < n && 0 <= j < n;
            assert(n * n == total as int);
        }
        &self.routes[i * self.n + j]
    }
}

/// Turn an exec route into its spec view as edge identities.
pub open spec fn route_view(r: Seq<u32>) -> Seq<int> {
    r.map_values(|x: u32| x as int)
}

/// Compute the edge route of a shortest node walk found by the search, by
/// looking up the edge between each pair of consecutive nodes.
pub(crate) fn path_to_edges(network: &Network, path: &Vec<u32>, Ghost(i): Ghost<int>, Ghost(j): Ghost<int>) -> (r: Vec<u32>)
    requires
        path@.len() >= 2,
        path@[0] as int == i,
        path@[path@.len() - 1] as int == j,
        forall|k: int|
            0 <= k < path@.len() - 1 ==> edge_connects(
                graph_edges(*network),
                #[trigger] path@[k] as int,
                path@[k + 1] as int,
            ),
        forall|k1: int, k2: int| 0 <= k1 < k2 < path@.len() ==> path@[k1] != path@[k2],
    ensures
        r@.len() == path@.len() - 1,
        is_edge_route(graph_edges(*network), i, j, route_view(r@)),
        route_view(r@).no_duplicates(),
{
    let ghost m = graph_edges(*network);
    let mut r: Vec<u32> = Vec::new();
    let mut t: usize = 1;
    while t < path.len()
        invariant
            1 <= t <= path@.len(),
            path@.len() >= 2,
            r@.len() == t - 1,
            m == graph_edges(*network),
            forall|k: int|
                0 <= k < path@.len() - 1 ==> edge_connects(
                    m,
                    #[trigger] path@[k] as int,
                    path@[k + 1] as int,
                ),
            forall|x: int|
                0 <= x < t - 1 ==> m.dom().contains(#[trigger] r@[x] as int) && (m[r@[x] as int]
                    == (path@[x] as int, path@[x + 1] as int) || m[r@[x] as int] == (
                    path@[x + 1] as int,
                    path@[x] as int,
                )),
        decreases path@.len() - t,
    {
        assert(edge_connects(m, path@[t - 1] as int, path@[t as int] as int));
        match find_edge_raw(network, path[t - 1], path[t]) {
            Some(id) => {
                r.push(id);
            },
            None => {
                proof {
                    assert(false);
                }
            },
        }
        t = t + 1;
    }
    proof {
        let pv = Seq::new(path@.len(), |x: int| path@[x] as int);
        let rv = route_view(r@);
        assert(rv.len() == r@.len());
        assert forall|x: int| 0 <= x < rv.len() implies m.dom().contains(#[trigger] rv[x]) && (
        m[rv[x]] == (pv[x], pv[x + 1]) || m[rv[x]] == (pv[x + 1], pv[x])) by {
            assert(rv[x] == r@[x] as int);
        }
        assert(route_witnessed_by(m, i, j, rv, pv));
        // distinct endpoints force distinct edge identities
        assert forall|x: int, y: int| 0 <= x < y < rv.len() implies rv[x] != rv[y] by {
            if rv[x] == rv[y] {
                assert(m[rv[x]] == m[rv[y]]);
                assert(path@[x] != path@[y] && path@[x] != path@[y + 1] && path@[x + 1]
                    != path@[y + 1]);
            }
        }
        assert(rv.no_duplicates());
    }
    r
}

/// Precompute, for every ordered pair of distinct nodes, a shortest route of
/// the fault-free topology.  Tie-break among equal-length paths: the
/// unweighted search explores neighbours in the graph's adjacency order and
/// pops its frontier from a binary heap, so for one concrete graph value the
/// chosen route is a fixed function of that value, never of a hash map's
/// iteration order.  The contract pins each route to be shortest and
/// duplicate free; which of several equally short routes is chosen is
/// documented here, not stated, since no spec of the graph's contents alone
/// could pin it.
pub fn generate_routes_cache(network: &Network) -> (r: RoutesCache)
    requires
        nodes_dense(*network),
        1 <= graph_nodes(*network).len() < 0x8000,
        connected_over(graph_edges(*network), graph_nodes(*network)),
    ensures
        r.wf(),
        r.base@ == graph_edges(*network),
        r.n as int == graph_nodes(*network).len(),
{
    let ghost m = graph_edges(*network);
    let n = node_count_raw(network);
    let mut routes: Vec<Vec<u32>> = Vec::new();
    let mut i: usize = 0;
    proof {
        vstd::set_lib::lemma_int_range(0, n as int);
        assert(n * n < 0x8000 * 0x8000) by (nonlinear_arith)
            requires 0 <= n < 0x8000;
    }
    while i < n
        invariant
            0 <= i <= n,
            n < 0x8000,
            n * n <= 0x4000_0000,
            nodes_dense(*network),
            graph_nodes(*network).len() == n as int,
            graph_nodes(*network) =~= node_range(n as int),
            connected_over(graph_edges(*network), graph_nodes(*network)),
            m == graph_edges(*network),
            routes@.len() == i * n,
            forall|k: int|
                0 <= k < i * n ==> cache_probe(m, n as int, k, #[trigger] route_view(routes@[k]@)),
        decreases n - i,
    {
        let mut j: usize = 0;
        while j < n
            invariant
                0 <= i < n,
                0 <= j <= n,
                n < 0x8000,
                n * n <= 0x4000_0000,
                nodes_dense(*network),
                graph_nodes(*network).len() == n as int,
                graph_nodes(*network) =~= node_range(n as int),
                connected_over(graph_edges(*network), graph_nodes(*network)),
                m == graph_edges(*network),
                routes@.len() == i * n + j,
                forall|k: int|
                    0 <= k < i * n + j ==> cache_probe(
                        m,
                        n as int,
                        k,
                        #[trigger] route_view(routes@[k]@),
                    ),
            decreases n - j,
        {
            proof {
                assert(i * n + j < n * n && i * n + j + 1 <= n * n && (i + 1) * n <= n * n)
                    by (nonlinear_arith)
                    requires 0 <= i < n && 0 <= j < n;
            }
            if i != j {
                proof {
                    lemma_connected_pairwise(m, graph_nodes(*network), i as int, j as int);
                }
                match astar_route(network, i as u32, j as u32) {
                    Some(path) => {
                        let route = path_to_edges(network, &path, Ghost(i as int), Ghost(j as int));
                        proof {
                            assert forall|q: Seq<int>|
                                q.len() >= 1 && q[0] == i as int && q[q.len() - 1] == j as int
                                    && #[trigger] crate::model::is_node_path(m, q) implies q.len()
                                - 1 >= route_view(route@).len() by {
                                assert(no_shorter_path(m, i as int, j as int, path@.len() - 1));
                            }
                            lemma_fundamental_div_mod_converse(
                                (i * n + j) as int,
                                n as int,
                                i as int,
                                j as int,
                            );
                        }
                        routes.push(route);
                    },
                    None => {
                        proof {
                            assert(false);
                        }
                    },
                }
            } else {
                proof {
                    lemma_fundamental_div_mod_converse(
                        (i * n + j) as int,
                        n as int,
                        i as int,
                        j as int,
                    );
                }
                routes.push(Vec::new());
            }
            assert(routes@.len() == i * n + j + 1);
            j = j + 1;
        }
        proof {
            assert((i + 1) * n == i * n + n) by (nonlinear_arith);
        }
        i = i + 1;
    }
    let r = RoutesCache { n, routes, base: Ghost(m) };
    proof {
        assert(n * n == (n * n) as int);
        assert forall|k: int| 0 <= k < r.n * r.n implies #[trigger] r.entry_ok(k) by {
            assert(cache_probe(m, n as int, k, route_view(r.routes@[k]@)));
            assert(r.route_at(k) == route_view(r.routes@[k]@));
        }
    }
    r
}

/// What the cache construction establishes for the entry at flat index `k`.
pub open spec fn cache_probe(m: Map<int, (int, int)>, n: int, k: int, route: Seq<int>) -> bool {
    let i = k / n;
    let j = k % n;
    if i == j {
        route.len() == 0
    } else {
        &&& is_edge_route(m, i, j, route)
        &&& route.no_duplicates()
        &&& no_shorter_path(m, i, j, route.len() as int)
    }
}

/// The fast path is correctness-preserving: when every edge of the cached
/// route for `(i, j)` is still present in a mutated copy of the topology the
/// cache was built against, the cached route is still a route from `i` to
/// `j` there, and still of minimum length — no fresh search could find a
/// shorter one, so replaying the cache aggregates the same amount of flow
/// over a route of the same, optimal length.
pub proof fn lemma_cached_route_still_shortest(
    cache: RoutesCache,
    m_sub: Map<int, (int, int)>,
    i: int,
    j: int,
)
    requires
        cache.wf(),
        sub_topology(m_sub, cache.base@),
        0 <= i < cache.n as int,
        0 <= j < cache.n as int,
        i != j,
        route_edges_present(m_sub, cache.route_at(i * (cache.n as int) + j)),
    ensures
        is_edge_route(m_sub, i, j, cache.route_at(i * (cache.n as int) + j)),
        no_shorter_path(m_sub, i, j, cache.route_at(i * (cache.n as int) + j).len() as int),
{
    let n = cache.n as int;
    assert(0 <= i * n + j < n * n) by (nonlinear_arith)
        requires 0 <= i < n && 0 <= j < n;
    let k = i * n + j;
    lemma_fundamental_div_mod_converse(k, n, i, j);
    assert(cache.entry_ok(k));
    let route = cache.route_at(k);
    lemma_route_in_submap(m_sub, cache.base@, i, j, route);
    assert forall|q: Seq<int>|
        q.len() >= 1 && q[0] == i && q[q.len() - 1] == j && #[trigger] is_node_path(m_sub, q)
            implies q.len() - 1 >= route.len() as int by {
        lemma_path_in_submap(m_sub, cache.base@, q);
        assert(no_shorter_path(cache.base@, i, j, route.len() as int));
    }
}

/// A cached route may be replayed verbatim exactly when every one of its
/// edges is still present in the (possibly mutated) topology.
pub fn check_cached_route_is_valid(network: &Network, cached_route: &Vec<u32>) -> (r: bool)
    ensures
        r == route_edges_present(graph_edges(*network), route_view(cached_route@)),
{
    let mut t: usize = 0;
    while t < cached_route.len()
        invariant
            0 <= t <= cached_route@.len(),
            forall|x: int|
                0 <= x < t ==> graph_edges(*network).dom().contains(
                    #[trigger] route_view(cached_route@)[x],
                ),
        decreases cached_route@.len() - t,
    {
        match edge_endpoints_raw(network, cached_route[t]) {
            Some(_) => {},
            None => {
                proof {
                    assert(route_view(cached_route@)[t as int] == cached_route@[t as int] as int);
                    assert(!graph_edges(*network).dom().contains(
                        route_view(cached_route@)[t as int],
                    ));
                }
                return false;
            },
        }
        proof {
            assert(route_view(cached_route@)[t as int] == cached_route@[t as int] as int);
        }
        t = t + 1;
    }
    true
}

} // verus!
