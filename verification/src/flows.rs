use vstd::prelude::*;
use crate::graph::{astar_route, graph_edges, graph_nodes, nodes_dense, Network};
use crate::model::{
    bump, connected_over, edge_ids_below, flows_upto, intens_sum_upto, is_edge_route,
    lemma_bump_len, lemma_bump_untouched, lemma_connected_pairwise, lemma_flows_upto_bound,
    lemma_flows_upto_len, lemma_flows_upto_prefix, lemma_intens_sum_monotone, matrix_total,
    matrix_view, matrix_wf, no_shorter_path, pair_intensity, route_edges_present, sub_topology,
};
use crate::routes::{check_cached_route_is_valid, path_to_edges, route_view, RoutesCache};
use crate::NodesMatrix;
use vstd::arithmetic::div_mod::lemma_fundamental_div_mod_converse;

verus! {

/// The spec view of an exec flow table.
pub open spec fn flows_view(s: Seq<u32>) -> Seq<int> {
    s.map_values(|x: u32| x as int)
}

/// The route the flow computation uses for the pair at flat index `k`: the
/// cached route verbatim when all its edges survive, an empty route on the
/// diagonal, and otherwise a freshly searched duplicate-free route of the
/// mutated topology that no walk undercuts — a shortest route.
pub open spec fn choice_ok(
    m: Map<int, (int, int)>,
    cache: RoutesCache,
    k: int,
    route: Seq<int>,
) -> bool {
    let n = cache.n as int;
    let i = k / n;
    let j = k % n;
    if i == j {
        route == Seq::<int>::empty()
    } else if route_edges_present(m, cache.route_at(k)) {
        route == cache.route_at(k)
    } else {
        &&& is_edge_route(m, i, j, route)
        &&& route.no_duplicates()
        &&& no_shorter_path(m, i, j, route.len() as int)
    }
}

/// All the cache's routes, as one sequence indexed by flat pair index.
pub open spec fn cache_routes_seq(cache: RoutesCache) -> Seq<Seq<int>> {
    Seq::new((cache.n * cache.n) as nat, |k: int| cache.route_at(k))
}

/// Every cached route survives in `m` unbroken.
pub open spec fn cache_all_present(m: Map<int, (int, int)>, cache: RoutesCache) -> bool {
    forall|k: int|
        0 <= k < cache.n * cache.n ==> route_edges_present(m, #[trigger] cache.route_at(k))
}

/// Add `x` units of flow to every edge of `route`.
fn add_flow_along(fl: Vec<u32>, route: &Vec<u32>, x: u32) -> (r: Vec<u32>)
    requires
        route_view(route@).no_duplicates(),
        forall|t: int| 0 <= t < route@.len() ==> #[trigger] route@[t] < fl@.len(),
        forall|e: int|
            0 <= e < fl@.len() ==> #[trigger] fl@[e] < 0x1_0000_0000 - x,
    ensures
        r@.len() == fl@.len(),
        flows_view(r@) == bump(flows_view(fl@), route_view(route@), x as int),
{
    let mut flows = fl;
    let ghost orig = flows_view(fl@);
    let ghost rv = route_view(route@);
    let mut t: usize = 0;
    proof {
        assert(flows_view(flows@) =~= bump(orig, rv.take(0), x as int));
    }
    while t < route.len()
        invariant
            0 <= t <= route@.len(),
            rv == route_view(route@),
            rv.no_duplicates(),
            orig.len() == fl@.len(),
            flows@.len() == fl@.len(),
            forall|tt: int| 0 <= tt < route@.len() ==> #[trigger] route@[tt] < orig.len(),
            forall|e: int|
                0 <= e < orig.len() ==> #[trigger] orig[e] < 0x1_0000_0000 - x,
            forall|e: int| 0 <= e < orig.len() ==> orig[e] == fl@[e] as int,
            flows_view(flows@) == bump(orig, rv.take(t as int), x as int),
        decreases route@.len() - t,
    {
        let id = route[t] as usize;
        proof {
            let tt = t as int;
            assert(rv[tt] == route@[tt] as int);
            lemma_bump_len(orig, rv.take(tt), x as int);
            // `id` is untouched so far: it occurs only at position t
            assert(forall|y: int| 0 <= y < tt ==> rv.take(tt)[y] == rv[y]);
            assert(forall|y: int| 0 <= y < tt ==> rv[y] != rv[tt]);
            lemma_bump_untouched(orig, rv.take(tt), x as int, rv[tt]);
            assert(flows_view(flows@)[rv[tt]] == orig[rv[tt]]);
            assert(flows@[rv[tt]] as int == orig[rv[tt]]);
        }
        let v = flows[id];
        flows.set(id, v + x);
        proof {
            let tt = t as int;
            assert(rv.take(tt + 1).drop_last() =~= rv.take(tt));
            assert(rv.take(tt + 1).last() == rv[tt]);
            let prev = bump(orig, rv.take(tt), x as int);
            assert(bump(orig, rv.take(tt + 1), x as int) == prev.update(rv[tt], prev[rv[tt]] + x));
            assert(flows_view(flows@) =~= prev.update(rv[tt], prev[rv[tt]] + x));
        }
        t = t + 1;
    }
    proof {
        assert(rv.take(route@.len() as int) =~= rv);
    }
    flows
}

/// Aggregate every ordered pair's traffic intensity onto the edges of that
/// pair's route through the mutated topology: the cached route when it is
/// still intact, else a fresh shortest-path search.  The result is one flow
/// value per edge identity below `num_edges`.
pub fn get_flows(
    intensity_matrix: &NodesMatrix,
    network: &Network,
    routes_cache: &RoutesCache,
    num_edges: usize,
) -> (flows: Vec<u32>)
    requires
        routes_cache.wf(),
        routes_cache.n < 0x8000,
        sub_topology(graph_edges(*network), routes_cache.base@),
        nodes_dense(*network),
        graph_nodes(*network).len() == routes_cache.n as int,
        connected_over(graph_edges(*network), graph_nodes(*network)),
        matrix_wf(matrix_view(*intensity_matrix)),
        intensity_matrix@.len() == routes_cache.n as int,
        matrix_total(matrix_view(*intensity_matrix)) < 0x1_0000_0000,
        edge_ids_below(routes_cache.base@, num_edges as int),
    ensures
        flows@.len() == num_edges,
        exists|routes: Seq<Seq<int>>|
            {
                &&& routes.len() == routes_cache.n * routes_cache.n
                &&& (forall|k: int|
                    0 <= k < routes.len() ==> choice_ok(
                        graph_edges(*network),
                        *routes_cache,
                        k,
                        #[trigger] routes[k],
                    ))
                &&& flows_view(flows@) == flows_upto(
                    matrix_view(*intensity_matrix),
                    routes,
                    num_edges as int,
                    (routes_cache.n * routes_cache.n) as int,
                )
            },
        cache_all_present(graph_edges(*network), *routes_cache) ==> flows_view(flows@)
            == flows_upto(
            matrix_view(*intensity_matrix),
            cache_routes_seq(*routes_cache),
            num_edges as int,
            (routes_cache.n * routes_cache.n) as int,
        ),
{
    let ghost m = graph_edges(*network);
    let ghost im = matrix_view(*intensity_matrix);
    let n = routes_cache.n;
    let mut flows: Vec<u32> = Vec::new();
    let mut z: usize = 0;
    while z < num_edges
        invariant
            0 <= z <= num_edges,
            flows@.len() == z,
            forall|e: int| 0 <= e < z ==> #[trigger] flows@[e] == 0u32,
        decreases num_edges - z,
    {
        flows.push(0);
        z = z + 1;
    }
    let ghost mut routes_g: Seq<Seq<int>> = Seq::empty();
    proof {
        assert(flows_view(flows@) =~= flows_upto(im, routes_g, num_edges as int, 0));
        assert(n * n < 0x8000 * 0x8000) by (nonlinear_arith)
            requires 0 <= n < 0x8000;
    }
    let mut i: usize = 0;
    while i < n
        invariant
            0 <= i <= n,
            n == routes_cache.n,
            n < 0x8000,
            n * n <= 0x4000_0000,
            routes_cache.wf(),
            sub_topology(graph_edges(*network), routes_cache.base@),
            nodes_dense(*network),
            graph_nodes(*network).len() == n as int,
            connected_over(graph_edges(*network), graph_nodes(*network)),
            m == graph_edges(*network),
            im == matrix_view(*intensity_matrix),
            matrix_wf(im),
            intensity_matrix@.len() == n as int,
            matrix_total(im) < 0x1_0000_0000,
            edge_ids_below(routes_cache.base@, num_edges as int),
            flows@.len() == num_edges,
            routes_g.len() == i * n,
            forall|k: int|
                0 <= k < i * n ==> choice_ok(m, *routes_cache, k, #[trigger] routes_g[k]),
            forall|k: int| 0 <= k < i * n ==> (#[trigger] routes_g[k]).no_duplicates(),
            flows_view(flows@) == flows_upto(im, routes_g, num_edges as int, (i * n) as int),
        decreases n - i,
    {
        let mut j: usize = 0;
        while j < n
            invariant
                0 <= i < n,
                0 <= j <= n,
                n == routes_cache.n,
                n < 0x8000,
                n * n <= 0x4000_0000,
                routes_cache.wf(),
                sub_topology(graph_edges(*network), routes_cache.base@),
                nodes_dense(*network),
                graph_nodes(*network).len() == n as int,
                connected_over(graph_edges(*network), graph_nodes(*network)),
                m == graph_edges(*network),
                im == matrix_view(*intensity_matrix),
                matrix_wf(im),
                intensity_matrix@.len() == n as int,
                matrix_total(im) < 0x1_0000_0000,
                edge_ids_below(routes_cache.base@, num_edges as int),
                flows@.len() == num_edges,
                routes_g.len() == i * n + j,
                forall|k: int|
                    0 <= k < i * n + j ==> choice_ok(m, *routes_cache, k, #[trigger] routes_g[k]),
                forall|k: int| 0 <= k < i * n + j ==> (#[trigger] routes_g[k]).no_duplicates(),
                flows_view(flows@) == flows_upto(im, routes_g, num_edges as int, (i * n + j) as int),
            decreases n - j,
        {
            let ghost k = (i * n + j) as int;
            let ghost oldg = routes_g;
            let ghost oldflows = flows_view(flows@);
            let ghost mut used: Seq<int> = Seq::empty();
            proof {
                assert(i * n + j < n * n && (i + 1) * n <= n * n) by (nonlinear_arith)
                    requires 0 <= i < n && 0 <= j < n;
                lemma_fundamental_div_mod_converse(k, n as int, i as int, j as int);
                lemma_flows_upto_len(im, routes_g, num_edges as int, k);
            }
            proof {
                assert(im[i as int] == intensity_matrix@[i as int]@);
                assert(im[i as int].len() == im.len());
            }
            let intensity = intensity_matrix[i][j];
            proof {
                assert(im[i as int] == intensity_matrix@[i as int]@);
                assert(pair_intensity(im, k) == if i == j { 0int } else { intensity as int });
                // the per-edge budget: what is routed so far plus this pair
                // stays below the total
                lemma_intens_sum_monotone(im, k + 1, (n * n) as int);
                assert forall|e: int| 0 <= e < flows@.len() implies #[trigger] flows@[e]
                    < 0x1_0000_0000 - intensity by {
                    lemma_flows_upto_bound(im, routes_g, num_edges as int, k, e);
                    assert(flows_view(flows@)[e] == flows@[e] as int);
                    assert(flows@[e] as int <= intens_sum_upto(im, k));
                    assert(intens_sum_upto(im, k) + pair_intensity(im, k) == intens_sum_upto(
                        im,
                        k + 1,
                    ));
                    if i != j {
                        assert(intensity as int == pair_intensity(im, k));
                    } else {
                        assert(im[i as int][i as int] == 0);
                    }
                }
            }
            if i != j {
                let cached = routes_cache.get(i, j);
                proof {
                    assert(routes_cache.route_at(k) == route_view(cached@));
                    assert(routes_cache.entry_ok(k));
                }
                if check_cached_route_is_valid(network, cached) {
                    proof {
                        // cached edges live in the base topology, hence below
                        // num_edges
                        let p = choose|p: Seq<int>|
                            #[trigger] crate::model::route_witnessed_by(
                                routes_cache.base@,
                                i as int,
                                j as int,
                                route_view(cached@),
                                p,
                            );
                        assert forall|t: int| 0 <= t < cached@.len() implies #[trigger] cached@[t]
                            < flows@.len() by {
                            assert(routes_cache.base@.dom().contains(route_view(cached@)[t]));
                            assert(route_view(cached@)[t] == cached@[t] as int);
                        }
                    }
                    flows = add_flow_along(flows, cached, intensity);
                    proof {
                        used = routes_cache.route_at(k);
                        routes_g = routes_g.push(used);
                    }
                } else {
                    proof {
                        lemma_connected_pairwise(m, graph_nodes(*network), i as int, j as int);
                    }
                    match astar_route(network, i as u32, j as u32) {
                        Some(path) => {
                            let route = path_to_edges(
                                network,
                                &path,
                                Ghost(i as int),
                                Ghost(j as int),
                            );
                            proof {
                                let p = choose|p: Seq<int>|
                                    #[trigger] crate::model::route_witnessed_by(
                                        m,
                                        i as int,
                                        j as int,
                                        route_view(route@),
                                        p,
                                    );
                                assert forall|t: int| 0 <= t < route@.len() implies #[trigger] route@[t]
                                    < flows@.len() by {
                                    assert(m.dom().contains(route_view(route@)[t]));
                                    assert(routes_cache.base@.dom().contains(
                                        route_view(route@)[t],
                                    ));
                                    assert(route_view(route@)[t] == route@[t] as int);
                                }
                            }
                            flows = add_flow_along(flows, &route, intensity);
                            proof {
                                used = route_view(route@);
                                assert(used.len() == path@.len() - 1);
                                assert(no_shorter_path(m, i as int, j as int, used.len() as int));
                                routes_g = routes_g.push(used);
                            }
                        },
                        None => {
                            proof {
                                assert(false);
                            }
                        },
                    }
                }
            } else {
                proof {
                    routes_g = routes_g.push(used);
                }
            }
            proof {
                assert(routes_g =~= oldg.push(used));
                assert(routes_g.len() == k + 1);
                assert(routes_g[k] == used);
                assert(oldg =~= routes_g.drop_last());
                lemma_flows_upto_prefix(im, oldg, routes_g, num_edges as int, k);
                assert(flows_upto(im, routes_g, num_edges as int, k + 1) == bump(
                    flows_upto(im, routes_g, num_edges as int, k),
                    routes_g[k],
                    pair_intensity(im, k),
                ));
                if i == j {
                    assert(used =~= Seq::<int>::empty());
                    assert(flows_view(flows@) == oldflows);
                    assert(bump(flows_upto(im, routes_g, num_edges as int, k), used,
                        pair_intensity(im, k)) == flows_upto(im, routes_g, num_edges as int, k));
                } else {
                    assert(pair_intensity(im, k) == intensity as int);
                    assert(flows_view(flows@) == bump(oldflows, used, intensity as int));
                    assert(oldflows == flows_upto(im, oldg, num_edges as int, k));
                }
                assert(flows_view(flows@) == flows_upto(im, routes_g, num_edges as int, k + 1));
                assert(choice_ok(m, *routes_cache, k, routes_g[k]));
                assert(routes_g[k].no_duplicates());
            }
            j = j + 1;
        }
        proof {
            assert((i + 1) * n == i * n + n) by (nonlinear_arith);
        }
        i = i + 1;
    }
    proof {
        assert(routes_g.len() == n * n);
        assert(flows_view(flows@) == flows_upto(im, routes_g, num_edges as int, (n * n) as int));
        if cache_all_present(m, *routes_cache) {
            assert forall|k: int| 0 <= k < n * n implies routes_g[k] == cache_routes_seq(
                *routes_cache,
            )[k] by {
                let nn = n as int;
                assert(choice_ok(m, *routes_cache, k, routes_g[k]));
                assert(route_edges_present(m, routes_cache.route_at(k)));
                if k / nn == k % nn {
                    assert(routes_cache.entry_ok(k));
                    assert(routes_cache.route_at(k).len() == 0);
                    assert(routes_g[k] =~= routes_cache.route_at(k));
                }
            }
            assert(routes_g =~= cache_routes_seq(*routes_cache));
        }
    }
    flows
}

} // verus!
