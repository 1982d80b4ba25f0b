use vstd::prelude::*;
use crate::flows::flows_view;
use crate::graph::{edge_endpoints_raw, graph_edges, Network};
use crate::model::{
    capacity_ok, delay_ok, delay_sum, edge_ids_below, intens_sum_upto, lemma_delay_sum_none_persists,
    lemma_intens_sum_monotone, matrix_total, matrix_view, matrix_wf, DELAY_SCALE,
};
use crate::{NodesMatrix, PACKET_SIZE};
use vstd::arithmetic::div_mod::lemma_fundamental_div_mod_converse;

verus! {

/// The outcome of the delay estimation for one trial.  A finite outcome
/// carries the fixed-point sum of the per-edge M/M/1 terms — each term is
/// `flow / (capacity / PACKET_SIZE - flow)` with the exact rational service
/// rate, i.e. `floor(flow * PACKET_SIZE * DELAY_SCALE / (capacity - flow *
/// PACKET_SIZE))` — together with the total traffic intensity; the average
/// delay it stands for is `scaled_sum / (DELAY_SCALE * total_intensity)`.
/// The outcome is infinite when some present edge's load `flow *
/// PACKET_SIZE` has reached its capacity — a boundary the floor-dividing
/// capacity check deliberately admits — and such a trial never meets the
/// delay threshold.
#[derive(Clone, Copy, Debug, PartialEq, Eq)]
pub enum DelayValue {
    Infinite,
    Finite { scaled_sum: u128, total_intensity: u32 },
}

/// The threshold test on a delay outcome: the average delay must lie
/// strictly below `t_num / t_den`; an infinite delay never does.
pub open spec fn delay_value_ok(d: DelayValue, t_num: int, t_den: int) -> bool {
    match d {
        DelayValue::Infinite => false,
        DelayValue::Finite { scaled_sum, total_intensity } => delay_ok(
            Some(scaled_sum as int),
            total_intensity as int,
            t_num,
            t_den,
        ),
    }
}

/// Check that every present edge's flow fits under its capacity, measured
/// in packets: an edge fails when `capacity / PACKET_SIZE < flow`.
pub fn check_edges_capacity(capacities: &Vec<u32>, network: &Network, flows: &Vec<u32>) -> (r:
    bool)
    requires
        flows@.len() == capacities@.len(),
        capacities@.len() < 0x1_0000_0000,
        edge_ids_below(graph_edges(*network), capacities@.len() as int),
    ensures
        r == capacity_ok(
            graph_edges(*network),
            flows_view(flows@),
            capacities@,
            capacities@.len() as int,
        ),
{
    let ghost m = graph_edges(*network);
    let mut id: usize = 0;
    while id < capacities.len()
        invariant
            0 <= id <= capacities@.len(),
            capacities@.len() < 0x1_0000_0000,
            flows@.len() == capacities@.len(),
            m == graph_edges(*network),
            forall|x: int|
                0 <= x < id && #[trigger] m.dom().contains(x) ==> flows_view(flows@)[x]
                    <= capacities@[x] as int / (PACKET_SIZE as int),
        decreases capacities@.len() - id,
    {
        match edge_endpoints_raw(network, id as u32) {
            Some(_) => {
                let capacity = capacities[id];
                let flow = flows[id];
                if capacity / PACKET_SIZE < flow {
                    proof {
                        assert(m.dom().contains(id as int));
                        assert(flows_view(flows@)[id as int] == flow as int);
                    }
                    return false;
                }
                proof {
                    assert(flows_view(flows@)[id as int] == flow as int);
                }
            },
            None => {},
        }
        id = id + 1;
    }
    true
}

/// Sum every entry of the intensity matrix.
pub fn sum_intensities(intensity_matrix: &NodesMatrix) -> (r: u32)
    requires
        matrix_wf(matrix_view(*intensity_matrix)),
        matrix_total(matrix_view(*intensity_matrix)) < 0x1_0000_0000,
    ensures
        r as int == matrix_total(matrix_view(*intensity_matrix)),
{
    let ghost im = matrix_view(*intensity_matrix);
    let n = intensity_matrix.len();
    let mut s: u32 = 0;
    let mut i: usize = 0;
    proof {
        assert(im.len() == n as int);
        assert(0 <= n * n) by (nonlinear_arith)
            requires n >= 0;
    }
    while i < n
        invariant
            0 <= i <= n,
            im == matrix_view(*intensity_matrix),
            matrix_wf(im),
            im.len() == n as int,
            intensity_matrix@.len() == n as int,
            matrix_total(im) < 0x1_0000_0000,
            s as int == intens_sum_upto(im, (i * n) as int),
        decreases n - i,
    {
        let mut j: usize = 0;
        while j < n
            invariant
                0 <= i < n,
                0 <= j <= n,
                im == matrix_view(*intensity_matrix),
                matrix_wf(im),
                im.len() == n as int,
                intensity_matrix@.len() == n as int,
                matrix_total(im) < 0x1_0000_0000,
                s as int == intens_sum_upto(im, (i * n + j) as int),
            decreases n - j,
        {
            let ghost k = (i * n + j) as int;
            proof {
                assert(i * n + j < n * n && (i + 1) * n <= n * n) by (nonlinear_arith)
                    requires 0 <= i < n && 0 <= j < n;
                lemma_fundamental_div_mod_converse(k, n as int, i as int, j as int);
                lemma_intens_sum_monotone(im, k + 1, (n * n) as int);
                assert(im[i as int] == intensity_matrix@[i as int]@);
                assert(im[i as int].len() == im.len());
                if i == j {
                    assert(im[i as int][i as int] == 0);
                }
            }
            s = s + intensity_matrix[i][j];
            j = j + 1;
        }
        proof {
            assert((i + 1) * n == i * n + n) by (nonlinear_arith);
        }
        i = i + 1;
    }
    proof {
        assert(i * n == n * n);
    }
    s
}

/// Estimate the average queueing delay from the aggregated flows: the
/// fixed-point sum over the present edges of
/// `flow / (capacity / PACKET_SIZE - flow)` with the exact rational service
/// rate, divided — at threshold-test time — by the total intensity.  An
/// edge whose load `flow * PACKET_SIZE` has reached its capacity makes the
/// delay infinite.
pub fn calculate_delay(
    intensity_matrix: &NodesMatrix,
    network: &Network,
    capacities: &Vec<u32>,
    flows: &Vec<u32>,
) -> (r: DelayValue)
    requires
        matrix_wf(matrix_view(*intensity_matrix)),
        matrix_total(matrix_view(*intensity_matrix)) < 0x1_0000_0000,
        flows@.len() == capacities@.len(),
        capacities@.len() < 0x1_0000_0000,
        edge_ids_below(graph_edges(*network), capacities@.len() as int),
    ensures
        (r == DelayValue::Infinite) <==> delay_sum(
            graph_edges(*network),
            flows_view(flows@),
            capacities@,
            capacities@.len() as int,
        ) is None,
        (r matches DelayValue::Finite { scaled_sum, total_intensity } ==> Some(
            scaled_sum as int,
        ) == delay_sum(
            graph_edges(*network),
            flows_view(flows@),
            capacities@,
            capacities@.len() as int,
        ) && total_intensity as int == matrix_total(matrix_view(*intensity_matrix))),
{
    let ghost m = graph_edges(*network);
    let ghost fv = flows_view(flows@);
    let total = sum_intensities(intensity_matrix);
    let mut acc: u128 = 0;
    let mut id: usize = 0;
    while id < capacities.len()
        invariant
            0 <= id <= capacities@.len(),
            capacities@.len() < 0x1_0000_0000,
            flows@.len() == capacities@.len(),
            m == graph_edges(*network),
            fv == flows_view(flows@),
            delay_sum(m, fv, capacities@, id as int) == Some(acc as int),
            acc as int <= id * 0x4_0000_0000_0000_0000,
        decreases capacities@.len() - id,
    {
        match edge_endpoints_raw(network, id as u32) {
            Some(_) => {
                let flow = flows[id];
                let load: u64 = flow as u64 * PACKET_SIZE as u64;
                let cap: u64 = capacities[id] as u64;
                proof {
                    assert(fv[id as int] == flow as int);
                    assert(load as int == fv[id as int] * (PACKET_SIZE as int));
                }
                if load >= cap {
                    proof {
                        assert(delay_sum(m, fv, capacities@, id as int + 1) is None);
                        lemma_delay_sum_none_persists(
                            m,
                            fv,
                            capacities@,
                            id as int + 1,
                            capacities@.len() as int,
                        );
                    }
                    return DelayValue::Infinite;
                }
                let term: u128 = (load as u128 * (DELAY_SCALE as u128)) / ((cap - load) as u128);
                proof {
                    assert(load as u128 * (DELAY_SCALE as u128) < 0x4_0000_0000_0000_0000)
                        by (nonlinear_arith)
                        requires
                            load < 0x4000_0000_0000u64,
                            DELAY_SCALE == 1_000_000u64;
                    assert(term <= load as u128 * (DELAY_SCALE as u128)) by {
                        vstd::arithmetic::div_mod::lemma_div_is_ordered_by_denominator(
                            (load as u128 * (DELAY_SCALE as u128)) as int,
                            1,
                            ((cap - load) as u128) as int,
                        );
                    }
                    assert(acc as int + term as int <= (id + 1) * 0x4_0000_0000_0000_0000)
                        by (nonlinear_arith)
                        requires
                            acc as int <= id * 0x4_0000_0000_0000_0000,
                            term < 0x4_0000_0000_0000_0000,
                            id >= 0;
                    assert((id + 1) * 0x4_0000_0000_0000_0000 < 0x1_0000_0000
                        * 0x4_0000_0000_0000_0000) by (nonlinear_arith)
                        requires 0 <= id < 0x1_0000_0000 - 1;
                }
                acc = acc + term;
            },
            None => {},
        }
        id = id + 1;
    }
    DelayValue::Finite { scaled_sum: acc, total_intensity: total }
}

/// Decide whether a trial's delay outcome lies strictly below the threshold
/// `t_num / t_den`.
pub fn meets_threshold(t: &DelayValue, t_num: u32, t_den: u32) -> (r: bool)
    requires
        t_den > 0,
    ensures
        r == delay_value_ok(*t, t_num as int, t_den as int),
{
    match t {
        DelayValue::Infinite => false,
        DelayValue::Finite { scaled_sum, total_intensity } => {
            let s: u128 = *scaled_sum;
            let a: u128 = *total_intensity as u128;
            if s >= 0x40_0000_0000_0000_0000_0000 {
                proof {
                    assert(s as int * t_den as int >= s as int) by (nonlinear_arith)
                        requires t_den >= 1 && s >= 0;
                    assert((t_num as int) * (a as int) * (DELAY_SCALE as int)
                        < 0x40_0000_0000_0000_0000_0000) by (nonlinear_arith)
                        requires
                            t_num < 0x1_0000_0000,
                            a < 0x1_0000_0000,
                            DELAY_SCALE == 1_000_000u64;
                }
                false
            } else {
                proof {
                    assert(s * (t_den as u128) < 0x40_0000_0000_0000_0000_0000 * 0x1_0000_0000)
                        by (nonlinear_arith)
                        requires s < 0x40_0000_0000_0000_0000_0000 && t_den < 0x1_0000_0000;
                    assert((t_num as u128) * a < 0x1_0000_0000_0000_0000) by (nonlinear_arith)
                        requires t_num < 0x1_0000_0000 && a < 0x1_0000_0000;
                    assert((t_num as u128) * a * (DELAY_SCALE as u128) < 0x10_0000_0000_0000_0000_0000)
                        by (nonlinear_arith)
                        requires t_num < 0x1_0000_0000 && a < 0x1_0000_0000 && DELAY_SCALE
                            == 1_000_000u64;
                }
                s * (t_den as u128) < (t_num as u128) * a * (DELAY_SCALE as u128)
            }
        },
    }
}

} // verus!
