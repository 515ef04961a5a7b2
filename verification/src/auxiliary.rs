//! The state of the greedy pass: supply tokens, the network as one scenario
//! sees it, the scenarios and the auxiliary network that holds them.
use vstd::prelude::*;

use crate::algorithms::{
    agree, back_chain, fw_pred, lemma_chain_first_step, lemma_chains_short_congruent, lemma_fw_no_overflow_congruent, chains_short, lemma_back_chain, pred_path, reaches_back, fw_no_overflow, fw_result, same_network, successor, try_floyd_warshall,
    try_invert_predecessors,
};
use crate::error::{decimal, push_decimal, SolverError};
use crate::network::Network;
use crate::options::DeltaFunction;
use crate::preprocessing::{
    arc_set_inputs, connects, fresh_token, generate_intermediate_arc_sets, generate_supply_tokens,
    in_arc_set, lemma_fresh_tokens_count, lemma_sorted_in_flight, lemma_sorted_members,
    lemma_token_pairs_count, same_matrix, sort_by_distance, sorted_by_distance, supply_tokens_of,
    token_pairs,
};
use crate::matrix::{flat, Matrix};
use crate::options::{draw_fits, draw_spec, RelativeDrawFunction, RemainderSolveMethod};

verus! {

/// One unit of supply on its way from `origin` to `t`; it currently waits at
/// `s`. It may only use the arcs of its intermediate arc set, and keeps the
/// distances and successors of the last routing over that set.
#[derive(Debug, Clone)]
pub struct SupplyToken {
    pub origin: usize,
    pub s: usize,
    pub t: usize,
    pub intermediate_arc_set: Matrix<bool>,
    pub distances: Matrix<usize>,
    pub successors: Matrix<usize>,
}

/// `m` is `capacities` with every cell outside `mask` set to zero.
pub open spec fn masks(m: Matrix<usize>, capacities: Matrix<usize>, mask: Matrix<bool>) -> bool {
    &&& m.wf()
    &&& m.nrows() == capacities.nrows()
    &&& m.ncols() == capacities.ncols()
    &&& forall|i: int, j: int|
        m.contains(i, j) ==> #[trigger] m.at(i, j) == if mask.at(i, j) {
            capacities.at(i, j)
        } else {
            0
        }
}

/// The token's distances and successors are those of Floyd-Warshall on `m`,
/// the capacities restricted to its intermediate arc set, with predecessors
/// `prev` whose chains all end at their source.
pub open spec fn routes_with(
    token: SupplyToken,
    capacities: Matrix<usize>,
    costs: Matrix<usize>,
    m: Matrix<usize>,
    prev: Matrix<Option<usize>>,
) -> bool {
    &&& masks(m, capacities, token.intermediate_arc_set)
    &&& fw_no_overflow(m, costs)
    &&& fw_result(m, costs, token.distances, prev)
    &&& chains_short(prev)
    &&& token.successors.wf()
    &&& token.successors.is_square(capacities.nrows())
    &&& forall|a: int, b: int|
        token.successors.contains(a, b) ==> #[trigger] token.successors.at(a, b) == successor(
            prev,
            a,
            b,
        )
}

/// The token's distances and successors are those of Floyd-Warshall on the
/// capacities restricted to its intermediate arc set.
pub open spec fn routes_through(token: SupplyToken, capacities: Matrix<usize>, costs: Matrix<usize>) -> bool {
    exists|m: Matrix<usize>, prev: Matrix<Option<usize>>|
        #[trigger] routes_with(token, capacities, costs, m, prev)
}

/// The routing over the token's arc set cannot be computed: Floyd-Warshall
/// overflows, or a predecessor chain does not end at its source.
pub open spec fn routing_fails(token: SupplyToken, capacities: Matrix<usize>, costs: Matrix<usize>) -> bool {
    exists|m: Matrix<usize>|
        #![trigger masks(m, capacities, token.intermediate_arc_set)]
        masks(m, capacities, token.intermediate_arc_set) && (!fw_no_overflow(m, costs)
            || exists|d: Matrix<usize>, prev: Matrix<Option<usize>>|
            #![trigger fw_result(m, costs, d, prev)]
            fw_result(m, costs, d, prev) && !chains_short(prev))
}

impl SupplyToken {
    /// The token as text: where it comes from, where it goes and where it
    /// waits.
    pub open spec fn spec_describe(self) -> Seq<char> {
        "(origin="@ + decimal(self.origin as nat) + ", destination="@ + decimal(self.t as nat)
            + ", currently at="@ + decimal(self.s as nat) + ")"@
    }

    /// The token as text: where it comes from, where it goes and where it
    /// waits.
    pub fn describe(&self) -> (text: String)
        ensures
            text@ == self.spec_describe(),
    {
        let mut text = String::from_str("(origin=");
        push_decimal(&mut text, self.origin);
        text.append(", destination=");
        push_decimal(&mut text, self.t);
        text.append(", currently at=");
        push_decimal(&mut text, self.s);
        text.append(")");
        text
    }

    /// Some arc of the intermediate arc set has no capacity left.
    pub open spec fn spec_needs_refresh(self, capacities: Matrix<usize>) -> bool {
        exists|i: int, j: int|
            #![trigger self.intermediate_arc_set.at(i, j)]
            self.intermediate_arc_set.contains(i, j) && self.intermediate_arc_set.at(i, j)
                && capacities.at(i, j) == 0
    }

    /// Whether some arc of the intermediate arc set has run out of capacity.
    pub fn needs_refresh(&self, capacities: &Matrix<usize>) -> (b: bool)
        requires
            self.intermediate_arc_set.wf(),
            capacities.wf(),
            capacities.nrows() == self.intermediate_arc_set.nrows(),
            capacities.ncols() == self.intermediate_arc_set.ncols(),
        ensures
            b == self.spec_needs_refresh(*capacities),
    {
        let rows = self.intermediate_arc_set.num_rows();
        let columns = self.intermediate_arc_set.num_columns();
        let mut i: usize = 0;
        while i < rows
            invariant
                self.intermediate_arc_set.wf(),
                capacities.wf(),
                rows == self.intermediate_arc_set.nrows(),
                columns == self.intermediate_arc_set.ncols(),
                capacities.nrows() == rows,
                capacities.ncols() == columns,
                i <= rows,
                forall|a: int, b: int|
                    0 <= a < i && 0 <= b < columns ==> !(#[trigger] self.intermediate_arc_set.at(
                        a,
                        b,
                    ) && capacities.at(a, b) == 0),
            decreases rows - i,
        {
            let mut j: usize = 0;
            while j < columns
                invariant
                    self.intermediate_arc_set.wf(),
                    capacities.wf(),
                    rows == self.intermediate_arc_set.nrows(),
                    columns == self.intermediate_arc_set.ncols(),
                    capacities.nrows() == rows,
                    capacities.ncols() == columns,
                    i < rows,
                    j <= columns,
                    forall|a: int, b: int|
                        0 <= a < rows && 0 <= b < columns && (a < i || (a == i && b < j)) ==> !(
                        #[trigger] self.intermediate_arc_set.at(a, b) && capacities.at(a, b) == 0),
                decreases columns - j,
            {
                if *self.intermediate_arc_set.get(i, j) && *capacities.get(i, j) == 0 {
                    return true;
                }
                j = j + 1;
            }
            i = i + 1;
        }
        false
    }
}

/// The network as one scenario sees it while its supply is routed: the
/// remaining capacities, the loads placed so far and, for each fixed arc,
/// how strongly it draws supply.
#[derive(Debug, Clone)]
pub struct NetworkState {
    pub scenario_id: usize,
    pub fixed_arcs: Vec<(usize, usize)>,
    pub relative_draws: Vec<i64>,
    pub capacities: Matrix<usize>,
    pub costs: Matrix<usize>,
    pub arc_loads: Matrix<usize>,
}

/// `x - y`, saturating at the bounds of `i64`.
pub open spec fn saturating_sub_i64(x: i64, y: i64) -> i64 {
    let d = x - y;
    if d > i64::MAX {
        i64::MAX
    } else if d < i64::MIN {
        i64::MIN
    } else {
        d as i64
    }
}

fn sub_saturating(x: i64, y: i64) -> (d: i64)
    ensures
        d == saturating_sub_i64(x, y),
{
    match x.checked_sub(y) {
        Some(d) => d,
        None => {
            if y > 0 {
                i64::MIN
            } else {
                i64::MAX
            }
        },
    }
}

impl NetworkState {
    /// The matrices describe a network of `n` vertices, the fixed arcs lie
    /// in it and each has its draw.
    pub open spec fn wf(self, n: nat) -> bool {
        &&& same_network(self.capacities, self.costs, n)
        &&& self.arc_loads.wf()
        &&& self.arc_loads.is_square(n)
        &&& self.relative_draws@.len() == self.fixed_arcs@.len()
        &&& forall|k: int|
            0 <= k < self.fixed_arcs@.len() ==> (#[trigger] self.fixed_arcs@[k]).0 < n
                && self.fixed_arcs@[k].1 < n
    }

    /// The token lives in this network: its vertices exist and its matrices
    /// have the network's size.
    pub open spec fn holds(self, token: SupplyToken) -> bool {
        let n = self.capacities.nrows();
        &&& token.s < n
        &&& token.t < n
        &&& token.origin < n
        &&& token.intermediate_arc_set.wf()
        &&& token.intermediate_arc_set.is_square(n)
    }

    /// The cost of reaching `t` from `s` through the fixed arc `k`: the
    /// saturating sum of the distance to its tail, its cost and the distance
    /// from its head, as seen by `token`.
    pub open spec fn cost_through(self, token: SupplyToken, k: int) -> int {
        let a = self.fixed_arcs@[k];
        let first = token.distances.at(token.s as int, a.0 as int) + self.costs.at(
            a.0 as int,
            a.1 as int,
        );
        let first_sat = if first > usize::MAX {
            usize::MAX as int
        } else {
            first
        };
        let total = first_sat + token.distances.at(a.1 as int, token.t as int);
        if total > usize::MAX {
            usize::MAX as int
        } else {
            total
        }
    }

    /// The fixed arc `k` is a candidate: it lies in the token's arc set and
    /// can be reached and left.
    pub open spec fn candidate(self, token: SupplyToken, k: int) -> bool {
        let a = self.fixed_arcs@[k];
        &&& token.intermediate_arc_set.at(a.0 as int, a.1 as int)
        &&& self.cost_through(token, k) != usize::MAX
    }

    /// The cost of the route through the fixed arc `k` less its draw.
    pub open spec fn drawn_cost(self, token: SupplyToken, k: int) -> i64 {
        saturating_sub_i64(self.cost_through(token, k) as i64, self.relative_draws@[k])
    }

    /// The first step of the route through the fixed arc `k`.
    pub open spec fn step_towards(self, token: SupplyToken, k: int) -> usize {
        let a = self.fixed_arcs@[k];
        if token.s == a.0 {
            a.1
        } else {
            token.successors.at(token.s as int, a.0 as int)
        }
    }

    /// Among the first `k` fixed arcs, the first step and the drawn cost of
    /// the cheapest candidate, the earliest on ties; `(usize::MAX, i64::MAX)`
    /// when there is none.
    pub open spec fn closest_among(self, token: SupplyToken, k: int) -> (usize, i64)
        decreases k,
    {
        if k <= 0 {
            (usize::MAX, i64::MAX)
        } else {
            let best = self.closest_among(token, k - 1);
            if self.candidate(token, k - 1) && self.drawn_cost(token, k - 1) < best.1 {
                (self.step_towards(token, k - 1), self.drawn_cost(token, k - 1))
            } else {
                best
            }
        }
    }

    /// Where the token moves next, given its current routing: along its
    /// direct shortest path unless the route through the closest fixed arc,
    /// less that arc's draw, is at most as long.
    pub open spec fn next_step(self, token: SupplyToken) -> Result<usize, SolverError> {
        let direct = token.successors.at(token.s as int, token.t as int);
        let closest = self.closest_among(token, self.fixed_arcs@.len() as int);
        let direct_cost = token.distances.at(token.s as int, token.t as int);
        if direct == usize::MAX {
            Err(SolverError::NoFeasibleFlowError(self.scenario_id))
        } else if closest.0 == usize::MAX || closest.1 == i64::MAX {
            Ok(direct)
        } else if direct_cost == usize::MAX {
            Err(SolverError::NoFeasibleFlowError(self.scenario_id))
        } else if (direct_cost as i64) < closest.1 {
            Ok(direct)
        } else {
            Ok(closest.0)
        }
    }

    /// Routes the token anew over the remaining capacities of its arc set.
    pub fn refresh_token(&self, token: &mut SupplyToken) -> (r: Result<(), SolverError>)
        requires
            self.wf(self.capacities.nrows()),
            self.holds(*old(token)),
        ensures
            final(token).origin == old(token).origin,
            final(token).s == old(token).s,
            final(token).t == old(token).t,
            final(token).intermediate_arc_set == old(token).intermediate_arc_set,
            r is Ok ==> routes_through(*final(token), self.capacities, self.costs),
            r is Ok ==> final(token).distances.wf() && final(token).distances.is_square(
                self.capacities.nrows(),
            ),
            r matches Err(e) ==> e == SolverError::PathMatrixCorruptError && routing_fails(
                *old(token),
                self.capacities,
                self.costs,
            ) && *final(token) == *old(token),
            r is Ok ==> !routing_fails(*old(token), self.capacities, self.costs),
    {
        let n = self.capacities.num_rows();
        let masked = self.capacities.apply_mask(&token.intermediate_arc_set, 0);
        proof {
            assert forall|i: int, j: int| masked.contains(i, j) implies #[trigger] masked.at(i, j)
                == if token.intermediate_arc_set.at(i, j) {
                self.capacities.at(i, j)
            } else {
                0
            } by {
                crate::matrix::lemma_flat_in_bounds(i, j, n as int, n as int);
            }
            assert(masks(masked, self.capacities, token.intermediate_arc_set));
        }
        let (distances, predecessors) = match try_floyd_warshall(&masked, &self.costs) {
            Some(res) => res,
            None => {
                proof {
                    assert(routing_fails(*token, self.capacities, self.costs));
                }
                return Err(SolverError::PathMatrixCorruptError);
            },
        };
        let successors = match try_invert_predecessors(&predecessors) {
            Ok(succ) => succ,
            Err(e) => {
                proof {
                    assert(fw_result(masked, self.costs, distances, predecessors));
                    assert(routing_fails(*token, self.capacities, self.costs));
                }
                return Err(e);
            },
        };
        token.distances = distances;
        token.successors = successors;
        proof {
            assert(masks(masked, self.capacities, token.intermediate_arc_set));
            assert(fw_result(masked, self.costs, token.distances, predecessors));
            assert(routes_with(*token, self.capacities, self.costs, masked, predecessors));
            lemma_routes_exclusive(*token, self.capacities, self.costs, masked, predecessors);
        }
        Ok(())
    }

    /// Sends the token over the arc from its vertex to `next_vertex`: the
    /// arc leaves its arc set, gains one unit of load and loses one unit of
    /// capacity.
    pub fn use_arc(&mut self, token: &mut SupplyToken, next_vertex: usize)
        requires
            old(self).wf(old(self).capacities.nrows()),
            old(self).holds(*old(token)),
            next_vertex < old(self).capacities.nrows(),
        ensures
            final(self).wf(final(self).capacities.nrows()),
            final(self).capacities.nrows() == old(self).capacities.nrows(),
            final(self).holds(*final(token)),
            final(self).scenario_id == old(self).scenario_id,
            final(self).fixed_arcs == old(self).fixed_arcs,
            final(self).relative_draws == old(self).relative_draws,
            final(self).costs == old(self).costs,
            final(token).origin == old(token).origin,
            final(token).s == old(token).s,
            final(token).t == old(token).t,
            final(token).distances == old(token).distances,
            final(token).successors == old(token).successors,
            final(token).intermediate_arc_set.cells() == old(token).intermediate_arc_set.cells().update(
                flat(old(token).s as int, next_vertex as int, old(self).capacities.nrows() as int),
                false,
            ),
            old(self).arc_loads.at(old(token).s as int, next_vertex as int) < usize::MAX ==> final(self).arc_loads.cells() == old(self).arc_loads.cells().update(
                flat(old(token).s as int, next_vertex as int, old(self).capacities.nrows() as int),
                (old(self).arc_loads.at(old(token).s as int, next_vertex as int) + 1) as usize,
            ),
            old(self).arc_loads.at(old(token).s as int, next_vertex as int) == usize::MAX ==> final(self).arc_loads == old(self).arc_loads,
            old(self).capacities.at(old(token).s as int, next_vertex as int) > 0 ==> final(self).capacities.cells() == old(self).capacities.cells().update(
                flat(old(token).s as int, next_vertex as int, old(self).capacities.nrows() as int),
                (old(self).capacities.at(old(token).s as int, next_vertex as int) - 1) as usize,
            ),
            old(self).capacities.at(old(token).s as int, next_vertex as int) == 0 ==> final(self).capacities == old(self).capacities,
    {
        token.intermediate_arc_set.set(token.s, next_vertex, false);
        let _ = self.arc_loads.increment(token.s, next_vertex);
        let _ = self.capacities.decrement(token.s, next_vertex);
    }

    /// The first step towards the cheapest fixed arc in the token's arc set
    /// and the cost of the route through it less its draw, or
    /// `(usize::MAX, i64::MAX)` when no fixed arc can be used.
    pub fn get_closest_fixed_arc(&self, token: &SupplyToken) -> (r: (usize, i64))
        requires
            self.wf(self.capacities.nrows()),
            self.holds(*token),
            token.distances.wf(),
            token.distances.is_square(self.capacities.nrows()),
            token.successors.wf(),
            token.successors.is_square(self.capacities.nrows()),
        ensures
            r == self.closest_among(*token, self.fixed_arcs@.len() as int),
    {
        let mut vertex = usize::MAX;
        let mut cost = i64::MAX;
        let mut k: usize = 0;
        while k < self.fixed_arcs.len()
            invariant
                self.wf(self.capacities.nrows()),
                self.holds(*token),
                token.distances.wf(),
                token.distances.is_square(self.capacities.nrows()),
                token.successors.wf(),
                token.successors.is_square(self.capacities.nrows()),
                k <= self.fixed_arcs@.len(),
                (vertex, cost) == self.closest_among(*token, k as int),
            decreases self.fixed_arcs@.len() - k,
        {
            let fixed_arc = self.fixed_arcs[k];
            proof {
                assert(self.fixed_arcs@[k as int] == fixed_arc);
            }
            if *token.intermediate_arc_set.get(fixed_arc.0, fixed_arc.1) {
                let via = token.distances.get(token.s, fixed_arc.0).saturating_add(
                    *self.costs.get(fixed_arc.0, fixed_arc.1),
                ).saturating_add(*token.distances.get(fixed_arc.1, token.t));
                if via != usize::MAX {
                    let drawn = sub_saturating(via as i64, self.relative_draws[k]);
                    if drawn < cost {
                        cost = drawn;
                        vertex = if token.s == fixed_arc.0 {
                            fixed_arc.1
                        } else {
                            *token.successors.get(token.s, fixed_arc.0)
                        };
                    }
                }
            }
            k = k + 1;
        }
        (vertex, cost)
    }

    /// Routes the token anew and picks the vertex it moves to next: along
    /// its direct shortest path, or towards the closest fixed arc when the
    /// route through it, less the arc's draw, is at most as long. Fails when
    /// the token cannot reach its destination.
    pub fn get_next_vertex(&self, token: &mut SupplyToken) -> (r: Result<usize, SolverError>)
        requires
            self.wf(self.capacities.nrows()),
            self.holds(*old(token)),
        ensures
            final(token).origin == old(token).origin,
            final(token).s == old(token).s,
            final(token).t == old(token).t,
            final(token).intermediate_arc_set == old(token).intermediate_arc_set,
            routing_fails(*old(token), self.capacities, self.costs) ==> r == Err::<
                usize,
                SolverError,
            >(SolverError::PathMatrixCorruptError) && *final(token) == *old(token),
            !routing_fails(*old(token), self.capacities, self.costs) ==> routes_through(
                *final(token),
                self.capacities,
                self.costs,
            ) && final(token).distances.wf() && final(token).distances.is_square(
                self.capacities.nrows(),
            ) && r == self.next_step(*final(token)),
            r matches Ok(v) ==> v < self.capacities.nrows(),
    {
        let ghost before = *token;
        let refreshed = self.refresh_token(token);
        if refreshed.is_err() {
            proof {
                assert(routing_fails(before, self.capacities, self.costs));
            }
            return Err(SolverError::PathMatrixCorruptError);
        }
        proof {
            lemma_successors_in_range(*token, self.capacities, self.costs);
        }
        let next_vertex_via_direct_path = *token.successors.get(token.s, token.t);
        if next_vertex_via_direct_path == usize::MAX {
            return Err(SolverError::NoFeasibleFlowError(self.scenario_id));
        }
        let (next_vertex_via_fixed_arc, cost_via_fixed_arc) = self.get_closest_fixed_arc(token);
        proof {
            lemma_closest_in_range(*self, *token, self.fixed_arcs@.len() as int);
        }
        if next_vertex_via_fixed_arc == usize::MAX || cost_via_fixed_arc == i64::MAX {
            return Ok(next_vertex_via_direct_path);
        }
        let cost_via_direct_path = *token.distances.get(token.s, token.t);
        if cost_via_direct_path == usize::MAX {
            return Err(SolverError::NoFeasibleFlowError(self.scenario_id));
        }
        if (cost_via_direct_path as i64) < cost_via_fixed_arc {
            Ok(next_vertex_via_direct_path)
        } else {
            Ok(next_vertex_via_fixed_arc)
        }
    }
}

/// A routing that succeeded over one restriction of the capacities succeeds
/// over every matrix that restricts them the same way.
proof fn lemma_routes_exclusive(
    token: SupplyToken,
    capacities: Matrix<usize>,
    costs: Matrix<usize>,
    m0: Matrix<usize>,
    p0: Matrix<Option<usize>>,
)
    requires
        routes_with(token, capacities, costs, m0, p0),
        capacities.nrows() == capacities.ncols(),
    ensures
        !routing_fails(token, capacities, costs),
{
    assert forall|m: Matrix<usize>| #[trigger] masks(m, capacities, token.intermediate_arc_set) implies fw_no_overflow(
        m,
        costs,
    ) && forall|d: Matrix<usize>, prev: Matrix<Option<usize>>|
        #![trigger fw_result(m, costs, d, prev)]
        fw_result(m, costs, d, prev) ==> chains_short(prev) by {
        assert(agree(m, m0)) by {
            assert forall|a: int, b: int| 0 <= a < m.nrows() && 0 <= b < m.nrows() implies #[trigger] m.at(
                a,
                b,
            ) == m0.at(a, b) by {
                assert(m.contains(a, b));
                assert(m0.contains(a, b));
            }
        }
        lemma_fw_no_overflow_congruent(m, m0, costs);
        assert forall|d: Matrix<usize>, prev: Matrix<Option<usize>>|
            #[trigger] fw_result(m, costs, d, prev) implies chains_short(prev) by {
            lemma_chains_short_congruent(m, m0, costs, d, prev, token.distances, p0);
        }
    }
}

/// Every successor is a vertex or `usize::MAX`.
proof fn lemma_successors_in_range(token: SupplyToken, capacities: Matrix<usize>, costs: Matrix<usize>)
    requires
        routes_through(token, capacities, costs),
    ensures
        forall|a: int, b: int|
            token.successors.contains(a, b) ==> #[trigger] token.successors.at(a, b) == usize::MAX
                || token.successors.at(a, b) < capacities.nrows(),
{
    let (m, prev) = choose|m: Matrix<usize>, prev: Matrix<Option<usize>>|
        #[trigger] routes_with(token, capacities, costs, m, prev);
    assert forall|a: int, b: int| token.successors.contains(a, b) implies #[trigger] token.successors.at(
        a,
        b,
    ) == usize::MAX || token.successors.at(a, b) < capacities.nrows() by {
        assert(token.successors.at(a, b) == successor(prev, a, b));
        if prev.at(a, b) is Some {
            assert(prev.contains(a, b));
            assert(reaches_back(prev, a, b, prev.ncols()));
            let f = choose|f: nat| reaches_back(prev, a, b, f);
            lemma_back_chain(prev, a, b, f, f);
            let chain = back_chain(prev, a, b, f);
            let path = chain.reverse();
            assert(pred_path(prev, a, b) == path);
            if path.len() > 1 {
                assert(path[1] == chain[chain.len() - 2]);
            }
        }
    }
}

/// The step towards a fixed arc is a vertex or `usize::MAX`.
proof fn lemma_closest_in_range(state: NetworkState, token: SupplyToken, k: int)
    requires
        state.wf(state.capacities.nrows()),
        state.holds(token),
        token.successors.wf(),
        token.successors.is_square(state.capacities.nrows()),
        forall|a: int, b: int|
            token.successors.contains(a, b) ==> #[trigger] token.successors.at(a, b) == usize::MAX
                || token.successors.at(a, b) < state.capacities.nrows(),
        k <= state.fixed_arcs@.len(),
    ensures
        state.closest_among(token, k).0 == usize::MAX || state.closest_among(token, k).0
            < state.capacities.nrows(),
    decreases k,
{
    if k > 0 {
        lemma_closest_in_range(state, token, k - 1);
    }
}

/// One scenario during the greedy pass: the tokens still on their way, the
/// supply not yet delivered and the network as this scenario sees it.
#[derive(Debug, Clone)]
pub struct Scenario {
    pub id: usize,
    pub supply_tokens: Vec<SupplyToken>,
    pub supply_remaining: Matrix<usize>,
    pub network_state: NetworkState,
    pub slack: usize,
    pub slack_used: usize,
}

/// All scenarios of a network being routed greedily, with the fixed arcs
/// they share.
#[derive(Debug, Clone)]
pub struct AuxiliaryNetwork {
    pub fixed_arcs: Vec<(usize, usize)>,
    pub scenarios: Vec<Scenario>,
}

/// The number of tokens in `tokens` that carry supply from `o` to `t`.
pub open spec fn in_flight(tokens: Seq<SupplyToken>, o: int, t: int) -> nat
    decreases tokens.len(),
{
    if tokens.len() == 0 {
        0
    } else {
        in_flight(tokens.drop_last(), o, t) + if tokens.last().origin == o && tokens.last().t == t {
            1nat
        } else {
            0nat
        }
    }
}

/// Counting tokens distributes over concatenation.
pub proof fn lemma_in_flight_concat(a: Seq<SupplyToken>, b: Seq<SupplyToken>, o: int, t: int)
    ensures
        in_flight(a + b, o, t) == in_flight(a, o, t) + in_flight(b, o, t),
    decreases b.len(),
{
    if b.len() > 0 {
        lemma_in_flight_concat(a, b.drop_last(), o, t);
        assert((a + b).drop_last() =~= a + b.drop_last());
    }
}

/// Taking the token at `i` out of `tokens` lowers its own count by one.
proof fn lemma_in_flight_remove(tokens: Seq<SupplyToken>, i: int, o: int, t: int)
    requires
        0 <= i < tokens.len(),
    ensures
        in_flight(tokens, o, t) == in_flight(tokens.remove(i), o, t) + if tokens[i].origin == o
            && tokens[i].t == t {
            1nat
        } else {
            0nat
        },
{
    let front = tokens.take(i);
    let back = tokens.skip(i + 1);
    assert(tokens =~= front + seq![tokens[i]] + back);
    assert(tokens.remove(i) =~= front + back);
    lemma_in_flight_concat(front + seq![tokens[i]], back, o, t);
    lemma_in_flight_concat(front, seq![tokens[i]], o, t);
    lemma_in_flight_concat(front, back, o, t);
    assert(seq![tokens[i]].drop_last() =~= Seq::<SupplyToken>::empty());
    assert(in_flight(seq![tokens[i]], o, t) == in_flight(Seq::<SupplyToken>::empty(), o, t) + if tokens[i].origin == o
            && tokens[i].t == t {
            1nat
        } else {
            0nat
        });
}

/// Putting a token back at `i` raises its own count by one.
proof fn lemma_in_flight_insert(tokens: Seq<SupplyToken>, i: int, x: SupplyToken, o: int, t: int)
    requires
        0 <= i <= tokens.len(),
    ensures
        in_flight(tokens.insert(i, x), o, t) == in_flight(tokens, o, t) + if x.origin == o && x.t
            == t {
            1nat
        } else {
            0nat
        },
{
    let front = tokens.take(i);
    let back = tokens.skip(i);
    assert(tokens =~= front + back);
    assert(tokens.insert(i, x) =~= front + seq![x] + back);
    lemma_in_flight_concat(front + seq![x], back, o, t);
    lemma_in_flight_concat(front, seq![x], o, t);
    lemma_in_flight_concat(front, back, o, t);
    assert(seq![x].drop_last() =~= Seq::<SupplyToken>::empty());
    assert(in_flight(seq![x], o, t) == in_flight(Seq::<SupplyToken>::empty(), o, t) + if x.origin == o
            && x.t == t {
            1nat
        } else {
            0nat
        });
}

/// `after` is the network `before` once one unit has crossed the arc
/// `(s, v)`: one more unit of load and, unless none is left, one unit less
/// of capacity on it.
pub open spec fn crossed(before: NetworkState, after: NetworkState, s: int, v: int) -> bool {
    let n = before.capacities.nrows();
    let k = flat(s, v, n as int);
    &&& after.scenario_id == before.scenario_id
    &&& after.fixed_arcs == before.fixed_arcs
    &&& after.relative_draws == before.relative_draws
    &&& after.costs == before.costs
    &&& after.capacities.nrows() == n
    &&& after.capacities.ncols() == before.capacities.ncols()
    &&& after.arc_loads.nrows() == before.arc_loads.nrows()
    &&& after.arc_loads.ncols() == before.arc_loads.ncols()
    &&& after.capacities.cells() == if before.capacities.at(s, v) > 0 {
        before.capacities.cells().update(k, (before.capacities.at(s, v) - 1) as usize)
    } else {
        before.capacities.cells()
    }
    &&& after.arc_loads.cells() == if before.arc_loads.at(s, v) < usize::MAX {
        before.arc_loads.cells().update(k, (before.arc_loads.at(s, v) + 1) as usize)
    } else {
        before.arc_loads.cells()
    }
}

/// `r` is `token` routed anew over the network `state`.
pub open spec fn rerouted(state: NetworkState, token: SupplyToken, r: SupplyToken) -> bool {
    &&& routes_through(r, state.capacities, state.costs)
    &&& r.origin == token.origin
    &&& r.s == token.s
    &&& r.t == token.t
    &&& r.intermediate_arc_set == token.intermediate_arc_set
    &&& r.distances.wf()
    &&& r.distances.is_square(state.capacities.nrows())
}

/// Routed anew over `state`, `before` moves to `v`, and becomes `after`:
/// waiting at `v`, the arc it crossed gone from its arc set.
pub open spec fn steps_to(state: NetworkState, before: SupplyToken, after: SupplyToken, v: usize) -> bool {
    exists|r: SupplyToken|
        #[trigger] rerouted(state, before, r) && state.next_step(r) == Ok::<usize, SolverError>(v)
            && after.origin == r.origin && after.t == r.t && after.s == v && after.distances
            == r.distances && after.successors == r.successors
            && after.intermediate_arc_set.nrows() == r.intermediate_arc_set.nrows()
            && after.intermediate_arc_set.ncols() == r.intermediate_arc_set.ncols()
            && after.intermediate_arc_set.cells() == r.intermediate_arc_set.cells().update(
            flat(r.s as int, v as int, state.capacities.nrows() as int),
            false,
        )
}

/// `before` cannot move in `state` and fails with `e`, becoming `after`:
/// its routing cannot be computed and it stays as it was, or the routing
/// leaves it no way forward.
pub open spec fn stuck(state: NetworkState, before: SupplyToken, after: SupplyToken, e: SolverError) -> bool {
    ||| routing_fails(before, state.capacities, state.costs) && e == SolverError::PathMatrixCorruptError
        && after == before
    ||| rerouted(state, before, after) && state.next_step(after) == Err::<usize, SolverError>(e)
}

/// `after` holds the cells of `before`, the cell `(o, t)` lowered by one
/// unless it is zero.
pub open spec fn delivered_one(before: Matrix<usize>, after: Matrix<usize>, o: int, t: int) -> bool {
    &&& after.nrows() == before.nrows()
    &&& after.ncols() == before.ncols()
    &&& after.cells() == if before.at(o, t) > 0 {
        before.cells().update(flat(o, t, before.ncols() as int), (before.at(o, t) - 1) as usize)
    } else {
        before.cells()
    }
}

/// What moving the tokens from the `i`-th on does: starting from the
/// network `state`, the tokens `tokens` and the supply `remaining`, it
/// ends with `result`, the network `state_f`, the tokens `tokens_f` and the
/// supply `remaining_f`. Each token in turn is routed anew and moves one
/// arc; one that arrives is delivered and leaves the list; the first token
/// that cannot move ends the round with its error.
pub open spec fn round(
    state: NetworkState,
    tokens: Seq<SupplyToken>,
    remaining: Matrix<usize>,
    i: int,
    result: Result<(), SolverError>,
    state_f: NetworkState,
    tokens_f: Seq<SupplyToken>,
    remaining_f: Matrix<usize>,
) -> bool
    decreases tokens.len() - i,
{
    if i < 0 || i >= tokens.len() {
        &&& result is Ok
        &&& state_f == state
        &&& tokens_f == tokens
        &&& remaining_f == remaining
    } else {
        let token = tokens[i];
        ||| {
            &&& result is Err
            &&& state_f == state
            &&& remaining_f == remaining
            &&& tokens_f.len() == tokens.len()
            &&& forall|j: int| 0 <= j < tokens.len() && j != i ==> #[trigger] tokens_f[j] == tokens[j]
            &&& stuck(state, token, tokens_f[i], result->Err_0)
        }
        ||| exists|v: usize, state1: NetworkState, token1: SupplyToken|
            #![trigger steps_to(state, token, token1, v), crossed(state, state1, token.s as int, v as int)]
            {
                &&& steps_to(state, token, token1, v)
                &&& crossed(state, state1, token.s as int, v as int)
                &&& v != token.t
                &&& round(
                    state1,
                    tokens.update(i, token1),
                    remaining,
                    i + 1,
                    result,
                    state_f,
                    tokens_f,
                    remaining_f,
                )
            }
        ||| exists|v: usize, state1: NetworkState, token1: SupplyToken, remaining1: Matrix<usize>|
            #![trigger steps_to(state, token, token1, v), crossed(state, state1, token.s as int, v as int), delivered_one(remaining, remaining1, token.origin as int, token.t as int)]
            {
                &&& steps_to(state, token, token1, v)
                &&& crossed(state, state1, token.s as int, v as int)
                &&& v == token.t
                &&& delivered_one(remaining, remaining1, token.origin as int, token.t as int)
                &&& round(
                    state1,
                    tokens.remove(i),
                    remaining1,
                    i,
                    result,
                    state_f,
                    tokens_f,
                    remaining_f,
                )
            }
    }
}

impl Scenario {
    /// The scenario's matrices describe one network of `n` vertices and all
    /// its tokens live in it.
    pub open spec fn wf(self, n: nat) -> bool {
        &&& self.network_state.wf(n)
        &&& self.network_state.capacities.nrows() == n
        &&& self.supply_remaining.wf()
        &&& self.supply_remaining.is_square(n)
        &&& forall|j: int|
            0 <= j < self.supply_tokens@.len() ==> self.network_state.holds(
                #[trigger] self.supply_tokens@[j],
            )
    }

    /// No pair has more tokens on the way than supply left to deliver.
    pub open spec fn consistent(self) -> bool {
        forall|o: int, t: int|
            self.supply_remaining.contains(o, t) ==> in_flight(self.supply_tokens@, o, t)
                <= #[trigger] self.supply_remaining.at(o, t)
    }

    /// The supply left to deliver from `o` to `t` that no token carries.
    pub open spec fn undispatched(self, o: int, t: int) -> int {
        self.supply_remaining.at(o, t) - in_flight(self.supply_tokens@, o, t)
    }

    /// Takes `amount` of the scenario's slack, failing when less is left.
    pub fn use_slack(&mut self, amount: usize) -> (r: Result<(), SolverError>)
        ensures
            r is Err <==> old(self).slack_used + amount > old(self).slack,
            r matches Err(e) ==> e == SolverError::NoSlackLeftError(old(self).id),
            r is Ok ==> *final(self) == (Scenario {
                slack_used: (old(self).slack_used + amount) as usize,
                ..*old(self)
            }),
            r is Err ==> *final(self) == *old(self),
    {
        if self.slack_used > self.slack || amount > self.slack - self.slack_used {
            Err(SolverError::NoSlackLeftError(self.id))
        } else {
            self.slack_used = self.slack_used + amount;
            Ok(())
        }
    }

    /// The load this scenario has put on the fixed arc `k`.
    pub open spec fn own_load(self, k: int) -> i64 {
        let a = self.network_state.fixed_arcs@[k];
        self.network_state.arc_loads.at(a.0 as int, a.1 as int) as i64
    }

    /// Moves every token on the way one arc further, in order, along the
    /// step that `NetworkState::get_next_vertex` picks for it. A token that
    /// reaches its destination is delivered: it leaves the scenario and the
    /// remaining supply of its pair drops by one. Stops at the first token
    /// that cannot move.
    pub fn advance_tokens(&mut self) -> (r: Result<(), SolverError>)
        requires
            old(self).wf(old(self).network_state.capacities.nrows()),
            old(self).consistent(),
        ensures
            final(self).wf(old(self).network_state.capacities.nrows()),
            final(self).consistent(),
            final(self).id == old(self).id,
            final(self).slack == old(self).slack,
            final(self).slack_used == old(self).slack_used,
            final(self).network_state.scenario_id == old(self).network_state.scenario_id,
            final(self).network_state.fixed_arcs == old(self).network_state.fixed_arcs,
            final(self).network_state.relative_draws == old(self).network_state.relative_draws,
            final(self).network_state.costs == old(self).network_state.costs,
            final(self).supply_tokens@.len() <= old(self).supply_tokens@.len(),
            forall|o: int, t: int|
                old(self).supply_remaining.contains(o, t) ==> #[trigger] final(self).undispatched(o, t)
                    == old(self).undispatched(o, t),
            r is Ok ==> forall|j: int|
                0 <= j < final(self).supply_tokens@.len() ==> (#[trigger] final(self).supply_tokens@[j]).s != final(self).supply_tokens@[j].t,
            r matches Err(e) ==> (e == SolverError::PathMatrixCorruptError || e
                == SolverError::NoFeasibleFlowError(old(self).network_state.scenario_id)),
            round(
                old(self).network_state,
                old(self).supply_tokens@,
                old(self).supply_remaining,
                0,
                r,
                final(self).network_state,
                final(self).supply_tokens@,
                final(self).supply_remaining,
            ),
    {
        let ghost n = self.network_state.capacities.nrows();
        let ghost before = *self;
        let mut i: usize = 0;
        while i < self.supply_tokens.len()
            invariant
                before == *old(self),
                before.supply_remaining.is_square(n),
                self.wf(n),
                self.consistent(),
                n == before.network_state.capacities.nrows(),
                self.id == before.id,
                self.slack == before.slack,
                self.slack_used == before.slack_used,
                self.network_state.scenario_id == before.network_state.scenario_id,
                self.network_state.fixed_arcs == before.network_state.fixed_arcs,
                self.network_state.relative_draws == before.network_state.relative_draws,
                self.network_state.costs == before.network_state.costs,
                i <= self.supply_tokens@.len(),
                self.supply_tokens@.len() - i <= before.supply_tokens@.len() - i,
                self.supply_tokens@.len() <= before.supply_tokens@.len(),
                forall|o: int, t: int|
                    before.supply_remaining.contains(o, t) ==> #[trigger] self.undispatched(o, t)
                        == before.undispatched(o, t),
                forall|j: int|
                    0 <= j < i ==> (#[trigger] self.supply_tokens@[j]).s
                        != self.supply_tokens@[j].t,
                forall|
                    res: Result<(), SolverError>,
                    sf: NetworkState,
                    tf: Seq<SupplyToken>,
                    rf: Matrix<usize>,
                |
                    #[trigger] round(
                        self.network_state,
                        self.supply_tokens@,
                        self.supply_remaining,
                        i as int,
                        res,
                        sf,
                        tf,
                        rf,
                    ) ==> round(
                        before.network_state,
                        before.supply_tokens@,
                        before.supply_remaining,
                        0,
                        res,
                        sf,
                        tf,
                        rf,
                    ),
            decreases self.supply_tokens@.len() - i,
        {
            let ghost start = *self;
            let ghost tokens_before = self.supply_tokens@;
            let ghost remaining_before = self.supply_remaining;
            let mut token = self.supply_tokens.remove(i);
            proof {
                assert(self.network_state.holds(tokens_before[i as int]));
                assert forall|o: int, t: int| #[trigger]
                    self.supply_remaining.contains(o, t) implies in_flight(tokens_before, o, t)
                    == in_flight(self.supply_tokens@, o, t) + if token.origin == o && token.t == t {
                    1nat
                } else {
                    0nat
                } by {
                    lemma_in_flight_remove(tokens_before, i as int, o, t);
                }
            }
            let next = match self.network_state.get_next_vertex(&mut token) {
                Ok(v) => v,
                Err(e) => {
                    proof {
                        assert forall|o: int, t: int| #[trigger]
                            self.supply_remaining.contains(o, t) implies in_flight(
                            self.supply_tokens@.insert(i as int, token),
                            o,
                            t,
                        ) == in_flight(tokens_before, o, t) by {
                            lemma_in_flight_insert(self.supply_tokens@, i as int, token, o, t);
                        }
                    }
                    self.supply_tokens.insert(i, token);
                    proof {
                        assert forall|o: int, t: int|
                            before.supply_remaining.contains(o, t) implies #[trigger] self.undispatched(o, t)
                            == before.undispatched(o, t) by {
                            assert(self.supply_remaining.contains(o, t));
                            assert(start.undispatched(o, t) == before.undispatched(o, t));
                        }
                        assert forall|j: int| 0 <= j < self.supply_tokens@.len() implies self.network_state.holds(
                            #[trigger] self.supply_tokens@[j],
                        ) by {
                            if j != i {
                                assert(self.supply_tokens@[j] == tokens_before[j]);
                            }
                        }
                        assert(self.supply_tokens@ =~= tokens_before.update(i as int, token));
                        assert(stuck(start.network_state, tokens_before[i as int], token, e));
                        assert(round(
                            start.network_state,
                            tokens_before,
                            start.supply_remaining,
                            i as int,
                            Err(e),
                            self.network_state,
                            self.supply_tokens@,
                            self.supply_remaining,
                        ));
                    }
                    return Err(e);
                },
            };
            let ghost refreshed = token;
            let ghost state0 = self.network_state;
            proof {
                assert(rerouted(state0, tokens_before[i as int], refreshed));
            }
            self.network_state.use_arc(&mut token, next);
            token.s = next;
            proof {
                assert(steps_to(state0, tokens_before[i as int], token, next));
                assert(crossed(state0, self.network_state, tokens_before[i as int].s as int, next as int));
            }
            if token.s == token.t {
                proof {
                    assert(self.supply_remaining.contains(token.origin as int, token.t as int));
                    assert(in_flight(tokens_before, token.origin as int, token.t as int) >= 1);
                }
                self.supply_remaining.decrement(token.origin, token.t);
                proof {
                    assert forall|o: int, t: int| #[trigger]
                        self.supply_remaining.contains(o, t) implies self.supply_remaining.at(o, t)
                        == if o == token.origin && t == token.t {
                        remaining_before.at(o, t) - 1
                    } else {
                        remaining_before.at(o, t) as int
                    } by {
                        crate::matrix::lemma_flat_in_bounds(o, t, n as int, n as int);
                        crate::matrix::lemma_flat_in_bounds(
                            token.origin as int,
                            token.t as int,
                            n as int,
                            n as int,
                        );
                        if !(o == token.origin && t == token.t) {
                            if flat(o, t, n as int) == flat(
                                token.origin as int,
                                token.t as int,
                                n as int,
                            ) {
                                crate::matrix::lemma_flat_injective(
                                    o,
                                    t,
                                    token.origin as int,
                                    token.t as int,
                                    n as int,
                                );
                            }
                        }
                    }
                    assert forall|j: int| 0 <= j < self.supply_tokens@.len() implies self.network_state.holds(
                        #[trigger] self.supply_tokens@[j],
                    ) by {
                        if j < i {
                            assert(self.supply_tokens@[j] == tokens_before[j]);
                        } else {
                            assert(self.supply_tokens@[j] == tokens_before[j + 1]);
                        }
                    }
                    assert forall|j: int| 0 <= j < i implies (#[trigger] self.supply_tokens@[j]).s
                        != self.supply_tokens@[j].t by {
                        assert(self.supply_tokens@[j] == tokens_before[j]);
                    }
                    assert forall|o: int, t: int|
                        self.supply_remaining.contains(o, t) implies in_flight(self.supply_tokens@, o, t)
                        <= #[trigger] self.supply_remaining.at(o, t) by {
                        assert(remaining_before.contains(o, t));
                        assert(in_flight(tokens_before, o, t) <= remaining_before.at(o, t));
                    }
                    assert forall|o: int, t: int|
                        before.supply_remaining.contains(o, t) implies #[trigger] self.undispatched(o, t)
                        == before.undispatched(o, t) by {
                        assert(remaining_before.contains(o, t));
                        assert(self.supply_remaining.contains(o, t));
                        assert(start.undispatched(o, t) == before.undispatched(o, t));
                    }
                    assert(delivered_one(
                        start.supply_remaining,
                        self.supply_remaining,
                        token.origin as int,
                        token.t as int,
                    ));
                    assert(self.supply_tokens@ == tokens_before.remove(i as int));
                    assert forall|
                        res: Result<(), SolverError>,
                        sf: NetworkState,
                        tf: Seq<SupplyToken>,
                        rf: Matrix<usize>,
                    |
                        #[trigger] round(
                            self.network_state,
                            self.supply_tokens@,
                            self.supply_remaining,
                            i as int,
                            res,
                            sf,
                            tf,
                            rf,
                        ) implies round(
                        start.network_state,
                        tokens_before,
                        start.supply_remaining,
                        i as int,
                        res,
                        sf,
                        tf,
                        rf,
                    ) by {}
                }
                continue;
            }
            proof {
                assert forall|o: int, t: int| #[trigger]
                    self.supply_remaining.contains(o, t) implies in_flight(
                    self.supply_tokens@.insert(i as int, token),
                    o,
                    t,
                ) == in_flight(tokens_before, o, t) by {
                    lemma_in_flight_insert(self.supply_tokens@, i as int, token, o, t);
                }
            }
            self.supply_tokens.insert(i, token);
            proof {
                assert forall|j: int| 0 <= j < self.supply_tokens@.len() implies self.network_state.holds(
                    #[trigger] self.supply_tokens@[j],
                ) by {
                    if j != i {
                        assert(self.supply_tokens@[j] == tokens_before[j]);
                    }
                }
                assert forall|o: int, t: int|
                    before.supply_remaining.contains(o, t) implies #[trigger] self.undispatched(o, t)
                    == before.undispatched(o, t) by {
                    assert(self.supply_remaining.contains(o, t));
                    assert(start.undispatched(o, t) == before.undispatched(o, t));
                }
                assert forall|o: int, t: int|
                    self.supply_remaining.contains(o, t) implies in_flight(self.supply_tokens@, o, t)
                    <= #[trigger] self.supply_remaining.at(o, t) by {
                    assert(in_flight(tokens_before, o, t) <= remaining_before.at(o, t));
                }
                assert forall|j: int| 0 <= j < i + 1 implies (#[trigger] self.supply_tokens@[j]).s
                    != self.supply_tokens@[j].t by {
                    if j < i {
                        assert(self.supply_tokens@[j] == tokens_before[j]);
                    }
                }
                assert(self.supply_tokens@ =~= tokens_before.update(i as int, token));
                assert forall|
                    res: Result<(), SolverError>,
                    sf: NetworkState,
                    tf: Seq<SupplyToken>,
                    rf: Matrix<usize>,
                |
                    #[trigger] round(
                        self.network_state,
                        self.supply_tokens@,
                        self.supply_remaining,
                        i + 1,
                        res,
                        sf,
                        tf,
                        rf,
                    ) implies round(
                    start.network_state,
                    tokens_before,
                    start.supply_remaining,
                    i as int,
                    res,
                    sf,
                    tf,
                    rf,
                ) by {}
            }
            i = i + 1;
        }
        proof {
            assert(round(
                self.network_state,
                self.supply_tokens@,
                self.supply_remaining,
                i as int,
                Ok(()),
                self.network_state,
                self.supply_tokens@,
                self.supply_remaining,
            ));
        }
        Ok(())
    }

    /// Whether the draws of all fixed arcs compute without overflow from
    /// these loads, i.e. whether `greedy_step` may be called with them.
    pub fn draws_fit(&self, fixed_arc_loads: &Vec<Vec<i64>>, draw_fn: &RelativeDrawFunction) -> (b: bool)
        requires
            self.network_state.wf(self.network_state.capacities.nrows()),
            fixed_arc_loads@.len() == self.network_state.fixed_arcs@.len(),
        ensures
            b == forall|k: int|
                0 <= k < fixed_arc_loads@.len() ==> draw_fits(
                    *draw_fn,
                    (#[trigger] fixed_arc_loads@[k])@,
                    self.own_load(k),
                ),
    {
        let mut k: usize = 0;
        while k < fixed_arc_loads.len()
            invariant
                self.network_state.wf(self.network_state.capacities.nrows()),
                fixed_arc_loads@.len() == self.network_state.fixed_arcs@.len(),
                k <= fixed_arc_loads@.len(),
                forall|j: int|
                    0 <= j < k ==> draw_fits(*draw_fn, (#[trigger] fixed_arc_loads@[j])@, self.own_load(j)),
            decreases fixed_arc_loads@.len() - k,
        {
            let arc = self.network_state.fixed_arcs[k];
            let own = *self.network_state.arc_loads.get(arc.0, arc.1) as i64;
            if !draw_fn.fits(fixed_arc_loads[k].as_slice(), own) {
                return false;
            }
            k = k + 1;
        }
        true
    }

    /// One round of the greedy pass for this scenario: the draws of the
    /// fixed arcs are refreshed from the loads of all scenarios, then every
    /// token moves one arc further.
    pub fn greedy_step(
        &mut self,
        fixed_arc_loads: &Vec<Vec<i64>>,
        draw_fn: &RelativeDrawFunction,
        exp_draws: &Vec<i64>,
    ) -> (r: Result<(), SolverError>)
        requires
            old(self).wf(old(self).network_state.capacities.nrows()),
            old(self).consistent(),
            fixed_arc_loads@.len() == old(self).network_state.fixed_arcs@.len(),
            exp_draws@.len() == old(self).network_state.fixed_arcs@.len(),
            forall|k: int|
                0 <= k < fixed_arc_loads@.len() ==> draw_fits(
                    *draw_fn,
                    (#[trigger] fixed_arc_loads@[k])@,
                    old(self).own_load(k),
                ),
        ensures
            final(self).wf(old(self).network_state.capacities.nrows()),
            final(self).consistent(),
            final(self).id == old(self).id,
            final(self).slack == old(self).slack,
            final(self).slack_used == old(self).slack_used,
            final(self).network_state.scenario_id == old(self).network_state.scenario_id,
            final(self).network_state.fixed_arcs == old(self).network_state.fixed_arcs,
            final(self).network_state.relative_draws@.len() == fixed_arc_loads@.len(),
            forall|k: int|
                0 <= k < fixed_arc_loads@.len() ==> #[trigger] final(self).network_state.relative_draws@[k]
                    == draw_spec(*draw_fn, fixed_arc_loads@[k]@, old(self).own_load(k), exp_draws@[k]),
            final(self).supply_tokens@.len() <= old(self).supply_tokens@.len(),
            forall|o: int, t: int|
                old(self).supply_remaining.contains(o, t) ==> #[trigger] final(self).undispatched(o, t)
                    == old(self).undispatched(o, t),
            r is Ok ==> forall|j: int|
                0 <= j < final(self).supply_tokens@.len() ==> (#[trigger] final(self).supply_tokens@[j]).s
                    != final(self).supply_tokens@[j].t,
            r matches Err(e) ==> (e == SolverError::PathMatrixCorruptError || e
                == SolverError::NoFeasibleFlowError(old(self).network_state.scenario_id)),
            exists|drawn: NetworkState|
                {
                    &&& drawn == NetworkState {
                        relative_draws: drawn.relative_draws,
                        ..old(self).network_state
                    }
                    &&& drawn.relative_draws@.len() == fixed_arc_loads@.len()
                    &&& forall|k: int|
                        0 <= k < fixed_arc_loads@.len() ==> #[trigger] drawn.relative_draws@[k]
                            == draw_spec(
                            *draw_fn,
                            fixed_arc_loads@[k]@,
                            old(self).own_load(k),
                            exp_draws@[k],
                        )
                    &&& #[trigger] round(
                        drawn,
                        old(self).supply_tokens@,
                        old(self).supply_remaining,
                        0,
                        r,
                        final(self).network_state,
                        final(self).supply_tokens@,
                        final(self).supply_remaining,
                    )
                },
            r is Ok ==> stepped(*old(self), *final(self), r),
            (r is Ok && forall|j: int|
                0 <= j < old(self).supply_tokens@.len() ==> (#[trigger] old(self).supply_tokens@[j]).s
                    != old(self).supply_tokens@[j].t) ==> tokens_work(final(self).supply_tokens@)
                + old(self).supply_tokens@.len() <= tokens_work(old(self).supply_tokens@),
    {
        self.refresh_relative_draws(fixed_arc_loads, draw_fn, exp_draws);
        let ghost drawn = self.network_state;
        proof {
            assert forall|o: int, t: int| self.supply_remaining.contains(o, t) implies in_flight(
                self.supply_tokens@,
                o,
                t,
            ) <= #[trigger] self.supply_remaining.at(o, t) by {
                assert(old(self).supply_remaining.contains(o, t));
            }
            assert forall|j: int| 0 <= j < self.supply_tokens@.len() implies self.network_state.holds(
                #[trigger] self.supply_tokens@[j],
            ) by {
                assert(old(self).network_state.holds(old(self).supply_tokens@[j]));
            }
        }
        let r = self.advance_tokens();
        proof {
            assert(drawn == NetworkState { relative_draws: drawn.relative_draws, ..old(self).network_state });
            if r is Ok {
                assert(round(
                    drawn,
                    old(self).supply_tokens@,
                    old(self).supply_remaining,
                    0,
                    r,
                    self.network_state,
                    self.supply_tokens@,
                    self.supply_remaining,
                ));
                if forall|j: int|
                    0 <= j < old(self).supply_tokens@.len() ==> (#[trigger] old(self).supply_tokens@[j]).s
                        != old(self).supply_tokens@[j].t {
                    assert forall|j: int| 0 <= j < old(self).supply_tokens@.len() implies drawn.holds(
                        #[trigger] old(self).supply_tokens@[j],
                    ) by {
                        assert(old(self).network_state.holds(old(self).supply_tokens@[j]));
                    }
                    lemma_round_work(
                        drawn,
                        old(self).supply_tokens@,
                        old(self).supply_remaining,
                        0,
                        r,
                        self.network_state,
                        self.supply_tokens@,
                        self.supply_remaining,
                    );
                }
            }
        }
        r
    }

    /// Sets the draw of every fixed arc from the loads all scenarios have put
    /// on it (`fixed_arc_loads[k]` for the fixed arc `k`) and this scenario's
    /// own load; `exp_draws[k]` is the exponential draw of that arc, read by
    /// the exponential draw functions only.
    pub fn refresh_relative_draws(
        &mut self,
        fixed_arc_loads: &Vec<Vec<i64>>,
        draw_fn: &RelativeDrawFunction,
        exp_draws: &Vec<i64>,
    )
        requires
            old(self).network_state.wf(old(self).network_state.capacities.nrows()),
            fixed_arc_loads@.len() == old(self).network_state.fixed_arcs@.len(),
            exp_draws@.len() == old(self).network_state.fixed_arcs@.len(),
            forall|k: int|
                0 <= k < fixed_arc_loads@.len() ==> draw_fits(
                    *draw_fn,
                    (#[trigger] fixed_arc_loads@[k])@,
                    old(self).own_load(k),
                ),
        ensures
            final(self).network_state.relative_draws@.len() == old(self).network_state.relative_draws@.len(),
            forall|k: int|
                0 <= k < fixed_arc_loads@.len() ==> #[trigger] final(self).network_state.relative_draws@[k] == draw_spec(
                    *draw_fn,
                    fixed_arc_loads@[k]@,
                    old(self).own_load(k),
                    exp_draws@[k],
                ),
            *final(self) == (Scenario {
                network_state: NetworkState {
                    relative_draws: final(self).network_state.relative_draws,
                    ..old(self).network_state
                },
                ..*old(self)
            }),
    {
        let ghost before = *self;
        let count = self.network_state.fixed_arcs.len();
        let mut k: usize = 0;
        while k < count
            invariant
                before.network_state.wf(before.network_state.capacities.nrows()),
                count == before.network_state.fixed_arcs@.len(),
                fixed_arc_loads@.len() == count,
                exp_draws@.len() == count,
                forall|j: int|
                    0 <= j < count ==> draw_fits(
                        *draw_fn,
                        (#[trigger] fixed_arc_loads@[j])@,
                        before.own_load(j),
                    ),
                k <= count,
                self.network_state.relative_draws@.len() == count,
                forall|j: int|
                    0 <= j < k ==> #[trigger] self.network_state.relative_draws@[j] == draw_spec(
                        *draw_fn,
                        fixed_arc_loads@[j]@,
                        before.own_load(j),
                        exp_draws@[j],
                    ),
                *self == (Scenario {
                    network_state: NetworkState {
                        relative_draws: self.network_state.relative_draws,
                        ..before.network_state
                    },
                    ..before
                }),
            decreases count - k,
        {
            let arc = self.network_state.fixed_arcs[k];
            let own = *self.network_state.arc_loads.get(arc.0, arc.1) as i64;
            proof {
                assert(own == before.own_load(k as int));
            }
            let draw = draw_fn.apply(fixed_arc_loads[k].as_slice(), own, exp_draws[k]);
            self.network_state.relative_draws.set(k, draw);
            k = k + 1;
        }
    }
}

/// The arc `(i, j)` is one of `fixed_arcs`.
pub open spec fn is_fixed(fixed_arcs: Seq<(usize, usize)>, i: int, j: int) -> bool {
    exists|k: int| 0 <= k < fixed_arcs.len() && #[trigger] fixed_arcs[k] == (i as usize, j as usize)
}

/// `m` holds the capacities the greedy pass routes over: those of the
/// network, unlimited on the fixed arcs.
pub open spec fn routing_capacities(m: Matrix<usize>, capacities: Matrix<usize>, fixed_arcs: Seq<(usize, usize)>) -> bool {
    &&& m.wf()
    &&& m.nrows() == capacities.nrows()
    &&& m.ncols() == capacities.ncols()
    &&& forall|i: int, j: int|
        m.contains(i, j) ==> #[trigger] m.at(i, j) == if is_fixed(fixed_arcs, i, j) {
            usize::MAX
        } else {
            capacities.at(i, j)
        }
}

/// What `AuxiliaryNetwork::from_network` needs of a network: square
/// matrices of one size for capacities, costs and every scenario, fixed arcs
/// between its vertices, and the logarithmic terms of the detour bounds.
pub open spec fn preprocessable(network: Network, log_terms: Matrix<usize>) -> bool {
    let n = network.vertices@.len();
    &&& same_network(network.capacities, network.costs, n)
    &&& log_terms.wf()
    &&& log_terms.is_square(n)
    &&& forall|i: int|
        0 <= i < network.balances@.len() ==> (#[trigger] network.balances@[i]).wf()
            && network.balances@[i].is_square(n)
    &&& forall|k: int|
        0 <= k < network.fixed_arcs@.len() ==> (#[trigger] network.fixed_arcs@[k]).0 < n
            && network.fixed_arcs@[k].1 < n
}

/// Scenario `i` as preprocessing leaves it: nothing routed yet, the
/// network's capacities with unlimited fixed arcs, no draws, and one token
/// per unit of routable supply, sorted by the distance `dist` left to go.
pub open spec fn fresh_scenario(
    scenario: Scenario,
    i: int,
    network: Network,
    capacities: Matrix<usize>,
    dist: Matrix<usize>,
    arc_sets: Matrix<Matrix<bool>>,
) -> bool {
    let n = network.vertices@.len();
    let state = scenario.network_state;
    &&& scenario.id == i
    &&& scenario.slack == 0
    &&& scenario.slack_used == 0
    &&& same_matrix(scenario.supply_remaining, network.balances@[i])
    &&& state.scenario_id == i
    &&& state.fixed_arcs@ == network.fixed_arcs@
    &&& state.relative_draws@.len() == network.fixed_arcs@.len()
    &&& forall|k: int| 0 <= k < state.relative_draws@.len() ==> #[trigger] state.relative_draws@[k] == 0
    &&& same_matrix(state.capacities, capacities)
    &&& same_matrix(state.costs, network.costs)
    &&& state.arc_loads.wf()
    &&& state.arc_loads.is_square(n)
    &&& forall|a: int, b: int| state.arc_loads.contains(a, b) ==> #[trigger] state.arc_loads.at(a, b) == 0
    &&& exists|tokens: Seq<SupplyToken>|
        #[trigger] supply_tokens_of(
            tokens,
            network.balances@[i],
            network.fixed_arcs@,
            network.options.remainder_solve_method,
            arc_sets,
        ) && scenario.supply_tokens@ == sorted_by_distance(tokens, dist)
}

/// A copy of `m`.
fn copy_matrix(m: &Matrix<usize>) -> (c: Matrix<usize>)
    ensures
        same_matrix(c, *m),
{
    let c = m.clone();
    proof {
        assert forall|i: int| 0 <= i < c.cells().len() implies c.cells()[i] == m.cells()[i] by {
            assert(cloned(m.cells()[i], c.cells()[i]));
        }
        assert(c.cells() =~= m.cells());
    }
    c
}

/// A copy of a list of arcs.
fn copy_arcs(arcs: &Vec<(usize, usize)>) -> (c: Vec<(usize, usize)>)
    ensures
        c@ == arcs@,
{
    let mut c: Vec<(usize, usize)> = Vec::new();
    let mut k: usize = 0;
    while k < arcs.len()
        invariant
            k <= arcs@.len(),
            c@ == arcs@.take(k as int),
        decreases arcs@.len() - k,
    {
        c.push(arcs[k]);
        k = k + 1;
        proof {
            assert(c@ =~= arcs@.take(k as int));
        }
    }
    proof {
        assert(arcs@.take(k as int) =~= arcs@);
    }
    c
}

/// The network's capacities with unlimited capacity on every fixed arc.
pub fn capacities_for_routing(capacities: &Matrix<usize>, fixed_arcs: &Vec<(usize, usize)>) -> (m: Matrix<usize>)
    requires
        capacities.wf(),
        forall|k: int|
            0 <= k < fixed_arcs@.len() ==> capacities.contains(
                (#[trigger] fixed_arcs@[k]).0 as int,
                fixed_arcs@[k].1 as int,
            ),
    ensures
        routing_capacities(m, *capacities, fixed_arcs@),
{
    let mut m = copy_matrix(capacities);
    let mut k: usize = 0;
    while k < fixed_arcs.len()
        invariant
            capacities.wf(),
            forall|j: int|
                0 <= j < fixed_arcs@.len() ==> capacities.contains(
                    (#[trigger] fixed_arcs@[j]).0 as int,
                    fixed_arcs@[j].1 as int,
                ),
            m.wf(),
            m.nrows() == capacities.nrows(),
            m.ncols() == capacities.ncols(),
            k <= fixed_arcs@.len(),
            forall|i: int, j: int|
                m.contains(i, j) ==> #[trigger] m.at(i, j) == if is_fixed(fixed_arcs@.take(k as int), i, j) {
                    usize::MAX
                } else {
                    capacities.at(i, j)
                },
        decreases fixed_arcs@.len() - k,
    {
        let arc = fixed_arcs[k];
        m.set(arc.0, arc.1, usize::MAX);
        proof {
            let prefix = fixed_arcs@.take(k as int);
            let longer = fixed_arcs@.take(k + 1);
            assert forall|i: int, j: int| m.contains(i, j) implies #[trigger] m.at(i, j) == if is_fixed(
                longer,
                i,
                j,
            ) {
                usize::MAX
            } else {
                capacities.at(i, j)
            } by {
                if i == arc.0 && j == arc.1 {
                    assert(longer[k as int] == (i as usize, j as usize));
                } else {
                    if is_fixed(longer, i, j) {
                        let w = choose|w: int| 0 <= w < longer.len() && #[trigger] longer[w] == (
                        i as usize, j as usize);
                        assert(prefix[w] == longer[w]);
                    }
                    if is_fixed(prefix, i, j) {
                        let w = choose|w: int| 0 <= w < prefix.len() && #[trigger] prefix[w] == (
                        i as usize, j as usize);
                        assert(longer[w] == prefix[w]);
                    }
                }
            }
        }
        k = k + 1;
    }
    proof {
        assert(fixed_arcs@.take(k as int) =~= fixed_arcs@);
    }
    m
}

/// All detour bounds of the logarithmic variants fit in a `usize`.
fn log_terms_fit(dist: &Matrix<usize>, log_terms: &Matrix<usize>, delta_fn: &DeltaFunction) -> (b: bool)
    requires
        dist.wf(),
        log_terms.wf(),
        log_terms.nrows() == dist.nrows(),
        log_terms.ncols() == dist.ncols(),
    ensures
        b == forall|s: int, t: int|
            dist.contains(s, t) && connects(*dist, s, t) && delta_fn.is_logarithmic() ==> #[trigger] dist.at(s, t)
                + log_terms.at(s, t) <= usize::MAX,
{
    let logarithmic = match delta_fn {
        DeltaFunction::LogarithmicMini => true,
        DeltaFunction::LogarithmicLow => true,
        DeltaFunction::LogarithmicMedium => true,
        DeltaFunction::LogarithmicHigh => true,
        _ => false,
    };
    if !logarithmic {
        return true;
    }
    let rows = dist.num_rows();
    let columns = dist.num_columns();
    let mut s: usize = 0;
    while s < rows
        invariant
            dist.wf(),
            log_terms.wf(),
            log_terms.nrows() == dist.nrows(),
            log_terms.ncols() == dist.ncols(),
            rows == dist.nrows(),
            columns == dist.ncols(),
            delta_fn.is_logarithmic(),
            s <= rows,
            forall|a: int, b: int|
                0 <= a < s && 0 <= b < columns && connects(*dist, a, b) ==> #[trigger] dist.at(a, b)
                    + log_terms.at(a, b) <= usize::MAX,
        decreases rows - s,
    {
        let mut t: usize = 0;
        while t < columns
            invariant
                dist.wf(),
                log_terms.wf(),
                log_terms.nrows() == dist.nrows(),
                log_terms.ncols() == dist.ncols(),
                rows == dist.nrows(),
                columns == dist.ncols(),
                s < rows,
                t <= columns,
                delta_fn.is_logarithmic(),
                forall|a: int, b: int|
                    0 <= a < rows && 0 <= b < columns && (a < s || (a == s && b < t)) && connects(
                        *dist,
                        a,
                        b,
                    ) ==> #[trigger] dist.at(a, b) + log_terms.at(a, b) <= usize::MAX,
            decreases columns - t,
        {
            let d = *dist.get(s, t);
            if s != t && d != usize::MAX && *log_terms.get(s, t) > usize::MAX - d {
                proof {
                    assert(dist.contains(s as int, t as int) && connects(*dist, s as int, t as int));
                    assert(!(dist.at(s as int, t as int) + log_terms.at(s as int, t as int) <= usize::MAX));
                }
                return false;
            }
            t = t + 1;
        }
        s = s + 1;
    }
    true
}

/// Preprocessing fails: the routing capacities overflow Floyd-Warshall or
/// leave a predecessor chain that does not end at its source, or a detour
/// bound does not fit in a `usize`.
pub open spec fn preprocessing_fails(network: Network, log_terms: Matrix<usize>) -> bool {
    exists|caps: Matrix<usize>|
        #![trigger routing_capacities(caps, network.capacities, network.fixed_arcs@)]
        routing_capacities(caps, network.capacities, network.fixed_arcs@) && (!fw_no_overflow(
            caps,
            network.costs,
        ) || exists|dist: Matrix<usize>, prev: Matrix<Option<usize>>|
            #![trigger fw_result(caps, network.costs, dist, prev)]
            fw_result(caps, network.costs, dist, prev) && (!chains_short(prev) || !arc_set_inputs(
                dist,
                network.costs,
                caps,
                network.options.delta_fn,
                log_terms,
            )))
}

/// `aux` is what `AuxiliaryNetwork::from_network` builds from `network`:
/// its fixed arcs, one fresh scenario per supply matrix, all routed over the
/// shortest paths and intermediate arc sets of the routing capacities.
pub open spec fn built_from(aux: AuxiliaryNetwork, network: Network, log_terms: Matrix<usize>) -> bool {
    &&& aux.fixed_arcs@ == network.fixed_arcs@
    &&& aux.scenarios@.len() == network.balances@.len()
    &&& aux.wf(network.vertices@.len())
    &&& exists|
        caps: Matrix<usize>,
        dist: Matrix<usize>,
        prev: Matrix<Option<usize>>,
        arc_sets: Matrix<Matrix<bool>>,
    |
        #![trigger fw_result(caps, network.costs, dist, prev), arc_sets.wf()]
        {
            &&& routing_capacities(caps, network.capacities, network.fixed_arcs@)
            &&& fw_result(caps, network.costs, dist, prev)
            &&& chains_short(prev)
            &&& arc_set_inputs(dist, network.costs, caps, network.options.delta_fn, log_terms)
            &&& arc_sets.wf()
            &&& arc_sets.is_square(dist.nrows())
            &&& forall|s: int, t: int|
                #![trigger arc_sets.at(s, t)]
                arc_sets.contains(s, t) ==> {
                    &&& arc_sets.at(s, t).wf()
                    &&& arc_sets.at(s, t).is_square(dist.nrows())
                    &&& forall|x: int, y: int|
                        arc_sets.at(s, t).contains(x, y) ==> #[trigger] arc_sets.at(
                            s,
                            t,
                        ).at(x, y) == in_arc_set(
                            dist,
                            network.costs,
                            caps,
                            network.options.delta_fn,
                            log_terms,
                            s,
                            t,
                            x,
                            y,
                        )
                }
            &&& forall|i: int|
                0 <= i < aux.scenarios@.len() ==> fresh_scenario(
                    #[trigger] aux.scenarios@[i],
                    i,
                    network,
                    caps,
                    dist,
                    arc_sets,
                )
        }
}

/// Preprocessing that succeeded over one matrix of routing capacities
/// succeeds over every such matrix: they all agree.
proof fn lemma_preprocessing_succeeds(
    network: Network,
    log_terms: Matrix<usize>,
    caps0: Matrix<usize>,
    dist0: Matrix<usize>,
    prev0: Matrix<Option<usize>>,
)
    requires
        network.capacities.nrows() == network.capacities.ncols(),
        routing_capacities(caps0, network.capacities, network.fixed_arcs@),
        fw_no_overflow(caps0, network.costs),
        fw_result(caps0, network.costs, dist0, prev0),
        chains_short(prev0),
        arc_set_inputs(dist0, network.costs, caps0, network.options.delta_fn, log_terms),
    ensures
        !preprocessing_fails(network, log_terms),
{
    assert forall|caps: Matrix<usize>|
        #[trigger] routing_capacities(caps, network.capacities, network.fixed_arcs@) implies fw_no_overflow(
        caps,
        network.costs,
    ) && forall|dist: Matrix<usize>, prev: Matrix<Option<usize>>|
        #![trigger fw_result(caps, network.costs, dist, prev)]
        fw_result(caps, network.costs, dist, prev) ==> chains_short(prev) && arc_set_inputs(
            dist,
            network.costs,
            caps,
            network.options.delta_fn,
            log_terms,
        ) by {
        assert(agree(caps, caps0)) by {
            assert forall|a: int, b: int| 0 <= a < caps.nrows() && 0 <= b < caps.nrows() implies #[trigger] caps.at(
                a,
                b,
            ) == caps0.at(a, b) by {
                assert(caps.contains(a, b));
                assert(caps0.contains(a, b));
            }
        }
        lemma_fw_no_overflow_congruent(caps, caps0, network.costs);
        assert forall|dist: Matrix<usize>, prev: Matrix<Option<usize>>|
            #[trigger] fw_result(caps, network.costs, dist, prev) implies chains_short(prev) && arc_set_inputs(
            dist,
            network.costs,
            caps,
            network.options.delta_fn,
            log_terms,
        ) by {
            lemma_chains_short_congruent(caps, caps0, network.costs, dist, prev, dist0, prev0);
            assert forall|s: int, t: int|
                dist.contains(s, t) && connects(dist, s, t) && network.options.delta_fn.is_logarithmic()
                    implies #[trigger] dist.at(s, t) + log_terms.at(s, t) <= usize::MAX by {
                assert(dist.at(s, t) == dist0.at(s, t));
                assert(dist0.contains(s, t));
            }
        }
    }
}

impl AuxiliaryNetwork {
    /// All scenarios describe one network of `n` vertices, share its fixed
    /// arcs and are consistent.
    pub open spec fn wf(self, n: nat) -> bool {
        forall|j: int|
            0 <= j < self.scenarios@.len() ==> {
                &&& (#[trigger] self.scenarios@[j]).wf(n)
                &&& self.scenarios@[j].consistent()
                &&& self.scenarios@[j].network_state.fixed_arcs@ == self.fixed_arcs@
                &&& self.scenarios@[j].id == j
                &&& self.scenarios@[j].network_state.scenario_id == j
            }
    }

    /// The load scenario `j` has put on the fixed arc `k`.
    pub open spec fn load_on(self, j: int, k: int) -> usize {
        let a = self.fixed_arcs@[k];
        self.scenarios@[j].network_state.arc_loads.at(a.0 as int, a.1 as int)
    }

    /// For every fixed arc, the loads that all scenarios have put on it.
    pub fn snapshot_fixed_arc_loads(&self) -> (snapshot: Vec<Vec<i64>>)
        requires
            self.wf(self.n()),
        ensures
            snapshot@.len() == self.fixed_arcs@.len(),
            forall|k: int|
                0 <= k < snapshot@.len() ==> (#[trigger] snapshot@[k])@.len() == self.scenarios@.len(),
            forall|k: int, j: int|
                0 <= k < snapshot@.len() && 0 <= j < self.scenarios@.len() ==> #[trigger] snapshot@[k]@[j]
                    == self.load_on(j, k) as i64,
    {
        let mut snapshot: Vec<Vec<i64>> = Vec::new();
        let mut k: usize = 0;
        while k < self.fixed_arcs.len()
            invariant
                self.wf(self.n()),
                k <= self.fixed_arcs@.len(),
                snapshot@.len() == k,
                forall|a: int|
                    0 <= a < k ==> (#[trigger] snapshot@[a])@.len() == self.scenarios@.len(),
                forall|a: int, j: int|
                    0 <= a < k && 0 <= j < self.scenarios@.len() ==> #[trigger] snapshot@[a]@[j]
                        == self.load_on(j, a) as i64,
            decreases self.fixed_arcs@.len() - k,
        {
            let arc = self.fixed_arcs[k];
            let mut loads: Vec<i64> = Vec::new();
            let mut j: usize = 0;
            while j < self.scenarios.len()
                invariant
                    self.wf(self.n()),
                    k < self.fixed_arcs@.len(),
                    arc == self.fixed_arcs@[k as int],
                    j <= self.scenarios@.len(),
                    loads@.len() == j,
                    forall|b: int| 0 <= b < j ==> #[trigger] loads@[b] == self.load_on(b, k as int) as i64,
                decreases self.scenarios@.len() - j,
            {
                let state = &self.scenarios[j].network_state;
                proof {
                    assert(self.scenarios@[j as int].wf(self.n()));
                    assert(state.fixed_arcs@[k as int] == arc);
                }
                loads.push(*state.arc_loads.get(arc.0, arc.1) as i64);
                j = j + 1;
            }
            snapshot.push(loads);
            k = k + 1;
        }
        snapshot
    }

    /// The number of vertices of the network, as the first scenario sees it.
    pub open spec fn n(self) -> nat {
        if self.scenarios@.len() == 0 {
            0
        } else {
            self.scenarios@[0].network_state.capacities.nrows()
        }
    }

    /// Some scenario still has supply on the way.
    pub fn exists_supply(&self) -> (b: bool)
        ensures
            b == exists|j: int|
                0 <= j < self.scenarios@.len() && (#[trigger] self.scenarios@[j]).supply_tokens@.len() > 0,
    {
        let mut j: usize = 0;
        while j < self.scenarios.len()
            invariant
                j <= self.scenarios@.len(),
                forall|a: int| 0 <= a < j ==> (#[trigger] self.scenarios@[a]).supply_tokens@.len() == 0,
            decreases self.scenarios@.len() - j,
        {
            if self.scenarios[j].supply_tokens.len() > 0 {
                return true;
            }
            j = j + 1;
        }
        false
    }

    /// Builds the scenarios of a network for the greedy pass: shortest
    /// paths over the capacities with unlimited fixed arcs, the intermediate
    /// arc sets of every pair under the network's detour bound (whose
    /// logarithmic parts `log_terms` holds), and for each scenario its supply
    /// tokens, closest first.
    pub fn from_network(network: &Network, log_terms: &Matrix<usize>) -> (r: Result<AuxiliaryNetwork, SolverError>)
        requires
            preprocessable(*network, *log_terms),
        ensures
            r is Err <==> preprocessing_fails(*network, *log_terms),
            r is Err ==> r == Err::<AuxiliaryNetwork, SolverError>(SolverError::PathMatrixCorruptError),
            r matches Ok(aux) ==> built_from(aux, *network, *log_terms),
    {
        let n = network.vertices.len();
        let capacities = capacities_for_routing(&network.capacities, &network.fixed_arcs);
        let (dist, prev) = match try_floyd_warshall(&capacities, &network.costs) {
            Some(res) => res,
            None => {
                proof {
                    assert(preprocessing_fails(*network, *log_terms));
                }
                return Err(SolverError::PathMatrixCorruptError);
            },
        };
        let _successors = match try_invert_predecessors(&prev) {
            Ok(succ) => succ,
            Err(e) => {
                proof {
                    assert(fw_result(capacities, network.costs, dist, prev));
                    assert(preprocessing_fails(*network, *log_terms));
                }
                return Err(e);
            },
        };
        if !log_terms_fit(&dist, log_terms, &network.options.delta_fn) {
            proof {
                assert(fw_result(capacities, network.costs, dist, prev));
                assert(!arc_set_inputs(dist, network.costs, capacities, network.options.delta_fn, *log_terms));
                assert(preprocessing_fails(*network, *log_terms));
            }
            return Err(SolverError::PathMatrixCorruptError);
        }
        let delta_fn = network.options.delta_fn;
        let method = network.options.remainder_solve_method;
        let arc_sets = generate_intermediate_arc_sets(
            &dist,
            &network.costs,
            &capacities,
            &delta_fn,
            log_terms,
        );
        let arc_loads: Matrix<usize> = Matrix::filled_with(0, n, n);
        proof {
            assert forall|a: int, b: int| arc_loads.contains(a, b) implies #[trigger] arc_loads.at(a, b)
                == 0 by {
                crate::matrix::lemma_flat_in_bounds(a, b, n as int, n as int);
            }
        }
        let mut scenarios: Vec<Scenario> = Vec::new();
        let mut i: usize = 0;
        while i < network.balances.len()
            invariant
                preprocessable(*network, *log_terms),
                n == network.vertices@.len(),
                routing_capacities(capacities, network.capacities, network.fixed_arcs@),
                fw_result(capacities, network.costs, dist, prev),
                chains_short(prev),
                arc_set_inputs(dist, network.costs, capacities, delta_fn, *log_terms),
                delta_fn == network.options.delta_fn,
                method == network.options.remainder_solve_method,
                arc_sets.wf(),
                arc_sets.is_square(dist.nrows()),
                forall|s: int, t: int|
                    #![trigger arc_sets.at(s, t)]
                    arc_sets.contains(s, t) ==> {
                        &&& arc_sets.at(s, t).wf()
                        &&& arc_sets.at(s, t).is_square(dist.nrows())
                        &&& forall|x: int, y: int|
                            arc_sets.at(s, t).contains(x, y) ==> #[trigger] arc_sets.at(s, t).at(
                                x,
                                y,
                            ) == in_arc_set(
                                dist,
                                network.costs,
                                capacities,
                                delta_fn,
                                *log_terms,
                                s,
                                t,
                                x,
                                y,
                            )
                    },
                arc_loads.wf(),
                arc_loads.is_square(n as nat),
                forall|a: int, b: int| arc_loads.contains(a, b) ==> #[trigger] arc_loads.at(a, b) == 0,
                i <= network.balances@.len(),
                scenarios@.len() == i,
                forall|j: int|
                    0 <= j < i ==> {
                        &&& (#[trigger] scenarios@[j]).wf(n as nat)
                        &&& scenarios@[j].consistent()
                        &&& scenarios@[j].network_state.fixed_arcs@ == network.fixed_arcs@
                        &&& fresh_scenario(scenarios@[j], j, *network, capacities, dist, arc_sets)
                    },
            decreases network.balances@.len() - i,
        {
            let balance = &network.balances[i];
            proof {
                assert(balance.wf() && balance.is_square(n as nat));
            }
            let mut relative_draws: Vec<i64> = Vec::new();
            let mut k: usize = 0;
            while k < network.fixed_arcs.len()
                invariant
                    k <= network.fixed_arcs@.len(),
                    relative_draws@.len() == k,
                    forall|j: int| 0 <= j < k ==> #[trigger] relative_draws@[j] == 0,
                decreases network.fixed_arcs@.len() - k,
            {
                relative_draws.push(0);
                k = k + 1;
            }
            let network_state = NetworkState {
                scenario_id: i,
                fixed_arcs: copy_arcs(&network.fixed_arcs),
                relative_draws,
                capacities: copy_matrix(&capacities),
                costs: copy_matrix(&network.costs),
                arc_loads: copy_matrix(&arc_loads),
            };
            let tokens = generate_supply_tokens(balance, network.fixed_arcs.as_slice(), method, &arc_sets);
            let ghost unsorted = tokens@;
            let supply_tokens = sort_by_distance(tokens, &dist);
            let scenario = Scenario {
                id: i,
                supply_tokens,
                supply_remaining: copy_matrix(balance),
                network_state,
                slack: 0,
                slack_used: 0,
            };
            proof {
                lemma_sorted_members(unsorted, dist);
                assert forall|j: int| 0 <= j < scenario.supply_tokens@.len() implies scenario.network_state.holds(
                    #[trigger] scenario.supply_tokens@[j],
                ) by {
                    let x = scenario.supply_tokens@[j];
                    assert(unsorted.contains(x));
                    let w = choose|w: int| 0 <= w < unsorted.len() && unsorted[w] == x;
                    let pairs = token_pairs(
                        *balance,
                        network.fixed_arcs@,
                        method,
                        arc_sets,
                        (balance.nrows() * balance.ncols()) as int,
                    );
                    assert(fresh_token(unsorted[w], pairs[w].0 as int, pairs[w].1 as int, arc_sets));
                    assert(balance.contains(unsorted[w].s as int, unsorted[w].t as int));
                    assert(arc_sets.contains(x.s as int, x.t as int));
                }
                assert forall|o: int, t: int| scenario.supply_remaining.contains(o, t) implies in_flight(
                    scenario.supply_tokens@,
                    o,
                    t,
                ) <= #[trigger] scenario.supply_remaining.at(o, t) by {
                    lemma_sorted_in_flight(unsorted, dist, o, t);
                    let pairs = token_pairs(
                        *balance,
                        network.fixed_arcs@,
                        method,
                        arc_sets,
                        (balance.nrows() * balance.ncols()) as int,
                    );
                    lemma_fresh_tokens_count(unsorted, pairs, arc_sets, o, t);
                    if n > 0 {
                        lemma_token_pairs_count(
                            *balance,
                            network.fixed_arcs@,
                            method,
                            arc_sets,
                            (balance.nrows() * balance.ncols()) as int,
                            o,
                            t,
                        );
                    }
                }
                assert(supply_tokens_of(
                    unsorted,
                    network.balances@[i as int],
                    network.fixed_arcs@,
                    network.options.remainder_solve_method,
                    arc_sets,
                ));
                let st = scenario.network_state;
                assert(scenario.id == i);
                assert(same_matrix(scenario.supply_remaining, network.balances@[i as int]));
                assert(st.fixed_arcs@ == network.fixed_arcs@);
                assert(same_matrix(st.capacities, capacities));
                assert(same_matrix(st.costs, network.costs));
                assert(st.arc_loads.wf());
                assert forall|a: int, b: int| st.arc_loads.contains(a, b) implies #[trigger] st.arc_loads.at(a, b) == 0 by {
                    assert(arc_loads.contains(a, b));
                    assert(st.arc_loads.at(a, b) == arc_loads.at(a, b));
                }
                assert(scenario.supply_tokens@ == sorted_by_distance(unsorted, dist));
                assert(fresh_scenario(scenario, i as int, *network, capacities, dist, arc_sets));
            }
            scenarios.push(scenario);
            i = i + 1;
        }
        let aux = AuxiliaryNetwork { fixed_arcs: copy_arcs(&network.fixed_arcs), scenarios };
        proof {
            assert(fw_result(capacities, network.costs, dist, prev));
            assert(arc_sets.wf());
            lemma_preprocessing_succeeds(*network, *log_terms, capacities, dist, prev);
        }
        Ok(aux)
    }
}

/// With the greedy remainder method and no scenario supplying a vertex
/// from itself, preprocessing puts every unit of supply on a token: no
/// supply is left undispatched in any scenario.
pub proof fn law_preprocessing_dispatches_all_supply(
    aux: AuxiliaryNetwork,
    network: Network,
    log_terms: Matrix<usize>,
)
    requires
        built_from(aux, network, log_terms),
        network.options.remainder_solve_method == RemainderSolveMethod::Greedy,
        forall|i: int, v: int|
            0 <= i < network.balances@.len() && network.balances@[i].contains(v, v)
                ==> #[trigger] network.balances@[i].at(v, v) == 0,
    ensures
        forall|j: int, o: int, t: int|
            0 <= j < aux.scenarios@.len() && aux.scenarios@[j].supply_remaining.contains(o, t)
                ==> #[trigger] aux.scenarios@[j].undispatched(o, t) == 0,
{
    let (caps, dist, prev, arc_sets) = choose|
        caps: Matrix<usize>,
        dist: Matrix<usize>,
        prev: Matrix<Option<usize>>,
        arc_sets: Matrix<Matrix<bool>>,
    |
        {
            &&& routing_capacities(caps, network.capacities, network.fixed_arcs@)
            &&& fw_result(caps, network.costs, dist, prev)
            &&& chains_short(prev)
            &&& arc_set_inputs(dist, network.costs, caps, network.options.delta_fn, log_terms)
            &&& arc_sets.wf()
            &&& arc_sets.is_square(dist.nrows())
            &&& forall|s: int, t: int|
                #![trigger arc_sets.at(s, t)]
                arc_sets.contains(s, t) ==> {
                    &&& arc_sets.at(s, t).wf()
                    &&& arc_sets.at(s, t).is_square(dist.nrows())
                    &&& forall|x: int, y: int|
                        arc_sets.at(s, t).contains(x, y) ==> #[trigger] arc_sets.at(s, t).at(x, y)
                            == in_arc_set(
                            dist,
                            network.costs,
                            caps,
                            network.options.delta_fn,
                            log_terms,
                            s,
                            t,
                            x,
                            y,
                        )
                }
            &&& forall|i: int|
                0 <= i < aux.scenarios@.len() ==> fresh_scenario(
                    #[trigger] aux.scenarios@[i],
                    i,
                    network,
                    caps,
                    dist,
                    arc_sets,
                )
        };
    assert forall|j: int, o: int, t: int|
        0 <= j < aux.scenarios@.len() && aux.scenarios@[j].supply_remaining.contains(o, t) implies #[trigger] aux.scenarios@[j].undispatched(o, t) == 0 by {
        let scenario = aux.scenarios@[j];
        assert(fresh_scenario(scenario, j, network, caps, dist, arc_sets));
        let balance = network.balances@[j];
        let method = network.options.remainder_solve_method;
        let tokens = choose|tokens: Seq<SupplyToken>|
            #[trigger] supply_tokens_of(tokens, balance, network.fixed_arcs@, method, arc_sets)
                && scenario.supply_tokens@ == sorted_by_distance(tokens, dist);
        let total = (balance.nrows() * balance.ncols()) as int;
        let pairs = token_pairs(balance, network.fixed_arcs@, method, arc_sets, total);
        lemma_sorted_in_flight(tokens, dist, o, t);
        lemma_fresh_tokens_count(tokens, pairs, arc_sets, o, t);
        assert(balance.wf());
        crate::matrix::lemma_flat_in_bounds(o, t, balance.nrows() as int, balance.ncols() as int);
        lemma_token_pairs_count(balance, network.fixed_arcs@, method, arc_sets, total, o, t);
        assert(scenario.supply_remaining.at(o, t) == balance.at(o, t));
        if o == t {
            assert(balance.at(o, o) == 0);
        }
    }
}

/// A scenario with no token left on the way and no supply undispatched has
/// delivered all its supply.
pub proof fn law_no_tokens_all_delivered(scenario: Scenario)
    requires
        scenario.supply_tokens@.len() == 0,
        forall|o: int, t: int|
            scenario.supply_remaining.contains(o, t) ==> #[trigger] scenario.undispatched(o, t) == 0,
    ensures
        forall|o: int, t: int|
            scenario.supply_remaining.contains(o, t) ==> #[trigger] scenario.supply_remaining.at(o, t) == 0,
{
    assert forall|o: int, t: int| scenario.supply_remaining.contains(o, t) implies #[trigger] scenario.supply_remaining.at(
        o,
        t,
    ) == 0 by {
        assert(scenario.undispatched(o, t) == 0);
    }
}

/// A routed token's successor towards `t` is reached over an arc of its
/// arc set that has capacity left.
proof fn lemma_successor_arc(
    token: SupplyToken,
    capacities: Matrix<usize>,
    costs: Matrix<usize>,
    s: int,
    t: int,
)
    requires
        routes_through(token, capacities, costs),
        capacities.wf(),
        capacities.nrows() == capacities.ncols(),
        0 <= s < capacities.nrows(),
        0 <= t < capacities.nrows(),
        s != t,
        token.successors.at(s, t) != usize::MAX,
    ensures
        ({
            let v = token.successors.at(s, t) as int;
            &&& 0 <= v < capacities.nrows()
            &&& token.intermediate_arc_set.at(s, v)
            &&& capacities.at(s, v) > 0
        }),
{
    let (m, prev) = choose|m: Matrix<usize>, prev: Matrix<Option<usize>>|
        #[trigger] routes_with(token, capacities, costs, m, prev);
    let n = capacities.nrows();
    assert(token.successors.contains(s, t));
    assert(token.successors.at(s, t) == successor(prev, s, t));
    assert(prev.contains(s, t));
    assert(prev.at(s, t) is Some);
    assert(reaches_back(prev, s, t, prev.ncols()));
    let f = choose|f: nat| reaches_back(prev, s, t, f);
    lemma_back_chain(prev, s, t, f, prev.ncols());
    lemma_chain_first_step(prev, s, t, f);
    let chain = back_chain(prev, s, t, f);
    let path = chain.reverse();
    assert(pred_path(prev, s, t) == path);
    let x = chain[chain.len() - 2] as int;
    assert(path[1] == chain[chain.len() - 2]);
    assert(prev.contains(s, x));
    assert(prev.at(s, x) == fw_pred(m, costs, m.nrows(), s, x));
    crate::algorithms::lemma_fw_pred(m, costs, m.nrows(), s, x);
    assert(m.contains(s, x));
}

/// The fixed arc that the closest route passes, when there is one.
proof fn lemma_closest_is_candidate(state: NetworkState, token: SupplyToken, k: int)
    requires
        state.closest_among(token, k).0 != usize::MAX,
    ensures
        exists|j: int|
            0 <= j < k && #[trigger] state.candidate(token, j) && state.closest_among(token, k).0
                == state.step_towards(token, j),
    decreases k,
{
    if k > 0 {
        let best = state.closest_among(token, k - 1);
        if state.candidate(token, k - 1) && state.drawn_cost(token, k - 1) < best.1 {
            assert(state.candidate(token, k - 1));
        } else {
            lemma_closest_is_candidate(state, token, k - 1);
            let j = choose|j: int|
                0 <= j < k - 1 && #[trigger] state.candidate(token, j) && state.closest_among(
                    token,
                    k - 1,
                ).0 == state.step_towards(token, j);
            assert(state.candidate(token, j));
        }
    }
}

/// A token that moves crosses a fixed arc, or an arc of its arc set with
/// capacity left.
proof fn lemma_step_arc(state: NetworkState, token: SupplyToken, v: usize)
    requires
        state.wf(state.capacities.nrows()),
        state.holds(token),
        routes_through(token, state.capacities, state.costs),
        token.s != token.t,
        state.next_step(token) == Ok::<usize, SolverError>(v),
    ensures
        is_fixed(state.fixed_arcs@, token.s as int, v as int) || (token.intermediate_arc_set.at(
            token.s as int,
            v as int,
        ) && state.capacities.at(token.s as int, v as int) > 0),
{
    let s = token.s as int;
    let t = token.t as int;
    let direct = token.successors.at(s, t);
    let closest = state.closest_among(token, state.fixed_arcs@.len() as int);
    if v == direct {
        lemma_successor_arc(token, state.capacities, state.costs, s, t);
    } else {
        assert(v == closest.0);
        lemma_closest_is_candidate(state, token, state.fixed_arcs@.len() as int);
        let j = choose|j: int|
            0 <= j < state.fixed_arcs@.len() && #[trigger] state.candidate(token, j)
                && closest.0 == state.step_towards(token, j);
        let a = state.fixed_arcs@[j];
        if token.s == a.0 {
            assert(state.fixed_arcs@[j] == (token.s, v));
        } else {
            lemma_successor_arc(token, state.capacities, state.costs, s, a.0 as int);
        }
    }
}

/// The network `state` keeps capacities: on every arc that is not fixed,
/// load and remaining capacity add up to `base`.
pub open spec fn keeps_capacities(state: NetworkState, base: Matrix<usize>) -> bool {
    forall|x: int, y: int|
        state.capacities.contains(x, y) && !is_fixed(state.fixed_arcs@, x, y) ==> #[trigger] state.arc_loads.at(x, y)
            + state.capacities.at(x, y) == base.at(x, y)
}

/// The greedy pass respects the capacities: moving tokens never puts more
/// load on an arc that is not fixed than its capacity allows. Whatever a
/// round ends with, load and remaining capacity still add up to the
/// capacities it started from.
pub proof fn law_round_keeps_capacities(
    state: NetworkState,
    tokens: Seq<SupplyToken>,
    remaining: Matrix<usize>,
    i: int,
    result: Result<(), SolverError>,
    state_f: NetworkState,
    tokens_f: Seq<SupplyToken>,
    remaining_f: Matrix<usize>,
    base: Matrix<usize>,
)
    requires
        state.wf(state.capacities.nrows()),
        0 <= i,
        forall|j: int| i <= j < tokens.len() ==> state.holds(#[trigger] tokens[j]),
        forall|j: int| i <= j < tokens.len() ==> (#[trigger] tokens[j]).s != tokens[j].t,
        keeps_capacities(state, base),
        base.nrows() == state.capacities.nrows(),
        base.ncols() == state.capacities.ncols(),
        round(state, tokens, remaining, i, result, state_f, tokens_f, remaining_f),
    ensures
        keeps_capacities(state_f, base),
    decreases tokens.len() - i,
{
    if i < tokens.len() {
        let token = tokens[i];
        let n = state.capacities.nrows();
        if exists|v: usize, state1: NetworkState, token1: SupplyToken|
            #![trigger steps_to(state, token, token1, v), crossed(state, state1, token.s as int, v as int)]
            {
                &&& steps_to(state, token, token1, v)
                &&& crossed(state, state1, token.s as int, v as int)
                &&& v != token.t
                &&& round(state1, tokens.update(i, token1), remaining, i + 1, result, state_f, tokens_f, remaining_f)
            } {
            let (v, state1, token1) = choose|v: usize, state1: NetworkState, token1: SupplyToken|
                #![trigger steps_to(state, token, token1, v), crossed(state, state1, token.s as int, v as int)]
                {
                    &&& steps_to(state, token, token1, v)
                    &&& crossed(state, state1, token.s as int, v as int)
                    &&& v != token.t
                    &&& round(state1, tokens.update(i, token1), remaining, i + 1, result, state_f, tokens_f, remaining_f)
                };
            lemma_crossing_keeps(state, state1, token, token1, v, base);
            lemma_crossing_holds(state, state1, tokens, i, token.s as int, v as int);
            law_round_keeps_capacities(state1, tokens.update(i, token1), remaining, i + 1, result, state_f, tokens_f, remaining_f, base);
        } else if exists|v: usize, state1: NetworkState, token1: SupplyToken, remaining1: Matrix<usize>|
            #![trigger steps_to(state, token, token1, v), crossed(state, state1, token.s as int, v as int), delivered_one(remaining, remaining1, token.origin as int, token.t as int)]
            {
                &&& steps_to(state, token, token1, v)
                &&& crossed(state, state1, token.s as int, v as int)
                &&& v == token.t
                &&& delivered_one(remaining, remaining1, token.origin as int, token.t as int)
                &&& round(state1, tokens.remove(i), remaining1, i, result, state_f, tokens_f, remaining_f)
            } {
            let (v, state1, token1, remaining1) = choose|v: usize, state1: NetworkState, token1: SupplyToken, remaining1: Matrix<usize>|
                #![trigger steps_to(state, token, token1, v), crossed(state, state1, token.s as int, v as int), delivered_one(remaining, remaining1, token.origin as int, token.t as int)]
                {
                    &&& steps_to(state, token, token1, v)
                    &&& crossed(state, state1, token.s as int, v as int)
                    &&& v == token.t
                    &&& delivered_one(remaining, remaining1, token.origin as int, token.t as int)
                    &&& round(state1, tokens.remove(i), remaining1, i, result, state_f, tokens_f, remaining_f)
                };
            lemma_crossing_keeps(state, state1, token, token1, v, base);
            lemma_crossing_holds(state, state1, tokens, i, token.s as int, v as int);
            assert forall|j: int| i <= j < tokens.remove(i).len() implies state1.holds(#[trigger] tokens.remove(i)[j])
                && tokens.remove(i)[j].s != tokens.remove(i)[j].t by {
                assert(tokens.remove(i)[j] == tokens[j + 1]);
            }
            law_round_keeps_capacities(state1, tokens.remove(i), remaining1, i, result, state_f, tokens_f, remaining_f, base);
        }
    }
}

/// Crossing an arc along a token's step keeps the capacities; the arc lies
/// in the network.
proof fn lemma_crossing_keeps(
    state: NetworkState,
    state1: NetworkState,
    token: SupplyToken,
    token1: SupplyToken,
    v: usize,
    base: Matrix<usize>,
)
    requires
        state.wf(state.capacities.nrows()),
        state.holds(token),
        token.s != token.t,
        steps_to(state, token, token1, v),
        crossed(state, state1, token.s as int, v as int),
        keeps_capacities(state, base),
    ensures
        v < state.capacities.nrows(),
        keeps_capacities(state1, base),
{
    let r = choose|r: SupplyToken|
        #[trigger] rerouted(state, token, r) && state.next_step(r) == Ok::<usize, SolverError>(v)
            && token1.origin == r.origin && token1.t == r.t && token1.s == v && token1.distances
            == r.distances && token1.successors == r.successors
            && token1.intermediate_arc_set.nrows() == r.intermediate_arc_set.nrows()
            && token1.intermediate_arc_set.ncols() == r.intermediate_arc_set.ncols()
            && token1.intermediate_arc_set.cells() == r.intermediate_arc_set.cells().update(
            flat(r.s as int, v as int, state.capacities.nrows() as int),
            false,
        );
    assert(state.holds(r));
    lemma_step_arc(state, r, v);
    let n = state.capacities.nrows() as int;
    let s = token.s as int;
    lemma_successors_in_range(r, state.capacities, state.costs);
    lemma_closest_in_range(state, r, state.fixed_arcs@.len() as int);
    assert(0 <= v < n);
    let k = flat(s, v as int, n);
    crate::matrix::lemma_flat_in_bounds(s, v as int, n, n);
    assert forall|x: int, y: int|
        state1.capacities.contains(x, y) && !is_fixed(state1.fixed_arcs@, x, y) implies #[trigger] state1.arc_loads.at(
        x,
        y,
    ) + state1.capacities.at(x, y) == base.at(x, y) by {
        crate::matrix::lemma_flat_in_bounds(x, y, n, n);
        assert(state.capacities.contains(x, y));
        assert(state.arc_loads.at(x, y) + state.capacities.at(x, y) == base.at(x, y));
        let j = flat(x, y, n);
        if j == k {
            crate::matrix::lemma_flat_injective(x, y, s, v as int, n);
            assert(state.capacities.at(s, v as int) > 0);
            assert(state.arc_loads.at(s, v as int) < usize::MAX);
            assert(state1.capacities.cells()[k] == state.capacities.at(s, v as int) - 1);
            assert(state1.arc_loads.cells()[k] == state.arc_loads.at(s, v as int) + 1);
        } else {
            assert(state1.capacities.cells()[j] == state.capacities.cells()[j]);
            assert(state1.arc_loads.cells()[j] == state.arc_loads.cells()[j]);
        }
    }
}

/// Crossing an arc of the network keeps it well formed and every token in
/// it.
proof fn lemma_crossing_holds(
    state: NetworkState,
    state1: NetworkState,
    tokens: Seq<SupplyToken>,
    i: int,
    s: int,
    v: int,
)
    requires
        state.wf(state.capacities.nrows()),
        0 <= s < state.capacities.nrows(),
        0 <= v < state.capacities.nrows(),
        crossed(state, state1, s, v),
        forall|j: int| i <= j < tokens.len() ==> state.holds(#[trigger] tokens[j]),
    ensures
        state1.wf(state1.capacities.nrows()),
        state1.capacities.nrows() == state.capacities.nrows(),
        forall|j: int| i <= j < tokens.len() ==> state1.holds(#[trigger] tokens[j]),
{
    let n = state.capacities.nrows() as int;
    crate::matrix::lemma_flat_in_bounds(s, v, n, n);
    assert(state1.capacities.cells().len() == state.capacities.cells().len());
    assert(state1.arc_loads.cells().len() == state.arc_loads.cells().len());
    assert forall|j: int| i <= j < tokens.len() implies state1.holds(#[trigger] tokens[j]) by {
        assert(state.holds(tokens[j]));
    }
}

/// Preprocessing starts every scenario with the network's capacities: no
/// load yet, and on every arc that is not fixed the capacity the network
/// gives it.
pub proof fn law_built_keeps_capacities(aux: AuxiliaryNetwork, network: Network, log_terms: Matrix<usize>)
    requires
        built_from(aux, network, log_terms),
    ensures
        forall|j: int|
            0 <= j < aux.scenarios@.len() ==> keeps_capacities(
                (#[trigger] aux.scenarios@[j]).network_state,
                network.capacities,
            ),
{
    let (caps, dist, prev, arc_sets) = choose|
        caps: Matrix<usize>,
        dist: Matrix<usize>,
        prev: Matrix<Option<usize>>,
        arc_sets: Matrix<Matrix<bool>>,
    |
        #![trigger fw_result(caps, network.costs, dist, prev), arc_sets.wf()]
        {
            &&& routing_capacities(caps, network.capacities, network.fixed_arcs@)
            &&& fw_result(caps, network.costs, dist, prev)
            &&& chains_short(prev)
            &&& arc_set_inputs(dist, network.costs, caps, network.options.delta_fn, log_terms)
            &&& arc_sets.wf()
            &&& arc_sets.is_square(dist.nrows())
            &&& forall|s: int, t: int|
                #![trigger arc_sets.at(s, t)]
                arc_sets.contains(s, t) ==> {
                    &&& arc_sets.at(s, t).wf()
                    &&& arc_sets.at(s, t).is_square(dist.nrows())
                    &&& forall|x: int, y: int|
                        arc_sets.at(s, t).contains(x, y) ==> #[trigger] arc_sets.at(s, t).at(x, y)
                            == in_arc_set(
                            dist,
                            network.costs,
                            caps,
                            network.options.delta_fn,
                            log_terms,
                            s,
                            t,
                            x,
                            y,
                        )
                }
            &&& forall|i: int|
                0 <= i < aux.scenarios@.len() ==> fresh_scenario(
                    #[trigger] aux.scenarios@[i],
                    i,
                    network,
                    caps,
                    dist,
                    arc_sets,
                )
        };
    assert forall|j: int| 0 <= j < aux.scenarios@.len() implies keeps_capacities(
        (#[trigger] aux.scenarios@[j]).network_state,
        network.capacities,
    ) by {
        let state = aux.scenarios@[j].network_state;
        assert(fresh_scenario(aux.scenarios@[j], j, network, caps, dist, arc_sets));
        assert forall|x: int, y: int|
            state.capacities.contains(x, y) && !is_fixed(state.fixed_arcs@, x, y) implies #[trigger] state.arc_loads.at(
            x,
            y,
        ) + state.capacities.at(x, y) == network.capacities.at(x, y) by {
            assert(state.capacities.at(x, y) == caps.at(x, y));
            assert(caps.contains(x, y));
            assert(caps.at(x, y) == network.capacities.at(x, y));
            assert(state.arc_loads.contains(x, y));
            assert(state.arc_loads.at(x, y) == 0);
        }
    }
}

/// `after` is the scenario `before` after a greedy step that succeeded:
/// the draws refreshed, one round moved every token, and what the step
/// promises of a scenario holds.
pub open spec fn stepped(before: Scenario, after: Scenario, result: Result<(), SolverError>) -> bool {
    &&& result is Ok
    &&& after.wf(before.network_state.capacities.nrows())
    &&& forall|o: int, t: int|
        before.supply_remaining.contains(o, t) ==> #[trigger] after.undispatched(o, t)
            == before.undispatched(o, t)
    &&& forall|j: int|
        0 <= j < after.supply_tokens@.len() ==> (#[trigger] after.supply_tokens@[j]).s
            != after.supply_tokens@[j].t
    &&& exists|drawn: NetworkState|
        {
            &&& drawn == NetworkState { relative_draws: drawn.relative_draws, ..before.network_state }
            &&& drawn.relative_draws@.len() == before.network_state.fixed_arcs@.len()
            &&& #[trigger] round(
                drawn,
                before.supply_tokens@,
                before.supply_remaining,
                0,
                result,
                after.network_state,
                after.supply_tokens@,
                after.supply_remaining,
            )
        }
}

/// A greedy pass of successful steps respects the capacities and delivers
/// what it dispatched: from a scenario whose load and remaining capacity
/// add up to `base` on every arc that is not fixed, and whose tokens are
/// not yet at their destinations, every later scenario keeps those sums,
/// and its undispatched supply is the first scenario's.
pub proof fn law_greedy_pass(steps: Seq<Scenario>, results: Seq<Result<(), SolverError>>, base: Matrix<usize>)
    requires
        steps.len() >= 1,
        steps[0].wf(steps[0].network_state.capacities.nrows()),
        forall|j: int|
            0 <= j < steps[0].supply_tokens@.len() ==> (#[trigger] steps[0].supply_tokens@[j]).s
                != steps[0].supply_tokens@[j].t,
        keeps_capacities(steps[0].network_state, base),
        base.nrows() == steps[0].network_state.capacities.nrows(),
        base.ncols() == steps[0].network_state.capacities.ncols(),
        results.len() == steps.len() - 1,
        forall|i: int| 0 <= i < steps.len() - 1 ==> stepped(#[trigger] steps[i], steps[i + 1], results[i]),
    ensures
        keeps_capacities(steps.last().network_state, base),
        steps.last().network_state.capacities.nrows() == steps[0].network_state.capacities.nrows(),
        forall|o: int, t: int|
            steps[0].supply_remaining.contains(o, t) ==> #[trigger] steps.last().undispatched(o, t)
                == steps[0].undispatched(o, t),
    decreases steps.len(),
{
    if steps.len() > 1 {
        let prefix = steps.drop_last();
        let rs = results.drop_last();
        assert forall|i: int| 0 <= i < prefix.len() - 1 implies stepped(#[trigger] prefix[i], prefix[i + 1], rs[i]) by {
            assert(prefix[i] == steps[i] && prefix[i + 1] == steps[i + 1]);
            assert(stepped(steps[i], steps[i + 1], results[i]));
        }
        law_greedy_pass(prefix, rs, base);
        let k = steps.len() - 2;
        let before = steps[k];
        let after = steps[k + 1];
        assert(prefix.last() == before);
        let result = results[k];
        assert(stepped(before, after, result));
        if k > 0 {
            assert(stepped(steps[k - 1], steps[k], results[k - 1]));
        }
        let drawn = choose|drawn: NetworkState|
            {
                &&& drawn == NetworkState { relative_draws: drawn.relative_draws, ..before.network_state }
                &&& drawn.relative_draws@.len() == before.network_state.fixed_arcs@.len()
                &&& #[trigger] round(
                    drawn,
                    before.supply_tokens@,
                    before.supply_remaining,
                    0,
                    result,
                    after.network_state,
                    after.supply_tokens@,
                    after.supply_remaining,
                )
            };
        assert forall|j: int| 0 <= j < before.supply_tokens@.len() implies drawn.holds(
            #[trigger] before.supply_tokens@[j],
        ) by {
            assert(before.network_state.holds(before.supply_tokens@[j]));
        }
        law_round_keeps_capacities(
            drawn,
            before.supply_tokens@,
            before.supply_remaining,
            0,
            result,
            after.network_state,
            after.supply_tokens@,
            after.supply_remaining,
            base,
        );
        assert forall|o: int, t: int| steps[0].supply_remaining.contains(o, t) implies #[trigger] steps.last().undispatched(
            o,
            t,
        ) == steps[0].undispatched(o, t) by {
            assert(prefix.last().undispatched(o, t) == steps[0].undispatched(o, t));
        }
    }
}

/// The number of `true` cells.
pub open spec fn count_true(s: Seq<bool>) -> nat
    decreases s.len(),
{
    if s.len() == 0 {
        0
    } else {
        count_true(s.drop_last()) + if s.last() {
            1nat
        } else {
            0nat
        }
    }
}

/// Clearing a `true` cell lowers the count by one.
proof fn lemma_count_true_clear(s: Seq<bool>, k: int)
    requires
        0 <= k < s.len(),
        s[k],
    ensures
        count_true(s.update(k, false)) + 1 == count_true(s),
    decreases s.len(),
{
    let u = s.update(k, false);
    if k == s.len() - 1 {
        assert(u.drop_last() =~= s.drop_last());
    } else {
        assert(u.drop_last() =~= s.drop_last().update(k, false));
        lemma_count_true_clear(s.drop_last(), k);
    }
}

/// The moves a token may still make, one per arc left in its arc set, and
/// its delivery.
pub open spec fn token_work(token: SupplyToken) -> nat {
    count_true(token.intermediate_arc_set.cells()) + 1
}

/// The work left to a list of tokens.
pub open spec fn tokens_work(tokens: Seq<SupplyToken>) -> nat
    decreases tokens.len(),
{
    if tokens.len() == 0 {
        0
    } else {
        tokens_work(tokens.drop_last()) + token_work(tokens.last())
    }
}

/// Replacing one token changes the work by the difference of theirs.
proof fn lemma_tokens_work_update(tokens: Seq<SupplyToken>, i: int, token: SupplyToken)
    requires
        0 <= i < tokens.len(),
    ensures
        tokens_work(tokens.update(i, token)) == tokens_work(tokens) - token_work(tokens[i]) + token_work(token),
    decreases tokens.len(),
{
    let u = tokens.update(i, token);
    if i == tokens.len() - 1 {
        assert(u.drop_last() =~= tokens.drop_last());
    } else {
        assert(u.drop_last() =~= tokens.drop_last().update(i, token));
        lemma_tokens_work_update(tokens.drop_last(), i, token);
    }
}

/// Removing one token removes its work.
proof fn lemma_tokens_work_remove(tokens: Seq<SupplyToken>, i: int)
    requires
        0 <= i < tokens.len(),
    ensures
        tokens_work(tokens.remove(i)) == tokens_work(tokens) - token_work(tokens[i]),
    decreases tokens.len(),
{
    let u = tokens.remove(i);
    if i == tokens.len() - 1 {
        assert(u =~= tokens.drop_last());
    } else {
        assert(u.drop_last() =~= tokens.drop_last().remove(i));
        assert(u.last() == tokens.last());
        lemma_tokens_work_remove(tokens.drop_last(), i);
    }
}

/// The arc a token moves along belongs to its arc set.
proof fn lemma_step_in_arc_set(state: NetworkState, token: SupplyToken, v: usize)
    requires
        state.wf(state.capacities.nrows()),
        state.holds(token),
        routes_through(token, state.capacities, state.costs),
        token.s != token.t,
        state.next_step(token) == Ok::<usize, SolverError>(v),
    ensures
        v < state.capacities.nrows(),
        token.intermediate_arc_set.at(token.s as int, v as int),
{
    let s = token.s as int;
    let t = token.t as int;
    let direct = token.successors.at(s, t);
    lemma_successors_in_range(token, state.capacities, state.costs);
    lemma_closest_in_range(state, token, state.fixed_arcs@.len() as int);
    if v == direct {
        lemma_successor_arc(token, state.capacities, state.costs, s, t);
    } else {
        let closest = state.closest_among(token, state.fixed_arcs@.len() as int);
        assert(v == closest.0);
        lemma_closest_is_candidate(state, token, state.fixed_arcs@.len() as int);
        let j = choose|j: int|
            0 <= j < state.fixed_arcs@.len() && #[trigger] state.candidate(token, j)
                && closest.0 == state.step_towards(token, j);
        let a = state.fixed_arcs@[j];
        if token.s != a.0 {
            lemma_successor_arc(token, state.capacities, state.costs, s, a.0 as int);
        }
    }
}

/// A token that moves has one move less to make.
proof fn lemma_step_work(state: NetworkState, token: SupplyToken, token1: SupplyToken, v: usize)
    requires
        state.wf(state.capacities.nrows()),
        state.holds(token),
        token.s != token.t,
        steps_to(state, token, token1, v),
    ensures
        token_work(token1) + 1 == token_work(token),
{
    let r = choose|r: SupplyToken|
        #[trigger] rerouted(state, token, r) && state.next_step(r) == Ok::<usize, SolverError>(v)
            && token1.origin == r.origin && token1.t == r.t && token1.s == v && token1.distances
            == r.distances && token1.successors == r.successors
            && token1.intermediate_arc_set.nrows() == r.intermediate_arc_set.nrows()
            && token1.intermediate_arc_set.ncols() == r.intermediate_arc_set.ncols()
            && token1.intermediate_arc_set.cells() == r.intermediate_arc_set.cells().update(
            flat(r.s as int, v as int, state.capacities.nrows() as int),
            false,
        );
    assert(state.holds(r));
    lemma_step_in_arc_set(state, r, v);
    let n = state.capacities.nrows() as int;
    crate::matrix::lemma_flat_in_bounds(r.s as int, v as int, n, n);
    lemma_count_true_clear(r.intermediate_arc_set.cells(), flat(r.s as int, v as int, n));
}

/// A round that succeeds moves every token from the `i`-th on, so the work
/// left drops by at least their number.
proof fn lemma_round_work(
    state: NetworkState,
    tokens: Seq<SupplyToken>,
    remaining: Matrix<usize>,
    i: int,
    result: Result<(), SolverError>,
    state_f: NetworkState,
    tokens_f: Seq<SupplyToken>,
    remaining_f: Matrix<usize>,
)
    requires
        state.wf(state.capacities.nrows()),
        0 <= i,
        forall|j: int| i <= j < tokens.len() ==> state.holds(#[trigger] tokens[j]),
        forall|j: int| i <= j < tokens.len() ==> (#[trigger] tokens[j]).s != tokens[j].t,
        result is Ok,
        round(state, tokens, remaining, i, result, state_f, tokens_f, remaining_f),
    ensures
        tokens_work(tokens_f) + (tokens.len() - i) <= tokens_work(tokens),
    decreases tokens.len() - i,
{
    if i < tokens.len() {
        let token = tokens[i];
        if exists|v: usize, state1: NetworkState, token1: SupplyToken|
            #![trigger steps_to(state, token, token1, v), crossed(state, state1, token.s as int, v as int)]
            {
                &&& steps_to(state, token, token1, v)
                &&& crossed(state, state1, token.s as int, v as int)
                &&& v != token.t
                &&& round(state1, tokens.update(i, token1), remaining, i + 1, result, state_f, tokens_f, remaining_f)
            } {
            let (v, state1, token1) = choose|v: usize, state1: NetworkState, token1: SupplyToken|
                #![trigger steps_to(state, token, token1, v), crossed(state, state1, token.s as int, v as int)]
                {
                    &&& steps_to(state, token, token1, v)
                    &&& crossed(state, state1, token.s as int, v as int)
                    &&& v != token.t
                    &&& round(state1, tokens.update(i, token1), remaining, i + 1, result, state_f, tokens_f, remaining_f)
                };
            lemma_step_work(state, token, token1, v);
            lemma_step_in_arc_set_of(state, token, token1, v);
            lemma_crossing_holds(state, state1, tokens, i, token.s as int, v as int);
            lemma_tokens_work_update(tokens, i, token1);
            lemma_round_work(state1, tokens.update(i, token1), remaining, i + 1, result, state_f, tokens_f, remaining_f);
        } else {
            let (v, state1, token1, remaining1) = choose|v: usize, state1: NetworkState, token1: SupplyToken, remaining1: Matrix<usize>|
                #![trigger steps_to(state, token, token1, v), crossed(state, state1, token.s as int, v as int), delivered_one(remaining, remaining1, token.origin as int, token.t as int)]
                {
                    &&& steps_to(state, token, token1, v)
                    &&& crossed(state, state1, token.s as int, v as int)
                    &&& v == token.t
                    &&& delivered_one(remaining, remaining1, token.origin as int, token.t as int)
                    &&& round(state1, tokens.remove(i), remaining1, i, result, state_f, tokens_f, remaining_f)
                };
            lemma_step_in_arc_set_of(state, token, token1, v);
            lemma_crossing_holds(state, state1, tokens, i, token.s as int, v as int);
            assert forall|j: int| i <= j < tokens.remove(i).len() implies state1.holds(#[trigger] tokens.remove(i)[j])
                && tokens.remove(i)[j].s != tokens.remove(i)[j].t by {
                assert(tokens.remove(i)[j] == tokens[j + 1]);
            }
            lemma_tokens_work_remove(tokens, i);
            lemma_round_work(state1, tokens.remove(i), remaining1, i, result, state_f, tokens_f, remaining_f);
        }
    }
}

/// The vertex a token steps to lies in the network.
proof fn lemma_step_in_arc_set_of(state: NetworkState, token: SupplyToken, token1: SupplyToken, v: usize)
    requires
        state.wf(state.capacities.nrows()),
        state.holds(token),
        token.s != token.t,
        steps_to(state, token, token1, v),
    ensures
        v < state.capacities.nrows(),
{
    let r = choose|r: SupplyToken|
        #[trigger] rerouted(state, token, r) && state.next_step(r) == Ok::<usize, SolverError>(v)
            && token1.origin == r.origin && token1.t == r.t && token1.s == v && token1.distances
            == r.distances && token1.successors == r.successors
            && token1.intermediate_arc_set.nrows() == r.intermediate_arc_set.nrows()
            && token1.intermediate_arc_set.ncols() == r.intermediate_arc_set.ncols()
            && token1.intermediate_arc_set.cells() == r.intermediate_arc_set.cells().update(
            flat(r.s as int, v as int, state.capacities.nrows() as int),
            false,
        );
    assert(state.holds(r));
    lemma_step_in_arc_set(state, r, v);
}

/// A round that fails for want of a route names its own scenario.
pub proof fn lemma_round_error(
    state: NetworkState,
    tokens: Seq<SupplyToken>,
    remaining: Matrix<usize>,
    i: int,
    result: Result<(), SolverError>,
    state_f: NetworkState,
    tokens_f: Seq<SupplyToken>,
    remaining_f: Matrix<usize>,
    x: usize,
)
    requires
        round(state, tokens, remaining, i, result, state_f, tokens_f, remaining_f),
        result == Err::<(), SolverError>(SolverError::NoFeasibleFlowError(x)),
    ensures
        x == state.scenario_id,
    decreases tokens.len() - i,
{
    if 0 <= i < tokens.len() {
        let token = tokens[i];
        if exists|v: usize, state1: NetworkState, token1: SupplyToken|
            #![trigger steps_to(state, token, token1, v), crossed(state, state1, token.s as int, v as int)]
            {
                &&& steps_to(state, token, token1, v)
                &&& crossed(state, state1, token.s as int, v as int)
                &&& v != token.t
                &&& round(state1, tokens.update(i, token1), remaining, i + 1, result, state_f, tokens_f, remaining_f)
            } {
            let (v, state1, token1) = choose|v: usize, state1: NetworkState, token1: SupplyToken|
                #![trigger steps_to(state, token, token1, v), crossed(state, state1, token.s as int, v as int)]
                {
                    &&& steps_to(state, token, token1, v)
                    &&& crossed(state, state1, token.s as int, v as int)
                    &&& v != token.t
                    &&& round(state1, tokens.update(i, token1), remaining, i + 1, result, state_f, tokens_f, remaining_f)
                };
            lemma_round_error(state1, tokens.update(i, token1), remaining, i + 1, result, state_f, tokens_f, remaining_f, x);
        } else if exists|v: usize, state1: NetworkState, token1: SupplyToken, remaining1: Matrix<usize>|
            #![trigger steps_to(state, token, token1, v), crossed(state, state1, token.s as int, v as int), delivered_one(remaining, remaining1, token.origin as int, token.t as int)]
            {
                &&& steps_to(state, token, token1, v)
                &&& crossed(state, state1, token.s as int, v as int)
                &&& v == token.t
                &&& delivered_one(remaining, remaining1, token.origin as int, token.t as int)
                &&& round(state1, tokens.remove(i), remaining1, i, result, state_f, tokens_f, remaining_f)
            } {
            let (v, state1, token1, remaining1) = choose|v: usize, state1: NetworkState, token1: SupplyToken, remaining1: Matrix<usize>|
                #![trigger steps_to(state, token, token1, v), crossed(state, state1, token.s as int, v as int), delivered_one(remaining, remaining1, token.origin as int, token.t as int)]
                {
                    &&& steps_to(state, token, token1, v)
                    &&& crossed(state, state1, token.s as int, v as int)
                    &&& v == token.t
                    &&& delivered_one(remaining, remaining1, token.origin as int, token.t as int)
                    &&& round(state1, tokens.remove(i), remaining1, i, result, state_f, tokens_f, remaining_f)
                };
            lemma_round_error(state1, tokens.remove(i), remaining1, i, result, state_f, tokens_f, remaining_f, x);
        } else {
            assert(stuck(state, token, tokens_f[i], result->Err_0));
        }
    }
}

/// A fixed arc's relative draw pulls tokens towards it: the drawn cost of
/// the route through the fixed arc `k` is the route's cost less the arc's
/// draw, so a positive draw makes the route look cheaper than it is and a
/// negative one dearer (up to `i64::MAX`).
pub proof fn law_draw_lowers_route_cost(state: NetworkState, token: SupplyToken, k: int)
    requires
        0 <= k < state.relative_draws@.len(),
        0 <= state.cost_through(token, k) <= i64::MAX,
    ensures
        state.relative_draws@[k] >= 0 ==> state.drawn_cost(token, k) == state.cost_through(token, k)
            - state.relative_draws@[k],
        state.relative_draws@[k] > 0 ==> state.drawn_cost(token, k) < state.cost_through(token, k),
        state.relative_draws@[k] == 0 ==> state.drawn_cost(token, k) == state.cost_through(token, k),
        state.relative_draws@[k] < 0 ==> state.drawn_cost(token, k) >= state.cost_through(token, k) && (
        state.drawn_cost(token, k) == i64::MAX || state.drawn_cost(token, k) == state.cost_through(token, k)
            - state.relative_draws@[k]),
{
}

/// Raising a fixed arc's draw, all else equal, never makes the route
/// through it dearer.
pub proof fn law_stronger_draw_never_costs_more(
    weaker: NetworkState,
    stronger: NetworkState,
    token: SupplyToken,
    k: int,
)
    requires
        stronger == (NetworkState { relative_draws: stronger.relative_draws, ..weaker }),
        0 <= k < weaker.relative_draws@.len(),
        0 <= k < stronger.relative_draws@.len(),
        weaker.relative_draws@[k] <= stronger.relative_draws@[k],
    ensures
        stronger.drawn_cost(token, k) <= weaker.drawn_cost(token, k),
{
}

/// The closest fixed arc is the cheapest candidate: no candidate among
/// the first `k` fixed arcs has a lower drawn cost than the one picked, and
/// when some candidate's drawn cost is below `i64::MAX`, the pick is the
/// first step towards a candidate, together with its drawn cost.
pub proof fn law_closest_fixed_arc_is_cheapest(state: NetworkState, token: SupplyToken, k: int)
    ensures
        forall|j: int|
            0 <= j < k && #[trigger] state.candidate(token, j) ==> state.closest_among(token, k).1
                <= state.drawn_cost(token, j),
        (exists|j: int| 0 <= j < k && #[trigger] state.candidate(token, j) && state.drawn_cost(token, j) < i64::MAX)
            ==> exists|j: int|
            0 <= j < k && #[trigger] state.candidate(token, j) && state.closest_among(token, k) == (
            state.step_towards(token, j),
            state.drawn_cost(token, j),
        ),
    decreases k,
{
    if k > 0 {
        law_closest_fixed_arc_is_cheapest(state, token, k - 1);
        let best = state.closest_among(token, k - 1);
        if (exists|j: int| 0 <= j < k && #[trigger] state.candidate(token, j) && state.drawn_cost(token, j) < i64::MAX) {
            if state.candidate(token, k - 1) && state.drawn_cost(token, k - 1) < best.1 {
                assert(state.candidate(token, k - 1));
            } else {
                let w = choose|j: int| 0 <= j < k && #[trigger] state.candidate(token, j) && state.drawn_cost(token, j) < i64::MAX;
                if w == k - 1 {
                    assert(best.1 <= state.drawn_cost(token, k - 1));
                    assert(best.1 < i64::MAX);
                    if best.1 < i64::MAX && !(exists|j: int| 0 <= j < k - 1 && #[trigger] state.candidate(token, j) && state.drawn_cost(token, j) < i64::MAX) {
                        lemma_closest_default(state, token, k - 1);
                    }
                } else {
                    assert(state.candidate(token, w));
                }
            }
        }
    }
}

/// With no candidate of drawn cost below `i64::MAX`, the pick keeps its
/// initial cost `i64::MAX`.
proof fn lemma_closest_default(state: NetworkState, token: SupplyToken, k: int)
    requires
        !(exists|j: int| 0 <= j < k && #[trigger] state.candidate(token, j) && state.drawn_cost(token, j) < i64::MAX),
    ensures
        state.closest_among(token, k).1 == i64::MAX,
    decreases k,
{
    if k > 0 {
        lemma_closest_default(state, token, k - 1);
        assert(!(state.candidate(token, k - 1) && state.drawn_cost(token, k - 1) < i64::MAX));
    }
}


/// A token follows the draw of the fixed arcs: where its direct route
/// exists and some candidate fixed arc's drawn cost is at most the direct
/// cost, it steps towards a candidate whose drawn cost is at most the
/// direct cost; where every candidate's drawn cost exceeds the direct cost,
/// it steps along its direct route; and with no direct route it is stuck.
pub proof fn law_next_step_follows_the_draw(state: NetworkState, token: SupplyToken)
    requires
        forall|j: int|
            0 <= j < state.fixed_arcs@.len() && #[trigger] state.candidate(token, j)
                ==> state.step_towards(token, j) != usize::MAX,
    ensures
        token.successors.at(token.s as int, token.t as int) == usize::MAX ==> state.next_step(token)
            == Err::<usize, SolverError>(SolverError::NoFeasibleFlowError(state.scenario_id)),
        ({
            let direct = token.successors.at(token.s as int, token.t as int);
            let direct_cost = token.distances.at(token.s as int, token.t as int);
            direct != usize::MAX && direct_cost < usize::MAX && direct_cost < i64::MAX && (exists|j: int|
                0 <= j < state.fixed_arcs@.len() && #[trigger] state.candidate(token, j)
                    && state.drawn_cost(token, j) <= direct_cost) ==> exists|j: int|
                0 <= j < state.fixed_arcs@.len() && #[trigger] state.candidate(token, j)
                    && state.drawn_cost(token, j) <= direct_cost && state.next_step(token) == Ok::<
                    usize,
                    SolverError,
                >(state.step_towards(token, j))
        }),
        ({
            let direct = token.successors.at(token.s as int, token.t as int);
            let direct_cost = token.distances.at(token.s as int, token.t as int);
            direct != usize::MAX && direct_cost < usize::MAX && direct_cost <= i64::MAX && (forall|j: int|
                0 <= j < state.fixed_arcs@.len() && #[trigger] state.candidate(token, j)
                    ==> state.drawn_cost(token, j) > direct_cost) ==> state.next_step(token) == Ok::<
                usize,
                SolverError,
            >(direct)
        }),
{
    let len = state.fixed_arcs@.len() as int;
    law_closest_fixed_arc_is_cheapest(state, token, len);
    let direct = token.successors.at(token.s as int, token.t as int);
    let direct_cost = token.distances.at(token.s as int, token.t as int);
    let closest = state.closest_among(token, len);
    if direct != usize::MAX && direct_cost < usize::MAX && direct_cost < i64::MAX && (exists|j: int|
        0 <= j < len && #[trigger] state.candidate(token, j) && state.drawn_cost(token, j) <= direct_cost) {
        let w = choose|j: int|
            0 <= j < len && #[trigger] state.candidate(token, j) && state.drawn_cost(token, j) <= direct_cost;
        assert(state.candidate(token, w) && state.drawn_cost(token, w) < i64::MAX);
        let p = choose|j: int|
            0 <= j < len && #[trigger] state.candidate(token, j) && closest == (
            state.step_towards(token, j),
            state.drawn_cost(token, j),
        );
        assert(closest.1 <= state.drawn_cost(token, w));
        assert(state.candidate(token, p));
        assert(closest.0 != usize::MAX);
        assert(closest.1 != i64::MAX);
        assert(direct_cost != usize::MAX);
        assert((direct_cost as i64) == direct_cost);
        assert(!((direct_cost as i64) < closest.1));
        assert(state.next_step(token) == Ok::<usize, SolverError>(state.step_towards(token, p)));
    }
    if direct != usize::MAX && direct_cost < usize::MAX && direct_cost <= i64::MAX && (forall|j: int|
        0 <= j < len && #[trigger] state.candidate(token, j) ==> state.drawn_cost(token, j) > direct_cost) {
        if closest.1 != i64::MAX {
            if (exists|j: int| 0 <= j < len && #[trigger] state.candidate(token, j) && state.drawn_cost(token, j) < i64::MAX) {
                let p = choose|j: int|
                    0 <= j < len && #[trigger] state.candidate(token, j) && closest == (
                    state.step_towards(token, j),
                    state.drawn_cost(token, j),
                );
                assert(state.candidate(token, p));
                assert(closest.1 > direct_cost);
            } else {
                lemma_closest_default(state, token, len);
            }
            assert((direct_cost as i64) == direct_cost);
            assert(direct_cost != usize::MAX);
        }
    }
}

} // verus!
