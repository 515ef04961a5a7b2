//! The arc loads and remaining supply that a solution assigns to each
//! scenario, and what a set of scenario solutions costs and keeps
//! consistent.
use vstd::prelude::*;

use crate::matrix::{checked_sum, lemma_flat_in_bounds, lemma_seq_sum_nonneg, seq_sum, Matrix};
use crate::network::Network;
use crate::options::{lemma_sort_seq, median, seq_max, seq_min, sort_seq, sorted_copy, CostFunction};

verus! {

/// The solution of one scenario.
#[derive(Debug, Clone)]
pub struct ScenarioSolution {
    pub id: usize,
    pub slack: usize,
    pub supply_remaining: Matrix<usize>,
    pub arc_loads: Matrix<usize>,
}

/// `Σ loads[i] · costs[i]` over the first `k` cells.
pub open spec fn weighted_sum(loads: Seq<usize>, costs: Seq<usize>, k: int) -> int
    decreases k,
{
    if k <= 0 {
        0
    } else {
        weighted_sum(loads, costs, k - 1) + loads[k - 1] * costs[k - 1]
    }
}

/// Weighted sums only grow.
proof fn lemma_weighted_sum_grows(loads: Seq<usize>, costs: Seq<usize>, j: int, k: int)
    requires
        0 <= j <= k,
    ensures
        weighted_sum(loads, costs, j) <= weighted_sum(loads, costs, k),
    decreases k - j,
{
    if j < k {
        lemma_weighted_sum_grows(loads, costs, j, k - 1);
        assert(loads[k - 1] * costs[k - 1] >= 0) by (nonlinear_arith);
    }
}

impl ScenarioSolution {
    /// The cost of routing the loads of this solution: the sum over all
    /// arcs of load times cost.
    pub open spec fn spec_cost(self, cost_matrix: Matrix<usize>) -> int {
        weighted_sum(self.arc_loads.cells(), cost_matrix.cells(), self.arc_loads.cells().len() as int)
    }

    /// An empty solution of scenario `id`: all of `supply` remains and no
    /// arc carries load.
    pub fn new(id: usize, supply: &Matrix<usize>) -> (s: Self)
        requires
            supply.wf(),
        ensures
            s.id == id,
            s.slack == 0,
            s.supply_remaining.nrows() == supply.nrows(),
            s.supply_remaining.ncols() == supply.ncols(),
            s.supply_remaining.cells() == supply.cells(),
            s.arc_loads.wf(),
            s.arc_loads.nrows() == supply.nrows(),
            s.arc_loads.ncols() == supply.ncols(),
            forall|r: int, c: int| s.arc_loads.contains(r, c) ==> #[trigger] s.arc_loads.at(r, c) == 0,
    {
        let remaining = supply.clone();
        let loads = Matrix::filled_with(0, supply.num_rows(), supply.num_columns());
        proof {
            assert forall|i: int| 0 <= i < remaining.cells().len() implies remaining.cells()[i]
                == supply.cells()[i] by {
                assert(cloned(supply.cells()[i], remaining.cells()[i]));
            }
            assert(remaining.cells() =~= supply.cells());
            assert forall|r: int, c: int| loads.contains(r, c) implies #[trigger] loads.at(r, c)
                == 0 by {
                lemma_flat_in_bounds(r, c, loads.nrows() as int, loads.ncols() as int);
            }
        }
        ScenarioSolution { id, slack: 0, supply_remaining: remaining, arc_loads: loads }
    }

    /// The cost of routing the loads of this solution under `cost_matrix`:
    /// the sum over all arcs of load times cost.
    pub fn cost(&self, cost_matrix: &Matrix<usize>) -> (c: usize)
        requires
            self.arc_loads.wf(),
            cost_matrix.wf(),
            cost_matrix.nrows() == self.arc_loads.nrows(),
            cost_matrix.ncols() == self.arc_loads.ncols(),
            self.spec_cost(*cost_matrix) <= usize::MAX,
        ensures
            c == self.spec_cost(*cost_matrix),
    {
        let loads = self.arc_loads.elements();
        let costs = cost_matrix.elements();
        let n = loads.len();
        let mut total: usize = 0;
        let mut k: usize = 0;
        while k < n
            invariant
                n == loads@.len(),
                costs@.len() == n,
                loads@ == self.arc_loads.cells(),
                costs@ == cost_matrix.cells(),
                weighted_sum(loads@, costs@, n as int) <= usize::MAX,
                k <= n,
                total == weighted_sum(loads@, costs@, k as int),
            decreases n - k,
        {
            proof {
                lemma_weighted_sum_grows(loads@, costs@, k + 1, n as int);
            }
            total = total + loads[k] * costs[k];
            k = k + 1;
        }
        total
    }

    /// The cost of the loads of this solution, or `None` when it does not
    /// fit in a `usize`.
    pub fn try_cost(&self, cost_matrix: &Matrix<usize>) -> (r: Option<usize>)
        requires
            self.arc_loads.wf(),
            cost_matrix.wf(),
            cost_matrix.nrows() == self.arc_loads.nrows(),
            cost_matrix.ncols() == self.arc_loads.ncols(),
        ensures
            r matches Some(c) ==> c == self.spec_cost(*cost_matrix),
            r is None <==> self.spec_cost(*cost_matrix) > usize::MAX,
    {
        let loads = self.arc_loads.elements();
        let costs = cost_matrix.elements();
        let n = loads.len();
        let mut total: usize = 0;
        let mut k: usize = 0;
        while k < n
            invariant
                n == loads@.len(),
                costs@.len() == n,
                loads@ == self.arc_loads.cells(),
                costs@ == cost_matrix.cells(),
                k <= n,
                total == weighted_sum(loads@, costs@, k as int),
            decreases n - k,
        {
            proof {
                lemma_weighted_sum_grows(loads@, costs@, k + 1, n as int);
                lemma_weighted_sum_grows(loads@, costs@, 0, k as int);
            }
            let term = match loads[k].checked_mul(costs[k]) {
                Some(x) => x,
                None => {
                    return None;
                },
            };
            match total.checked_add(term) {
                Some(x) => {
                    total = x;
                },
                None => {
                    return None;
                },
            }
            k = k + 1;
        }
        Some(total)
    }

    /// The supply delivered out of `supply_total`: what no longer remains.
    pub fn supply_delivered(&self, supply_total: usize) -> (d: usize)
        requires
            seq_sum(self.supply_remaining.cells()) <= supply_total,
        ensures
            d == supply_total - seq_sum(self.supply_remaining.cells()),
    {
        supply_total - self.supply_remaining.sum()
    }
}

/// The smallest load that any of `solutions` puts on the arc `(s, t)`; zero
/// when there are none.
pub open spec fn min_load(solutions: Seq<ScenarioSolution>, s: int, t: int) -> usize
    decreases solutions.len(),
{
    if solutions.len() == 0 {
        0
    } else if solutions.len() == 1 {
        solutions[0].arc_loads.at(s, t)
    } else {
        let rest = min_load(solutions.drop_last(), s, t);
        let last = solutions.last().arc_loads.at(s, t);
        if last < rest {
            last
        } else {
            rest
        }
    }
}

/// The arc `(s, t)` is one of `fixed_arcs`.
pub open spec fn lists_arc(fixed_arcs: Seq<(usize, usize)>, s: int, t: int) -> bool {
    exists|k: int| 0 <= k < fixed_arcs.len() && #[trigger] fixed_arcs[k] == (s as usize, t as usize)
}

/// The costs of the scenario solutions under `cost_matrix`.
pub open spec fn scenario_costs(solutions: Seq<ScenarioSolution>, cost_matrix: Matrix<usize>) -> Seq<usize> {
    Seq::new(solutions.len(), |i: int| solutions[i].spec_cost(cost_matrix) as usize)
}

/// The cost of a network whose scenarios are solved by `solutions`: their
/// costs under `cost_matrix` combined by `cost_fn`.
pub fn network_cost(solutions: &[ScenarioSolution], cost_matrix: &Matrix<usize>, cost_fn: &CostFunction) -> (c: usize)
    requires
        cost_matrix.wf(),
        forall|i: int|
            #![trigger solutions@[i]]
            0 <= i < solutions@.len() ==> {
                &&& solutions@[i].arc_loads.wf()
                &&& solutions@[i].arc_loads.nrows() == cost_matrix.nrows()
                &&& solutions@[i].arc_loads.ncols() == cost_matrix.ncols()
                &&& solutions@[i].spec_cost(*cost_matrix) <= usize::MAX
            },
        *cost_fn == CostFunction::Mean ==> seq_sum(scenario_costs(solutions@, *cost_matrix))
            <= usize::MAX,
        *cost_fn == CostFunction::Median ==> solutions@.len() > 0 && sort_seq(
            scenario_costs(solutions@, *cost_matrix),
        )[solutions@.len() as int / 2] + sort_seq(scenario_costs(solutions@, *cost_matrix))[(solutions@.len()
            - 1) / 2] <= usize::MAX,
    ensures
        *cost_fn == CostFunction::Max ==> c == seq_max(scenario_costs(solutions@, *cost_matrix)),
        *cost_fn == CostFunction::Mean ==> c == if solutions@.len() == 0 {
            0
        } else {
            seq_sum(scenario_costs(solutions@, *cost_matrix)) / (solutions@.len() as int)
        },
        *cost_fn == CostFunction::Median ==> c == median(scenario_costs(solutions@, *cost_matrix)),
        c == cost_value(solutions@, *cost_matrix, *cost_fn),
{
    let mut costs: Vec<usize> = Vec::new();
    let mut i: usize = 0;
    while i < solutions.len()
        invariant
            cost_matrix.wf(),
            forall|j: int|
                #![trigger solutions@[j]]
                0 <= j < solutions@.len() ==> {
                    &&& solutions@[j].arc_loads.wf()
                    &&& solutions@[j].arc_loads.nrows() == cost_matrix.nrows()
                    &&& solutions@[j].arc_loads.ncols() == cost_matrix.ncols()
                    &&& solutions@[j].spec_cost(*cost_matrix) <= usize::MAX
                },
            i <= solutions@.len(),
            costs@ == scenario_costs(solutions@, *cost_matrix).take(i as int),
        decreases solutions@.len() - i,
    {
        let c = solutions[i].cost(cost_matrix);
        costs.push(c);
        i = i + 1;
        proof {
            assert(costs@ =~= scenario_costs(solutions@, *cost_matrix).take(i as int));
        }
    }
    proof {
        assert(costs@ =~= scenario_costs(solutions@, *cost_matrix));
    }
    cost_fn.apply(&costs)
}

/// For each fixed arc, the load that every one of `solutions` puts on it
/// (the least of their loads); `i64::MAX` on every other arc.
pub fn consistent_flows(solutions: &[ScenarioSolution], fixed_arcs: &[(usize, usize)]) -> (m: Matrix<i64>)
    requires
        solutions@.len() > 0,
        solutions@[0].arc_loads.nrows() * solutions@[0].arc_loads.ncols() <= usize::MAX,
        forall|i: int|
            #![trigger solutions@[i]]
            0 <= i < solutions@.len() ==> solutions@[i].arc_loads.wf(),
        forall|k: int|
            0 <= k < fixed_arcs@.len() ==> {
                &&& solutions@[0].arc_loads.contains(
                    (#[trigger] fixed_arcs@[k]).0 as int,
                    fixed_arcs@[k].1 as int,
                )
                &&& forall|i: int|
                    0 <= i < solutions@.len() ==> (#[trigger] solutions@[i]).arc_loads.contains(
                        fixed_arcs@[k].0 as int,
                        fixed_arcs@[k].1 as int,
                    )
            },
    ensures
        m.wf(),
        m.nrows() == solutions@[0].arc_loads.nrows(),
        m.ncols() == solutions@[0].arc_loads.ncols(),
        forall|s: int, t: int|
            m.contains(s, t) ==> #[trigger] m.at(s, t) == if lists_arc(fixed_arcs@, s, t) {
                min_load(solutions@, s, t) as i64
            } else {
                i64::MAX
            },
{
    let rows = solutions[0].arc_loads.num_rows();
    let columns = solutions[0].arc_loads.num_columns();
    let mut flows: Matrix<i64> = Matrix::filled_with(i64::MAX, rows, columns);
    proof {
        assert forall|s: int, t: int| flows.contains(s, t) implies #[trigger] flows.at(s, t)
            == i64::MAX by {
            lemma_flat_in_bounds(s, t, rows as int, columns as int);
        }
    }
    let mut k: usize = 0;
    while k < fixed_arcs.len()
        invariant
            solutions@.len() > 0,
            rows == solutions@[0].arc_loads.nrows(),
            columns == solutions@[0].arc_loads.ncols(),
            forall|i: int|
                #![trigger solutions@[i]]
                0 <= i < solutions@.len() ==> solutions@[i].arc_loads.wf(),
            forall|j: int|
                0 <= j < fixed_arcs@.len() ==> {
                    &&& solutions@[0].arc_loads.contains(
                        (#[trigger] fixed_arcs@[j]).0 as int,
                        fixed_arcs@[j].1 as int,
                    )
                    &&& forall|i: int|
                        0 <= i < solutions@.len() ==> (#[trigger] solutions@[i]).arc_loads.contains(
                            fixed_arcs@[j].0 as int,
                            fixed_arcs@[j].1 as int,
                        )
                },
            flows.wf(),
            flows.nrows() == rows,
            flows.ncols() == columns,
            k <= fixed_arcs@.len(),
            forall|s: int, t: int|
                flows.contains(s, t) ==> #[trigger] flows.at(s, t) == if lists_arc(
                    fixed_arcs@.take(k as int),
                    s,
                    t,
                ) {
                    min_load(solutions@, s, t) as i64
                } else {
                    i64::MAX
                },
        decreases fixed_arcs@.len() - k,
    {
        let (s, t) = fixed_arcs[k];
        proof {
            assert(fixed_arcs@[k as int] == (s, t));
        }
        let mut least: usize = *solutions[0].arc_loads.get(s, t);
        let mut i: usize = 1;
        while i < solutions.len()
            invariant
                solutions@.len() > 0,
                forall|j: int|
                    #![trigger solutions@[j]]
                    0 <= j < solutions@.len() ==> solutions@[j].arc_loads.wf() && solutions@[j].arc_loads.contains(
                        s as int,
                        t as int,
                    ),
                1 <= i <= solutions@.len(),
                least == min_load(solutions@.take(i as int), s as int, t as int),
            decreases solutions@.len() - i,
        {
            let load = *solutions[i].arc_loads.get(s, t);
            proof {
                assert(solutions@.take(i + 1).drop_last() =~= solutions@.take(i as int));
            }
            if load < least {
                least = load;
            }
            i = i + 1;
        }
        proof {
            assert(solutions@.take(i as int) =~= solutions@);
        }
        flows.set(s, t, least as i64);
        proof {
            let prefix = fixed_arcs@.take(k as int);
            let longer = fixed_arcs@.take(k + 1);
            assert forall|a: int, b: int| flows.contains(a, b) implies #[trigger] flows.at(a, b)
                == if lists_arc(longer, a, b) {
                min_load(solutions@, a, b) as i64
            } else {
                i64::MAX
            } by {
                if a == s && b == t {
                    assert(longer[k as int] == (a as usize, b as usize));
                } else {
                    if lists_arc(longer, a, b) {
                        let w = choose|w: int| 0 <= w < longer.len() && #[trigger] longer[w] == (
                        a as usize, b as usize);
                        assert(prefix[w] == longer[w]);
                    }
                    if lists_arc(prefix, a, b) {
                        let w = choose|w: int| 0 <= w < prefix.len() && #[trigger] prefix[w] == (
                        a as usize, b as usize);
                        assert(longer[w] == prefix[w]);
                    }
                }
            }
        }
        k = k + 1;
    }
    proof {
        assert(fixed_arcs@.take(k as int) =~= fixed_arcs@);
    }
    flows
}

/// The cost of `solutions` under `cost_fn`: their scenario costs combined as
/// `network_cost` combines them.
pub open spec fn cost_value(solutions: Seq<ScenarioSolution>, cost_matrix: Matrix<usize>, cost_fn: CostFunction) -> int {
    let costs = scenario_costs(solutions, cost_matrix);
    match cost_fn {
        CostFunction::Max => seq_max(costs) as int,
        CostFunction::Mean => if solutions.len() == 0 {
            0
        } else {
            seq_sum(costs) / (solutions.len() as int)
        },
        CostFunction::Median => median(costs),
    }
}

/// Every cost function can combine the costs of `solutions`: there is at
/// least one solution, each has loads of the cost matrix's shape, and each
/// scenario cost, their sum and the two middle costs added fit in a `usize`.
pub open spec fn costs_fit(solutions: Seq<ScenarioSolution>, cost_matrix: Matrix<usize>) -> bool {
    let costs = scenario_costs(solutions, cost_matrix);
    &&& cost_matrix.wf()
    &&& solutions.len() > 0
    &&& forall|i: int|
        #![trigger solutions[i]]
        0 <= i < solutions.len() ==> {
            &&& solutions[i].arc_loads.wf()
            &&& solutions[i].arc_loads.nrows() == cost_matrix.nrows()
            &&& solutions[i].arc_loads.ncols() == cost_matrix.ncols()
            &&& solutions[i].spec_cost(cost_matrix) <= usize::MAX
        }
    &&& seq_sum(costs) <= usize::MAX
    &&& sort_seq(costs)[solutions.len() as int / 2] + sort_seq(costs)[(solutions.len() - 1) / 2]
        <= usize::MAX
}

/// The smallest element of `v`, zero when it is empty.
pub fn vec_min(v: &Vec<usize>) -> (m: usize)
    ensures
        m == seq_min(v@),
{
    if v.len() == 0 {
        return 0;
    }
    let mut least = v[0];
    let mut k: usize = 1;
    while k < v.len()
        invariant
            1 <= k <= v@.len(),
            least == seq_min(v@.take(k as int)),
        decreases v@.len() - k,
    {
        proof {
            assert(v@.take(k + 1).drop_last() =~= v@.take(k as int));
        }
        if v[k] < least {
            least = v[k];
        }
        k = k + 1;
    }
    proof {
        assert(v@.take(k as int) =~= v@);
    }
    least
}

/// The least load of `solutions` on the arc `(s, t)`; zero without
/// solutions.
fn least_load(solutions: &[ScenarioSolution], s: usize, t: usize) -> (l: usize)
    requires
        forall|j: int|
            #![trigger solutions@[j]]
            0 <= j < solutions@.len() ==> solutions@[j].arc_loads.wf()
                && solutions@[j].arc_loads.contains(s as int, t as int),
    ensures
        l == min_load(solutions@, s as int, t as int),
{
    if solutions.len() == 0 {
        return 0;
    }
    let mut least: usize = *solutions[0].arc_loads.get(s, t);
    let mut i: usize = 1;
    while i < solutions.len()
        invariant
            solutions@.len() > 0,
            forall|j: int|
                #![trigger solutions@[j]]
                0 <= j < solutions@.len() ==> solutions@[j].arc_loads.wf()
                    && solutions@[j].arc_loads.contains(s as int, t as int),
            1 <= i <= solutions@.len(),
            least == min_load(solutions@.take(i as int), s as int, t as int),
        decreases solutions@.len() - i,
    {
        let load = *solutions[i].arc_loads.get(s, t);
        proof {
            assert(solutions@.take(i + 1).drop_last() =~= solutions@.take(i as int));
        }
        if load < least {
            least = load;
        }
        i = i + 1;
    }
    proof {
        assert(solutions@.take(i as int) =~= solutions@);
    }
    least
}

/// The cells, in row-major order, of an `n` by `n` matrix that holds the
/// least load of `solutions` on each fixed arc and zero elsewhere.
pub open spec fn fixed_min_cells(solutions: Seq<ScenarioSolution>, fixed_arcs: Seq<(usize, usize)>, n: int) -> Seq<usize> {
    Seq::new(
        (n * n) as nat,
        |k: int|
            if lists_arc(fixed_arcs, k / n, k % n) {
                min_load(solutions, k / n, k % n)
            } else {
                0
            },
    )
}

/// The consistent flow total of `solutions`: the sum, over the distinct
/// fixed arcs, of the least load any solution puts on them.
pub open spec fn fixed_min_total(solutions: Seq<ScenarioSolution>, fixed_arcs: Seq<(usize, usize)>, n: int) -> int {
    seq_sum(fixed_min_cells(solutions, fixed_arcs, n))
}

/// Every solution has a load for every fixed arc.
pub open spec fn covers(solutions: Seq<ScenarioSolution>, fixed_arcs: Seq<(usize, usize)>) -> bool {
    forall|j: int, k: int|
        0 <= j < solutions.len() && 0 <= k < fixed_arcs.len() ==> (#[trigger] solutions[j]).arc_loads.wf()
            && solutions[j].arc_loads.contains(
            (#[trigger] fixed_arcs[k]).0 as int,
            fixed_arcs[k].1 as int,
        )
}

/// The least load of `solutions` on each fixed arc, zero elsewhere, as an
/// `n` by `n` matrix.
fn fixed_min_matrix(solutions: &[ScenarioSolution], fixed_arcs: &[(usize, usize)], n: usize) -> (m: Matrix<usize>)
    requires
        n * n <= usize::MAX,
        covers(solutions@, fixed_arcs@),
        forall|k: int| 0 <= k < fixed_arcs@.len() ==> (#[trigger] fixed_arcs@[k]).0 < n && fixed_arcs@[k].1 < n,
    ensures
        m.wf(),
        m.nrows() == n,
        m.ncols() == n,
        m.cells() == fixed_min_cells(solutions@, fixed_arcs@, n as int),
{
    let mut m: Matrix<usize> = Matrix::filled_with(0, n, n);
    proof {
        assert forall|a: int, b: int| m.contains(a, b) implies #[trigger] m.at(a, b) == 0 by {
            lemma_flat_in_bounds(a, b, n as int, n as int);
        }
    }
    let mut k: usize = 0;
    while k < fixed_arcs.len()
        invariant
            covers(solutions@, fixed_arcs@),
            forall|j: int| 0 <= j < fixed_arcs@.len() ==> (#[trigger] fixed_arcs@[j]).0 < n && fixed_arcs@[j].1 < n,
            m.wf(),
            m.nrows() == n,
            m.ncols() == n,
            k <= fixed_arcs@.len(),
            forall|a: int, b: int|
                m.contains(a, b) ==> #[trigger] m.at(a, b) == if lists_arc(fixed_arcs@.take(k as int), a, b) {
                    min_load(solutions@, a, b)
                } else {
                    0
                },
        decreases fixed_arcs@.len() - k,
    {
        let (s, t) = fixed_arcs[k];
        proof {
            assert(fixed_arcs@[k as int] == (s, t));
            assert forall|j: int|
                #![trigger solutions@[j]]
                0 <= j < solutions@.len() implies solutions@[j].arc_loads.wf()
                    && solutions@[j].arc_loads.contains(s as int, t as int) by {
                assert(fixed_arcs@[k as int] == (s, t));
            }
        }
        let least = least_load(solutions, s, t);
        m.set(s, t, least);
        proof {
            let prefix = fixed_arcs@.take(k as int);
            let longer = fixed_arcs@.take(k + 1);
            assert forall|a: int, b: int| m.contains(a, b) implies #[trigger] m.at(a, b) == if lists_arc(
                longer,
                a,
                b,
            ) {
                min_load(solutions@, a, b)
            } else {
                0
            } by {
                if a == s && b == t {
                    assert(longer[k as int] == (a as usize, b as usize));
                } else {
                    if lists_arc(longer, a, b) {
                        let w = choose|w: int| 0 <= w < longer.len() && #[trigger] longer[w] == (
                        a as usize, b as usize);
                        assert(prefix[w] == longer[w]);
                    }
                    if lists_arc(prefix, a, b) {
                        let w = choose|w: int| 0 <= w < prefix.len() && #[trigger] prefix[w] == (
                        a as usize, b as usize);
                        assert(longer[w] == prefix[w]);
                    }
                }
            }
        }
        k = k + 1;
    }
    proof {
        assert(fixed_arcs@.take(k as int) =~= fixed_arcs@);
        let cells = fixed_min_cells(solutions@, fixed_arcs@, n as int);
        assert forall|i: int| 0 <= i < m.cells().len() implies m.cells()[i] == cells[i] by {
            crate::preprocessing::lemma_cell_of(i, n as int, n as int);
            assert(m.contains(i / n as int, i % n as int));
            assert(m.at(i / n as int, i % n as int) == m.cells()[i]);
        }
        assert(m.cells() =~= cells);
    }
    m
}

/// The supply total of each scenario.
pub open spec fn supply_totals(balances: Seq<Matrix<usize>>) -> Seq<usize> {
    Seq::new(balances.len(), |i: int| seq_sum(balances[i].cells()) as usize)
}

/// The slack of each solution.
pub open spec fn slacks(solutions: Seq<ScenarioSolution>) -> Seq<usize> {
    Seq::new(solutions.len(), |j: int| solutions[j].slack)
}

/// The measures of a solved network: its size, how much flow its solutions
/// keep consistent, their slack, supply and cost, and the lower bounds.
#[derive(Debug, Clone, PartialEq, Eq)]
pub struct NetworkMeasures {
    pub vertex_count: usize,
    pub num_scenarios: usize,
    pub num_fixed_arcs: usize,
    pub consistent_flows_total: usize,
    pub consistent_flows_gain: Option<i64>,
    pub benefit: i64,
    pub supply_min: usize,
    pub supply_avg: usize,
    pub supply_max: usize,
    pub slack_min: usize,
    pub slack_avg: usize,
    pub slack_max: usize,
    pub cost_max: usize,
    pub cost_mean: usize,
    pub cost_median: usize,
    pub lower_bound_max: Option<usize>,
    pub lower_bound_mean: Option<usize>,
    pub lower_bound_median: Option<usize>,
}

/// What `network_measures` needs: at least one scenario; supply totals,
/// their sum, and every cost and consistent flow total of the solutions
/// and the lower bound that fit in a `usize`; fixed arcs inside the
/// network and the solutions' loads; and a gain and a benefit that fit in
/// an `i64`.
pub open spec fn measurable(network: Network) -> bool {
    let n = network.vertices@.len() as int;
    let fixed = network.fixed_arcs@;
    let cost_fn = network.options.cost_fn;
    &&& network.balances@.len() > 0
    &&& forall|i: int|
        0 <= i < network.balances@.len() ==> #[trigger] seq_sum(network.balances@[i].cells())
            <= usize::MAX
    &&& seq_sum(supply_totals(network.balances@)) <= usize::MAX
    &&& match network.solutions {
        Some(sols) => {
            &&& costs_fit(sols@, network.costs)
            &&& seq_sum(slacks(sols@)) <= usize::MAX
            &&& n * n <= usize::MAX
            &&& forall|k: int| 0 <= k < fixed.len() ==> (#[trigger] fixed[k]).0 < n && fixed[k].1 < n
            &&& covers(sols@, fixed)
            &&& fixed_min_total(sols@, fixed, n) <= usize::MAX
        },
        None => true,
    }
    &&& match network.baseline {
        Some(base) => costs_fit(base@, network.costs),
        None => true,
    }
    &&& match (network.solutions, network.baseline) {
        (Some(sols), Some(base)) => {
            &&& covers(base@, fixed)
            &&& fixed_min_total(base@, fixed, n) <= usize::MAX
            &&& i64::MIN <= fixed_min_total(sols@, fixed, n) - fixed_min_total(base@, fixed, n)
                <= i64::MAX
            &&& i64::MIN <= (cost_value(base@, network.costs, cost_fn) as usize as i64) - (cost_value(
                sols@,
                network.costs,
                cost_fn,
            ) as usize as i64) <= i64::MAX
        },
        _ => true,
    }
}

/// The measures of `network`. Without solutions the flow, slack and cost
/// measures are zero; without a lower bound its measures are `None`; the
/// gain and the benefit need both.
pub open spec fn spec_network_measures(network: Network) -> NetworkMeasures {
    let n = network.vertices@.len() as int;
    let fixed = network.fixed_arcs@;
    let costs = network.costs;
    let count = network.balances@.len() as int;
    let supplies = supply_totals(network.balances@);
    NetworkMeasures {
        vertex_count: network.vertices@.len() as usize,
        num_scenarios: count as usize,
        num_fixed_arcs: fixed.len() as usize,
        consistent_flows_total: match network.solutions {
            Some(sols) => fixed_min_total(sols@, fixed, n) as usize,
            None => 0,
        },
        consistent_flows_gain: match (network.solutions, network.baseline) {
            (Some(sols), Some(base)) => Some(
                (fixed_min_total(sols@, fixed, n) - fixed_min_total(base@, fixed, n)) as i64,
            ),
            _ => None,
        },
        benefit: match (network.solutions, network.baseline) {
            (Some(sols), Some(base)) => ((cost_value(base@, costs, network.options.cost_fn) as usize as i64)
                - (cost_value(sols@, costs, network.options.cost_fn) as usize as i64)) as i64,
            _ => 0,
        },
        supply_min: seq_min(supplies),
        supply_avg: (seq_sum(supplies) / count) as usize,
        supply_max: seq_max(supplies),
        slack_min: match network.solutions {
            Some(sols) => seq_min(slacks(sols@)),
            None => 0,
        },
        slack_avg: match network.solutions {
            Some(sols) => (seq_sum(slacks(sols@)) / count) as usize,
            None => 0,
        },
        slack_max: match network.solutions {
            Some(sols) => seq_max(slacks(sols@)),
            None => 0,
        },
        cost_max: match network.solutions {
            Some(sols) => cost_value(sols@, costs, CostFunction::Max) as usize,
            None => 0,
        },
        cost_mean: match network.solutions {
            Some(sols) => cost_value(sols@, costs, CostFunction::Mean) as usize,
            None => 0,
        },
        cost_median: match network.solutions {
            Some(sols) => cost_value(sols@, costs, CostFunction::Median) as usize,
            None => 0,
        },
        lower_bound_max: match network.baseline {
            Some(base) => Some(cost_value(base@, costs, CostFunction::Max) as usize),
            None => None,
        },
        lower_bound_mean: match network.baseline {
            Some(base) => Some(cost_value(base@, costs, CostFunction::Mean) as usize),
            None => None,
        },
        lower_bound_median: match network.baseline {
            Some(base) => Some(cost_value(base@, costs, CostFunction::Median) as usize),
            None => None,
        },
    }
}

/// The costs of `solutions` under each cost function, in the order
/// maximum, mean, median.
fn three_costs(solutions: &Vec<ScenarioSolution>, cost_matrix: &Matrix<usize>) -> (r: (usize, usize, usize))
    requires
        costs_fit(solutions@, *cost_matrix),
    ensures
        r.0 == cost_value(solutions@, *cost_matrix, CostFunction::Max),
        r.1 == cost_value(solutions@, *cost_matrix, CostFunction::Mean),
        r.2 == cost_value(solutions@, *cost_matrix, CostFunction::Median),
{
    let most = network_cost(solutions.as_slice(), cost_matrix, &CostFunction::Max);
    let mean = network_cost(solutions.as_slice(), cost_matrix, &CostFunction::Mean);
    let middle = network_cost(solutions.as_slice(), cost_matrix, &CostFunction::Median);
    (most, mean, middle)
}

/// The slack of each solution.
fn slack_list(solutions: &Vec<ScenarioSolution>) -> (v: Vec<usize>)
    ensures
        v@ == slacks(solutions@),
{
    let mut v: Vec<usize> = Vec::new();
    let mut j: usize = 0;
    while j < solutions.len()
        invariant
            j <= solutions@.len(),
            v@ == slacks(solutions@).take(j as int),
        decreases solutions@.len() - j,
    {
        v.push(solutions[j].slack);
        j = j + 1;
        proof {
            assert(v@ =~= slacks(solutions@).take(j as int));
        }
    }
    proof {
        assert(v@ =~= slacks(solutions@));
    }
    v
}

/// The supply total of each scenario.
fn supply_list(balances: &Vec<Matrix<usize>>) -> (v: Vec<usize>)
    requires
        forall|i: int| 0 <= i < balances@.len() ==> #[trigger] seq_sum(balances@[i].cells()) <= usize::MAX,
    ensures
        v@ == supply_totals(balances@),
{
    let mut v: Vec<usize> = Vec::new();
    let mut i: usize = 0;
    while i < balances.len()
        invariant
            forall|b: int| 0 <= b < balances@.len() ==> #[trigger] seq_sum(balances@[b].cells()) <= usize::MAX,
            i <= balances@.len(),
            v@ == supply_totals(balances@).take(i as int),
        decreases balances@.len() - i,
    {
        let total = balances[i].sum();
        v.push(total);
        i = i + 1;
        proof {
            assert(v@ =~= supply_totals(balances@).take(i as int));
        }
    }
    proof {
        assert(v@ =~= supply_totals(balances@));
    }
    v
}

/// The sum of `v`, which fits in a `usize`.
fn fitting_sum(v: &Vec<usize>) -> (total: usize)
    requires
        seq_sum(v@) <= usize::MAX,
    ensures
        total == seq_sum(v@),
{
    match checked_sum(v) {
        Some(total) => total,
        None => 0,
    }
}

/// The measures of a network and its solutions: counts, the consistent
/// flow total and its gain over the lower bound, the benefit, the least,
/// average and largest supply and slack, and the costs of the solutions
/// and the lower bound under every cost function.
pub fn network_measures(network: &Network) -> (m: NetworkMeasures)
    requires
        measurable(*network),
    ensures
        m == spec_network_measures(*network),
{
    let n = network.vertices.len();
    let count = network.balances.len();
    let supplies = supply_list(&network.balances);
    let supply_total = fitting_sum(&supplies);
    let supply_min = vec_min(&supplies);
    let supply_max = CostFunction::Max.apply(&supplies);
    let mut total: usize = 0;
    let mut slack_min: usize = 0;
    let mut slack_avg: usize = 0;
    let mut slack_max: usize = 0;
    let mut cost_max: usize = 0;
    let mut cost_mean: usize = 0;
    let mut cost_median: usize = 0;
    match &network.solutions {
        Some(sols) => {
            total = fixed_min_matrix(sols.as_slice(), network.fixed_arcs.as_slice(), n).sum();
            let slack = slack_list(sols);
            slack_min = vec_min(&slack);
            slack_avg = fitting_sum(&slack) / count;
            slack_max = CostFunction::Max.apply(&slack);
            let (a, b, c) = three_costs(sols, &network.costs);
            cost_max = a;
            cost_mean = b;
            cost_median = c;
        },
        None => {},
    }
    let (lower_bound_max, lower_bound_mean, lower_bound_median) = match &network.baseline {
        Some(base) => {
            let (a, b, c) = three_costs(base, &network.costs);
            (Some(a), Some(b), Some(c))
        },
        None => (None, None, None),
    };
    let (consistent_flows_gain, benefit) = match (&network.solutions, &network.baseline) {
        (Some(sols), Some(base)) => {
            let base_total = fixed_min_matrix(base.as_slice(), network.fixed_arcs.as_slice(), n).sum();
            let gain = ((total as i128) - (base_total as i128)) as i64;
            let base_cost = network_cost(base.as_slice(), &network.costs, &network.options.cost_fn);
            let own_cost = network_cost(sols.as_slice(), &network.costs, &network.options.cost_fn);
            let base_signed = #[verifier::truncate] (base_cost as i64);
            let own_signed = #[verifier::truncate] (own_cost as i64);
            (Some(gain), base_signed - own_signed)
        },
        _ => (None, 0),
    };
    NetworkMeasures {
        vertex_count: n,
        num_scenarios: count,
        num_fixed_arcs: network.fixed_arcs.len(),
        consistent_flows_total: total,
        consistent_flows_gain,
        benefit,
        supply_min,
        supply_avg: supply_total / count,
        supply_max,
        slack_min,
        slack_avg,
        slack_max,
        cost_max,
        cost_mean,
        cost_median,
        lower_bound_max,
        lower_bound_mean,
        lower_bound_median,
    }
}

/// Tells whether every cost function can combine the costs of `solutions`
/// (`costs_fit`).
pub fn check_costs_fit(solutions: &Vec<ScenarioSolution>, cost_matrix: &Matrix<usize>) -> (b: bool)
    requires
        cost_matrix.wf(),
        forall|i: int| 0 <= i < solutions@.len() ==> (#[trigger] solutions@[i]).arc_loads.wf(),
    ensures
        b == costs_fit(solutions@, *cost_matrix),
{
    if solutions.len() == 0 {
        return false;
    }
    let mut costs: Vec<usize> = Vec::new();
    let mut j: usize = 0;
    while j < solutions.len()
        invariant
            cost_matrix.wf(),
            forall|i: int| 0 <= i < solutions@.len() ==> (#[trigger] solutions@[i]).arc_loads.wf(),
            j <= solutions@.len(),
            forall|i: int|
                #![trigger solutions@[i]]
                0 <= i < j ==> {
                    &&& solutions@[i].arc_loads.nrows() == cost_matrix.nrows()
                    &&& solutions@[i].arc_loads.ncols() == cost_matrix.ncols()
                    &&& solutions@[i].spec_cost(*cost_matrix) <= usize::MAX
                },
            costs@ == scenario_costs(solutions@, *cost_matrix).take(j as int),
        decreases solutions@.len() - j,
    {
        let loads = &solutions[j].arc_loads;
        if loads.num_rows() != cost_matrix.num_rows() || loads.num_columns() != cost_matrix.num_columns() {
            return false;
        }
        match solutions[j].try_cost(cost_matrix) {
            Some(c) => {
                costs.push(c);
            },
            None => {
                return false;
            },
        }
        j = j + 1;
        proof {
            assert(costs@ =~= scenario_costs(solutions@, *cost_matrix).take(j as int));
        }
    }
    proof {
        assert(costs@ =~= scenario_costs(solutions@, *cost_matrix));
    }
    if checked_sum(&costs).is_none() {
        return false;
    }
    let sorted = sorted_copy(&costs);
    proof {
        lemma_sort_seq(costs@);
    }
    let n = sorted.len();
    sorted[n / 2].checked_add(sorted[(n - 1) / 2]).is_some()
}

/// The matrices of `network` that `network_measures` reads are well formed.
pub open spec fn measured_matrices_wf(network: Network) -> bool {
    &&& network.costs.wf()
    &&& network.solutions matches Some(sols) ==> forall|i: int|
        0 <= i < sols@.len() ==> (#[trigger] sols@[i]).arc_loads.wf()
    &&& network.baseline matches Some(base) ==> forall|i: int|
        0 <= i < base@.len() ==> (#[trigger] base@[i]).arc_loads.wf()
}

/// Tells whether every solution has a load for every fixed arc
/// (`covers`).
fn check_covers(solutions: &Vec<ScenarioSolution>, fixed_arcs: &Vec<(usize, usize)>) -> (b: bool)
    requires
        forall|i: int| 0 <= i < solutions@.len() ==> (#[trigger] solutions@[i]).arc_loads.wf(),
    ensures
        b == covers(solutions@, fixed_arcs@),
{
    let mut j: usize = 0;
    while j < solutions.len()
        invariant
            forall|i: int| 0 <= i < solutions@.len() ==> (#[trigger] solutions@[i]).arc_loads.wf(),
            j <= solutions@.len(),
            forall|a: int, k: int|
                0 <= a < j && 0 <= k < fixed_arcs@.len() ==> (#[trigger] solutions@[a]).arc_loads.contains(
                    (#[trigger] fixed_arcs@[k]).0 as int,
                    fixed_arcs@[k].1 as int,
                ),
        decreases solutions@.len() - j,
    {
        let rows = solutions[j].arc_loads.num_rows();
        let columns = solutions[j].arc_loads.num_columns();
        let mut k: usize = 0;
        while k < fixed_arcs.len()
            invariant
                j < solutions@.len(),
                rows == solutions@[j as int].arc_loads.nrows(),
                columns == solutions@[j as int].arc_loads.ncols(),
                k <= fixed_arcs@.len(),
                forall|c: int|
                    0 <= c < k ==> solutions@[j as int].arc_loads.contains(
                        (#[trigger] fixed_arcs@[c]).0 as int,
                        fixed_arcs@[c].1 as int,
                    ),
            decreases fixed_arcs@.len() - k,
        {
            let (s, t) = fixed_arcs[k];
            if s >= rows || t >= columns {
                proof {
                    assert(fixed_arcs@[k as int] == (s, t));
                    assert(!solutions@[j as int].arc_loads.contains(s as int, t as int));
                }
                return false;
            }
            k = k + 1;
        }
        j = j + 1;
    }
    true
}

/// Tells whether every arc of `arcs` joins two of `n` vertices.
fn arcs_within(arcs: &Vec<(usize, usize)>, n: usize) -> (b: bool)
    ensures
        b == forall|k: int| 0 <= k < arcs@.len() ==> (#[trigger] arcs@[k]).0 < n && arcs@[k].1 < n,
{
    let mut k: usize = 0;
    while k < arcs.len()
        invariant
            k <= arcs@.len(),
            forall|c: int| 0 <= c < k ==> (#[trigger] arcs@[c]).0 < n && arcs@[c].1 < n,
        decreases arcs@.len() - k,
    {
        let (s, t) = arcs[k];
        if s >= n || t >= n {
            proof {
                assert(arcs@[k as int] == (s, t));
            }
            return false;
        }
        k = k + 1;
    }
    true
}

/// Tells whether `network_measures` can measure `network` (`measurable`).
pub fn measures_fit(network: &Network) -> (b: bool)
    requires
        measured_matrices_wf(*network),
    ensures
        b == measurable(*network),
{
    let count = network.balances.len();
    if count == 0 {
        return false;
    }
    let mut i: usize = 0;
    while i < count
        invariant
            count == network.balances@.len(),
            i <= count,
            forall|b: int| 0 <= b < i ==> #[trigger] seq_sum(network.balances@[b].cells()) <= usize::MAX,
        decreases count - i,
    {
        if checked_sum(network.balances[i].elements()).is_none() {
            return false;
        }
        i = i + 1;
    }
    let supplies = supply_list(&network.balances);
    if checked_sum(&supplies).is_none() {
        return false;
    }
    let n = network.vertices.len();
    let mut total: usize = 0;
    match &network.solutions {
        Some(sols) => {
            if !check_costs_fit(sols, &network.costs) {
                return false;
            }
            let slack = slack_list(sols);
            if checked_sum(&slack).is_none() {
                return false;
            }
            if n.checked_mul(n).is_none() {
                return false;
            }
            if !arcs_within(&network.fixed_arcs, n) {
                return false;
            }
            if !check_covers(sols, &network.fixed_arcs) {
                return false;
            }
            let m = fixed_min_matrix(sols.as_slice(), network.fixed_arcs.as_slice(), n);
            match checked_sum(m.elements()) {
                Some(x) => {
                    total = x;
                },
                None => {
                    return false;
                },
            }
        },
        None => {},
    }
    match &network.baseline {
        Some(base) => {
            if !check_costs_fit(base, &network.costs) {
                return false;
            }
        },
        None => {},
    }
    match (&network.solutions, &network.baseline) {
        (Some(sols), Some(base)) => {
            if !check_covers(base, &network.fixed_arcs) {
                return false;
            }
            let m = fixed_min_matrix(base.as_slice(), network.fixed_arcs.as_slice(), n);
            let base_total = match checked_sum(m.elements()) {
                Some(x) => x,
                None => {
                    return false;
                },
            };
            let gain = (total as i128) - (base_total as i128);
            if gain < i64::MIN as i128 || gain > i64::MAX as i128 {
                return false;
            }
            let base_cost = network_cost(base.as_slice(), &network.costs, &network.options.cost_fn);
            let own_cost = network_cost(sols.as_slice(), &network.costs, &network.options.cost_fn);
            let base_signed = #[verifier::truncate] (base_cost as i64);
            let own_signed = #[verifier::truncate] (own_cost as i64);
            let benefit = (base_signed as i128) - (own_signed as i128);
            benefit >= i64::MIN as i128 && benefit <= i64::MAX as i128
        },
        _ => true,
    }
}

} // verus!
