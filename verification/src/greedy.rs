//! The outcome of the greedy pass: one solution per scenario, with the slack
//! each scenario has towards the consistent flow on the fixed arcs.
use vstd::prelude::*;

use crate::auxiliary::{
    keeps_capacities, law_round_keeps_capacities, lemma_round_error, round, tokens_work, AuxiliaryNetwork,
    NetworkState, Scenario,
};
use crate::error::SolverError;
use crate::matrix::{checked_sum, seq_sum, Matrix};
use crate::options::{draw_fits, draw_spec, RelativeDrawFunction};
use crate::preprocessing::same_matrix;
use crate::solution::ScenarioSolution;

verus! {

/// The largest load any scenario puts on the fixed arc `k`; zero without
/// scenarios.
pub open spec fn max_load(network: AuxiliaryNetwork, k: int, upto: int) -> usize
    decreases upto,
{
    if upto <= 0 {
        0
    } else {
        let rest = max_load(network, k, upto - 1);
        let load = network.load_on(upto - 1, k);
        if load > rest {
            load
        } else {
            rest
        }
    }
}

/// The largest load on each fixed arc.
pub open spec fn max_loads(network: AuxiliaryNetwork) -> Seq<usize> {
    Seq::new(
        network.fixed_arcs@.len(),
        |k: int| max_load(network, k, network.scenarios@.len() as int),
    )
}

/// The loads scenario `j` puts on the fixed arcs.
pub open spec fn own_loads(network: AuxiliaryNetwork, j: int) -> Seq<usize> {
    Seq::new(network.fixed_arcs@.len(), |k: int| network.load_on(j, k))
}

/// The consistent flow total: the sum over the fixed arcs of the largest
/// load any scenario puts on them.
pub open spec fn consistent_total(network: AuxiliaryNetwork) -> int {
    seq_sum(max_loads(network))
}

/// How far scenario `j` falls short of the consistent flow total.
pub open spec fn slack_of(network: AuxiliaryNetwork, j: int) -> usize {
    let short = consistent_total(network) - seq_sum(own_loads(network, j));
    if short < 0 {
        0
    } else {
        short as usize
    }
}

/// Sums of the first `k` elements stay within the total.
proof fn lemma_partial_sum(s: Seq<usize>, k: int)
    requires
        0 <= k <= s.len(),
    ensures
        0 <= seq_sum(s.take(k)) <= seq_sum(s),
{
    crate::matrix::lemma_seq_sum_prefix(s, k);
    crate::matrix::lemma_seq_sum_nonneg(s.take(k));
}

fn copy_matrix(m: &Matrix<usize>) -> (c: Matrix<usize>)
    ensures
        same_matrix(c, *m),
{
    let c = m.clone();
    proof {
        assert forall|i: int| 0 <= i < c.cells().len() implies c.cells()[i] == m.cells()[i] by {
            assert(cloned(m.cells()[i], c.cells()[i]));
        }
        assert(c.cells() =~= m.cells());
    }
    c
}

/// The solution of every scenario after the greedy pass: its loads, the
/// supply it has left, and its slack, the amount by which the loads it puts
/// on the fixed arcs fall short of the consistent flow total.
pub fn get_solutions(network: &AuxiliaryNetwork) -> (r: Result<Vec<ScenarioSolution>, SolverError>)
    requires
        network.wf(network.n()),
        consistent_total(*network) <= usize::MAX,
        forall|j: int|
            0 <= j < network.scenarios@.len() ==> #[trigger] seq_sum(own_loads(*network, j))
                <= usize::MAX,
    ensures
        r matches Ok(solutions) && solutions@.len() == network.scenarios@.len() && forall|j: int|
            0 <= j < solutions@.len() ==> {
                &&& (#[trigger] solutions@[j]).id == network.scenarios@[j].id
                &&& solutions@[j].slack == slack_of(*network, j)
                &&& same_matrix(solutions@[j].supply_remaining, network.scenarios@[j].supply_remaining)
                &&& same_matrix(
                    solutions@[j].arc_loads,
                    network.scenarios@[j].network_state.arc_loads,
                )
            },
{
    let count = network.fixed_arcs.len();
    let mut total: usize = 0;
    let mut k: usize = 0;
    while k < count
        invariant
            network.wf(network.n()),
            count == network.fixed_arcs@.len(),
            consistent_total(*network) <= usize::MAX,
            k <= count,
            total == seq_sum(max_loads(*network).take(k as int)),
        decreases count - k,
    {
        let arc = network.fixed_arcs[k];
        let mut most: usize = 0;
        let mut j: usize = 0;
        while j < network.scenarios.len()
            invariant
                network.wf(network.n()),
                k < network.fixed_arcs@.len(),
                arc == network.fixed_arcs@[k as int],
                j <= network.scenarios@.len(),
                most == max_load(*network, k as int, j as int),
            decreases network.scenarios@.len() - j,
        {
            let state = &network.scenarios[j].network_state;
            proof {
                assert(network.scenarios@[j as int].wf(network.n()));
                assert(state.fixed_arcs@[k as int] == arc);
            }
            let load = *state.arc_loads.get(arc.0, arc.1);
            if load > most {
                most = load;
            }
            j = j + 1;
        }
        proof {
            assert(max_loads(*network).take(k + 1).drop_last() =~= max_loads(*network).take(
                k as int,
            ));
            lemma_partial_sum(max_loads(*network), k + 1);
        }
        total = total + most;
        k = k + 1;
    }
    proof {
        assert(max_loads(*network).take(k as int) =~= max_loads(*network));
    }
    let mut solutions: Vec<ScenarioSolution> = Vec::new();
    let mut j: usize = 0;
    while j < network.scenarios.len()
        invariant
            network.wf(network.n()),
            count == network.fixed_arcs@.len(),
            total == consistent_total(*network),
            forall|b: int|
                0 <= b < network.scenarios@.len() ==> #[trigger] seq_sum(own_loads(*network, b))
                    <= usize::MAX,
            j <= network.scenarios@.len(),
            solutions@.len() == j,
            forall|b: int|
                0 <= b < j ==> {
                    &&& (#[trigger] solutions@[b]).id == network.scenarios@[b].id
                    &&& solutions@[b].slack == slack_of(*network, b)
                    &&& same_matrix(
                        solutions@[b].supply_remaining,
                        network.scenarios@[b].supply_remaining,
                    )
                    &&& same_matrix(
                        solutions@[b].arc_loads,
                        network.scenarios@[b].network_state.arc_loads,
                    )
                },
        decreases network.scenarios@.len() - j,
    {
        let scenario = &network.scenarios[j];
        proof {
            assert(scenario.wf(network.n()));
            assert(seq_sum(own_loads(*network, j as int)) <= usize::MAX);
        }
        let mut own: usize = 0;
        let mut k: usize = 0;
        while k < count
            invariant
                network.wf(network.n()),
                count == network.fixed_arcs@.len(),
                j < network.scenarios@.len(),
                *scenario == network.scenarios@[j as int],
                seq_sum(own_loads(*network, j as int)) <= usize::MAX,
                k <= count,
                own == seq_sum(own_loads(*network, j as int).take(k as int)),
            decreases count - k,
        {
            let arc = network.fixed_arcs[k];
            proof {
                assert(scenario.wf(network.n()));
                assert(scenario.network_state.fixed_arcs@[k as int] == arc);
                assert(own_loads(*network, j as int).take(k + 1).drop_last() =~= own_loads(
                    *network,
                    j as int,
                ).take(k as int));
                lemma_partial_sum(own_loads(*network, j as int), k + 1);
            }
            own = own + *scenario.network_state.arc_loads.get(arc.0, arc.1);
            k = k + 1;
        }
        proof {
            assert(own_loads(*network, j as int).take(k as int) =~= own_loads(*network, j as int));
        }
        let slack = total.saturating_sub(own);
        solutions.push(
            ScenarioSolution {
                id: scenario.id,
                slack,
                supply_remaining: copy_matrix(&scenario.supply_remaining),
                arc_loads: copy_matrix(&scenario.network_state.arc_loads),
            },
        );
        j = j + 1;
    }
    Ok(solutions)
}

/// The largest load any scenario puts on each fixed arc.
fn max_load_list(network: &AuxiliaryNetwork) -> (v: Vec<usize>)
    requires
        network.wf(network.n()),
    ensures
        v@ == max_loads(*network),
{
    let count = network.fixed_arcs.len();
    let mut v: Vec<usize> = Vec::new();
    let mut k: usize = 0;
    while k < count
        invariant
            network.wf(network.n()),
            count == network.fixed_arcs@.len(),
            k <= count,
            v@ == max_loads(*network).take(k as int),
        decreases count - k,
    {
        let arc = network.fixed_arcs[k];
        let mut most: usize = 0;
        let mut j: usize = 0;
        while j < network.scenarios.len()
            invariant
                network.wf(network.n()),
                k < network.fixed_arcs@.len(),
                arc == network.fixed_arcs@[k as int],
                j <= network.scenarios@.len(),
                most == max_load(*network, k as int, j as int),
            decreases network.scenarios@.len() - j,
        {
            let state = &network.scenarios[j].network_state;
            proof {
                assert(network.scenarios@[j as int].wf(network.n()));
                assert(state.fixed_arcs@[k as int] == arc);
            }
            let load = *state.arc_loads.get(arc.0, arc.1);
            if load > most {
                most = load;
            }
            j = j + 1;
        }
        v.push(most);
        k = k + 1;
        proof {
            assert(v@ =~= max_loads(*network).take(k as int));
        }
    }
    proof {
        assert(v@ =~= max_loads(*network));
    }
    v
}

/// The loads scenario `j` puts on the fixed arcs.
fn own_load_list(network: &AuxiliaryNetwork, j: usize) -> (v: Vec<usize>)
    requires
        network.wf(network.n()),
        j < network.scenarios@.len(),
    ensures
        v@ == own_loads(*network, j as int),
{
    let count = network.fixed_arcs.len();
    let scenario = &network.scenarios[j];
    let mut v: Vec<usize> = Vec::new();
    let mut k: usize = 0;
    while k < count
        invariant
            network.wf(network.n()),
            count == network.fixed_arcs@.len(),
            j < network.scenarios@.len(),
            *scenario == network.scenarios@[j as int],
            k <= count,
            v@ == own_loads(*network, j as int).take(k as int),
        decreases count - k,
    {
        let arc = network.fixed_arcs[k];
        proof {
            assert(scenario.wf(network.n()));
            assert(scenario.network_state.fixed_arcs@[k as int] == arc);
        }
        v.push(*scenario.network_state.arc_loads.get(arc.0, arc.1));
        k = k + 1;
        proof {
            assert(v@ =~= own_loads(*network, j as int).take(k as int));
        }
    }
    proof {
        assert(v@ =~= own_loads(*network, j as int));
    }
    v
}

/// The totals that `get_solutions` adds up fit in a `usize`: the
/// consistent flow total and what each scenario puts on the fixed arcs.
pub open spec fn solution_totals_fit(network: AuxiliaryNetwork) -> bool {
    &&& consistent_total(network) <= usize::MAX
    &&& forall|j: int|
        0 <= j < network.scenarios@.len() ==> #[trigger] seq_sum(own_loads(network, j)) <= usize::MAX
}

/// The error of loads that do not add up within a `usize`.
fn totals_error() -> (e: SolverError)
    ensures
        e matches SolverError::NetworkShapeError(msg) && msg@
            == "the fixed arc loads exceed the machine's integers"@,
{
    SolverError::NetworkShapeError(String::from_str("the fixed arc loads exceed the machine's integers"))
}

/// The solutions of the greedy pass, as `get_solutions` gives them, or an
/// error when the loads on the fixed arcs add up to more than a `usize`
/// holds.
pub fn solutions_of(network: &AuxiliaryNetwork) -> (r: Result<Vec<ScenarioSolution>, SolverError>)
    requires
        network.wf(network.n()),
    ensures
        !solution_totals_fit(*network) <==> r is Err,
        r matches Err(e) ==> e matches SolverError::NetworkShapeError(msg)
            && msg@ == "the fixed arc loads exceed the machine's integers"@,
        r matches Ok(solutions) ==> solutions@.len() == network.scenarios@.len() && forall|j: int|
            0 <= j < solutions@.len() ==> {
                &&& (#[trigger] solutions@[j]).id == network.scenarios@[j].id
                &&& solutions@[j].slack == slack_of(*network, j)
                &&& same_matrix(solutions@[j].supply_remaining, network.scenarios@[j].supply_remaining)
                &&& same_matrix(
                    solutions@[j].arc_loads,
                    network.scenarios@[j].network_state.arc_loads,
                )
            },
{
    if checked_sum(&max_load_list(network)).is_none() {
        return Err(totals_error());
    }
    let mut j: usize = 0;
    while j < network.scenarios.len()
        invariant
            network.wf(network.n()),
            j <= network.scenarios@.len(),
            forall|b: int| 0 <= b < j ==> #[trigger] seq_sum(own_loads(*network, b)) <= usize::MAX,
        decreases network.scenarios@.len() - j,
    {
        if checked_sum(&own_load_list(network, j)).is_none() {
            return Err(totals_error());
        }
        j = j + 1;
    }
    match get_solutions(network) {
        Ok(solutions) => Ok(solutions),
        Err(e) => Err(e),
    }
}

/// The draw function needs the floating-point exponential draws, which the
/// library takes as given.
pub open spec fn is_exponential(f: RelativeDrawFunction) -> bool {
    f == RelativeDrawFunction::Exponential || f == RelativeDrawFunction::ExponentialNonNeg
}

/// The draws of `scenario` towards every fixed arc compute without
/// overflow from the loads `snapshot` of all scenarios.
pub open spec fn scenario_draws_fit(scenario: Scenario, snapshot: Seq<Seq<i64>>, draw_fn: RelativeDrawFunction) -> bool {
    forall|k: int|
        0 <= k < snapshot.len() ==> draw_fits(draw_fn, #[trigger] snapshot[k], scenario.own_load(k))
}

/// The loads every scenario has put on each fixed arc, fixed arc by fixed
/// arc.
pub open spec fn loads_snapshot(network: AuxiliaryNetwork) -> Seq<Seq<i64>> {
    Seq::new(
        network.fixed_arcs@.len(),
        |k: int| Seq::new(network.scenarios@.len(), |j: int| network.load_on(j, k) as i64),
    )
}

/// `after` is the scenario `before` after a greedy step that ended in
/// `result`: its draws refreshed from the loads `snapshot`, then one round
/// of its tokens. A step that finds no route names the scenario.
pub open spec fn step_of(
    before: Scenario,
    after: Scenario,
    snapshot: Seq<Seq<i64>>,
    draw_fn: RelativeDrawFunction,
    result: Result<(), SolverError>,
) -> bool {
    &&& after.id == before.id
    &&& after.slack == before.slack
    &&& after.slack_used == before.slack_used
    &&& result matches Err(SolverError::NoFeasibleFlowError(x)) ==> x == before.network_state.scenario_id
    &&& exists|drawn: NetworkState|
        {
            &&& drawn == NetworkState { relative_draws: drawn.relative_draws, ..before.network_state }
            &&& drawn.relative_draws@.len() == snapshot.len()
            &&& forall|k: int|
                0 <= k < snapshot.len() ==> #[trigger] drawn.relative_draws@[k] == draw_spec(
                    draw_fn,
                    snapshot[k],
                    before.own_load(k),
                    0,
                )
            &&& #[trigger] round(
                drawn,
                before.supply_tokens@,
                before.supply_remaining,
                0,
                result,
                after.network_state,
                after.supply_tokens@,
                after.supply_remaining,
            )
        }
}

/// What one greedy round does to the network `before`, ending in
/// `result`: when the draws of some scenario would overflow, nothing
/// changes and the round fails; otherwise the scenarios step in order from
/// the loads taken before the round, and the first step that fails ends the
/// round with its error, leaving the later scenarios as they were.
pub open spec fn round_of(
    before: AuxiliaryNetwork,
    after: AuxiliaryNetwork,
    draw_fn: RelativeDrawFunction,
    result: Result<(), SolverError>,
) -> bool {
    let snapshot = loads_snapshot(before);
    let m = before.scenarios@.len() as int;
    &&& after.fixed_arcs == before.fixed_arcs
    &&& after.scenarios@.len() == m
    &&& if !(forall|j: int| 0 <= j < m ==> scenario_draws_fit(#[trigger] before.scenarios@[j], snapshot, draw_fn)) {
        &&& after == before
        &&& result matches Err(SolverError::NetworkShapeError(msg))
        &&& msg@ == "the relative draws overflow"@
    } else {
        exists|f: int| #[trigger] round_split(before, after, snapshot, draw_fn, result, f)
    }
}

/// The scenarios before the `f`-th stepped successfully; the round ended
/// there, with the `f`-th step failing and the later scenarios untouched,
/// or after the last scenario.
pub open spec fn round_split(
    before: AuxiliaryNetwork,
    after: AuxiliaryNetwork,
    snapshot: Seq<Seq<i64>>,
    draw_fn: RelativeDrawFunction,
    result: Result<(), SolverError>,
    f: int,
) -> bool {
    let m = before.scenarios@.len() as int;
    &&& 0 <= f <= m
    &&& forall|a: int|
        0 <= a < f ==> step_of(#[trigger] before.scenarios@[a], after.scenarios@[a], snapshot, draw_fn, Ok(()))
    &&& f == m ==> result is Ok
    &&& f < m ==> {
        &&& result is Err
        &&& step_of(before.scenarios@[f], after.scenarios@[f], snapshot, draw_fn, result)
        &&& forall|a: int| f < a < m ==> #[trigger] after.scenarios@[a] == before.scenarios@[a]
    }
}

/// Each scenario of `after` keeps the capacities that the same scenario of
/// `before` keeps: on every arc that is not fixed, load and remaining
/// capacity add up to the same totals.
pub open spec fn keeps_all(before: AuxiliaryNetwork, after: AuxiliaryNetwork) -> bool {
    forall|j: int, base: Matrix<usize>|
        0 <= j < before.scenarios@.len() && keeps_capacities(before.scenarios@[j].network_state, base)
            && base.nrows() == before.scenarios@[j].network_state.capacities.nrows()
            && base.ncols() == before.scenarios@[j].network_state.capacities.ncols() ==> #[trigger] keeps_capacities(
            after.scenarios@[j].network_state,
            base,
        )
}

/// Some scenario has supply on the way.
pub open spec fn has_supply(network: AuxiliaryNetwork) -> bool {
    exists|j: int| 0 <= j < network.scenarios@.len() && (#[trigger] network.scenarios@[j]).supply_tokens@.len() > 0
}

/// `chain` lists the networks from `start` to `current` over `k` greedy
/// rounds that succeeded, each begun with supply on the way.
pub open spec fn round_chain(
    chain: Seq<AuxiliaryNetwork>,
    start: AuxiliaryNetwork,
    current: AuxiliaryNetwork,
    draw_fn: RelativeDrawFunction,
    k: nat,
) -> bool {
    &&& chain.len() == k + 1
    &&& chain[0] == start
    &&& chain[k as int] == current
    &&& forall|i: int|
        0 <= i < k ==> has_supply(#[trigger] chain[i]) && round_of(chain[i], chain[i + 1], draw_fn, Ok(()))
}

/// `current` is `start` after `k` greedy rounds that succeeded, each begun
/// with supply on the way.
pub open spec fn reaches(start: AuxiliaryNetwork, current: AuxiliaryNetwork, draw_fn: RelativeDrawFunction, k: nat) -> bool {
    exists|chain: Seq<AuxiliaryNetwork>| #[trigger] round_chain(chain, start, current, draw_fn, k)
}

/// One more successful round from a network with supply on the way.
proof fn lemma_reaches_next(
    start: AuxiliaryNetwork,
    prev: AuxiliaryNetwork,
    current: AuxiliaryNetwork,
    draw_fn: RelativeDrawFunction,
    k: nat,
)
    requires
        reaches(start, prev, draw_fn, k),
        has_supply(prev),
        round_of(prev, current, draw_fn, Ok(())),
    ensures
        reaches(start, current, draw_fn, k + 1),
{
    let chain = choose|chain: Seq<AuxiliaryNetwork>| #[trigger] round_chain(chain, start, prev, draw_fn, k);
    let longer = chain.push(current);
    assert forall|i: int| 0 <= i < k + 1 implies has_supply(#[trigger] longer[i]) && round_of(
        longer[i],
        longer[i + 1],
        draw_fn,
        Ok(()),
    ) by {
        assert(longer[i] == chain[i]);
        if i < k {
            assert(longer[i + 1] == chain[i + 1]);
        }
    }
    assert(round_chain(longer, start, current, draw_fn, k + 1));
}

/// No round yet.
proof fn lemma_reaches_start(start: AuxiliaryNetwork, draw_fn: RelativeDrawFunction)
    ensures
        reaches(start, start, draw_fn, 0),
{
    assert(round_chain(seq![start], start, start, draw_fn, 0));
}

/// What `Scenario::greedy_step` promises, read as a step of `step_of`.
proof fn lemma_step_of(
    before: Scenario,
    after: Scenario,
    loads: Seq<Vec<i64>>,
    snapshot: Seq<Seq<i64>>,
    exp_draws: Seq<i64>,
    draw_fn: RelativeDrawFunction,
    result: Result<(), SolverError>,
)
    requires
        loads.len() == snapshot.len(),
        forall|k: int| 0 <= k < loads.len() ==> (#[trigger] loads[k])@ == snapshot[k],
        exp_draws.len() == loads.len(),
        forall|k: int| 0 <= k < exp_draws.len() ==> #[trigger] exp_draws[k] == 0,
        after.id == before.id,
        after.slack == before.slack,
        after.slack_used == before.slack_used,
        exists|drawn: NetworkState|
            {
                &&& drawn == NetworkState { relative_draws: drawn.relative_draws, ..before.network_state }
                &&& drawn.relative_draws@.len() == loads.len()
                &&& forall|k: int|
                    0 <= k < loads.len() ==> #[trigger] drawn.relative_draws@[k] == draw_spec(
                        draw_fn,
                        loads[k]@,
                        before.own_load(k),
                        exp_draws[k],
                    )
                &&& #[trigger] round(
                    drawn,
                    before.supply_tokens@,
                    before.supply_remaining,
                    0,
                    result,
                    after.network_state,
                    after.supply_tokens@,
                    after.supply_remaining,
                )
            },
    ensures
        step_of(before, after, snapshot, draw_fn, result),
{
    let drawn = choose|drawn: NetworkState|
        {
            &&& drawn == NetworkState { relative_draws: drawn.relative_draws, ..before.network_state }
            &&& drawn.relative_draws@.len() == loads.len()
            &&& forall|k: int|
                0 <= k < loads.len() ==> #[trigger] drawn.relative_draws@[k] == draw_spec(
                    draw_fn,
                    loads[k]@,
                    before.own_load(k),
                    exp_draws[k],
                )
            &&& #[trigger] round(
                drawn,
                before.supply_tokens@,
                before.supply_remaining,
                0,
                result,
                after.network_state,
                after.supply_tokens@,
                after.supply_remaining,
            )
        };
    assert forall|k: int| 0 <= k < snapshot.len() implies #[trigger] drawn.relative_draws@[k] == draw_spec(
        draw_fn,
        snapshot[k],
        before.own_load(k),
        0,
    ) by {
        assert(loads[k]@ == snapshot[k]);
        assert(exp_draws[k] == 0);
    }
    match result {
        Err(SolverError::NoFeasibleFlowError(x)) => {
            lemma_round_error(
                drawn,
                before.supply_tokens@,
                before.supply_remaining,
                0,
                result,
                after.network_state,
                after.supply_tokens@,
                after.supply_remaining,
                x,
            );
        },
        _ => {},
    }
}

/// A step keeps the capacities its scenario kept.
proof fn lemma_step_keeps(
    before: Scenario,
    after: Scenario,
    snapshot: Seq<Seq<i64>>,
    draw_fn: RelativeDrawFunction,
    result: Result<(), SolverError>,
    n: nat,
    base: Matrix<usize>,
)
    requires
        before.wf(n),
        tokens_on_the_way(before),
        step_of(before, after, snapshot, draw_fn, result),
        snapshot.len() == before.network_state.fixed_arcs@.len(),
        keeps_capacities(before.network_state, base),
        base.nrows() == before.network_state.capacities.nrows(),
        base.ncols() == before.network_state.capacities.ncols(),
    ensures
        keeps_capacities(after.network_state, base),
{
    let drawn = choose|drawn: NetworkState|
        {
            &&& drawn == NetworkState { relative_draws: drawn.relative_draws, ..before.network_state }
            &&& drawn.relative_draws@.len() == snapshot.len()
            &&& forall|k: int|
                0 <= k < snapshot.len() ==> #[trigger] drawn.relative_draws@[k] == draw_spec(
                    draw_fn,
                    snapshot[k],
                    before.own_load(k),
                    0,
                )
            &&& #[trigger] round(
                drawn,
                before.supply_tokens@,
                before.supply_remaining,
                0,
                result,
                after.network_state,
                after.supply_tokens@,
                after.supply_remaining,
            )
        };
    assert forall|j: int| 0 <= j < before.supply_tokens@.len() implies drawn.holds(
        #[trigger] before.supply_tokens@[j],
    ) by {
        assert(before.network_state.holds(before.supply_tokens@[j]));
    }
    law_round_keeps_capacities(
        drawn,
        before.supply_tokens@,
        before.supply_remaining,
        0,
        result,
        after.network_state,
        after.supply_tokens@,
        after.supply_remaining,
        base,
    );
}

/// No token of `scenario` waits at its destination.
pub open spec fn tokens_on_the_way(scenario: Scenario) -> bool {
    forall|j: int|
        0 <= j < scenario.supply_tokens@.len() ==> (#[trigger] scenario.supply_tokens@[j]).s
            != scenario.supply_tokens@[j].t
}

/// `after` is still a scenario of the network, with the same undispatched
/// supply as `before`.
pub open spec fn kept(before: Scenario, after: Scenario, n: nat, fixed_arcs: Seq<(usize, usize)>) -> bool {
    &&& after.wf(n)
    &&& after.consistent()
    &&& after.network_state.fixed_arcs@ == fixed_arcs
    &&& after.id == before.id
    &&& after.network_state.scenario_id == before.network_state.scenario_id
    &&& forall|o: int, t: int|
        before.supply_remaining.contains(o, t) ==> #[trigger] after.undispatched(o, t)
            == before.undispatched(o, t)
}

/// `after` moved every token of `before`: none waits at its destination
/// and the work left dropped by at least their number.
pub open spec fn advanced(before: Scenario, after: Scenario) -> bool {
    &&& tokens_on_the_way(after)
    &&& tokens_work(after.supply_tokens@) + before.supply_tokens@.len() <= tokens_work(before.supply_tokens@)
}

/// The work left to all scenarios.
pub open spec fn network_work(scenarios: Seq<Scenario>) -> nat
    decreases scenarios.len(),
{
    if scenarios.len() == 0 {
        0
    } else {
        network_work(scenarios.drop_last()) + tokens_work(scenarios.last().supply_tokens@)
    }
}

/// Less work in every scenario is less work in all; strictly less where
/// some scenario had a token.
proof fn lemma_network_work(before: Seq<Scenario>, after: Seq<Scenario>)
    requires
        before.len() == after.len(),
        forall|a: int| 0 <= a < before.len() ==> advanced(#[trigger] before[a], after[a]),
    ensures
        network_work(after) <= network_work(before),
        (exists|a: int| 0 <= a < before.len() && (#[trigger] before[a]).supply_tokens@.len() > 0)
            ==> network_work(after) < network_work(before),
    decreases before.len(),
{
    if before.len() > 0 {
        let b = before.drop_last();
        let c = after.drop_last();
        assert forall|a: int| 0 <= a < b.len() implies advanced(#[trigger] b[a], c[a]) by {
            assert(b[a] == before[a] && c[a] == after[a]);
        }
        lemma_network_work(b, c);
        assert(advanced(before[before.len() - 1], after[after.len() - 1]));
        if exists|a: int| 0 <= a < before.len() && (#[trigger] before[a]).supply_tokens@.len() > 0 {
            let a = choose|a: int| 0 <= a < before.len() && (#[trigger] before[a]).supply_tokens@.len() > 0;
            if a < before.len() - 1 {
                assert(b[a] == before[a]);
            }
        }
    }
}

/// The error of draws that overflow.
fn draw_overflow_error() -> (e: SolverError)
    ensures
        e matches SolverError::NetworkShapeError(msg) && msg@ == "the relative draws overflow"@,
{
    SolverError::NetworkShapeError(String::from_str("the relative draws overflow"))
}

/// One greedy round: the loads on the fixed arcs are taken, then every
/// scenario in turn refreshes its draws from them and moves each of its
/// tokens one arc (`Scenario::greedy_step`). Stops at the first scenario
/// that fails, leaving the later ones as they were; fails with nothing
/// changed when the draws of some scenario would overflow.
pub fn greedy_round(network: &mut AuxiliaryNetwork, draw_fn: &RelativeDrawFunction) -> (r: Result<(), SolverError>)
    requires
        old(network).wf(old(network).n()),
        !is_exponential(*draw_fn),
        forall|j: int| 0 <= j < old(network).scenarios@.len() ==> tokens_on_the_way(#[trigger] old(network).scenarios@[j]),
    ensures
        round_of(*old(network), *final(network), *draw_fn, r),
        keeps_all(*old(network), *final(network)),
        final(network).fixed_arcs == old(network).fixed_arcs,
        final(network).scenarios@.len() == old(network).scenarios@.len(),
        forall|j: int|
            0 <= j < old(network).scenarios@.len() ==> kept(
                #[trigger] old(network).scenarios@[j],
                final(network).scenarios@[j],
                old(network).n(),
                old(network).fixed_arcs@,
            ),
        r is Ok ==> forall|j: int|
            0 <= j < old(network).scenarios@.len() ==> advanced(
                #[trigger] old(network).scenarios@[j],
                final(network).scenarios@[j],
            ),
        r matches Err(e) ==> e == SolverError::PathMatrixCorruptError || (e matches SolverError::NoFeasibleFlowError(x)
            && x < old(network).scenarios@.len()) || (e matches SolverError::NetworkShapeError(msg) && msg@
            == "the relative draws overflow"@),
{
    let ghost n = network.n();
    let ghost start = *network;
    let ghost ls = loads_snapshot(start);
    let snapshot = network.snapshot_fixed_arc_loads();
    proof {
        assert forall|k: int| 0 <= k < snapshot@.len() implies (#[trigger] snapshot@[k])@ == ls[k] by {
            assert(snapshot@[k]@ =~= ls[k]);
        }
    }
    let count = network.fixed_arcs.len();
    let mut zeros: Vec<i64> = Vec::new();
    while zeros.len() < count
        invariant
            zeros@.len() <= count,
            forall|k: int| 0 <= k < zeros@.len() ==> #[trigger] zeros@[k] == 0,
        decreases count - zeros@.len(),
    {
        zeros.push(0);
    }
    let mut j: usize = 0;
    while j < network.scenarios.len()
        invariant
            *network == start,
            start == *old(network),
            ls == loads_snapshot(start),
            network.wf(n),
            n == network.n(),
            snapshot@.len() == network.fixed_arcs@.len(),
            forall|k: int| 0 <= k < snapshot@.len() ==> (#[trigger] snapshot@[k])@ == ls[k],
            j <= network.scenarios@.len(),
            forall|a: int| 0 <= a < j ==> scenario_draws_fit(#[trigger] network.scenarios@[a], ls, *draw_fn),
        decreases network.scenarios@.len() - j,
    {
        proof {
            assert(network.scenarios@[j as int].wf(n));
        }
        let fits = network.scenarios[j].draws_fit(&snapshot, draw_fn);
        proof {
            assert(fits == scenario_draws_fit(network.scenarios@[j as int], ls, *draw_fn)) by {
                if fits {
                    assert forall|k: int| 0 <= k < ls.len() implies draw_fits(
                        *draw_fn,
                        #[trigger] ls[k],
                        network.scenarios@[j as int].own_load(k),
                    ) by {
                        assert(snapshot@[k]@ == ls[k]);
                    }
                } else {
                    let k = choose|k: int|
                        0 <= k < snapshot@.len() && !draw_fits(
                            *draw_fn,
                            (#[trigger] snapshot@[k])@,
                            network.scenarios@[j as int].own_load(k),
                        );
                    assert(snapshot@[k]@ == ls[k]);
                }
            }
        }
        if !fits {
            proof {
                assert forall|a: int| 0 <= a < network.scenarios@.len() implies kept(
                    #[trigger] network.scenarios@[a],
                    network.scenarios@[a],
                    n,
                    network.fixed_arcs@,
                ) by {
                    assert(network.scenarios@[a].wf(n));
                }
                assert(!scenario_draws_fit(network.scenarios@[j as int], ls, *draw_fn));
            }
            return Err(draw_overflow_error());
        }
        j = j + 1;
    }
    let mut rest: Vec<Scenario> = Vec::new();
    std::mem::swap(&mut rest, &mut network.scenarios);
    let ghost orig = rest@;
    let mut done: Vec<Scenario> = Vec::new();
    while rest.len() > 0
        invariant
            start == *old(network),
            ls == loads_snapshot(start),
            orig == start.scenarios@,
            network.fixed_arcs == start.fixed_arcs,
            network.scenarios@.len() == 0,
            start.wf(n),
            snapshot@.len() == start.fixed_arcs@.len(),
            forall|k: int| 0 <= k < snapshot@.len() ==> (#[trigger] snapshot@[k])@ == ls[k],
            zeros@.len() == count,
            forall|k: int| 0 <= k < zeros@.len() ==> #[trigger] zeros@[k] == 0,
            count == start.fixed_arcs@.len(),
            !is_exponential(*draw_fn),
            forall|a: int| 0 <= a < orig.len() ==> scenario_draws_fit(#[trigger] orig[a], ls, *draw_fn),
            forall|a: int| 0 <= a < orig.len() ==> tokens_on_the_way(#[trigger] orig[a]),
            done@.len() + rest@.len() == orig.len(),
            rest@ == orig.skip(done@.len() as int),
            forall|a: int|
                0 <= a < done@.len() ==> kept(#[trigger] orig[a], done@[a], n, start.fixed_arcs@)
                    && advanced(orig[a], done@[a]) && step_of(orig[a], done@[a], ls, *draw_fn, Ok(())),
            forall|a: int, base: Matrix<usize>|
                0 <= a < done@.len() && keeps_capacities(orig[a].network_state, base) && base.nrows()
                    == orig[a].network_state.capacities.nrows() && base.ncols()
                    == orig[a].network_state.capacities.ncols() ==> #[trigger] keeps_capacities(
                    done@[a].network_state,
                    base,
                ),
        decreases rest@.len(),
    {
        let ghost a = done@.len() as int;
        let mut scenario = rest.remove(0);
        proof {
            assert(scenario == orig[a]);
            assert(start.scenarios@[a].wf(n));
            assert(scenario_draws_fit(orig[a], ls, *draw_fn));
            assert forall|k: int| 0 <= k < snapshot@.len() implies draw_fits(
                *draw_fn,
                (#[trigger] snapshot@[k])@,
                orig[a].own_load(k),
            ) by {
                assert(snapshot@[k]@ == ls[k]);
            }
            assert(tokens_on_the_way(orig[a]));
        }
        let r = scenario.greedy_step(&snapshot, draw_fn, &zeros);
        proof {
            lemma_step_of(orig[a], scenario, snapshot@, ls, zeros@, *draw_fn, r);
            assert forall|base: Matrix<usize>|
                keeps_capacities(orig[a].network_state, base) && base.nrows()
                    == orig[a].network_state.capacities.nrows() && base.ncols()
                    == orig[a].network_state.capacities.ncols() implies #[trigger] keeps_capacities(
                    scenario.network_state,
                    base,
                ) by {
                lemma_step_keeps(orig[a], scenario, ls, *draw_fn, r, n, base);
            }
        }
        match r {
            Ok(u) => {
                proof {
                    assert(u == ());
                    assert(r == Ok::<(), SolverError>(()));
                }
                done.push(scenario);
                proof {
                    assert(done@[a] == scenario);
                    assert(rest@ =~= orig.skip(done@.len() as int));
                }
            },
            Err(e) => {
                done.push(scenario);
                let ghost pushed = done@;
                done.append(&mut rest);
                network.scenarios = done;
                proof {
                    assert forall|b: int| 0 <= b < orig.len() implies kept(
                        #[trigger] orig[b],
                        network.scenarios@[b],
                        n,
                        start.fixed_arcs@,
                    ) by {
                        if b < a {
                            assert(network.scenarios@[b] == pushed[b]);
                        } else if b == a {
                            assert(network.scenarios@[b] == pushed[b]);
                        } else {
                            assert(network.scenarios@[b] == orig.skip(a + 1)[b - a - 1]);
                            assert(orig[b].wf(n));
                        }
                    }
                    assert forall|b: int| a < b < orig.len() implies #[trigger] network.scenarios@[b] == orig[b] by {
                        assert(network.scenarios@[b] == orig.skip(a + 1)[b - a - 1]);
                    }
                    assert forall|b: int| 0 <= b < a implies step_of(
                        #[trigger] orig[b],
                        network.scenarios@[b],
                        ls,
                        *draw_fn,
                        Ok(()),
                    ) by {
                        assert(network.scenarios@[b] == pushed[b]);
                    }
                    assert(network.scenarios@[a] == scenario);
                    assert forall|b: int, base: Matrix<usize>|
                        0 <= b < orig.len() && keeps_capacities(orig[b].network_state, base)
                            && base.nrows() == orig[b].network_state.capacities.nrows() && base.ncols()
                            == orig[b].network_state.capacities.ncols() implies #[trigger] keeps_capacities(
                        network.scenarios@[b].network_state,
                        base,
                    ) by {
                        if b < a {
                            assert(network.scenarios@[b] == pushed[b]);
                        } else if b > a {
                            assert(network.scenarios@[b] == orig.skip(a + 1)[b - a - 1]);
                        }
                    }
                    assert(orig[a].network_state.scenario_id == a);
                    assert(round_split(start, *network, ls, *draw_fn, Err(e), a));
                    assert(round_of(start, *network, *draw_fn, Err(e)));
                }
                return Err(e);
            },
        }
    }
    network.scenarios = done;
    proof {
        assert(network.scenarios@.len() == orig.len());
        let m = orig.len() as int;
        assert(network.scenarios@ == done@);
        assert forall|a: int| 0 <= a < m implies step_of(
            #[trigger] start.scenarios@[a],
            network.scenarios@[a],
            ls,
            *draw_fn,
            Ok(()),
        ) by {
            assert(network.scenarios@[a] == done@[a]);
        }
        assert(round_split(start, *network, ls, *draw_fn, Ok(()), m));
        assert(round_of(start, *network, *draw_fn, Ok(())));
    }
    Ok(())
}

/// Tells whether no token of any scenario waits at its destination.
pub fn all_tokens_on_the_way(network: &AuxiliaryNetwork) -> (b: bool)
    ensures
        b == forall|j: int| 0 <= j < network.scenarios@.len() ==> tokens_on_the_way(#[trigger] network.scenarios@[j]),
{
    let mut j: usize = 0;
    while j < network.scenarios.len()
        invariant
            j <= network.scenarios@.len(),
            forall|a: int| 0 <= a < j ==> tokens_on_the_way(#[trigger] network.scenarios@[a]),
        decreases network.scenarios@.len() - j,
    {
        let tokens = &network.scenarios[j].supply_tokens;
        let mut k: usize = 0;
        while k < tokens.len()
            invariant
                j < network.scenarios@.len(),
                *tokens == network.scenarios@[j as int].supply_tokens,
                k <= tokens@.len(),
                forall|c: int| 0 <= c < k ==> (#[trigger] tokens@[c]).s != tokens@[c].t,
            decreases tokens@.len() - k,
        {
            if tokens[k].s == tokens[k].t {
                proof {
                    assert(!tokens_on_the_way(network.scenarios@[j as int]));
                }
                return false;
            }
            k = k + 1;
        }
        j = j + 1;
    }
    true
}

/// What the greedy pass makes of the network `before`, ending in `result`
/// with the network `after`: the rounds that succeeded, then either no
/// supply left or the round that failed; each scenario keeps its
/// capacities, its undispatched supply and its shape.
pub open spec fn greedy_outcome(
    before: AuxiliaryNetwork,
    after: AuxiliaryNetwork,
    draw_fn: RelativeDrawFunction,
    result: Result<(), SolverError>,
) -> bool {
    &&& after.fixed_arcs == before.fixed_arcs
    &&& after.scenarios@.len() == before.scenarios@.len()
    &&& after.wf(before.n())
    &&& forall|j: int, o: int, t: int|
        0 <= j < before.scenarios@.len() && before.scenarios@[j].supply_remaining.contains(o, t)
            ==> #[trigger] after.scenarios@[j].undispatched(o, t) == before.scenarios@[j].undispatched(o, t)
    &&& result is Ok ==> forall|j: int|
        0 <= j < after.scenarios@.len() ==> (#[trigger] after.scenarios@[j]).supply_tokens@.len() == 0
    &&& result matches Err(e) ==> e == SolverError::PathMatrixCorruptError || (e matches SolverError::NoFeasibleFlowError(x)
        && x < before.scenarios@.len()) || (e matches SolverError::NetworkShapeError(msg) && msg@
        == "the relative draws overflow"@)
    &&& exists|k: nat, last: AuxiliaryNetwork|
        #[trigger] reaches(before, last, draw_fn, k) && {
            ||| result is Ok && after == last && !has_supply(last)
            ||| result is Err && has_supply(last) && round_of(last, after, draw_fn, result)
        }
    &&& keeps_all(before, after)
}

/// The greedy pass: rounds until no scenario has supply on the way, or
/// until a round fails. Every round moves every token one arc and clears
/// that arc from the token's arc set, so the pass ends. When it succeeds,
/// no token is left in any scenario, and each scenario's undispatched
/// supply is what it was.
pub fn greedy(network: &mut AuxiliaryNetwork, draw_fn: &RelativeDrawFunction) -> (r: Result<(), SolverError>)
    requires
        old(network).wf(old(network).n()),
        !is_exponential(*draw_fn),
        forall|j: int| 0 <= j < old(network).scenarios@.len() ==> tokens_on_the_way(#[trigger] old(network).scenarios@[j]),
    ensures
        final(network).fixed_arcs == old(network).fixed_arcs,
        final(network).scenarios@.len() == old(network).scenarios@.len(),
        final(network).wf(old(network).n()),
        forall|j: int, o: int, t: int|
            0 <= j < old(network).scenarios@.len() && old(network).scenarios@[j].supply_remaining.contains(o, t)
                ==> #[trigger] final(network).scenarios@[j].undispatched(o, t)
                == old(network).scenarios@[j].undispatched(o, t),
        r is Ok ==> forall|j: int|
            0 <= j < final(network).scenarios@.len() ==> (#[trigger] final(network).scenarios@[j]).supply_tokens@.len() == 0,
        r matches Err(e) ==> e == SolverError::PathMatrixCorruptError || (e matches SolverError::NoFeasibleFlowError(x)
            && x < old(network).scenarios@.len()) || (e matches SolverError::NetworkShapeError(msg) && msg@
            == "the relative draws overflow"@),
        exists|k: nat, last: AuxiliaryNetwork|
            #[trigger] reaches(*old(network), last, *draw_fn, k) && {
                ||| r is Ok && *final(network) == last && !has_supply(last)
                ||| r is Err && has_supply(last) && round_of(last, *final(network), *draw_fn, r)
            },
        keeps_all(*old(network), *final(network)),
        greedy_outcome(*old(network), *final(network), *draw_fn, r),
{
    let ghost n = network.n();
    let ghost start = *network;
    let ghost mut k: nat = 0;
    proof {
        lemma_reaches_start(start, *draw_fn);
    }
    while network.exists_supply()
        invariant
            reaches(start, *network, *draw_fn, k),
            keeps_all(start, *network),
            start == *old(network),
            start.wf(n),
            network.fixed_arcs == start.fixed_arcs,
            network.scenarios@.len() == start.scenarios@.len(),
            network.wf(n),
            start.scenarios@.len() > 0 ==> network.n() == n,
            start.scenarios@.len() == 0 ==> n == 0,
            !is_exponential(*draw_fn),
            forall|j: int| 0 <= j < network.scenarios@.len() ==> tokens_on_the_way(#[trigger] network.scenarios@[j]),
            forall|j: int, o: int, t: int|
                0 <= j < start.scenarios@.len() && start.scenarios@[j].supply_remaining.contains(o, t)
                    ==> #[trigger] network.scenarios@[j].undispatched(o, t)
                    == start.scenarios@[j].undispatched(o, t),
        decreases network_work(network.scenarios@),
    {
        let ghost before = *network;
        proof {
            if start.scenarios@.len() > 0 {
                assert(network.scenarios@[0].wf(n));
            }
        }
        let r = greedy_round(network, draw_fn);
        proof {
            assert forall|j: int| 0 <= j < network.scenarios@.len() implies (#[trigger] network.scenarios@[j]).wf(n)
                && network.scenarios@[j].consistent()
                && network.scenarios@[j].network_state.fixed_arcs@ == network.fixed_arcs@
                && network.scenarios@[j].id == j
                && network.scenarios@[j].network_state.scenario_id == j by {
                assert(kept(before.scenarios@[j], network.scenarios@[j], before.n(), before.fixed_arcs@));
                assert(before.scenarios@[j].id == j);
            }
            if start.scenarios@.len() > 0 {
                assert(network.scenarios@[0].wf(n));
            }
            assert forall|j: int, o: int, t: int|
                0 <= j < start.scenarios@.len() && start.scenarios@[j].supply_remaining.contains(o, t)
                    implies #[trigger] network.scenarios@[j].undispatched(o, t)
                    == start.scenarios@[j].undispatched(o, t) by {
                assert(kept(before.scenarios@[j], network.scenarios@[j], before.n(), before.fixed_arcs@));
                assert(before.scenarios@[j].wf(n));
                assert(start.scenarios@[j].wf(n));
            }
            assert forall|j: int, base: Matrix<usize>|
                0 <= j < start.scenarios@.len() && keeps_capacities(start.scenarios@[j].network_state, base)
                    && base.nrows() == start.scenarios@[j].network_state.capacities.nrows()
                    && base.ncols() == start.scenarios@[j].network_state.capacities.ncols() implies #[trigger] keeps_capacities(
                network.scenarios@[j].network_state,
                base,
            ) by {
                assert(start.scenarios@[j].wf(n));
                assert(before.scenarios@[j].wf(n));
                assert(keeps_capacities(before.scenarios@[j].network_state, base));
            }
            assert(has_supply(before));
        }
        match r {
            Ok(u) => {
                proof {
                    assert forall|j: int| 0 <= j < network.scenarios@.len() implies tokens_on_the_way(
                        #[trigger] network.scenarios@[j],
                    ) by {
                        assert(advanced(before.scenarios@[j], network.scenarios@[j]));
                    }
                    lemma_network_work(before.scenarios@, network.scenarios@);
                    assert(r == Ok::<(), SolverError>(()));
                    lemma_reaches_next(start, before, *network, *draw_fn, k);
                    k = k + 1;
                }
            },
            Err(e) => {
                proof {
                    assert(reaches(start, before, *draw_fn, k));
                }
                return Err(e);
            },
        }
    }
    proof {
        assert(!has_supply(*network));
        assert(reaches(start, *network, *draw_fn, k));
    }
    Ok(())
}

} // verus!
