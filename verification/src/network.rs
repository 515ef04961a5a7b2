//! Networks: vertices, arc capacities and costs, the supply of each scenario
//! and the fixed arcs, with their validation.
use vstd::prelude::*;

use crate::error::{decimal, push_decimal, SolverError};
use crate::matrix::{seq_sum, Matrix};
use crate::options::Options;
use crate::solution::{lists_arc, ScenarioSolution};
use crate::auxiliary::{built_from, preprocessable, preprocessing_fails, AuxiliaryNetwork};
use crate::greedy::{
    greedy, greedy_outcome, is_exponential, slack_of, solution_totals_fit, solutions_of, tokens_on_the_way,
};
use crate::preprocessing::same_matrix;

verus! {

/// A vertex of the network. Stations are the vertices that can have supply
/// or demand.
#[derive(Debug, Clone, PartialEq, Eq)]
pub struct Vertex {
    pub name: String,
    pub is_station: bool,
}

/// Vertices are stations unless stated otherwise.
pub fn default_true() -> (b: bool)
    ensures
        b,
{
    true
}

/// A network with one supply matrix per scenario; `balances[i]` holds at
/// `(s, t)` the units to send from `s` to `t` in scenario `i`.
#[derive(Debug, Clone)]
pub struct Network {
    pub vertices: Vec<Vertex>,
    pub capacities: Matrix<usize>,
    pub costs: Matrix<usize>,
    pub balances: Vec<Matrix<usize>>,
    pub fixed_arcs: Vec<(usize, usize)>,
    pub baseline: Option<Vec<ScenarioSolution>>,
    pub solutions: Option<Vec<ScenarioSolution>>,
    pub auxiliary_network: Option<AuxiliaryNetwork>,
    pub options: Options,
}

/// Row `i` of `m` holds only zeros.
pub open spec fn row_is_empty(m: Matrix<usize>, i: int) -> bool {
    forall|j: int| 0 <= j < m.ncols() ==> m.at(i, j) == 0
}

/// Column `j` of `m` holds only zeros.
pub open spec fn column_is_empty(m: Matrix<usize>, j: int) -> bool {
    forall|i: int| 0 <= i < m.nrows() ==> m.at(i, j) == 0
}

/// The first row from `from` on that holds only zeros.
pub open spec fn first_empty_row(m: Matrix<usize>, from: int) -> Option<int>
    decreases m.nrows() - from,
{
    if from < 0 || from >= m.nrows() {
        None
    } else if row_is_empty(m, from) {
        Some(from)
    } else {
        first_empty_row(m, from + 1)
    }
}

/// The first column from `from` on that holds only zeros.
pub open spec fn first_empty_column(m: Matrix<usize>, from: int) -> Option<int>
    decreases m.ncols() - from,
{
    if from < 0 || from >= m.ncols() {
        None
    } else if column_is_empty(m, from) {
        Some(from)
    } else {
        first_empty_column(m, from + 1)
    }
}

/// The first vertex from `from` on that supplies itself.
pub open spec fn first_self_supply(b: Matrix<usize>, from: int) -> Option<int>
    decreases b.nrows() - from,
{
    if from < 0 || from >= b.nrows() {
        None
    } else if b.at(from, from) > 0 {
        Some(from)
    } else {
        first_self_supply(b, from + 1)
    }
}

/// The message for mismatched capacity and cost matrices.
pub open spec fn shape_message() -> Seq<char> {
    "capacities, and costs have differing dimensions or are not quadratic"@
}

/// The message for a vertex without outgoing capacity.
pub open spec fn dead_end_message(name: Seq<char>) -> Seq<char> {
    "vertex "@ + name + " is a dead end"@
}

/// The message for a vertex without incoming capacity.
pub open spec fn unreachable_message(name: Seq<char>) -> Seq<char> {
    "vertex "@ + name + " is unreachable"@
}

/// The message for a supply matrix of the wrong shape.
pub open spec fn balance_shape_message() -> Seq<char> {
    "some balances have differing dimensions or are not quadratic"@
}

/// The message for supply from a vertex to itself.
pub open spec fn self_supply_message(s: Seq<char>, t: Seq<char>) -> Seq<char> {
    "self-supply ("@ + s + "->"@ + t + ") is not allowed"@
}

/// The message for a scenario with more supply than the network capacity.
pub open spec fn excess_supply_message(i: nat) -> Seq<char> {
    "scenario "@ + decimal(i) + " has higher supply than the network has capacities"@
}

/// The message for a solution count that does not match the scenarios.
pub open spec fn count_message(found: nat, expected: nat) -> Seq<char> {
    "Found "@ + decimal(found) + " scenario solutions, but expected "@ + decimal(expected) + "."@
}

/// The message for an arc loaded beyond its capacity.
pub open spec fn overload_message(id: nat, load: nat, s: Seq<char>, t: Seq<char>, capacity: nat) -> Seq<char> {
    "Scenario "@ + decimal(id) + " puts load "@ + decimal(load) + " on arc ("@ + s + "->"@ + t
        + "), but its capacity is "@ + decimal(capacity) + "."@
}

/// An arc `(a, b)` written as `(a, b)`.
pub open spec fn pair_text(p: (usize, usize)) -> Seq<char> {
    "("@ + decimal(p.0 as nat) + ", "@ + decimal(p.1 as nat) + ")"@
}

/// The arcs written one after the other, separated by `, `.
pub open spec fn pairs_joined(pairs: Seq<(usize, usize)>) -> Seq<char>
    decreases pairs.len(),
{
    if pairs.len() == 0 {
        seq![]
    } else if pairs.len() == 1 {
        pair_text(pairs[0])
    } else {
        pairs_joined(pairs.drop_last()) + ", "@ + pair_text(pairs.last())
    }
}

/// The message for arcs that carry more than the scenario's whole supply.
pub open spec fn excess_message(id: nat, total: nat, arcs: Seq<(usize, usize)>) -> Seq<char> {
    "Scenario "@ + decimal(id) + " has "@ + decimal(total) + " supply, but the following arcs exceed this: ["@
        + pairs_joined(arcs) + "]"@
}

/// The cells of `loads`, in row-major order among the first `k`, whose load
/// exceeds `total`.
pub open spec fn excess_cells(loads: Matrix<usize>, total: int, k: int) -> Seq<(usize, usize)>
    decreases k,
{
    if k <= 0 {
        seq![]
    } else {
        let before = excess_cells(loads, total, k - 1);
        let s = (k - 1) / loads.ncols() as int;
        let t = (k - 1) % loads.ncols() as int;
        if loads.at(s, t) > total {
            before.push((s as usize, t as usize))
        } else {
            before
        }
    }
}

impl Network {
    /// The name of vertex `i`.
    pub open spec fn name(self, i: int) -> Seq<char> {
        self.vertices@[i].name@
    }

    /// The message for the first problem with scenario `i`, if any.
    pub open spec fn balance_problem(self, i: int) -> Option<Seq<char>> {
        let b = self.balances@[i];
        let n = self.vertices@.len();
        if !b.is_square(n) {
            Some(balance_shape_message())
        } else if first_self_supply(b, 0) is Some {
            let s = first_self_supply(b, 0).unwrap();
            Some(self_supply_message(self.name(s), self.name(s)))
        } else if seq_sum(self.capacities.cells()) < seq_sum(b.cells()) {
            Some(excess_supply_message(i as nat))
        } else {
            None
        }
    }

    /// The first problem with the scenarios from `from` on, if any.
    pub open spec fn first_balance_problem(self, from: int) -> Option<Seq<char>>
        decreases self.balances@.len() - from,
    {
        if from < 0 || from >= self.balances@.len() {
            None
        } else if self.balance_problem(from) is Some {
            self.balance_problem(from)
        } else {
            self.first_balance_problem(from + 1)
        }
    }

    /// The message of the first problem that makes the network invalid, or
    /// `None` for a valid network.
    pub open spec fn validation_problem(self) -> Option<Seq<char>> {
        let n = self.vertices@.len();
        if !(self.capacities.is_square(n) && self.costs.is_square(n)) {
            Some(shape_message())
        } else if first_empty_row(self.capacities, 0) is Some {
            Some(dead_end_message(self.name(first_empty_row(self.capacities, 0).unwrap())))
        } else if first_empty_column(self.capacities, 0) is Some {
            Some(unreachable_message(self.name(first_empty_column(self.capacities, 0).unwrap())))
        } else {
            self.first_balance_problem(0)
        }
    }

    /// All matrices are well formed and every total the validation forms fits
    /// in a `usize`.
    pub open spec fn summable(self) -> bool {
        &&& self.capacities.wf()
        &&& self.costs.wf()
        &&& seq_sum(self.capacities.cells()) <= usize::MAX
        &&& forall|i: int|
            0 <= i < self.balances@.len() ==> (#[trigger] self.balances@[i]).wf() && seq_sum(
                self.balances@[i].cells(),
            ) <= usize::MAX
    }

    /// Checks that the matrices are square and fit the vertices, that every
    /// vertex can be left and reached, that no vertex supplies itself and
    /// that no scenario has more supply than the network has capacity.
    pub fn validate_network(&self) -> (r: Result<(), SolverError>)
        requires
            self.summable(),
        ensures
            r is Ok <==> self.validation_problem() is None,
            r matches Err(e) ==> e matches SolverError::NetworkShapeError(msg) && msg@
                == self.validation_problem().unwrap(),
    {
        let n = self.vertices.len();
        if !(self.capacities.num_rows() == n && self.capacities.num_columns() == n
            && self.costs.num_rows() == n && self.costs.num_columns() == n) {
            return Err(
                SolverError::NetworkShapeError(
                    String::from_str("capacities, and costs have differing dimensions or are not quadratic"),
                ),
            );
        }
        let mut i: usize = 0;
        while i < n
            invariant
                self.summable(),
                n == self.vertices@.len(),
                self.capacities.is_square(n as nat),
                self.costs.is_square(n as nat),
                i <= n,
                first_empty_row(self.capacities, 0) == first_empty_row(self.capacities, i as int),
            decreases n - i,
        {
            if Self::row_empty(&self.capacities, i) {
                let mut msg = String::from_str("vertex ");
                msg.append(self.vertices[i].name.as_str());
                msg.append(" is a dead end");
                return Err(SolverError::NetworkShapeError(msg));
            }
            i = i + 1;
        }
        let mut j: usize = 0;
        while j < n
            invariant
                self.summable(),
                n == self.vertices@.len(),
                self.capacities.is_square(n as nat),
                self.costs.is_square(n as nat),
                first_empty_row(self.capacities, 0) is None,
                j <= n,
                first_empty_column(self.capacities, 0) == first_empty_column(
                    self.capacities,
                    j as int,
                ),
            decreases n - j,
        {
            if Self::column_empty(&self.capacities, j) {
                let mut msg = String::from_str("vertex ");
                msg.append(self.vertices[j].name.as_str());
                msg.append(" is unreachable");
                return Err(SolverError::NetworkShapeError(msg));
            }
            j = j + 1;
        }
        let total_capacity = self.capacities.sum();
        let mut k: usize = 0;
        while k < self.balances.len()
            invariant
                self.summable(),
                n == self.vertices@.len(),
                self.capacities.is_square(n as nat),
                self.costs.is_square(n as nat),
                first_empty_row(self.capacities, 0) is None,
                first_empty_column(self.capacities, 0) is None,
                total_capacity == seq_sum(self.capacities.cells()),
                k <= self.balances@.len(),
                self.first_balance_problem(0) == self.first_balance_problem(k as int),
            decreases self.balances@.len() - k,
        {
            let b = &self.balances[k];
            proof {
                assert(b.wf());
            }
            if !(b.num_rows() == n && b.num_columns() == n) {
                return Err(
                    SolverError::NetworkShapeError(
                        String::from_str("some balances have differing dimensions or are not quadratic"),
                    ),
                );
            }
            let mut v: usize = 0;
            while v < n
                invariant
                    b.wf(),
                    b.is_square(n as nat),
                    k < self.balances@.len(),
                    *b == self.balances@[k as int],
                    self.capacities.is_square(n as nat),
                    self.costs.is_square(n as nat),
                    first_empty_row(self.capacities, 0) is None,
                    first_empty_column(self.capacities, 0) is None,
                    self.first_balance_problem(0) == self.first_balance_problem(k as int),
                    n == self.vertices@.len(),
                    v <= n,
                    first_self_supply(*b, 0) == first_self_supply(*b, v as int),
                decreases n - v,
            {
                if *b.get(v, v) > 0 {
                    let mut msg = String::from_str("self-supply (");
                    msg.append(self.vertices[v].name.as_str());
                    msg.append("->");
                    msg.append(self.vertices[v].name.as_str());
                    msg.append(") is not allowed");
                    return Err(SolverError::NetworkShapeError(msg));
                }
                v = v + 1;
            }
            if total_capacity < b.sum() {
                let mut msg = String::from_str("scenario ");
                push_decimal(&mut msg, k);
                msg.append(" has higher supply than the network has capacities");
                return Err(SolverError::NetworkShapeError(msg));
            }
            k = k + 1;
        }
        Ok(())
    }

    fn row_empty(m: &Matrix<usize>, i: usize) -> (r: bool)
        requires
            m.wf(),
            i < m.nrows(),
        ensures
            r == row_is_empty(*m, i as int),
    {
        let mut j: usize = 0;
        while j < m.num_columns()
            invariant
                m.wf(),
                i < m.nrows(),
                j <= m.ncols(),
                forall|c: int| 0 <= c < j ==> m.at(i as int, c) == 0,
            decreases m.ncols() - j,
        {
            if *m.get(i, j) != 0 {
                return false;
            }
            j = j + 1;
        }
        true
    }

    fn column_empty(m: &Matrix<usize>, j: usize) -> (r: bool)
        requires
            m.wf(),
            j < m.ncols(),
        ensures
            r == column_is_empty(*m, j as int),
    {
        let mut i: usize = 0;
        while i < m.num_rows()
            invariant
                m.wf(),
                j < m.ncols(),
                i <= m.nrows(),
                forall|r: int| 0 <= r < i ==> m.at(r, j as int) == 0,
            decreases m.nrows() - i,
        {
            if *m.get(i, j) != 0 {
                return false;
            }
            i = i + 1;
        }
        true
    }

    /// Some scenario has supply from `s` to `t`.
    pub open spec fn demands(self, s: int, t: int) -> bool {
        exists|i: int| 0 <= i < self.balances@.len() && (#[trigger] self.balances@[i]).at(s, t) > 0
    }

    /// Every pair with supply but no arc between them gets an arc of
    /// unlimited capacity and prohibitive cost (`usize::MAX / 2`), so that
    /// every scenario has a feasible flow.
    pub fn add_penalty_arcs(&mut self) -> (r: Result<(), SolverError>)
        requires
            old(self).capacities.wf(),
            old(self).costs.wf(),
            old(self).costs.nrows() == old(self).capacities.nrows(),
            old(self).costs.ncols() == old(self).capacities.ncols(),
            forall|i: int|
                0 <= i < old(self).balances@.len() ==> (#[trigger] old(self).balances@[i]).wf()
                    && old(self).balances@[i].nrows() == old(self).capacities.nrows()
                    && old(self).balances@[i].ncols() == old(self).capacities.ncols(),
        ensures
            r is Ok,
            final(self).capacities.wf(),
            final(self).costs.wf(),
            final(self).capacities.nrows() == old(self).capacities.nrows(),
            final(self).capacities.ncols() == old(self).capacities.ncols(),
            final(self).costs.nrows() == old(self).costs.nrows(),
            final(self).costs.ncols() == old(self).costs.ncols(),
            forall|s: int, t: int|
                old(self).capacities.contains(s, t) ==> {
                    let penalised = old(self).capacities.at(s, t) == 0 && old(self).demands(s, t);
                    &&& #[trigger] final(self).capacities.at(s, t) == if penalised {
                        usize::MAX
                    } else {
                        old(self).capacities.at(s, t)
                    }
                    &&& final(self).costs.at(s, t) == if penalised {
                        usize::MAX / 2
                    } else {
                        old(self).costs.at(s, t)
                    }
                },
            final(self).vertices == old(self).vertices,
            final(self).balances == old(self).balances,
            final(self).fixed_arcs == old(self).fixed_arcs,
            final(self).options == old(self).options,
    {
        let ghost before = *self;
        let rows = self.capacities.num_rows();
        let columns = self.capacities.num_columns();
        let mut s: usize = 0;
        while s < rows
            invariant
                rows == before.capacities.nrows(),
                columns == before.capacities.ncols(),
                self.capacities.wf(),
                self.costs.wf(),
                self.capacities.nrows() == rows,
                self.capacities.ncols() == columns,
                self.costs.nrows() == rows,
                self.costs.ncols() == columns,
                self.vertices == before.vertices,
                self.balances == before.balances,
                self.fixed_arcs == before.fixed_arcs,
                self.options == before.options,
                forall|i: int|
                    0 <= i < before.balances@.len() ==> (#[trigger] before.balances@[i]).wf()
                        && before.balances@[i].nrows() == rows && before.balances@[i].ncols()
                        == columns,
                s <= rows,
                forall|a: int, b: int|
                    before.capacities.contains(a, b) ==> {
                        let penalised = a < s && before.capacities.at(a, b) == 0 && before.demands(a, b);
                        &&& #[trigger] self.capacities.at(a, b) == if penalised {
                            usize::MAX
                        } else {
                            before.capacities.at(a, b)
                        }
                        &&& self.costs.at(a, b) == if penalised {
                            usize::MAX / 2
                        } else {
                            before.costs.at(a, b)
                        }
                    },
            decreases rows - s,
        {
            let mut t: usize = 0;
            while t < columns
                invariant
                    rows == before.capacities.nrows(),
                    columns == before.capacities.ncols(),
                    self.capacities.wf(),
                    self.costs.wf(),
                    self.capacities.nrows() == rows,
                    self.capacities.ncols() == columns,
                    self.costs.nrows() == rows,
                    self.costs.ncols() == columns,
                    self.vertices == before.vertices,
                    self.balances == before.balances,
                    self.fixed_arcs == before.fixed_arcs,
                    self.options == before.options,
                    forall|i: int|
                        0 <= i < before.balances@.len() ==> (#[trigger] before.balances@[i]).wf()
                            && before.balances@[i].nrows() == rows && before.balances@[i].ncols()
                            == columns,
                    s < rows,
                    t <= columns,
                    forall|a: int, b: int|
                        before.capacities.contains(a, b) ==> {
                            let penalised = (a < s || (a == s && b < t)) && before.capacities.at(a, b)
                                == 0 && before.demands(a, b);
                            &&& #[trigger] self.capacities.at(a, b) == if penalised {
                                usize::MAX
                            } else {
                                before.capacities.at(a, b)
                            }
                            &&& self.costs.at(a, b) == if penalised {
                                usize::MAX / 2
                            } else {
                                before.costs.at(a, b)
                            }
                        },
                decreases columns - t,
            {
                let ghost caps0 = self.capacities;
                let ghost costs0 = self.costs;
                if *self.capacities.get(s, t) == 0 && self.any_demand(s, t) {
                    self.capacities.set(s, t, usize::MAX);
                    self.costs.set(s, t, usize::MAX / 2);
                }
                proof {
                    assert forall|a: int, b: int| before.capacities.contains(a, b) implies {
                        let penalised = (a < s || (a == s && b < t + 1)) && before.capacities.at(a, b)
                            == 0 && before.demands(a, b);
                        &&& #[trigger] self.capacities.at(a, b) == if penalised {
                            usize::MAX
                        } else {
                            before.capacities.at(a, b)
                        }
                        &&& self.costs.at(a, b) == if penalised {
                            usize::MAX / 2
                        } else {
                            before.costs.at(a, b)
                        }
                    } by {
                        let penalised_before = (a < s || (a == s && b < t)) && before.capacities.at(a, b)
                            == 0 && before.demands(a, b);
                        assert(caps0.at(a, b) == if penalised_before {
                            usize::MAX
                        } else {
                            before.capacities.at(a, b)
                        });
                        assert(costs0.at(a, b) == if penalised_before {
                            usize::MAX / 2
                        } else {
                            before.costs.at(a, b)
                        });
                        if a == s && b == t {
                            assert(caps0.at(a, b) == before.capacities.at(a, b));
                        }
                    }
                }
                t = t + 1;
            }
            s = s + 1;
        }
        Ok(())
    }

    /// Whether some scenario has supply from `s` to `t`.
    fn any_demand(&self, s: usize, t: usize) -> (b: bool)
        requires
            forall|i: int|
                0 <= i < self.balances@.len() ==> (#[trigger] self.balances@[i]).wf()
                    && self.balances@[i].contains(s as int, t as int),
        ensures
            b == self.demands(s as int, t as int),
    {
        let mut i: usize = 0;
        while i < self.balances.len()
            invariant
                forall|j: int|
                    0 <= j < self.balances@.len() ==> (#[trigger] self.balances@[j]).wf()
                        && self.balances@[j].contains(s as int, t as int),
                i <= self.balances@.len(),
                forall|j: int| 0 <= j < i ==> (#[trigger] self.balances@[j]).at(s as int, t as int) == 0,
            decreases self.balances@.len() - i,
        {
            if *self.balances[i].get(s, t) > 0 {
                return true;
            }
            i = i + 1;
        }
        false
    }

    /// Builds the auxiliary network of the greedy pass unless there already
    /// is one; `log_terms` holds the logarithmic parts of the detour bounds.
    pub fn preprocess(&mut self, log_terms: &Matrix<usize>) -> (r: Result<(), SolverError>)
        requires
            old(self).auxiliary_network is Some || preprocessable(*old(self), *log_terms),
        ensures
            old(self).auxiliary_network is Some ==> r is Ok && *final(self) == *old(self),
            old(self).auxiliary_network is None ==> match r {
                Ok(_) => final(self).auxiliary_network is Some && built_from(
                    final(self).auxiliary_network.unwrap(),
                    *old(self),
                    *log_terms,
                ) && *final(self) == (Network { auxiliary_network: final(self).auxiliary_network, ..*old(self) }),
                Err(e) => e == SolverError::PathMatrixCorruptError && *final(self) == *old(self),
            },
            old(self).auxiliary_network is None ==> (r is Err <==> preprocessing_fails(
                *old(self),
                *log_terms,
            )),
    {
        if self.auxiliary_network.is_some() {
            return Ok(());
        }
        let auxiliary_network = AuxiliaryNetwork::from_network(&*self, log_terms)?;
        self.auxiliary_network = Some(auxiliary_network);
        Ok(())
    }

    /// Finds a robust flow greedily: runs the greedy pass on the auxiliary
    /// network and, when it delivers all supply, keeps the solution of every
    /// scenario. Fails when the network has not been preprocessed, with the
    /// error of the pass, or when the loads of the solutions do not fit.
    pub fn solve(&mut self) -> (r: Result<(), SolverError>)
        requires
            old(self).auxiliary_network matches Some(aux) ==> aux.wf(aux.n()) && forall|j: int|
                0 <= j < aux.scenarios@.len() ==> tokens_on_the_way(#[trigger] aux.scenarios@[j]),
            !is_exponential(old(self).options.relative_draw_fn),
        ensures
            old(self).auxiliary_network is None ==> r == Err::<(), SolverError>(SolverError::SkippedPreprocessingError)
                && *final(self) == *old(self),
            old(self).auxiliary_network matches Some(before) ==> exists|after: AuxiliaryNetwork, g: Result<(), SolverError>|
                #[trigger] greedy_outcome(before, after, old(self).options.relative_draw_fn, g) && {
                    &&& final(self).auxiliary_network == Some(after)
                    &&& final(self).vertices == old(self).vertices
                    &&& final(self).capacities == old(self).capacities
                    &&& final(self).costs == old(self).costs
                    &&& final(self).balances == old(self).balances
                    &&& final(self).fixed_arcs == old(self).fixed_arcs
                    &&& final(self).baseline == old(self).baseline
                    &&& final(self).options == old(self).options
                    &&& g is Err ==> r == g && final(self).solutions == old(self).solutions
                    &&& (g is Ok && !solution_totals_fit(after)) ==> r is Err && final(self).solutions
                        == old(self).solutions
                    &&& (g is Ok && solution_totals_fit(after)) ==> r is Ok
                    &&& (g is Ok && solution_totals_fit(after)) ==> (final(self).solutions matches Some(
                        sols,
                    ) && sols@.len() == after.scenarios@.len() && forall|j: int|
                        0 <= j < sols@.len() ==> {
                            &&& (#[trigger] sols@[j]).id == after.scenarios@[j].id
                            &&& sols@[j].slack == slack_of(after, j)
                            &&& same_matrix(sols@[j].supply_remaining, after.scenarios@[j].supply_remaining)
                            &&& same_matrix(sols@[j].arc_loads, after.scenarios@[j].network_state.arc_loads)
                        })
                },
    {
        if self.auxiliary_network.is_none() {
            return Err(SolverError::SkippedPreprocessingError);
        }
        let draw_fn = self.options.relative_draw_fn;
        let mut slot: Option<AuxiliaryNetwork> = None;
        std::mem::swap(&mut slot, &mut self.auxiliary_network);
        let mut aux = slot.unwrap();
        let ghost before = aux;
        let g = greedy(&mut aux, &draw_fn);
        let ghost after = aux;
        let result = match g {
            Err(e) => Err(e),
            Ok(u) => {
                match solutions_of(&aux) {
                    Ok(sols) => {
                        self.solutions = Some(sols);
                        Ok(())
                    },
                    Err(e) => Err(e),
                }
            },
        };
        self.auxiliary_network = Some(aux);
        proof {
            assert(greedy_outcome(before, after, draw_fn, g));
        }
        result
    }

    /// The solution loads the arc `(s, t)`, which is neither a loop nor a
    /// fixed arc, beyond its capacity.
    pub open spec fn overloads(self, solution: ScenarioSolution, s: int, t: int) -> bool {
        &&& s != t
        &&& !lists_arc(self.fixed_arcs@, s, t)
        &&& self.capacities.at(s, t) < solution.arc_loads.at(s, t)
    }

    /// The first cell, from the `k`-th on in row-major order, that
    /// `solution` overloads.
    pub open spec fn first_overload(self, solution: ScenarioSolution, k: int) -> Option<int>
        decreases self.capacities.nrows() * self.capacities.ncols() - k,
    {
        let columns = self.capacities.ncols() as int;
        if k < 0 || k >= self.capacities.nrows() * self.capacities.ncols() {
            None
        } else if self.overloads(solution, k / columns, k % columns) {
            Some(k)
        } else {
            self.first_overload(solution, k + 1)
        }
    }

    /// The first solution, from the `j`-th on, that overloads an arc, with
    /// the cell it overloads first.
    pub open spec fn first_overloading(self, solutions: Seq<ScenarioSolution>, j: int) -> Option<(int, int)>
        decreases solutions.len() - j,
    {
        if j < 0 || j >= solutions.len() {
            None
        } else if self.first_overload(solutions[j], 0) is Some {
            Some((j, self.first_overload(solutions[j], 0).unwrap()))
        } else {
            self.first_overloading(solutions, j + 1)
        }
    }

    /// The total supply of the scenario a solution belongs to.
    pub open spec fn total_supply(self, solution: ScenarioSolution) -> int {
        seq_sum(self.balances@[solution.id as int].cells())
    }

    /// The arcs on which `solution` puts more than its scenario's supply.
    pub open spec fn excesses(self, solution: ScenarioSolution) -> Seq<(usize, usize)> {
        excess_cells(
            solution.arc_loads,
            self.total_supply(solution),
            (solution.arc_loads.nrows() * solution.arc_loads.ncols()) as int,
        )
    }

    /// The first solution, from the `j`-th on, with such arcs.
    pub open spec fn first_excessive(self, solutions: Seq<ScenarioSolution>, j: int) -> Option<int>
        decreases solutions.len() - j,
    {
        if j < 0 || j >= solutions.len() {
            None
        } else if self.excesses(solutions[j]).len() > 0 {
            Some(j)
        } else {
            self.first_excessive(solutions, j + 1)
        }
    }

    /// The message of the first problem `validate_solution` finds with the
    /// solutions, or `None` when they are valid.
    pub open spec fn solution_problem(self) -> Option<Seq<char>> {
        let sols = self.solutions.unwrap()@;
        let columns = self.capacities.ncols() as int;
        if sols.len() != self.balances@.len() {
            Some(count_message(sols.len(), self.balances@.len()))
        } else if self.first_overloading(sols, 0) is Some {
            let (j, k) = self.first_overloading(sols, 0).unwrap();
            let s = k / columns;
            let t = k % columns;
            Some(
                overload_message(
                    sols[j].id as nat,
                    sols[j].arc_loads.at(s, t) as nat,
                    self.name(s),
                    self.name(t),
                    self.capacities.at(s, t) as nat,
                ),
            )
        } else if self.first_excessive(sols, 0) is Some {
            let j = self.first_excessive(sols, 0).unwrap();
            Some(
                excess_message(
                    sols[j].id as nat,
                    self.total_supply(sols[j]) as nat,
                    self.excesses(sols[j]),
                ),
            )
        } else {
            None
        }
    }

    /// What `validate_solution` needs: load matrices of the shape of the
    /// capacities, solutions that name existing scenarios, supply totals
    /// that fit in a `usize`, and a name for both ends of the arc that an
    /// overload is reported on.
    pub open spec fn checkable(self) -> bool {
        let columns = self.capacities.ncols() as int;
        &&& self.capacities.wf()
        &&& forall|i: int|
            0 <= i < self.balances@.len() ==> #[trigger] seq_sum(self.balances@[i].cells())
                <= usize::MAX
        &&& self.solutions matches Some(sols) ==> {
            &&& forall|j: int|
                #![trigger sols@[j]]
                0 <= j < sols@.len() ==> {
                    &&& sols@[j].arc_loads.wf()
                    &&& sols@[j].arc_loads.nrows() == self.capacities.nrows()
                    &&& sols@[j].arc_loads.ncols() == self.capacities.ncols()
                    &&& sols@[j].id < self.balances@.len()
                }
            &&& sols@.len() == self.balances@.len() ==> match self.first_overloading(sols@, 0) {
                Some((j, k)) => k / columns < self.vertices@.len() && k % columns < self.vertices@.len(),
                None => true,
            }
        }
    }

    /// Tells whether `validate_solution` can check the solutions
    /// (`checkable`).
    pub fn solutions_checkable(&self) -> (b: bool)
        requires
            self.capacities.wf(),
            self.solutions matches Some(sols) ==> forall|j: int|
                0 <= j < sols@.len() ==> (#[trigger] sols@[j]).arc_loads.wf(),
        ensures
            b == self.checkable(),
    {
        let mut i: usize = 0;
        while i < self.balances.len()
            invariant
                i <= self.balances@.len(),
                forall|b: int| 0 <= b < i ==> #[trigger] seq_sum(self.balances@[b].cells()) <= usize::MAX,
            decreases self.balances@.len() - i,
        {
            if crate::matrix::checked_sum(self.balances[i].elements()).is_none() {
                return false;
            }
            i = i + 1;
        }
        let solutions = match &self.solutions {
            Some(solutions) => solutions,
            None => {
                return true;
            },
        };
        let ghost sols = solutions@;
        let mut j: usize = 0;
        while j < solutions.len()
            invariant
                self.capacities.wf(),
                self.solutions == Some(*solutions),
                sols == solutions@,
                forall|a: int| 0 <= a < sols.len() ==> (#[trigger] sols[a]).arc_loads.wf(),
                j <= sols.len(),
                forall|a: int|
                    #![trigger sols[a]]
                    0 <= a < j ==> {
                        &&& sols[a].arc_loads.nrows() == self.capacities.nrows()
                        &&& sols[a].arc_loads.ncols() == self.capacities.ncols()
                        &&& sols[a].id < self.balances@.len()
                    },
            decreases sols.len() - j,
        {
            let solution = &solutions[j];
            proof {
                assert(sols[j as int] == *solution);
            }
            if solution.arc_loads.num_rows() != self.capacities.num_rows()
                || solution.arc_loads.num_columns() != self.capacities.num_columns()
                || solution.id >= self.balances.len() {
                return false;
            }
            j = j + 1;
        }
        if solutions.len() != self.balances.len() {
            return true;
        }
        let mut j: usize = 0;
        while j < solutions.len()
            invariant
                self.capacities.wf(),
                self.solutions == Some(*solutions),
                sols == solutions@,
                forall|a: int|
                    #![trigger sols[a]]
                    0 <= a < sols.len() ==> {
                        &&& sols[a].arc_loads.wf()
                        &&& sols[a].arc_loads.nrows() == self.capacities.nrows()
                        &&& sols[a].arc_loads.ncols() == self.capacities.ncols()
                        &&& sols[a].id < self.balances@.len()
                    },
                forall|b: int|
                    0 <= b < self.balances@.len() ==> #[trigger] seq_sum(self.balances@[b].cells())
                        <= usize::MAX,
                sols.len() == self.balances@.len(),
                j <= sols.len(),
                self.first_overloading(sols, 0) == self.first_overloading(sols, j as int),
            decreases sols.len() - j,
        {
            let solution = &solutions[j];
            proof {
                assert(sols[j as int] == *solution);
            }
            match self.find_overload(solution) {
                Some(k) => {
                    let columns = self.capacities.num_columns();
                    return k / columns < self.vertices.len() && k % columns < self.vertices.len();
                },
                None => {},
            }
            j = j + 1;
        }
        true
    }

    /// The first cell, in row-major order, that `solution` overloads.
    fn find_overload(&self, solution: &ScenarioSolution) -> (r: Option<usize>)
        requires
            self.capacities.wf(),
            solution.arc_loads.wf(),
            solution.arc_loads.nrows() == self.capacities.nrows(),
            solution.arc_loads.ncols() == self.capacities.ncols(),
        ensures
            r matches Some(k) ==> self.first_overload(*solution, 0) == Some(k as int) && k
                < self.capacities.nrows() * self.capacities.ncols(),
            r is None ==> self.first_overload(*solution, 0) is None,
    {
        let rows = self.capacities.num_rows();
        let columns = self.capacities.num_columns();
        let total = rows * columns;
        let mut k: usize = 0;
        while k < total
            invariant
                self.capacities.wf(),
                solution.arc_loads.wf(),
                solution.arc_loads.nrows() == rows,
                solution.arc_loads.ncols() == columns,
                rows == self.capacities.nrows(),
                columns == self.capacities.ncols(),
                total == rows * columns,
                k <= total,
                self.first_overload(*solution, 0) == self.first_overload(*solution, k as int),
            decreases total - k,
        {
            proof {
                crate::preprocessing::lemma_cell_of(k as int, rows as int, columns as int);
            }
            let s = k / columns;
            let t = k % columns;
            if s != t && !arc_listed(&self.fixed_arcs, s, t) && *self.capacities.get(s, t)
                < *solution.arc_loads.get(s, t) {
                return Some(k);
            }
            k = k + 1;
        }
        None
    }

    /// Checks a solution: there is one per scenario, no arc other than a
    /// loop or a fixed arc carries more than its capacity, and no arc carries
    /// more than its scenario's whole supply.
    pub fn validate_solution(&self) -> (r: Result<(), SolverError>)
        requires
            self.solutions is Some ==> self.checkable(),
        ensures
            self.solutions is None ==> r == Err::<(), SolverError>(SolverError::SkippedSolveError),
            self.solutions is Some ==> (r is Ok <==> self.solution_problem() is None),
            self.solutions is Some ==> (r matches Err(e) ==> e matches SolverError::NetworkShapeError(
                msg,
            ) && msg@ == self.solution_problem().unwrap()),
    {
        let solutions = match &self.solutions {
            Some(solutions) => solutions,
            None => {
                return Err(SolverError::SkippedSolveError);
            },
        };
        if solutions.len() != self.balances.len() {
            let mut msg = String::from_str("Found ");
            push_decimal(&mut msg, solutions.len());
            msg.append(" scenario solutions, but expected ");
            push_decimal(&mut msg, self.balances.len());
            msg.append(".");
            return Err(SolverError::NetworkShapeError(msg));
        }
        let ghost sols = solutions@;
        let mut j: usize = 0;
        while j < solutions.len()
            invariant
                self.checkable(),
                self.solutions == Some(*solutions),
                sols == solutions@,
                sols.len() == self.balances@.len(),
                j <= sols.len(),
                self.first_overloading(sols, 0) == self.first_overloading(sols, j as int),
            decreases sols.len() - j,
        {
            let solution = &solutions[j];
            proof {
                assert(sols[j as int] == *solution);
            }
            match self.find_overload(solution) {
                Some(k) => {
                    let columns = self.capacities.num_columns();
                    proof {
                        crate::preprocessing::lemma_cell_of(
                            k as int,
                            self.capacities.nrows() as int,
                            columns as int,
                        );
                    }
                    let s = k / columns;
                    let t = k % columns;
                    let mut msg = String::from_str("Scenario ");
                    push_decimal(&mut msg, solution.id);
                    msg.append(" puts load ");
                    push_decimal(&mut msg, *solution.arc_loads.get(s, t));
                    msg.append(" on arc (");
                    msg.append(self.vertices[s].name.as_str());
                    msg.append("->");
                    msg.append(self.vertices[t].name.as_str());
                    msg.append("), but its capacity is ");
                    push_decimal(&mut msg, *self.capacities.get(s, t));
                    msg.append(".");
                    return Err(SolverError::NetworkShapeError(msg));
                },
                None => {},
            }
            j = j + 1;
        }
        let mut j: usize = 0;
        while j < solutions.len()
            invariant
                self.checkable(),
                self.solutions == Some(*solutions),
                sols == solutions@,
                sols.len() == self.balances@.len(),
                self.first_overloading(sols, 0) is None,
                j <= sols.len(),
                self.first_excessive(sols, 0) == self.first_excessive(sols, j as int),
            decreases sols.len() - j,
        {
            let solution = &solutions[j];
            proof {
                assert(sols[j as int] == *solution);
            }
            let total = self.balances[solution.id].sum();
            let excess = excess_list(&solution.arc_loads, total);
            if excess.len() > 0 {
                let mut msg = String::from_str("Scenario ");
                push_decimal(&mut msg, solution.id);
                msg.append(" has ");
                push_decimal(&mut msg, total);
                msg.append(" supply, but the following arcs exceed this: [");
                push_pairs(&mut msg, &excess);
                msg.append("]");
                return Err(SolverError::NetworkShapeError(msg));
            }
            j = j + 1;
        }
        Ok(())
    }
}

/// Whether `(s, t)` is one of `arcs`.
fn arc_listed(arcs: &Vec<(usize, usize)>, s: usize, t: usize) -> (b: bool)
    ensures
        b == lists_arc(arcs@, s as int, t as int),
{
    let mut k: usize = 0;
    while k < arcs.len()
        invariant
            k <= arcs@.len(),
            forall|j: int| 0 <= j < k ==> #[trigger] arcs@[j] != (s, t),
        decreases arcs@.len() - k,
    {
        if arcs[k].0 == s && arcs[k].1 == t {
            proof {
                assert(arcs@[k as int] == (s as usize, t as usize));
            }
            return true;
        }
        k = k + 1;
    }
    false
}

/// The cells of `loads`, in row-major order, whose load exceeds `total`.
fn excess_list(loads: &Matrix<usize>, total: usize) -> (cells: Vec<(usize, usize)>)
    requires
        loads.wf(),
    ensures
        cells@ == excess_cells(*loads, total as int, (loads.nrows() * loads.ncols()) as int),
{
    let rows = loads.num_rows();
    let columns = loads.num_columns();
    let count = rows * columns;
    let mut cells: Vec<(usize, usize)> = Vec::new();
    let mut k: usize = 0;
    while k < count
        invariant
            loads.wf(),
            rows == loads.nrows(),
            columns == loads.ncols(),
            count == rows * columns,
            k <= count,
            cells@ == excess_cells(*loads, total as int, k as int),
        decreases count - k,
    {
        proof {
            crate::preprocessing::lemma_cell_of(k as int, rows as int, columns as int);
        }
        let s = k / columns;
        let t = k % columns;
        if *loads.get(s, t) > total {
            cells.push((s, t));
        }
        k = k + 1;
    }
    cells
}

/// Appends the arc `p` as `(a, b)`.
fn push_pair(text: &mut String, p: (usize, usize))
    ensures
        final(text)@ == old(text)@ + pair_text(p),
{
    text.append("(");
    push_decimal(text, p.0);
    text.append(", ");
    push_decimal(text, p.1);
    text.append(")");
}

/// Appends the arcs, separated by `, `.
fn push_pairs(text: &mut String, pairs: &Vec<(usize, usize)>)
    ensures
        final(text)@ == old(text)@ + pairs_joined(pairs@),
{
    let ghost start = text@;
    let mut k: usize = 0;
    while k < pairs.len()
        invariant
            k <= pairs@.len(),
            text@ == start + pairs_joined(pairs@.take(k as int)),
        decreases pairs@.len() - k,
    {
        if k > 0 {
            text.append(", ");
        }
        push_pair(text, pairs[k]);
        k = k + 1;
        proof {
            assert(pairs@.take(k as int).drop_last() =~= pairs@.take(k - 1));
        }
    }
    proof {
        assert(pairs@.take(k as int) =~= pairs@);
    }
}

} // verus!
