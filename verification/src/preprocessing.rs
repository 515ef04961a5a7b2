//! Preprocessing of a network: the intermediate arc set of every pair of
//! vertices and the supply tokens of a scenario.
use vstd::prelude::*;

use crate::algorithms::{
    fw_dist, fw_no_overflow, fw_result, lemma_fw_diagonal, lemma_fw_range, lemma_pred_path_step,
    positive_arc_costs, pred_path, same_network,
};
use crate::matrix::{flat, lemma_flat_in_bounds, Matrix};
use crate::auxiliary::{in_flight, SupplyToken};
use crate::options::{delta_spec, DeltaFunction, RemainderSolveMethod};

verus! {

/// `dist(s, x) + cost(x, y) + dist(y, t)`, saturating at `usize::MAX`: the
/// length of the shortest path from `s` to `t` that uses the arc `(x, y)`.
pub open spec fn detour_length(dist: Matrix<usize>, costs: Matrix<usize>, s: int, t: int, x: int, y: int) -> int {
    let total = dist.at(s, x) + costs.at(x, y) + dist.at(y, t);
    if total > usize::MAX {
        usize::MAX as int
    } else {
        total
    }
}

/// There is a path from `s` to another vertex `t`.
pub open spec fn connects(dist: Matrix<usize>, s: int, t: int) -> bool {
    s != t && dist.at(s, t) != usize::MAX
}

/// The longest path allowed from `s` to `t`.
pub open spec fn detour_bound(
    delta_fn: DeltaFunction,
    dist: Matrix<usize>,
    log_terms: Matrix<usize>,
    s: int,
    t: int,
) -> int {
    delta_spec(delta_fn, dist.at(s, t), log_terms.at(s, t))
}

/// The arc `(x, y)` belongs to the intermediate arc set of `(s, t)`: it
/// exists, neither enters `s` nor leaves `t`, and a path from `s` to `t`
/// through it stays within the detour bound.
pub open spec fn in_arc_set(
    dist: Matrix<usize>,
    costs: Matrix<usize>,
    capacities: Matrix<usize>,
    delta_fn: DeltaFunction,
    log_terms: Matrix<usize>,
    s: int,
    t: int,
    x: int,
    y: int,
) -> bool {
    &&& connects(dist, s, t)
    &&& x != y
    &&& y != s
    &&& x != t
    &&& capacities.at(x, y) != 0
    &&& detour_length(dist, costs, s, t, x, y) <= detour_bound(delta_fn, dist, log_terms, s, t)
}

/// `arc_sets` holds, for every pair `(s, t)`, the intermediate arc set of
/// the pair as a matrix of the network's size.
pub open spec fn are_arc_sets(
    arc_sets: Matrix<Matrix<bool>>,
    dist: Matrix<usize>,
    costs: Matrix<usize>,
    capacities: Matrix<usize>,
    delta_fn: DeltaFunction,
    log_terms: Matrix<usize>,
) -> bool {
    &&& arc_sets.wf()
    &&& arc_sets.is_square(dist.nrows())
    &&& forall|s: int, t: int|
        #![trigger arc_sets.at(s, t)]
        arc_sets.contains(s, t) ==> {
            &&& arc_sets.at(s, t).wf()
            &&& arc_sets.at(s, t).is_square(dist.nrows())
            &&& forall|x: int, y: int|
                arc_sets.at(s, t).contains(x, y) ==> #[trigger] arc_sets.at(s, t).at(x, y)
                    == in_arc_set(dist, costs, capacities, delta_fn, log_terms, s, t, x, y)
        }
}

/// The inputs of the arc set computation: square matrices of one size, and
/// detour bounds that fit in a `usize`.
pub open spec fn arc_set_inputs(
    dist: Matrix<usize>,
    costs: Matrix<usize>,
    capacities: Matrix<usize>,
    delta_fn: DeltaFunction,
    log_terms: Matrix<usize>,
) -> bool {
    let n = dist.nrows();
    &&& dist.wf()
    &&& costs.wf()
    &&& capacities.wf()
    &&& log_terms.wf()
    &&& dist.is_square(n)
    &&& costs.is_square(n)
    &&& capacities.is_square(n)
    &&& log_terms.is_square(n)
    &&& n * n <= usize::MAX
    &&& forall|s: int, t: int|
        dist.contains(s, t) && connects(dist, s, t) && delta_fn.is_logarithmic() ==> #[trigger] dist.at(s, t)
            + log_terms.at(s, t) <= usize::MAX
}

/// The detour bound for the pair `(s, t)`.
fn delta(delta_fn: &DeltaFunction, dist: &Matrix<usize>, s: usize, t: usize, log_term: usize) -> (d: usize)
    requires
        dist.wf(),
        dist.contains(s as int, t as int),
        delta_fn.is_logarithmic() ==> dist.at(s as int, t as int) + log_term <= usize::MAX,
    ensures
        d == delta_spec(*delta_fn, dist.at(s as int, t as int), log_term),
{
    delta_fn.apply(*dist.get(s, t), log_term)
}

/// The intermediate arc set of the pair `(s, t)`.
fn arc_set_of(
    dist: &Matrix<usize>,
    costs: &Matrix<usize>,
    capacities: &Matrix<usize>,
    delta_fn: &DeltaFunction,
    log_terms: &Matrix<usize>,
    s: usize,
    t: usize,
) -> (arc_set: Matrix<bool>)
    requires
        arc_set_inputs(*dist, *costs, *capacities, *delta_fn, *log_terms),
        dist.contains(s as int, t as int),
    ensures
        arc_set.wf(),
        arc_set.is_square(dist.nrows()),
        forall|x: int, y: int|
            arc_set.contains(x, y) ==> #[trigger] arc_set.at(x, y) == in_arc_set(
                *dist,
                *costs,
                *capacities,
                *delta_fn,
                *log_terms,
                s as int,
                t as int,
                x,
                y,
            ),
{
    let n = dist.num_rows();
    let mut arc_set = Matrix::filled_with(false, n, n);
    proof {
        assert forall|a: int, b: int| 0 <= a < n && 0 <= b < n implies #[trigger] arc_set.at(a, b)
            == false by {
            lemma_flat_in_bounds(a, b, n as int, n as int);
        }
    }
    if s == t || *dist.get(s, t) == usize::MAX {
        return arc_set;
    }
    proof {
        assert(dist.contains(s as int, t as int) && connects(*dist, s as int, t as int));
    }
    let max_path_length = delta(delta_fn, dist, s, t, *log_terms.get(s, t));
    let mut x: usize = 0;
    while x < n
        invariant
            arc_set_inputs(*dist, *costs, *capacities, *delta_fn, *log_terms),
            n == dist.nrows(),
            s < n,
            t < n,
            connects(*dist, s as int, t as int),
            max_path_length == detour_bound(*delta_fn, *dist, *log_terms, s as int, t as int),
            arc_set.wf(),
            arc_set.is_square(n as nat),
            x <= n,
            forall|a: int, b: int|
                0 <= a < n && 0 <= b < n ==> #[trigger] arc_set.at(a, b) == (a < x && in_arc_set(
                    *dist,
                    *costs,
                    *capacities,
                    *delta_fn,
                    *log_terms,
                    s as int,
                    t as int,
                    a,
                    b,
                )),
        decreases n - x,
    {
        let mut y: usize = 0;
        while y < n
            invariant
                arc_set_inputs(*dist, *costs, *capacities, *delta_fn, *log_terms),
                n == dist.nrows(),
                s < n,
                t < n,
                x < n,
                connects(*dist, s as int, t as int),
                max_path_length == detour_bound(*delta_fn, *dist, *log_terms, s as int, t as int),
                arc_set.wf(),
                arc_set.is_square(n as nat),
                y <= n,
                forall|a: int, b: int|
                    0 <= a < n && 0 <= b < n ==> #[trigger] arc_set.at(a, b) == ((a < x || (a == x
                        && b < y)) && in_arc_set(
                        *dist,
                        *costs,
                        *capacities,
                        *delta_fn,
                        *log_terms,
                        s as int,
                        t as int,
                        a,
                        b,
                    )),
            decreases n - y,
        {
            if !(x == y || y == s || x == t || *capacities.get(x, y) == 0) {
                let detour = dist.get(s, x).saturating_add(*costs.get(x, y)).saturating_add(
                    *dist.get(y, t),
                );
                if detour <= max_path_length {
                    arc_set.set(x, y, true);
                }
            }
            y = y + 1;
        }
        x = x + 1;
    }
    arc_set
}

/// The intermediate arc set of every pair of vertices: for `(s, t)`, the arcs
/// that a path from `s` to `t` may use without exceeding the detour bound of
/// `delta_fn`. `log_terms` holds, for the logarithmic variants of
/// `delta_fn`, the logarithmic part of the bound of each pair.
pub fn generate_intermediate_arc_sets(
    dist: &Matrix<usize>,
    costs: &Matrix<usize>,
    capacities: &Matrix<usize>,
    delta_fn: &DeltaFunction,
    log_terms: &Matrix<usize>,
) -> (arc_sets: Matrix<Matrix<bool>>)
    requires
        arc_set_inputs(*dist, *costs, *capacities, *delta_fn, *log_terms),
    ensures
        are_arc_sets(arc_sets, *dist, *costs, *capacities, *delta_fn, *log_terms),
        arc_sets.wf(),
        arc_sets.is_square(dist.nrows()),
        forall|s: int, t: int|
            #![trigger arc_sets.at(s, t)]
            arc_sets.contains(s, t) ==> {
                &&& arc_sets.at(s, t).wf()
                &&& arc_sets.at(s, t).is_square(dist.nrows())
                &&& forall|x: int, y: int|
                    arc_sets.at(s, t).contains(x, y) ==> #[trigger] arc_sets.at(s, t).at(x, y)
                        == in_arc_set(
                        *dist,
                        *costs,
                        *capacities,
                        *delta_fn,
                        *log_terms,
                        s,
                        t,
                        x,
                        y,
                    )
            },
{
    let n = dist.num_rows();
    let mut arc_sets: Matrix<Matrix<bool>> = Matrix::filled_with(Matrix::empty(), n, n);
    let mut s: usize = 0;
    while s < n
        invariant
            arc_set_inputs(*dist, *costs, *capacities, *delta_fn, *log_terms),
            n == dist.nrows(),
            arc_sets.wf(),
            arc_sets.is_square(n as nat),
            s <= n,
            forall|a: int, b: int|
                #![trigger arc_sets.at(a, b)]
                0 <= a < s && 0 <= b < n ==> {
                    &&& arc_sets.at(a, b).wf()
                    &&& arc_sets.at(a, b).is_square(n as nat)
                    &&& forall|x: int, y: int|
                        arc_sets.at(a, b).contains(x, y) ==> #[trigger] arc_sets.at(a, b).at(x, y)
                            == in_arc_set(
                            *dist,
                            *costs,
                            *capacities,
                            *delta_fn,
                            *log_terms,
                            a,
                            b,
                            x,
                            y,
                        )
                },
        decreases n - s,
    {
        let mut t: usize = 0;
        while t < n
            invariant
                arc_set_inputs(*dist, *costs, *capacities, *delta_fn, *log_terms),
                n == dist.nrows(),
                arc_sets.wf(),
                arc_sets.is_square(n as nat),
                s < n,
                t <= n,
                forall|a: int, b: int|
                    #![trigger arc_sets.at(a, b)]
                    0 <= a < n && 0 <= b < n && (a < s || (a == s && b < t)) ==> {
                        &&& arc_sets.at(a, b).wf()
                        &&& arc_sets.at(a, b).is_square(n as nat)
                        &&& forall|x: int, y: int|
                            arc_sets.at(a, b).contains(x, y) ==> #[trigger] arc_sets.at(a, b).at(
                                x,
                                y,
                            ) == in_arc_set(
                                *dist,
                                *costs,
                                *capacities,
                                *delta_fn,
                                *log_terms,
                                a,
                                b,
                                x,
                                y,
                            )
                    },
            decreases n - t,
        {
            let arc_set = arc_set_of(dist, costs, capacities, delta_fn, log_terms, s, t);
            arc_sets.set(s, t, arc_set);
            t = t + 1;
        }
        s = s + 1;
    }
    arc_sets
}

/// Supply from `s` to `t` becomes tokens: the pair is distinct, has supply,
/// and, unless all supply is routed greedily, some fixed arc lies in its
/// intermediate arc set.
pub open spec fn routable(
    supply: Matrix<usize>,
    fixed_arcs: Seq<(usize, usize)>,
    method: RemainderSolveMethod,
    arc_sets: Matrix<Matrix<bool>>,
    s: int,
    t: int,
) -> bool {
    &&& s != t
    &&& supply.at(s, t) > 0
    &&& (method == RemainderSolveMethod::Greedy || exists|k: int|
        0 <= k < fixed_arcs.len() && #[trigger] arc_sets.at(s, t).at(
            fixed_arcs[k].0 as int,
            fixed_arcs[k].1 as int,
        ))
}

/// The `(s, t)` pair of every token made from the first `k` cells of
/// `supply` in row-major order: `supply(s, t)` copies of each routable pair.
pub open spec fn token_pairs(
    supply: Matrix<usize>,
    fixed_arcs: Seq<(usize, usize)>,
    method: RemainderSolveMethod,
    arc_sets: Matrix<Matrix<bool>>,
    k: int,
) -> Seq<(usize, usize)>
    decreases k,
{
    if k <= 0 {
        seq![]
    } else {
        let s = (k - 1) / supply.ncols() as int;
        let t = (k - 1) % supply.ncols() as int;
        let before = token_pairs(supply, fixed_arcs, method, arc_sets, k - 1);
        if routable(supply, fixed_arcs, method, arc_sets, s, t) {
            before + Seq::new(supply.at(s, t) as nat, |i: int| (s as usize, t as usize))
        } else {
            before
        }
    }
}

/// `a` holds the same cells as `b`.
pub open spec fn same_matrix<T>(a: Matrix<T>, b: Matrix<T>) -> bool {
    a.nrows() == b.nrows() && a.ncols() == b.ncols() && a.cells() == b.cells()
}

/// `token` is a fresh token for the pair `(s, t)`: it waits at `s`, carries
/// the pair's intermediate arc set (an empty one when `arc_sets` has no cell
/// for the pair) and has not been routed yet.
pub open spec fn fresh_token(token: SupplyToken, s: int, t: int, arc_sets: Matrix<Matrix<bool>>) -> bool {
    &&& token.origin == s
    &&& token.s == s
    &&& token.t == t
    &&& if arc_sets.contains(s, t) {
        same_matrix(token.intermediate_arc_set, arc_sets.at(s, t))
    } else {
        token.intermediate_arc_set.wf() && token.intermediate_arc_set.nrows() == 0
            && token.intermediate_arc_set.ncols() == 0
    }
    &&& token.distances.wf() && token.distances.nrows() == 0 && token.distances.ncols() == 0
    &&& token.successors.wf() && token.successors.nrows() == 0 && token.successors.ncols() == 0
}

/// `tokens` are the supply tokens of `supply`: one fresh token per unit of
/// supply of each routable pair, in row-major order of the pairs.
pub open spec fn supply_tokens_of(
    tokens: Seq<SupplyToken>,
    supply: Matrix<usize>,
    fixed_arcs: Seq<(usize, usize)>,
    method: RemainderSolveMethod,
    arc_sets: Matrix<Matrix<bool>>,
) -> bool {
    let pairs = token_pairs(
        supply,
        fixed_arcs,
        method,
        arc_sets,
        (supply.nrows() * supply.ncols()) as int,
    );
    &&& tokens.len() == pairs.len()
    &&& forall|i: int|
        0 <= i < tokens.len() ==> fresh_token(
            #[trigger] tokens[i],
            pairs[i].0 as int,
            pairs[i].1 as int,
            arc_sets,
        )
}

/// What `generate_supply_tokens` reads of `arc_sets`: a well-formed matrix
/// and, unless all supply is routed greedily, the arc set of every pair, with
/// room for every fixed arc.
pub open spec fn arc_sets_cover(
    supply: Matrix<usize>,
    fixed_arcs: Seq<(usize, usize)>,
    method: RemainderSolveMethod,
    arc_sets: Matrix<Matrix<bool>>,
) -> bool {
    &&& arc_sets.wf()
    &&& method != RemainderSolveMethod::Greedy ==> {
        &&& arc_sets.nrows() == supply.nrows()
        &&& arc_sets.ncols() == supply.ncols()
        &&& forall|s: int, t: int|
            #![trigger arc_sets.at(s, t)]
            arc_sets.contains(s, t) ==> arc_sets.at(s, t).wf() && forall|k: int|
                0 <= k < fixed_arcs.len() ==> arc_sets.at(s, t).contains(
                    (#[trigger] fixed_arcs[k]).0 as int,
                    fixed_arcs[k].1 as int,
                )
    }
}

/// The row and column of the `k`-th cell in row-major order.
pub proof fn lemma_cell_of(k: int, rows: int, columns: int)
    requires
        0 <= k < rows * columns,
        columns > 0,
    ensures
        0 <= k / columns < rows,
        0 <= k % columns < columns,
        k / columns * columns + k % columns == k,
{
    assert(0 <= k / columns < rows && 0 <= k % columns < columns && k / columns * columns + k
        % columns == k) by (nonlinear_arith)
        requires
            0 <= k < rows * columns,
            columns > 0,
    ;
}

/// Whether some fixed arc lies in `arc_set`.
fn reaches_fixed_arc(arc_set: &Matrix<bool>, fixed_arcs: &[(usize, usize)]) -> (b: bool)
    requires
        arc_set.wf(),
        forall|k: int|
            0 <= k < fixed_arcs@.len() ==> arc_set.contains(
                (#[trigger] fixed_arcs@[k]).0 as int,
                fixed_arcs@[k].1 as int,
            ),
    ensures
        b == exists|k: int|
            0 <= k < fixed_arcs@.len() && #[trigger] arc_set.at(
                fixed_arcs@[k].0 as int,
                fixed_arcs@[k].1 as int,
            ),
{
    let mut k: usize = 0;
    while k < fixed_arcs.len()
        invariant
            arc_set.wf(),
            forall|j: int|
                0 <= j < fixed_arcs@.len() ==> arc_set.contains(
                    (#[trigger] fixed_arcs@[j]).0 as int,
                    fixed_arcs@[j].1 as int,
                ),
            k <= fixed_arcs@.len(),
            forall|j: int|
                0 <= j < k ==> !#[trigger] arc_set.at(
                    fixed_arcs@[j].0 as int,
                    fixed_arcs@[j].1 as int,
                ),
        decreases fixed_arcs@.len() - k,
    {
        let arc = fixed_arcs[k];
        if *arc_set.get(arc.0, arc.1) {
            return true;
        }
        k = k + 1;
    }
    false
}

/// A fresh token for `(s, t)`.
fn fresh(s: usize, t: usize, arc_sets: &Matrix<Matrix<bool>>) -> (token: SupplyToken)
    requires
        arc_sets.wf(),
    ensures
        fresh_token(token, s as int, t as int, *arc_sets),
{
    let arc_set = if s < arc_sets.num_rows() && t < arc_sets.num_columns() {
        let stored = arc_sets.get(s, t);
        let copy = stored.clone();
        proof {
            assert forall|i: int| 0 <= i < copy.cells().len() implies copy.cells()[i]
                == stored.cells()[i] by {
                assert(cloned(stored.cells()[i], copy.cells()[i]));
            }
            assert(copy.cells() =~= stored.cells());
        }
        copy
    } else {
        Matrix::empty()
    };
    SupplyToken {
        origin: s,
        s,
        t,
        intermediate_arc_set: arc_set,
        distances: Matrix::empty(),
        successors: Matrix::empty(),
    }
}

/// One token per unit of supply of every distinct pair `(s, t)`, in
/// row-major order of the pairs. Unless all supply is routed greedily, a
/// pair contributes only if some fixed arc lies in its intermediate arc set.
pub fn generate_supply_tokens(
    supply: &Matrix<usize>,
    fixed_arcs: &[(usize, usize)],
    remainder_method: RemainderSolveMethod,
    arc_sets: &Matrix<Matrix<bool>>,
) -> (tokens: Vec<SupplyToken>)
    requires
        supply.wf(),
        arc_sets_cover(*supply, fixed_arcs@, remainder_method, *arc_sets),
    ensures
        supply_tokens_of(tokens@, *supply, fixed_arcs@, remainder_method, *arc_sets),
        forall|i: int|
            0 <= i < tokens@.len() ==> supply.contains(
                (#[trigger] tokens@[i]).s as int,
                tokens@[i].t as int,
            ),
{
    let rows = supply.num_rows();
    let columns = supply.num_columns();
    let total = rows * columns;
    let mut tokens: Vec<SupplyToken> = Vec::new();
    let mut k: usize = 0;
    while k < total
        invariant
            supply.wf(),
            arc_sets_cover(*supply, fixed_arcs@, remainder_method, *arc_sets),
            rows == supply.nrows(),
            columns == supply.ncols(),
            total == rows * columns,
            k <= total,
            forall|i: int|
                0 <= i < tokens@.len() ==> supply.contains(
                    (#[trigger] tokens@[i]).s as int,
                    tokens@[i].t as int,
                ),
            tokens@.len() == token_pairs(
                *supply,
                fixed_arcs@,
                remainder_method,
                *arc_sets,
                k as int,
            ).len(),
            forall|i: int|
                0 <= i < tokens@.len() ==> fresh_token(
                    #[trigger] tokens@[i],
                    token_pairs(*supply, fixed_arcs@, remainder_method, *arc_sets, k as int)[i].0 as int,
                    token_pairs(*supply, fixed_arcs@, remainder_method, *arc_sets, k as int)[i].1 as int,
                    *arc_sets,
                ),
        decreases total - k,
    {
        proof {
            lemma_cell_of(k as int, rows as int, columns as int);
        }
        let s = k / columns;
        let t = k % columns;
        let ghost before = token_pairs(*supply, fixed_arcs@, remainder_method, *arc_sets, k as int);
        let ghost after = token_pairs(*supply, fixed_arcs@, remainder_method, *arc_sets, k + 1);
        let count = *supply.get(s, t);
        let mut wanted = s != t && count > 0;
        if wanted {
            match remainder_method {
                RemainderSolveMethod::Greedy => {},
                _ => {
                    proof {
                        assert(arc_sets.contains(s as int, t as int));
                    }
                    wanted = reaches_fixed_arc(arc_sets.get(s, t), fixed_arcs);
                },
            }
        }
        proof {
            assert(wanted == routable(
                *supply,
                fixed_arcs@,
                remainder_method,
                *arc_sets,
                s as int,
                t as int,
            ));
        }
        if wanted {
            let mut c: usize = 0;
            while c < count
                invariant
                    arc_sets.wf(),
                    s < rows,
                    t < columns,
                    rows == supply.nrows(),
                    columns == supply.ncols(),
                    forall|i: int|
                        0 <= i < tokens@.len() ==> supply.contains(
                            (#[trigger] tokens@[i]).s as int,
                            tokens@[i].t as int,
                        ),
                    c <= count,
                    count == supply.at(s as int, t as int),
                    tokens@.len() == before.len() + c,
                    wanted,
                    after == before + Seq::new(count as nat, |i: int| (s as usize, t as usize)),
                    forall|i: int|
                        0 <= i < tokens@.len() ==> fresh_token(
                            #[trigger] tokens@[i],
                            after[i].0 as int,
                            after[i].1 as int,
                            *arc_sets,
                        ),
                decreases count - c,
            {
                let token = fresh(s, t, arc_sets);
                tokens.push(token);
                c = c + 1;
            }
        }
        k = k + 1;
    }
    tokens
}

/// The distance a token still has to go.
pub open spec fn distance_left(dist: Matrix<usize>, token: SupplyToken) -> usize {
    dist.at(token.s as int, token.t as int)
}

/// `x` inserted into `sorted` behind every token that is no farther from
/// its destination.
pub open spec fn insert_by_distance(sorted: Seq<SupplyToken>, x: SupplyToken, dist: Matrix<usize>) -> Seq<SupplyToken>
    decreases sorted.len(),
{
    if sorted.len() == 0 || distance_left(dist, sorted.last()) <= distance_left(dist, x) {
        sorted.push(x)
    } else {
        insert_by_distance(sorted.drop_last(), x, dist).push(sorted.last())
    }
}

/// `tokens` stably sorted by the distance they still have to go.
pub open spec fn sorted_by_distance(tokens: Seq<SupplyToken>, dist: Matrix<usize>) -> Seq<SupplyToken>
    decreases tokens.len(),
{
    if tokens.len() == 0 {
        seq![]
    } else {
        insert_by_distance(sorted_by_distance(tokens.drop_last(), dist), tokens.last(), dist)
    }
}

/// Inserting at `j` is inserting behind every token that is no farther.
proof fn lemma_insert_at(sorted: Seq<SupplyToken>, x: SupplyToken, dist: Matrix<usize>, j: int)
    requires
        0 <= j <= sorted.len(),
        j > 0 ==> distance_left(dist, sorted[j - 1]) <= distance_left(dist, x),
        forall|i: int| j <= i < sorted.len() ==> distance_left(dist, #[trigger] sorted[i]) > distance_left(dist, x),
    ensures
        insert_by_distance(sorted, x, dist) == sorted.insert(j, x),
    decreases sorted.len(),
{
    if j == sorted.len() {
        assert(sorted.push(x) =~= sorted.insert(j, x));
    } else {
        let last = sorted.last();
        assert(distance_left(dist, sorted[sorted.len() - 1]) > distance_left(dist, x));
        lemma_insert_at(sorted.drop_last(), x, dist, j);
        assert(sorted.drop_last().insert(j, x).push(last) =~= sorted.insert(j, x));
    }
}

/// The tokens stably sorted by the distance they still have to go, the
/// closest first.
pub fn sort_by_distance(tokens: Vec<SupplyToken>, dist: &Matrix<usize>) -> (sorted: Vec<SupplyToken>)
    requires
        dist.wf(),
        forall|i: int|
            0 <= i < tokens@.len() ==> dist.contains(
                (#[trigger] tokens@[i]).s as int,
                tokens@[i].t as int,
            ),
    ensures
        sorted@ == sorted_by_distance(tokens@, *dist),
{
    let ghost input = tokens@;
    let total = tokens.len();
    let mut rest = tokens;
    let mut sorted: Vec<SupplyToken> = Vec::new();
    let mut done: usize = 0;
    while rest.len() > 0
        invariant
            dist.wf(),
            forall|i: int|
                0 <= i < input.len() ==> dist.contains(
                    (#[trigger] input[i]).s as int,
                    input[i].t as int,
                ),
            done <= input.len(),
            input.len() == total,
            rest@ == input.skip(done as int),
            sorted@ == sorted_by_distance(input.take(done as int), *dist),
            sorted@.len() == done,
            forall|i: int|
                0 <= i < sorted@.len() ==> dist.contains(
                    (#[trigger] sorted@[i]).s as int,
                    sorted@[i].t as int,
                ),
        decreases rest@.len(),
    {
        assert(done < input.len());
        let x = rest.remove(0);
        proof {
            assert(x == input[done as int]);
            assert(input.take(done + 1).drop_last() =~= input.take(done as int));
            assert(rest@ =~= input.skip(done + 1));
        }
        let key = *dist.get(x.s, x.t);
        let mut j = sorted.len();
        while j > 0 && *dist.get(sorted[j - 1].s, sorted[j - 1].t) > key
            invariant
                dist.wf(),
                j <= sorted@.len(),
                forall|i: int|
                    0 <= i < sorted@.len() ==> dist.contains(
                        (#[trigger] sorted@[i]).s as int,
                        sorted@[i].t as int,
                    ),
                key == distance_left(*dist, x),
                forall|i: int|
                    j <= i < sorted@.len() ==> distance_left(*dist, #[trigger] sorted@[i]) > key,
            decreases j,
        {
            j = j - 1;
        }
        proof {
            lemma_insert_at(sorted@, x, *dist, j as int);
        }
        let ghost before_insert = sorted@;
        sorted.insert(j, x);
        done = done + 1;
        proof {
            assert(input.take(done as int).last() == x);
            assert forall|i: int| 0 <= i < sorted@.len() implies dist.contains(
                (#[trigger] sorted@[i]).s as int,
                sorted@[i].t as int,
            ) by {
                if i < j {
                    assert(sorted@[i] == before_insert[i]);
                } else if i > j {
                    assert(sorted@[i] == before_insert[i - 1]);
                }
            }
        }
    }
    proof {
        assert(input.take(done as int) =~= input);
    }
    sorted
}

/// The number of copies of the pair `(o, t)` in `pairs`.
pub open spec fn pair_count(pairs: Seq<(usize, usize)>, o: int, t: int) -> nat
    decreases pairs.len(),
{
    if pairs.len() == 0 {
        0
    } else {
        pair_count(pairs.drop_last(), o, t) + if pairs.last().0 == o && pairs.last().1 == t {
            1nat
        } else {
            0nat
        }
    }
}

proof fn lemma_pair_count_concat(a: Seq<(usize, usize)>, b: Seq<(usize, usize)>, o: int, t: int)
    ensures
        pair_count(a + b, o, t) == pair_count(a, o, t) + pair_count(b, o, t),
    decreases b.len(),
{
    if b.len() > 0 {
        lemma_pair_count_concat(a, b.drop_last(), o, t);
        assert((a + b).drop_last() =~= a + b.drop_last());
    }
}

proof fn lemma_pair_count_repeat(c: nat, s: usize, t: usize, o: int, u: int)
    ensures
        pair_count(Seq::new(c, |i: int| (s, t)), o, u) == if s == o && t == u {
            c
        } else {
            0
        },
    decreases c,
{
    if c > 0 {
        lemma_pair_count_repeat((c - 1) as nat, s, t, o, u);
        assert(Seq::new(c, |i: int| (s, t)).drop_last() =~= Seq::new((c - 1) as nat, |i: int| (s, t)));
    }
}

/// Each routable pair contributes its whole supply, exactly once, when its
/// cell is reached.
pub proof fn lemma_token_pairs_count(
    supply: Matrix<usize>,
    fixed_arcs: Seq<(usize, usize)>,
    method: RemainderSolveMethod,
    arc_sets: Matrix<Matrix<bool>>,
    k: int,
    o: int,
    t: int,
)
    requires
        supply.wf(),
        supply.ncols() > 0,
        0 <= k <= supply.nrows() * supply.ncols(),
        supply.contains(o, t),
    ensures
        pair_count(token_pairs(supply, fixed_arcs, method, arc_sets, k), o, t) == if flat(
            o,
            t,
            supply.ncols() as int,
        ) < k && routable(supply, fixed_arcs, method, arc_sets, o, t) {
            supply.at(o, t) as nat
        } else {
            0
        },
    decreases k,
{
    if k > 0 {
        let columns = supply.ncols() as int;
        lemma_token_pairs_count(supply, fixed_arcs, method, arc_sets, k - 1, o, t);
        lemma_cell_of(k - 1, supply.nrows() as int, columns);
        let s = (k - 1) / columns;
        let u = (k - 1) % columns;
        crate::matrix::lemma_flat_in_bounds(o, t, supply.nrows() as int, columns);
        if flat(o, t, columns) == k - 1 {
            crate::matrix::lemma_flat_injective(o, t, s, u, columns);
        } else if s == o && u == t {
            assert(flat(o, t, columns) == k - 1);
        }
        let before = token_pairs(supply, fixed_arcs, method, arc_sets, k - 1);
        if routable(supply, fixed_arcs, method, arc_sets, s, u) {
            let extra = Seq::new(supply.at(s, u) as nat, |i: int| (s as usize, u as usize));
            lemma_pair_count_concat(before, extra, o, t);
            lemma_pair_count_repeat(supply.at(s, u) as nat, s as usize, u as usize, o, t);
        }
    }
}

/// Fresh tokens are counted like the pairs they were made for.
pub proof fn lemma_fresh_tokens_count(
    tokens: Seq<SupplyToken>,
    pairs: Seq<(usize, usize)>,
    arc_sets: Matrix<Matrix<bool>>,
    o: int,
    t: int,
)
    requires
        tokens.len() == pairs.len(),
        forall|i: int|
            0 <= i < tokens.len() ==> fresh_token(
                #[trigger] tokens[i],
                pairs[i].0 as int,
                pairs[i].1 as int,
                arc_sets,
            ),
    ensures
        in_flight(tokens, o, t) == pair_count(pairs, o, t),
    decreases tokens.len(),
{
    if tokens.len() > 0 {
        let last = tokens.len() - 1;
        assert(fresh_token(tokens[last], pairs[last].0 as int, pairs[last].1 as int, arc_sets));
        lemma_fresh_tokens_count(tokens.drop_last(), pairs.drop_last(), arc_sets, o, t);
    }
}

/// Sorting keeps the count of every pair.
pub proof fn lemma_sorted_in_flight(tokens: Seq<SupplyToken>, dist: Matrix<usize>, o: int, t: int)
    ensures
        in_flight(sorted_by_distance(tokens, dist), o, t) == in_flight(tokens, o, t),
    decreases tokens.len(),
{
    if tokens.len() > 0 {
        lemma_sorted_in_flight(tokens.drop_last(), dist, o, t);
        lemma_insert_in_flight(sorted_by_distance(tokens.drop_last(), dist), tokens.last(), dist, o, t);
    }
}

proof fn lemma_insert_in_flight(sorted: Seq<SupplyToken>, x: SupplyToken, dist: Matrix<usize>, o: int, t: int)
    ensures
        in_flight(insert_by_distance(sorted, x, dist), o, t) == in_flight(sorted, o, t) + if x.origin
            == o && x.t == t {
            1nat
        } else {
            0nat
        },
    decreases sorted.len(),
{
    if sorted.len() == 0 || distance_left(dist, sorted.last()) <= distance_left(dist, x) {
        assert(sorted.push(x).drop_last() =~= sorted);
    } else {
        lemma_insert_in_flight(sorted.drop_last(), x, dist, o, t);
        let inner = insert_by_distance(sorted.drop_last(), x, dist);
        assert(inner.push(sorted.last()).drop_last() =~= inner);
    }
}

/// Every token of the sorted sequence comes from the unsorted one.
pub proof fn lemma_sorted_members(tokens: Seq<SupplyToken>, dist: Matrix<usize>)
    ensures
        sorted_by_distance(tokens, dist).len() == tokens.len(),
        forall|i: int|
            0 <= i < tokens.len() ==> tokens.contains(#[trigger] sorted_by_distance(tokens, dist)[i]),
    decreases tokens.len(),
{
    if tokens.len() > 0 {
        let rest = tokens.drop_last();
        lemma_sorted_members(rest, dist);
        lemma_insert_members(sorted_by_distance(rest, dist), tokens.last(), dist);
        let sorted = sorted_by_distance(tokens, dist);
        assert forall|i: int| 0 <= i < tokens.len() implies tokens.contains(#[trigger] sorted[i]) by {
            if sorted[i] != tokens.last() {
                let j = choose|j: int|
                    0 <= j < rest.len() && sorted_by_distance(rest, dist)[j] == sorted[i];
                assert(rest.contains(sorted_by_distance(rest, dist)[j]));
                let m = choose|m: int| 0 <= m < rest.len() && rest[m] == sorted[i];
                assert(tokens[m] == sorted[i]);
            } else {
                assert(tokens[tokens.len() - 1] == sorted[i]);
            }
        }
    }
}

proof fn lemma_insert_members(sorted: Seq<SupplyToken>, x: SupplyToken, dist: Matrix<usize>)
    ensures
        insert_by_distance(sorted, x, dist).len() == sorted.len() + 1,
        forall|i: int|
            0 <= i < sorted.len() + 1 ==> (#[trigger] insert_by_distance(sorted, x, dist)[i] == x
                || exists|j: int| 0 <= j < sorted.len() && sorted[j] == insert_by_distance(sorted, x, dist)[i]),
    decreases sorted.len(),
{
    let r = insert_by_distance(sorted, x, dist);
    if sorted.len() == 0 || distance_left(dist, sorted.last()) <= distance_left(dist, x) {
        assert forall|i: int| 0 <= i < sorted.len() + 1 implies (#[trigger] r[i] == x || exists|j: int|
            0 <= j < sorted.len() && sorted[j] == r[i]) by {
            if i < sorted.len() {
                assert(sorted[i] == r[i]);
            }
        }
    } else {
        let rest = sorted.drop_last();
        lemma_insert_members(rest, x, dist);
        let inner = insert_by_distance(rest, x, dist);
        assert forall|i: int| 0 <= i < sorted.len() + 1 implies (#[trigger] r[i] == x || exists|j: int|
            0 <= j < sorted.len() && sorted[j] == r[i]) by {
            if i == sorted.len() {
                assert(sorted[sorted.len() - 1] == r[i]);
            } else {
                assert(r[i] == inner[i]);
                if inner[i] != x {
                    let j = choose|j: int| 0 <= j < rest.len() && rest[j] == inner[i];
                    assert(sorted[j] == r[i]);
                }
            }
        }
    }
}

/// One unit of supply on its way from `origin` to `t`, waiting at `s`.
#[derive(Debug, Clone, Copy, PartialEq, Eq)]
pub struct BTuple {
    pub origin: usize,
    pub s: usize,
    pub t: usize,
}

/// Under greedy routing the intermediate arc sets are never consulted.
proof fn lemma_greedy_pairs(
    supply: Matrix<usize>,
    fixed_arcs: Seq<(usize, usize)>,
    a: Matrix<Matrix<bool>>,
    b: Matrix<Matrix<bool>>,
    k: int,
)
    ensures
        token_pairs(supply, fixed_arcs, RemainderSolveMethod::Greedy, a, k) == token_pairs(
            supply,
            fixed_arcs,
            RemainderSolveMethod::Greedy,
            b,
            k,
        ),
    decreases k,
{
    if k > 0 {
        lemma_greedy_pairs(supply, fixed_arcs, a, b, k - 1);
    }
}

/// The pairs of all units of supply between distinct vertices, in
/// row-major order.
pub open spec fn supply_units(supply: Matrix<usize>) -> Seq<(usize, usize)> {
    token_pairs(
        supply,
        seq![],
        RemainderSolveMethod::Greedy,
        arbitrary(),
        (supply.nrows() * supply.ncols()) as int,
    )
}

/// One tuple per unit of supply between distinct vertices, all free, in
/// row-major order of the pairs; no tuple waits at a fixed arc yet.
pub fn generate_b_tuples(supply: &Matrix<usize>) -> (r: (
    Vec<Box<BTuple>>,
    std::collections::HashMap<usize, Vec<Box<BTuple>>>,
))
    requires
        supply.wf(),
    ensures
        r.0@.len() == supply_units(*supply).len(),
        forall|i: int|
            0 <= i < r.0@.len() ==> *#[trigger] r.0@[i] == (BTuple {
                origin: supply_units(*supply)[i].0,
                s: supply_units(*supply)[i].0,
                t: supply_units(*supply)[i].1,
            }),
        r.1@.len() == 0,
{
    let none: Matrix<Matrix<bool>> = Matrix::empty();
    let no_arcs: Vec<(usize, usize)> = Vec::new();
    let tokens = generate_supply_tokens(supply, no_arcs.as_slice(), RemainderSolveMethod::Greedy, &none);
    proof {
        assert(no_arcs@ =~= Seq::<(usize, usize)>::empty());
    }
    let ghost pairs = token_pairs(
        *supply,
        seq![],
        RemainderSolveMethod::Greedy,
        none,
        (supply.nrows() * supply.ncols()) as int,
    );
    proof {
        lemma_greedy_pairs(
            *supply,
            seq![],
            none,
            arbitrary(),
            (supply.nrows() * supply.ncols()) as int,
        );
        assert(pairs == supply_units(*supply));
    }
    let mut free: Vec<Box<BTuple>> = Vec::new();
    let mut k: usize = 0;
    while k < tokens.len()
        invariant
            tokens@.len() == pairs.len(),
            forall|i: int|
                0 <= i < tokens@.len() ==> fresh_token(
                    #[trigger] tokens@[i],
                    pairs[i].0 as int,
                    pairs[i].1 as int,
                    none,
                ),
            k <= tokens@.len(),
            free@.len() == k,
            forall|i: int|
                0 <= i < k ==> *#[trigger] free@[i] == (BTuple {
                    origin: pairs[i].0,
                    s: pairs[i].0,
                    t: pairs[i].1,
                }),
        decreases tokens@.len() - k,
    {
        let token = &tokens[k];
        proof {
            assert(fresh_token(tokens@[k as int], pairs[k as int].0 as int, pairs[k as int].1 as int, none));
        }
        free.push(Box::new(BTuple { origin: token.origin, s: token.s, t: token.t }));
        k = k + 1;
    }
    (free, std::collections::HashMap::new())
}

/// Every detour bound admits the shortest path itself: the bound for
/// distance `x` is at least `x`.
pub proof fn law_detour_bound_admits_distance(delta_fn: DeltaFunction, x: usize, log_term: usize)
    ensures
        delta_spec(delta_fn, x, log_term) >= x,
{
}

/// The detour bound grows with the distance: a longer distance, with a
/// logarithmic term that is no smaller, never allows a shorter path.
pub proof fn law_detour_bound_grows(delta_fn: DeltaFunction, x: usize, y: usize, log_x: usize, log_y: usize)
    requires
        x <= y,
        log_x <= log_y,
    ensures
        delta_spec(delta_fn, x, log_x) <= delta_spec(delta_fn, y, log_y),
{
    assert(11 * x / 10 <= 11 * y / 10) by (nonlinear_arith)
        requires
            x <= y,
    ;
    assert(3 * x / 2 <= 3 * y / 2) by (nonlinear_arith)
        requires
            x <= y,
    ;
}

/// The arcs of a shortest path from `s` to `t` belong to the intermediate
/// arc set of `(s, t)`: an arc `(x, y)` that exists, neither enters `s` nor
/// leaves `t`, and lies on a shortest path
/// (`dist(s, x) + cost(x, y) + dist(y, t) == dist(s, t)`) is always kept.
pub proof fn law_shortest_path_arcs_in_arc_set(
    dist: Matrix<usize>,
    costs: Matrix<usize>,
    capacities: Matrix<usize>,
    delta_fn: DeltaFunction,
    log_terms: Matrix<usize>,
    s: int,
    t: int,
    x: int,
    y: int,
)
    requires
        connects(dist, s, t),
        x != y,
        y != s,
        x != t,
        capacities.at(x, y) != 0,
        dist.at(s, x) + costs.at(x, y) + dist.at(y, t) == dist.at(s, t),
    ensures
        in_arc_set(dist, costs, capacities, delta_fn, log_terms, s, t, x, y),
{
    law_detour_bound_admits_distance(delta_fn, dist.at(s, t), log_terms.at(s, t));
}

/// The path that the predecessors of Floyd-Warshall give from `s` to `t`
/// lies inside the intermediate arc set of `(s, t)`, whatever the detour
/// function: the arc between any two consecutive vertices of it is kept.
pub proof fn law_predecessor_path_in_arc_set(
    capacities: Matrix<usize>,
    costs: Matrix<usize>,
    dist: Matrix<usize>,
    prev: Matrix<Option<usize>>,
    delta_fn: DeltaFunction,
    log_terms: Matrix<usize>,
    s: int,
    t: int,
    k: int,
)
    requires
        same_network(capacities, costs, capacities.nrows()),
        fw_no_overflow(capacities, costs),
        positive_arc_costs(capacities, costs),
        fw_result(capacities, costs, dist, prev),
        0 <= s < capacities.nrows(),
        0 <= t < capacities.nrows(),
        connects(dist, s, t),
        0 <= k < pred_path(prev, s, t).len() - 1,
    ensures
        in_arc_set(
            dist,
            costs,
            capacities,
            delta_fn,
            log_terms,
            s,
            t,
            pred_path(prev, s, t)[k] as int,
            pred_path(prev, s, t)[k + 1] as int,
        ),
{
    let n = capacities.nrows();
    lemma_pred_path_step(capacities, costs, dist, prev, s, t, k);
    let x = pred_path(prev, s, t)[k] as int;
    let y = pred_path(prev, s, t)[k + 1] as int;
    assert(capacities.contains(x, y));
    assert(dist.contains(s, t) && dist.contains(y, t) && dist.contains(s, x));
    assert(dist.at(y, t) == fw_dist(capacities, costs, n, y, t));
    assert(dist.at(s, x) == fw_dist(capacities, costs, n, s, x));
    lemma_fw_range(capacities, costs, n, y, t);
    lemma_fw_range(capacities, costs, n, s, x);
    if y == s {
        lemma_fw_diagonal(capacities, costs, n, s);
    }
    law_shortest_path_arcs_in_arc_set(dist, costs, capacities, delta_fn, log_terms, s, t, x, y);
}

/// A pair's shortest path runs only through the pair's intermediate arc
/// set: for the arc sets that `generate_intermediate_arc_sets` gives and the
/// path that `shortest_path` reads off the predecessors of Floyd-Warshall,
/// the arc between any two consecutive vertices of the path is in the arc
/// set of its ends, whatever the detour function.
pub proof fn law_shortest_path_runs_in_arc_set(
    capacities: Matrix<usize>,
    costs: Matrix<usize>,
    dist: Matrix<usize>,
    prev: Matrix<Option<usize>>,
    delta_fn: DeltaFunction,
    log_terms: Matrix<usize>,
    arc_sets: Matrix<Matrix<bool>>,
    s: int,
    t: int,
    k: int,
)
    requires
        same_network(capacities, costs, capacities.nrows()),
        fw_no_overflow(capacities, costs),
        positive_arc_costs(capacities, costs),
        fw_result(capacities, costs, dist, prev),
        are_arc_sets(arc_sets, dist, costs, capacities, delta_fn, log_terms),
        0 <= s < capacities.nrows(),
        0 <= t < capacities.nrows(),
        connects(dist, s, t),
        0 <= k < pred_path(prev, s, t).len() - 1,
    ensures
        arc_sets.at(s, t).at(pred_path(prev, s, t)[k] as int, pred_path(prev, s, t)[k + 1] as int),
{
    law_predecessor_path_in_arc_set(capacities, costs, dist, prev, delta_fn, log_terms, s, t, k);
    lemma_pred_path_step(capacities, costs, dist, prev, s, t, k);
    assert(arc_sets.contains(s, t));
    let x = pred_path(prev, s, t)[k] as int;
    let y = pred_path(prev, s, t)[k + 1] as int;
    assert(arc_sets.at(s, t).contains(x, y));
}

/// No intermediate arc set leads back into its source or out of its
/// target: an arc `(x, y)` in the arc set of `(s, t)` joins two distinct
/// vertices, has capacity, does not enter `s`, does not leave `t`, and the
/// shortest path from `s` to `t` through it stays within the detour bound
/// (or the bound is unlimited).
pub proof fn law_arc_sets_avoid_their_ends(
    arc_sets: Matrix<Matrix<bool>>,
    dist: Matrix<usize>,
    costs: Matrix<usize>,
    capacities: Matrix<usize>,
    delta_fn: DeltaFunction,
    log_terms: Matrix<usize>,
    s: int,
    t: int,
    x: int,
    y: int,
)
    requires
        are_arc_sets(arc_sets, dist, costs, capacities, delta_fn, log_terms),
        arc_sets.contains(s, t),
        arc_sets.at(s, t).contains(x, y),
        arc_sets.at(s, t).at(x, y),
    ensures
        y != s,
        x != t,
        x != y,
        s != t,
        capacities.at(x, y) > 0,
        dist.at(s, t) < usize::MAX,
        dist.at(s, x) + costs.at(x, y) + dist.at(y, t) <= delta_spec(
            delta_fn,
            dist.at(s, t),
            log_terms.at(s, t),
        ) || delta_spec(delta_fn, dist.at(s, t), log_terms.at(s, t)) >= usize::MAX,
{
}

/// Every arc that fits belongs to the intermediate arc set: an arc
/// `(x, y)` with capacity between two distinct vertices, which neither
/// enters `s` nor leaves `t`, lies in the arc set of a connected pair
/// `(s, t)` whenever the shortest path from `s` to `t` through it stays
/// within the detour bound.
pub proof fn law_fitting_arcs_join_the_arc_set(
    arc_sets: Matrix<Matrix<bool>>,
    dist: Matrix<usize>,
    costs: Matrix<usize>,
    capacities: Matrix<usize>,
    delta_fn: DeltaFunction,
    log_terms: Matrix<usize>,
    s: int,
    t: int,
    x: int,
    y: int,
)
    requires
        are_arc_sets(arc_sets, dist, costs, capacities, delta_fn, log_terms),
        arc_sets.contains(s, t),
        arc_sets.at(s, t).contains(x, y),
        s != t,
        dist.at(s, t) != usize::MAX,
        x != y,
        y != s,
        x != t,
        capacities.at(x, y) > 0,
        dist.at(s, x) + costs.at(x, y) + dist.at(y, t) <= delta_spec(
            delta_fn,
            dist.at(s, t),
            log_terms.at(s, t),
        ),
    ensures
        arc_sets.at(s, t).at(x, y),
{
    assert(arc_sets.at(s, t).contains(x, y));
}

/// Which supply becomes tokens: for every pair `(o, t)` of distinct
/// vertices, the tokens carrying supply from `o` to `t` are exactly its
/// units of supply, provided that all supply is routed greedily or that
/// some fixed arc lies in the pair's intermediate arc set; otherwise, and
/// for `o == t`, there is no such token.
pub proof fn law_supply_tokens_need_a_fixed_arc(
    tokens: Seq<SupplyToken>,
    supply: Matrix<usize>,
    fixed_arcs: Seq<(usize, usize)>,
    method: RemainderSolveMethod,
    arc_sets: Matrix<Matrix<bool>>,
    o: int,
    t: int,
)
    requires
        supply_tokens_of(tokens, supply, fixed_arcs, method, arc_sets),
        supply.wf(),
        supply.ncols() > 0,
        supply.contains(o, t),
    ensures
        in_flight(tokens, o, t) == if o != t && (method == RemainderSolveMethod::Greedy || exists|k: int|
            0 <= k < fixed_arcs.len() && #[trigger] arc_sets.at(o, t).at(
                fixed_arcs[k].0 as int,
                fixed_arcs[k].1 as int,
            )) {
            supply.at(o, t) as nat
        } else {
            0
        },
{
    let pairs = token_pairs(supply, fixed_arcs, method, arc_sets, (supply.nrows() * supply.ncols()) as int);
    lemma_fresh_tokens_count(tokens, pairs, arc_sets, o, t);
    lemma_flat_in_bounds(o, t, supply.nrows() as int, supply.ncols() as int);
    lemma_token_pairs_count(supply, fixed_arcs, method, arc_sets, (supply.nrows() * supply.ncols()) as int, o, t);
}

/// Outside the greedy remainder method, every token's pair can use a fixed
/// arc: some fixed arc lies in the intermediate arc set of its origin and
/// destination.
pub proof fn law_token_pairs_use_a_fixed_arc(
    tokens: Seq<SupplyToken>,
    supply: Matrix<usize>,
    fixed_arcs: Seq<(usize, usize)>,
    method: RemainderSolveMethod,
    arc_sets: Matrix<Matrix<bool>>,
    i: int,
)
    requires
        supply_tokens_of(tokens, supply, fixed_arcs, method, arc_sets),
        supply.wf(),
        supply.ncols() > 0,
        method != RemainderSolveMethod::Greedy,
        0 <= i < tokens.len(),
    ensures
        tokens[i].origin != tokens[i].t,
        exists|k: int|
            0 <= k < fixed_arcs.len() && #[trigger] arc_sets.at(tokens[i].origin as int, tokens[i].t as int).at(
                fixed_arcs[k].0 as int,
                fixed_arcs[k].1 as int,
            ),
{
    let pairs = token_pairs(supply, fixed_arcs, method, arc_sets, (supply.nrows() * supply.ncols()) as int);
    lemma_pairs_routable(supply, fixed_arcs, method, arc_sets, (supply.nrows() * supply.ncols()) as int, i);
    assert(fresh_token(tokens[i], pairs[i].0 as int, pairs[i].1 as int, arc_sets));
}

/// Every pair listed by `token_pairs` is routable.
proof fn lemma_pairs_routable(
    supply: Matrix<usize>,
    fixed_arcs: Seq<(usize, usize)>,
    method: RemainderSolveMethod,
    arc_sets: Matrix<Matrix<bool>>,
    k: int,
    i: int,
)
    requires
        supply.wf(),
        supply.ncols() > 0,
        k <= supply.nrows() * supply.ncols(),
        0 <= i < token_pairs(supply, fixed_arcs, method, arc_sets, k).len(),
    ensures
        ({
            let p = token_pairs(supply, fixed_arcs, method, arc_sets, k)[i];
            routable(supply, fixed_arcs, method, arc_sets, p.0 as int, p.1 as int)
        }),
    decreases k,
{
    if k > 0 {
        let s = (k - 1) / supply.ncols() as int;
        let t = (k - 1) % supply.ncols() as int;
        let before = token_pairs(supply, fixed_arcs, method, arc_sets, k - 1);
        if i < before.len() {
            assert(k - 1 <= supply.nrows() * supply.ncols());
            if routable(supply, fixed_arcs, method, arc_sets, s, t) {
                assert(token_pairs(supply, fixed_arcs, method, arc_sets, k)[i] == before[i]);
            }
            lemma_pairs_routable(supply, fixed_arcs, method, arc_sets, k - 1, i);
        } else {
            assert(routable(supply, fixed_arcs, method, arc_sets, s, t));
            lemma_cell_of(k - 1, supply.nrows() as int, supply.ncols() as int);
            assert(0 <= s < supply.nrows());
            assert(0 <= t < supply.ncols());
            assert(token_pairs(supply, fixed_arcs, method, arc_sets, k)[i] == (s as usize, t as usize));
        }
    }
}

/// Sorting by distance orders the tokens by the distance they still have
/// to go and keeps every token: each pair is carried by as many tokens as
/// before.
pub proof fn law_sorted_tokens_ordered(tokens: Seq<SupplyToken>, dist: Matrix<usize>)
    ensures
        sorted_by_distance(tokens, dist).len() == tokens.len(),
        forall|i: int, j: int|
            0 <= i < j < tokens.len() ==> distance_left(dist, #[trigger] sorted_by_distance(tokens, dist)[i])
                <= distance_left(dist, #[trigger] sorted_by_distance(tokens, dist)[j]),
        forall|o: int, t: int| #[trigger] in_flight(sorted_by_distance(tokens, dist), o, t) == in_flight(tokens, o, t),
    decreases tokens.len(),
{
    lemma_sorted_members(tokens, dist);
    assert forall|o: int, t: int| #[trigger] in_flight(sorted_by_distance(tokens, dist), o, t) == in_flight(tokens, o, t) by {
        lemma_sorted_in_flight(tokens, dist, o, t);
    }
    if tokens.len() > 0 {
        let rest = tokens.drop_last();
        law_sorted_tokens_ordered(rest, dist);
        lemma_insert_keeps_order(sorted_by_distance(rest, dist), tokens.last(), dist);
    }
}

/// Inserting by distance into an ordered sequence keeps it ordered.
proof fn lemma_insert_keeps_order(sorted: Seq<SupplyToken>, x: SupplyToken, dist: Matrix<usize>)
    requires
        forall|i: int, j: int|
            0 <= i < j < sorted.len() ==> distance_left(dist, #[trigger] sorted[i]) <= distance_left(
                dist,
                #[trigger] sorted[j],
            ),
    ensures
        insert_by_distance(sorted, x, dist).len() == sorted.len() + 1,
        forall|i: int, j: int|
            0 <= i < j < sorted.len() + 1 ==> distance_left(dist, #[trigger] insert_by_distance(sorted, x, dist)[i])
                <= distance_left(dist, #[trigger] insert_by_distance(sorted, x, dist)[j]),
    decreases sorted.len(),
{
    let r = insert_by_distance(sorted, x, dist);
    if sorted.len() == 0 || distance_left(dist, sorted.last()) <= distance_left(dist, x) {
        assert forall|i: int, j: int| 0 <= i < j < sorted.len() + 1 implies distance_left(dist, #[trigger] r[i])
            <= distance_left(dist, #[trigger] r[j]) by {
            if j == sorted.len() {
                if i < sorted.len() - 1 {
                    assert(distance_left(dist, sorted[i]) <= distance_left(dist, sorted[sorted.len() - 1]));
                }
            }
        }
    } else {
        let rest = sorted.drop_last();
        lemma_insert_keeps_order(rest, x, dist);
        lemma_insert_members(rest, x, dist);
        let inner = insert_by_distance(rest, x, dist);
        assert forall|i: int, j: int| 0 <= i < j < sorted.len() + 1 implies distance_left(dist, #[trigger] r[i])
            <= distance_left(dist, #[trigger] r[j]) by {
            if j == sorted.len() {
                assert(r[j] == sorted.last());
                assert(r[i] == inner[i]);
                if inner[i] != x {
                    let w = choose|w: int| 0 <= w < rest.len() && rest[w] == inner[i];
                    assert(distance_left(dist, sorted[w]) <= distance_left(dist, sorted[sorted.len() - 1]));
                }
            } else {
                assert(r[i] == inner[i]);
                assert(r[j] == inner[j]);
            }
        }
    }
}

} // verus!
