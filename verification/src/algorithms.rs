//! Shortest paths: Floyd-Warshall distances and predecessors, the paths they
//! encode, and successor maps.
use vstd::prelude::*;

use crate::error::SolverError;
use crate::matrix::Matrix;

verus! {

/// Capacities and costs describe the same network of `n` vertices.
pub open spec fn same_network(capacities: Matrix<usize>, costs: Matrix<usize>, n: nat) -> bool {
    &&& capacities.wf()
    &&& costs.wf()
    &&& capacities.is_square(n)
    &&& costs.is_square(n)
}

/// Distance before any intermediate vertex is allowed: zero on the diagonal,
/// the arc cost where the capacity is positive, `usize::MAX` (no path) elsewhere.
pub open spec fn fw_init(capacities: Matrix<usize>, costs: Matrix<usize>, i: int, j: int) -> int {
    if i == j {
        0
    } else if capacities.at(i, j) > 0 {
        costs.at(i, j) as int
    } else {
        usize::MAX as int
    }
}

/// Distance from `i` to `j` once the vertices below `k` may be passed through;
/// `usize::MAX` stands for "no path".
pub open spec fn fw_dist(capacities: Matrix<usize>, costs: Matrix<usize>, k: nat, i: int, j: int) -> int
    decreases k,
{
    if k == 0 {
        fw_init(capacities, costs, i, j)
    } else {
        let m = (k - 1) as nat;
        let direct = fw_dist(capacities, costs, m, i, j);
        let first = fw_dist(capacities, costs, m, i, m as int);
        let second = fw_dist(capacities, costs, m, m as int, j);
        if first < usize::MAX && second < usize::MAX && direct > first + second {
            first + second
        } else {
            direct
        }
    }
}

/// Passing through vertex `k` shortens the path from `i` to `j` in round `k`.
pub open spec fn fw_improves(capacities: Matrix<usize>, costs: Matrix<usize>, k: nat, i: int, j: int) -> bool {
    let first = fw_dist(capacities, costs, k, i, k as int);
    let second = fw_dist(capacities, costs, k, k as int, j);
    first < usize::MAX && second < usize::MAX && fw_dist(capacities, costs, k, i, j) > first
        + second
}

/// Predecessor of `j` on the path from `i` once the vertices below `k` may be
/// passed through; `None` where there is no path.
pub open spec fn fw_pred(capacities: Matrix<usize>, costs: Matrix<usize>, k: nat, i: int, j: int) -> Option<usize>
    decreases k,
{
    if k == 0 {
        if i == j || capacities.at(i, j) > 0 {
            Some(i as usize)
        } else {
            None
        }
    } else {
        let m = (k - 1) as nat;
        if fw_improves(capacities, costs, m, i, j) {
            fw_pred(capacities, costs, m, m as int, j)
        } else {
            fw_pred(capacities, costs, m, i, j)
        }
    }
}

/// No sum that Floyd-Warshall forms exceeds `usize::MAX`.
pub open spec fn fw_no_overflow(capacities: Matrix<usize>, costs: Matrix<usize>) -> bool {
    let n = capacities.nrows();
    forall|k: nat, i: int, j: int|
        #![trigger fw_dist(capacities, costs, k, i, k as int), fw_dist(capacities, costs, k, k as int, j)]
        k < n && 0 <= i < n && 0 <= j < n && fw_dist(capacities, costs, k, i, k as int)
            < usize::MAX && fw_dist(capacities, costs, k, k as int, j) < usize::MAX ==> fw_dist(
            capacities,
            costs,
            k,
            i,
            k as int,
        ) + fw_dist(capacities, costs, k, k as int, j) <= usize::MAX
}

/// Distances never leave `[0, usize::MAX]`.
pub proof fn lemma_fw_range(capacities: Matrix<usize>, costs: Matrix<usize>, k: nat, i: int, j: int)
    ensures
        0 <= fw_dist(capacities, costs, k, i, j) <= usize::MAX,
    decreases k,
{
    if k > 0 {
        let m = (k - 1) as nat;
        lemma_fw_range(capacities, costs, m, i, j);
        lemma_fw_range(capacities, costs, m, i, m as int);
        lemma_fw_range(capacities, costs, m, m as int, j);
    }
}

/// The distance from a vertex to itself stays zero.
pub proof fn lemma_fw_diagonal(capacities: Matrix<usize>, costs: Matrix<usize>, k: nat, i: int)
    ensures
        fw_dist(capacities, costs, k, i, i) == 0,
    decreases k,
{
    if k > 0 {
        let m = (k - 1) as nat;
        lemma_fw_diagonal(capacities, costs, m, i);
        lemma_fw_range(capacities, costs, m, i, m as int);
        lemma_fw_range(capacities, costs, m, m as int, i);
    }
}

/// Round `k` leaves the distances from and to vertex `k` as they were.
pub proof fn lemma_fw_pivot_stable(capacities: Matrix<usize>, costs: Matrix<usize>, k: nat, x: int)
    ensures
        fw_dist(capacities, costs, k + 1, x, k as int) == fw_dist(capacities, costs, k, x, k as int),
        fw_dist(capacities, costs, k + 1, k as int, x) == fw_dist(capacities, costs, k, k as int, x),
        !fw_improves(capacities, costs, k, x, k as int),
        !fw_improves(capacities, costs, k, k as int, x),
        fw_pred(capacities, costs, k + 1, k as int, x) == fw_pred(capacities, costs, k, k as int, x),
{
    lemma_fw_diagonal(capacities, costs, k, k as int);
    lemma_fw_range(capacities, costs, k, x, k as int);
    lemma_fw_range(capacities, costs, k, k as int, x);
}

/// One round of Floyd-Warshall takes the minimum of the direct distance and
/// the distance through the round's vertex.
pub proof fn lemma_fw_step_min(capacities: Matrix<usize>, costs: Matrix<usize>, k: nat, i: int, j: int)
    requires
        fw_no_overflow(capacities, costs),
        k < capacities.nrows(),
        0 <= i < capacities.nrows(),
        0 <= j < capacities.nrows(),
    ensures
        fw_dist(capacities, costs, k + 1, i, j) <= fw_dist(capacities, costs, k, i, j),
        fw_dist(capacities, costs, k + 1, i, j) <= fw_dist(capacities, costs, k, i, k as int)
            + fw_dist(capacities, costs, k, k as int, j),
        fw_dist(capacities, costs, k + 1, i, j) == fw_dist(capacities, costs, k, i, j)
            || fw_dist(capacities, costs, k + 1, i, j) == fw_dist(capacities, costs, k, i, k as int)
            + fw_dist(capacities, costs, k, k as int, j),
{
    lemma_fw_range(capacities, costs, k, i, j);
    lemma_fw_range(capacities, costs, k, i, k as int);
    lemma_fw_range(capacities, costs, k, k as int, j);
    let first = fw_dist(capacities, costs, k, i, k as int);
    let second = fw_dist(capacities, costs, k, k as int, j);
    if first < usize::MAX && second < usize::MAX {
        assert(first + second <= usize::MAX);
    }
}

/// Distances only shrink from round to round.
pub proof fn lemma_fw_monotone(capacities: Matrix<usize>, costs: Matrix<usize>, k1: nat, k2: nat, i: int, j: int)
    requires
        fw_no_overflow(capacities, costs),
        k1 <= k2 <= capacities.nrows(),
        0 <= i < capacities.nrows(),
        0 <= j < capacities.nrows(),
    ensures
        fw_dist(capacities, costs, k2, i, j) <= fw_dist(capacities, costs, k1, i, j),
    decreases k2 - k1,
{
    if k1 < k2 {
        lemma_fw_monotone(capacities, costs, k1, (k2 - 1) as nat, i, j);
        lemma_fw_step_min(capacities, costs, (k2 - 1) as nat, i, j);
    }
}

/// After round `k`, going through any vertex below `k` is never shorter.
pub proof fn lemma_fw_triangle_upto(
    capacities: Matrix<usize>,
    costs: Matrix<usize>,
    k: nat,
    i: int,
    j: int,
    m: int,
)
    requires
        fw_no_overflow(capacities, costs),
        k <= capacities.nrows(),
        0 <= i < capacities.nrows(),
        0 <= j < capacities.nrows(),
        0 <= m < k,
    ensures
        fw_dist(capacities, costs, k, i, j) <= fw_dist(capacities, costs, k, i, m) + fw_dist(
            capacities,
            costs,
            k,
            m,
            j,
        ),
    decreases k,
{
    let p = (k - 1) as nat;
    let pi = p as int;
    lemma_fw_step_min(capacities, costs, p, i, j);
    lemma_fw_step_min(capacities, costs, p, i, m);
    lemma_fw_step_min(capacities, costs, p, m, j);
    lemma_fw_range(capacities, costs, p, i, pi);
    lemma_fw_range(capacities, costs, p, pi, j);
    lemma_fw_range(capacities, costs, p, pi, m);
    lemma_fw_range(capacities, costs, p, m, pi);
    lemma_fw_range(capacities, costs, p, i, m);
    lemma_fw_range(capacities, costs, p, m, j);
    lemma_fw_range(capacities, costs, k, i, m);
    lemma_fw_range(capacities, costs, k, m, j);
    if m == pi {
        lemma_fw_pivot_stable(capacities, costs, p, i);
        lemma_fw_pivot_stable(capacities, costs, p, j);
    } else {
        lemma_fw_triangle_upto(capacities, costs, p, i, j, m);
        lemma_fw_triangle_upto(capacities, costs, p, pi, j, m);
        lemma_fw_triangle_upto(capacities, costs, p, i, pi, m);
    }
}

/// The distances are consistent: going through any vertex is never shorter
/// than the distance itself.
pub proof fn law_triangle_inequality(capacities: Matrix<usize>, costs: Matrix<usize>, i: int, j: int, m: int)
    requires
        fw_no_overflow(capacities, costs),
        0 <= i < capacities.nrows(),
        0 <= j < capacities.nrows(),
        0 <= m < capacities.nrows(),
    ensures
        fw_dist(capacities, costs, capacities.nrows(), i, j) <= fw_dist(
            capacities,
            costs,
            capacities.nrows(),
            i,
            m,
        ) + fw_dist(capacities, costs, capacities.nrows(), m, j),
{
    lemma_fw_triangle_upto(capacities, costs, capacities.nrows(), i, j, m);
}

/// `w` is a walk from `i` to `j` over arcs with positive capacity among the
/// first `n` vertices.
pub open spec fn is_walk(capacities: Matrix<usize>, w: Seq<int>, i: int, j: int, n: nat) -> bool {
    &&& w.len() >= 1
    &&& w[0] == i
    &&& w.last() == j
    &&& forall|t: int| 0 <= t < w.len() ==> 0 <= #[trigger] w[t] < n
    &&& forall|t: int| 0 <= t < w.len() - 1 ==> capacities.at(#[trigger] w[t], w[t + 1]) > 0
}

/// The summed cost of the arcs of a walk.
pub open spec fn walk_cost(costs: Matrix<usize>, w: Seq<int>) -> int
    decreases w.len(),
{
    if w.len() <= 1 {
        0
    } else {
        walk_cost(costs, w.drop_last()) + costs.at(w[w.len() - 2], w.last())
    }
}

/// No walk is shorter than the computed distance.
pub proof fn law_distance_at_most_walk_cost(
    capacities: Matrix<usize>,
    costs: Matrix<usize>,
    w: Seq<int>,
    i: int,
    j: int,
)
    requires
        fw_no_overflow(capacities, costs),
        is_walk(capacities, w, i, j, capacities.nrows()),
    ensures
        fw_dist(capacities, costs, capacities.nrows(), i, j) <= walk_cost(costs, w),
    decreases w.len(),
{
    let n = capacities.nrows();
    if w.len() == 1 {
        lemma_fw_diagonal(capacities, costs, n, i);
    } else {
        let prefix = w.drop_last();
        let p = w[w.len() - 2];
        assert(is_walk(capacities, prefix, i, p, n)) by {
            assert forall|t: int| 0 <= t < prefix.len() - 1 implies capacities.at(
                #[trigger] prefix[t],
                prefix[t + 1],
            ) > 0 by {
                assert(prefix[t] == w[t] && prefix[t + 1] == w[t + 1]);
            }
        }
        assert(0 <= p < n);
        assert(capacities.at(w[w.len() - 2], w[w.len() - 1]) > 0);
        law_distance_at_most_walk_cost(capacities, costs, prefix, i, p);
        law_triangle_inequality(capacities, costs, i, j, p);
        lemma_fw_monotone(capacities, costs, 0, n, p, j);
        lemma_fw_range(capacities, costs, n, p, j);
    }
}

/// The walk whose cost round `k` records as the distance from `i` to `j`.
pub open spec fn fw_walk(capacities: Matrix<usize>, costs: Matrix<usize>, k: nat, i: int, j: int) -> Seq<int>
    decreases k,
{
    if k == 0 {
        if i == j {
            seq![i]
        } else {
            seq![i, j]
        }
    } else {
        let m = (k - 1) as nat;
        if fw_improves(capacities, costs, m, i, j) {
            fw_walk(capacities, costs, m, i, m as int) + fw_walk(
                capacities,
                costs,
                m,
                m as int,
                j,
            ).drop_first()
        } else {
            fw_walk(capacities, costs, m, i, j)
        }
    }
}

/// Joining two walks at a shared vertex adds their costs.
#[verifier::rlimit(40)]
pub proof fn lemma_walk_join(capacities: Matrix<usize>, costs: Matrix<usize>, a: Seq<int>, b: Seq<int>, i: int, m: int, j: int, n: nat)
    requires
        is_walk(capacities, a, i, m, n),
        is_walk(capacities, b, m, j, n),
    ensures
        is_walk(capacities, a + b.drop_first(), i, j, n),
        walk_cost(costs, a + b.drop_first()) == walk_cost(costs, a) + walk_cost(costs, b),
    decreases b.len(),
{
    let c = a + b.drop_first();
    if b.len() == 1 {
        assert(c =~= a);
    } else {
        let b2 = b.drop_last();
        let m2 = b[b.len() - 2];
        assert(is_walk(capacities, b2, m, m2, n)) by {
            assert forall|t: int| 0 <= t < b2.len() - 1 implies capacities.at(
                #[trigger] b2[t],
                b2[t + 1],
            ) > 0 by {
                assert(b2[t] == b[t] && b2[t + 1] == b[t + 1]);
            }
        }
        lemma_walk_join(capacities, costs, a, b2, i, m, m2, n);
        assert(c.drop_last() =~= a + b2.drop_first());
        assert(c[c.len() - 2] == b[b.len() - 2]);
        assert(c.last() == b.last());
        assert forall|t: int| 0 <= t < c.len() - 1 implies capacities.at(#[trigger] c[t], c[t + 1])
            > 0 by {
            if t < a.len() - 1 {
                assert(c[t] == a[t] && c[t + 1] == a[t + 1]);
            } else {
                let u = t - a.len() + 1;
                assert(c[t] == b[u] && c[t + 1] == b[u + 1]);
            }
        }
        assert forall|t: int| 0 <= t < c.len() implies 0 <= #[trigger] c[t] < n by {
            if t < a.len() {
                assert(c[t] == a[t]);
            } else {
                assert(c[t] == b[t - a.len() + 1]);
            }
        }
    }
}

/// Every distance below `usize::MAX` after round `k` is the cost of the walk
/// `fw_walk` records for it.
pub proof fn lemma_fw_walk(capacities: Matrix<usize>, costs: Matrix<usize>, k: nat, i: int, j: int)
    requires
        fw_no_overflow(capacities, costs),
        k <= capacities.nrows(),
        0 <= i < capacities.nrows(),
        0 <= j < capacities.nrows(),
        fw_dist(capacities, costs, k, i, j) < usize::MAX,
    ensures
        is_walk(capacities, fw_walk(capacities, costs, k, i, j), i, j, capacities.nrows()),
        walk_cost(costs, fw_walk(capacities, costs, k, i, j)) == fw_dist(capacities, costs, k, i, j),
    decreases k,
{
    let n = capacities.nrows();
    if k == 0 {
        let w = fw_walk(capacities, costs, k, i, j);
        assert(walk_cost(costs, seq![i]) == 0);
        if i != j {
            assert(w.drop_last() =~= seq![i]);
            assert(capacities.at(w[0], w[1]) > 0);
            assert(walk_cost(costs, w) == walk_cost(costs, w.drop_last()) + costs.at(i, j));
        }
    } else {
        let m = (k - 1) as nat;
        if fw_improves(capacities, costs, m, i, j) {
            lemma_fw_walk(capacities, costs, m, i, m as int);
            lemma_fw_walk(capacities, costs, m, m as int, j);
            lemma_walk_join(
                capacities,
                costs,
                fw_walk(capacities, costs, m, i, m as int),
                fw_walk(capacities, costs, m, m as int, j),
                i,
                m as int,
                j,
                n,
            );
        } else {
            lemma_fw_walk(capacities, costs, m, i, j);
        }
    }
}

/// Every distance below `usize::MAX` is the cost of a walk from source to
/// target: together with `law_distance_at_most_walk_cost`, the distances are
/// exactly the costs of the cheapest walks.
pub proof fn law_distance_is_walk_cost(capacities: Matrix<usize>, costs: Matrix<usize>, i: int, j: int)
    requires
        fw_no_overflow(capacities, costs),
        0 <= i < capacities.nrows(),
        0 <= j < capacities.nrows(),
        fw_dist(capacities, costs, capacities.nrows(), i, j) < usize::MAX,
    ensures
        is_walk(
            capacities,
            fw_walk(capacities, costs, capacities.nrows(), i, j),
            i,
            j,
            capacities.nrows(),
        ),
        walk_cost(costs, fw_walk(capacities, costs, capacities.nrows(), i, j)) == fw_dist(
            capacities,
            costs,
            capacities.nrows(),
            i,
            j,
        ),
{
    lemma_fw_walk(capacities, costs, capacities.nrows(), i, j);
}

/// What round `k` records as predecessors: a vertex is its own predecessor,
/// every finite distance has one, and the predecessor of `j` on the way from
/// `i` is the tail of an arc into `j` that is at least as cheap to reach.
pub proof fn lemma_fw_pred(capacities: Matrix<usize>, costs: Matrix<usize>, k: nat, i: int, j: int)
    requires
        capacities.wf(),
        fw_no_overflow(capacities, costs),
        k <= capacities.nrows(),
        0 <= i < capacities.nrows(),
        0 <= j < capacities.nrows(),
    ensures
        i == j ==> fw_pred(capacities, costs, k, i, j) == Some(i as usize),
        fw_dist(capacities, costs, k, i, j) < usize::MAX ==> fw_pred(capacities, costs, k, i, j) is Some,
        fw_dist(capacities, costs, k, i, j) == usize::MAX && fw_pred(capacities, costs, k, i, j) is Some
            ==> fw_pred(capacities, costs, k, i, j) == Some(i as usize),
        i != j && fw_pred(capacities, costs, k, i, j) is Some ==> {
            let p = fw_pred(capacities, costs, k, i, j).unwrap() as int;
            &&& p != j
            &&& 0 <= p < capacities.nrows()
            &&& capacities.at(p, j) > 0
            &&& fw_dist(capacities, costs, k, i, p) + costs.at(p, j) <= fw_dist(capacities, costs, k, i, j)
        },
    decreases k,
{
    if k == 0 {
        lemma_fw_diagonal(capacities, costs, 0, i);
    } else {
        let m = (k - 1) as nat;
        let mi = m as int;
        lemma_fw_pivot_stable(capacities, costs, m, i);
        lemma_fw_pivot_stable(capacities, costs, m, j);
        lemma_fw_diagonal(capacities, costs, m, i);
        lemma_fw_range(capacities, costs, m, i, mi);
        lemma_fw_range(capacities, costs, m, mi, i);
        lemma_fw_range(capacities, costs, m, i, j);
        if fw_improves(capacities, costs, m, i, j) {
            lemma_fw_pred(capacities, costs, m, mi, j);
            let p = fw_pred(capacities, costs, m, mi, j).unwrap() as int;
            lemma_fw_step_min(capacities, costs, m, i, p);
        } else {
            lemma_fw_pred(capacities, costs, m, i, j);
            if i != j && fw_pred(capacities, costs, k, i, j) is Some {
                let p = fw_pred(capacities, costs, k, i, j).unwrap() as int;
                lemma_fw_step_min(capacities, costs, m, i, p);
            }
        }
    }
}

/// On every finite path the predecessor of the target is reached by an arc
/// that completes a shortest path: `dist(i, j) == dist(i, p) + cost(p, j)`.
pub proof fn law_predecessor_closes_shortest_path(
    capacities: Matrix<usize>,
    costs: Matrix<usize>,
    i: int,
    j: int,
)
    requires
        capacities.wf(),
        fw_no_overflow(capacities, costs),
        0 <= i < capacities.nrows(),
        0 <= j < capacities.nrows(),
        i != j,
        fw_dist(capacities, costs, capacities.nrows(), i, j) < usize::MAX,
    ensures
        fw_pred(capacities, costs, capacities.nrows(), i, j) is Some,
        ({
            let n = capacities.nrows();
            let p = fw_pred(capacities, costs, n, i, j).unwrap() as int;
            &&& p != j
            &&& 0 <= p < n
            &&& capacities.at(p, j) > 0
            &&& fw_dist(capacities, costs, n, i, j) == fw_dist(capacities, costs, n, i, p)
                + costs.at(p, j)
        }),
{
    let n = capacities.nrows();
    lemma_fw_pred(capacities, costs, n, i, j);
    let p = fw_pred(capacities, costs, n, i, j).unwrap() as int;
    law_triangle_inequality(capacities, costs, i, j, p);
    lemma_fw_monotone(capacities, costs, 0, n, p, j);
}

/// Cells `(a, b)` visited before `(i, j)` in row-major order.
pub open spec fn visited_before(a: int, b: int, i: int, j: int) -> bool {
    a < i || (a == i && b < j)
}

/// `dist` and `prev` are the distance and predecessor matrices that
/// Floyd-Warshall computes for the network.
pub open spec fn fw_result(
    capacities: Matrix<usize>,
    costs: Matrix<usize>,
    dist: Matrix<usize>,
    prev: Matrix<Option<usize>>,
) -> bool {
    &&& dist.wf()
    &&& prev.wf()
    &&& dist.is_square(capacities.nrows())
    &&& prev.is_square(capacities.nrows())
    &&& forall|i: int, j: int|
        dist.contains(i, j) ==> #[trigger] dist.at(i, j) == fw_dist(
            capacities,
            costs,
            capacities.nrows(),
            i,
            j,
        )
    &&& forall|i: int, j: int|
        prev.contains(i, j) ==> #[trigger] prev.at(i, j) == fw_pred(
            capacities,
            costs,
            capacities.nrows(),
            i,
            j,
        )
}

/// No sum formed in round `k` at cell `(i, j)` overflows.
pub open spec fn fw_fits_at(capacities: Matrix<usize>, costs: Matrix<usize>, k: nat, i: int, j: int) -> bool {
    fw_dist(capacities, costs, k, i, k as int) < usize::MAX && fw_dist(
        capacities,
        costs,
        k,
        k as int,
        j,
    ) < usize::MAX ==> fw_dist(capacities, costs, k, i, k as int) + fw_dist(
        capacities,
        costs,
        k,
        k as int,
        j,
    ) <= usize::MAX
}

/// All-pairs shortest distances (`usize::MAX` where there is no path) and the
/// predecessor of each target on its shortest path, over the arcs with
/// positive capacity.
pub fn floyd_warshall(capacities: &Matrix<usize>, costs: &Matrix<usize>) -> (res: (
    Matrix<usize>,
    Matrix<Option<usize>>,
))
    requires
        same_network(*capacities, *costs, capacities.nrows()),
        fw_no_overflow(*capacities, *costs),
    ensures
        fw_result(*capacities, *costs, res.0, res.1),
{
    try_floyd_warshall(capacities, costs).unwrap()
}

/// All-pairs shortest distances (`usize::MAX` where there is no path) and the
/// predecessor of each target on its shortest path, over the arcs with
/// positive capacity.
pub fn try_floyd_warshall(capacities: &Matrix<usize>, costs: &Matrix<usize>) -> (r: Option<(
    Matrix<usize>,
    Matrix<Option<usize>>,
)>)
    requires
        same_network(*capacities, *costs, capacities.nrows()),
    ensures
        r is Some <==> fw_no_overflow(*capacities, *costs),
        r matches Some(res) ==> fw_result(*capacities, *costs, res.0, res.1),
{
    let n = capacities.num_rows();
    let ghost caps = *capacities;
    let ghost cs = *costs;
    let mut dist: Matrix<usize> = Matrix::filled_with(usize::MAX, costs.num_rows(), costs.num_columns());
    let mut prev: Matrix<Option<usize>> = Matrix::filled_with(None, costs.num_rows(), costs.num_columns());
    proof {
        assert forall|a: int, b: int| 0 <= a < n && 0 <= b < n implies #[trigger] dist.at(a, b)
            == usize::MAX by {
            crate::matrix::lemma_flat_in_bounds(a, b, n as int, n as int);
        }
        assert forall|a: int, b: int| 0 <= a < n && 0 <= b < n implies #[trigger] prev.at(a, b)
            == None::<usize> by {
            crate::matrix::lemma_flat_in_bounds(a, b, n as int, n as int);
        }
    }
    let mut x: usize = 0;
    while x < n
        invariant
            same_network(caps, cs, n as nat),
            caps == *capacities,
            cs == *costs,
            n == capacities.nrows(),
            dist.wf(),
            prev.wf(),
            dist.is_square(n as nat),
            prev.is_square(n as nat),
            x <= n,
            forall|a: int, b: int|
                0 <= a < n && 0 <= b < n ==> #[trigger] dist.at(a, b) == if a < x && caps.at(a, b)
                    > 0 {
                    cs.at(a, b)
                } else {
                    usize::MAX
                },
            forall|a: int, b: int|
                0 <= a < n && 0 <= b < n ==> #[trigger] prev.at(a, b) == if a < x && caps.at(a, b)
                    > 0 {
                    Some(a as usize)
                } else {
                    None
                },
        decreases n - x,
    {
        let mut y: usize = 0;
        while y < n
            invariant
                same_network(caps, cs, n as nat),
                caps == *capacities,
                cs == *costs,
                n == capacities.nrows(),
                dist.wf(),
                prev.wf(),
                dist.is_square(n as nat),
                prev.is_square(n as nat),
                x < n,
                y <= n,
                forall|a: int, b: int|
                    0 <= a < n && 0 <= b < n ==> #[trigger] dist.at(a, b) == if visited_before(
                        a,
                        b,
                        x as int,
                        y as int,
                    ) && caps.at(a, b) > 0 {
                        cs.at(a, b)
                    } else {
                        usize::MAX
                    },
                forall|a: int, b: int|
                    0 <= a < n && 0 <= b < n ==> #[trigger] prev.at(a, b) == if visited_before(
                        a,
                        b,
                        x as int,
                        y as int,
                    ) && caps.at(a, b) > 0 {
                        Some(a as usize)
                    } else {
                        None
                    },
            decreases n - y,
        {
            if *capacities.get(x, y) > 0 {
                dist.set(x, y, *costs.get(x, y));
                prev.set(x, y, Some(x));
            }
            y = y + 1;
        }
        x = x + 1;
    }
    let mut v: usize = 0;
    while v < n
        invariant
            same_network(caps, cs, n as nat),
            caps == *capacities,
            cs == *costs,
            n == capacities.nrows(),
            dist.wf(),
            prev.wf(),
            dist.is_square(n as nat),
            prev.is_square(n as nat),
            v <= n,
            forall|a: int, b: int|
                0 <= a < n && 0 <= b < n ==> #[trigger] dist.at(a, b) == if a == b && a < v {
                    0
                } else if caps.at(a, b) > 0 {
                    cs.at(a, b)
                } else {
                    usize::MAX
                },
            forall|a: int, b: int|
                0 <= a < n && 0 <= b < n ==> #[trigger] prev.at(a, b) == if (a == b && a < v)
                    || caps.at(a, b) > 0 {
                    Some(a as usize)
                } else {
                    None
                },
        decreases n - v,
    {
        dist.set(v, v, 0);
        prev.set(v, v, Some(v));
        v = v + 1;
    }
    let mut k: usize = 0;
    while k < n
        invariant
            same_network(caps, cs, n as nat),
            forall|k2: nat, a: int, b: int|
                k2 < k && 0 <= a < n && 0 <= b < n ==> #[trigger] fw_fits_at(caps, cs, k2, a, b),
            caps == *capacities,
            cs == *costs,
            n == capacities.nrows(),
            dist.wf(),
            prev.wf(),
            dist.is_square(n as nat),
            prev.is_square(n as nat),
            k <= n,
            forall|a: int, b: int|
                0 <= a < n && 0 <= b < n ==> #[trigger] dist.at(a, b) == fw_dist(
                    caps,
                    cs,
                    k as nat,
                    a,
                    b,
                ),
            forall|a: int, b: int|
                0 <= a < n && 0 <= b < n ==> #[trigger] prev.at(a, b) == fw_pred(
                    caps,
                    cs,
                    k as nat,
                    a,
                    b,
                ),
        decreases n - k,
    {
        let mut i: usize = 0;
        while i < n
            invariant
                same_network(caps, cs, n as nat),
                forall|k2: nat, a: int, b: int|
                    k2 < k && 0 <= a < n && 0 <= b < n ==> #[trigger] fw_fits_at(caps, cs, k2, a, b),
                forall|a: int, b: int|
                    0 <= a < i && 0 <= b < n ==> #[trigger] fw_fits_at(caps, cs, k as nat, a, b),
                caps == *capacities,
                cs == *costs,
                n == capacities.nrows(),
                dist.wf(),
                prev.wf(),
                dist.is_square(n as nat),
                prev.is_square(n as nat),
                k < n,
                i <= n,
                forall|a: int, b: int|
                    0 <= a < n && 0 <= b < n ==> #[trigger] dist.at(a, b) == fw_dist(
                        caps,
                        cs,
                        if a < i {
                            (k + 1) as nat
                        } else {
                            k as nat
                        },
                        a,
                        b,
                    ),
                forall|a: int, b: int|
                    0 <= a < n && 0 <= b < n ==> #[trigger] prev.at(a, b) == fw_pred(
                        caps,
                        cs,
                        if a < i {
                            (k + 1) as nat
                        } else {
                            k as nat
                        },
                        a,
                        b,
                    ),
            decreases n - i,
        {
            let mut j: usize = 0;
            while j < n
                invariant
                    same_network(caps, cs, n as nat),
                    forall|k2: nat, a: int, b: int|
                        k2 < k && 0 <= a < n && 0 <= b < n ==> #[trigger] fw_fits_at(caps, cs, k2, a, b),
                    forall|a: int, b: int|
                        0 <= a < i && 0 <= b < n ==> #[trigger] fw_fits_at(caps, cs, k as nat, a, b),
                    forall|b: int| 0 <= b < j ==> #[trigger] fw_fits_at(caps, cs, k as nat, i as int, b),
                    caps == *capacities,
                    cs == *costs,
                    n == capacities.nrows(),
                    dist.wf(),
                    prev.wf(),
                    dist.is_square(n as nat),
                    prev.is_square(n as nat),
                    k < n,
                    i < n,
                    j <= n,
                    forall|a: int, b: int|
                        0 <= a < n && 0 <= b < n ==> #[trigger] dist.at(a, b) == fw_dist(
                            caps,
                            cs,
                            if visited_before(a, b, i as int, j as int) {
                                (k + 1) as nat
                            } else {
                                k as nat
                            },
                            a,
                            b,
                        ),
                    forall|a: int, b: int|
                        0 <= a < n && 0 <= b < n ==> #[trigger] prev.at(a, b) == fw_pred(
                            caps,
                            cs,
                            if visited_before(a, b, i as int, j as int) {
                                (k + 1) as nat
                            } else {
                                k as nat
                            },
                            a,
                            b,
                        ),
                decreases n - j,
            {
                proof {
                    lemma_fw_pivot_stable(caps, cs, k as nat, i as int);
                    lemma_fw_pivot_stable(caps, cs, k as nat, j as int);
                }
                let dik = *dist.get(i, k);
                let dkj = *dist.get(k, j);
                let dij = *dist.get(i, j);
                proof {
                    assert(dik == fw_dist(caps, cs, k as nat, i as int, k as int));
                    assert(dkj == fw_dist(caps, cs, k as nat, k as int, j as int));
                }
                if dik < usize::MAX && dkj < usize::MAX {
                    if dik > usize::MAX - dkj {
                        proof {
                            assert(!fw_fits_at(caps, cs, k as nat, i as int, j as int));
                        }
                        return None;
                    }
                    if dij > dik + dkj {
                        dist.set(i, j, dik + dkj);
                        let pkj = *prev.get(k, j);
                        prev.set(i, j, pkj);
                    }
                }
                j = j + 1;
            }
            i = i + 1;
        }
        k = k + 1;
    }
    proof {
        assert forall|k2: nat, a: int, b: int|
            #![trigger fw_dist(caps, cs, k2, a, k2 as int), fw_dist(caps, cs, k2, k2 as int, b)]
            k2 < n && 0 <= a < n && 0 <= b < n && fw_dist(caps, cs, k2, a, k2 as int) < usize::MAX
                && fw_dist(caps, cs, k2, k2 as int, b) < usize::MAX implies fw_dist(
            caps,
            cs,
            k2,
            a,
            k2 as int,
        ) + fw_dist(caps, cs, k2, k2 as int, b) <= usize::MAX by {
            assert(fw_fits_at(caps, cs, k2, a, b));
        }
    }
    Some((dist, prev))
}

/// Following predecessors back from `t` reaches `s` within `fuel` steps,
/// passing only through vertices of the matrix.
pub open spec fn reaches_back(prev: Matrix<Option<usize>>, s: int, t: int, fuel: nat) -> bool
    decreases fuel,
{
    if s == t {
        true
    } else if fuel == 0 {
        false
    } else {
        match prev.at(s, t) {
            Some(p) => p < prev.ncols() && reaches_back(prev, s, p as int, (fuel - 1) as nat),
            None => false,
        }
    }
}

/// The vertices met when following predecessors back from `t` to `s`,
/// starting with `t`.
pub open spec fn back_chain(prev: Matrix<Option<usize>>, s: int, t: int, fuel: nat) -> Seq<usize>
    decreases fuel,
{
    if s == t {
        seq![t as usize]
    } else if fuel == 0 {
        seq![]
    } else {
        match prev.at(s, t) {
            Some(p) => seq![t as usize] + back_chain(prev, s, p as int, (fuel - 1) as nat),
            None => seq![],
        }
    }
}

/// Every predecessor chain that starts at a vertex with a predecessor ends
/// at its source.
pub open spec fn chains_terminate(prev: Matrix<Option<usize>>) -> bool {
    forall|s: int, t: int|
        prev.contains(s, t) && (#[trigger] prev.at(s, t)) is Some ==> exists|f: nat|
            reaches_back(prev, s, t, f)
}

/// The path from `s` to `t` that the predecessors encode (empty when `t`
/// has no predecessor on the way from `s`).
pub open spec fn pred_path(prev: Matrix<Option<usize>>, s: int, t: int) -> Seq<usize> {
    if prev.at(s, t) is None {
        seq![]
    } else {
        back_chain(prev, s, t, choose|f: nat| reaches_back(prev, s, t, f)).reverse()
    }
}

/// Any fuel that suffices gives the same chain, which starts at `t`, ends at
/// `s` and stays among the vertices.
pub proof fn lemma_back_chain(prev: Matrix<Option<usize>>, s: int, t: int, f1: nat, f2: nat)
    requires
        prev.wf(),
        0 <= s < prev.ncols(),
        0 <= t < prev.ncols(),
        reaches_back(prev, s, t, f1),
        reaches_back(prev, s, t, f2),
    ensures
        back_chain(prev, s, t, f1) == back_chain(prev, s, t, f2),
        back_chain(prev, s, t, f1).len() >= 1,
        back_chain(prev, s, t, f1)[0] == t,
        back_chain(prev, s, t, f1).last() == s,
        forall|x: int|
            0 <= x < back_chain(prev, s, t, f1).len() ==> #[trigger] back_chain(prev, s, t, f1)[x]
                < prev.ncols(),
    decreases f1,
{
    if s != t {
        let p = prev.at(s, t).unwrap() as int;
        lemma_back_chain(prev, s, p, (f1 - 1) as nat, (f2 - 1) as nat);
        let rest = back_chain(prev, s, p, (f1 - 1) as nat);
        assert forall|x: int| 0 <= x < back_chain(prev, s, t, f1).len() implies #[trigger] back_chain(
            prev,
            s,
            t,
            f1,
        )[x] < prev.ncols() by {
            if x > 0 {
                assert(back_chain(prev, s, t, f1)[x] == rest[x - 1]);
            }
        }
    }
}

/// The path from `s` to `t` given by the predecessor matrix `prev`: empty
/// when `t` has no predecessor, otherwise the vertices from `s` to `t`.
pub fn shortest_path(prev: &Matrix<Option<usize>>, s: usize, t: usize) -> (path: Vec<usize>)
    requires
        prev.wf(),
        prev.nrows() == prev.ncols(),
        s < prev.ncols(),
        t < prev.ncols(),
        prev.at(s as int, t as int) is Some ==> exists|f: nat| reaches_back(*prev, s as int, t as int, f),
    ensures
        path@ == pred_path(*prev, s as int, t as int),
        path@.len() > 0 ==> path@[0] == s && path@.last() == t,
        forall|x: int| 0 <= x < path@.len() ==> #[trigger] path@[x] < prev.ncols(),
{
    match prev.get(s, t) {
        Some(_) => {},
        None => {
            return Vec::new();
        },
    }
    let ghost fuel0 = choose|f: nat| reaches_back(*prev, s as int, t as int, f);
    let ghost mut fuel = fuel0;
    let mut back: Vec<usize> = Vec::new();
    back.push(t);
    let mut cur = t;
    proof {
        lemma_back_chain(*prev, s as int, t as int, fuel0, fuel0);
        assert(back@ + back_chain(*prev, s as int, cur as int, fuel).drop_first() =~= back_chain(
            *prev,
            s as int,
            t as int,
            fuel0,
        ));
    }
    while s != cur
        invariant
            prev.wf(),
            prev.nrows() == prev.ncols(),
            s < prev.ncols(),
            cur < prev.ncols(),
            reaches_back(*prev, s as int, cur as int, fuel),
            back@.len() >= 1,
            back@.last() == cur,
            back@ + back_chain(*prev, s as int, cur as int, fuel).drop_first() == back_chain(
                *prev,
                s as int,
                t as int,
                fuel0,
            ),
        decreases fuel,
    {
        let next = prev.get(s, cur).unwrap();
        proof {
            let rest = back_chain(*prev, s as int, next as int, (fuel - 1) as nat);
            lemma_back_chain(*prev, s as int, next as int, (fuel - 1) as nat, (fuel - 1) as nat);
            assert(back_chain(*prev, s as int, cur as int, fuel).drop_first() =~= rest);
            assert(back@.push(next) + rest.drop_first() =~= back@ + rest);
            fuel = (fuel - 1) as nat;
        }
        back.push(next);
        cur = next;
    }
    proof {
        assert(back_chain(*prev, s as int, cur as int, fuel).drop_first() =~= Seq::<usize>::empty());
        assert(back@ =~= back_chain(*prev, s as int, t as int, fuel0));
        lemma_back_chain(*prev, s as int, t as int, fuel0, fuel0);
    }
    let len = back.len();
    let mut path: Vec<usize> = Vec::new();
    let mut k: usize = 0;
    while k < len
        invariant
            len == back@.len(),
            k <= len,
            path@.len() == k,
            forall|x: int| 0 <= x < k ==> #[trigger] path@[x] == back@[len - 1 - x],
        decreases len - k,
    {
        path.push(back[len - 1 - k]);
        k = k + 1;
    }
    proof {
        assert(path@ =~= back@.reverse());
        assert forall|x: int| 0 <= x < path@.len() implies #[trigger] path@[x] < prev.ncols() by {
            assert(path@[x] == back@[len - 1 - x]);
        }
    }
    path
}

/// More fuel never hurts.
pub proof fn lemma_reaches_back_more_fuel(prev: Matrix<Option<usize>>, s: int, t: int, f1: nat, f2: nat)
    requires
        reaches_back(prev, s, t, f1),
        f1 <= f2,
    ensures
        reaches_back(prev, s, t, f2),
    decreases f1,
{
    if s != t {
        let p = prev.at(s, t).unwrap() as int;
        lemma_reaches_back_more_fuel(prev, s, p, (f1 - 1) as nat, (f2 - 1) as nat);
    }
}

/// With positive costs on all arcs, the chain of Floyd-Warshall predecessors
/// from a target reaches the source.
proof fn lemma_fw_chain(capacities: Matrix<usize>, costs: Matrix<usize>, prev: Matrix<Option<usize>>, s: int, t: int)
    requires
        same_network(capacities, costs, capacities.nrows()),
        fw_no_overflow(capacities, costs),
        positive_arc_costs(capacities, costs),
        prev.wf(),
        prev.is_square(capacities.nrows()),
        forall|i: int, j: int|
            prev.contains(i, j) ==> #[trigger] prev.at(i, j) == fw_pred(
                capacities,
                costs,
                capacities.nrows(),
                i,
                j,
            ),
        0 <= s < capacities.nrows(),
        0 <= t < capacities.nrows(),
        prev.at(s, t) is Some,
    ensures
        reaches_back(prev, s, t, (fw_dist(capacities, costs, capacities.nrows(), s, t) + 1) as nat),
    decreases fw_dist(capacities, costs, capacities.nrows(), s, t),
{
    let n = capacities.nrows();
    lemma_fw_range(capacities, costs, n, s, t);
    lemma_fw_pred(capacities, costs, n, s, t);
    if s != t {
        let d = fw_dist(capacities, costs, n, s, t);
        if d == usize::MAX {
            assert(reaches_back(prev, s, s, 0));
            assert(reaches_back(prev, s, t, 1));
            lemma_reaches_back_more_fuel(prev, s, t, 1, (d + 1) as nat);
        } else {
            law_predecessor_closes_shortest_path(capacities, costs, s, t);
            let p = prev.at(s, t).unwrap() as int;
            lemma_fw_pred(capacities, costs, n, s, p);
            lemma_fw_range(capacities, costs, n, s, p);
            lemma_fw_chain(capacities, costs, prev, s, p);
            let dp = fw_dist(capacities, costs, n, s, p);
            lemma_reaches_back_more_fuel(prev, s, p, (dp + 1) as nat, d as nat);
        }
    }
}

/// Every arc with positive capacity between distinct vertices has a positive
/// cost.
pub open spec fn positive_arc_costs(capacities: Matrix<usize>, costs: Matrix<usize>) -> bool {
    forall|i: int, j: int|
        capacities.contains(i, j) && i != j && #[trigger] capacities.at(i, j) > 0 ==> costs.at(i, j)
            > 0
}

/// When every arc costs something, the predecessor matrix of
/// `floyd_warshall` can be handed to `invert_predecessors` and
/// `shortest_path`: all its predecessor chains end at their source.
pub proof fn law_positive_costs_chains_terminate(
    capacities: Matrix<usize>,
    costs: Matrix<usize>,
    prev: Matrix<Option<usize>>,
)
    requires
        same_network(capacities, costs, capacities.nrows()),
        fw_no_overflow(capacities, costs),
        positive_arc_costs(capacities, costs),
        prev.wf(),
        prev.is_square(capacities.nrows()),
        forall|i: int, j: int|
            prev.contains(i, j) ==> #[trigger] prev.at(i, j) == fw_pred(
                capacities,
                costs,
                capacities.nrows(),
                i,
                j,
            ),
    ensures
        chains_terminate(prev),
{
    assert forall|s: int, t: int| prev.contains(s, t) && (#[trigger] prev.at(s, t)) is Some implies exists|
        f: nat,
    | reaches_back(prev, s, t, f) by {
        lemma_fw_chain(capacities, costs, prev, s, t);
    }
}

/// The vertex after `s` on the path to `t` encoded by `prev`: `t` itself when
/// `s == t`, `usize::MAX` when there is no path.
pub open spec fn successor(prev: Matrix<Option<usize>>, s: int, t: int) -> usize {
    let path = pred_path(prev, s, t);
    if path.len() == 0 {
        usize::MAX
    } else if path.len() > 1 {
        path[1]
    } else {
        t as usize
    }
}

/// Turns a predecessor matrix into a successor matrix: the cell `(s, t)`
/// holds the next vertex on the way from `s` to `t`.
pub fn invert_predecessors(prev: &Matrix<Option<usize>>) -> (succ: Matrix<usize>)
    requires
        prev.wf(),
        prev.nrows() == prev.ncols(),
        chains_terminate(*prev),
    ensures
        succ.wf(),
        succ.is_square(prev.nrows()),
        forall|s: int, t: int|
            succ.contains(s, t) ==> #[trigger] succ.at(s, t) == successor(*prev, s, t),
{
    let n = prev.num_rows();
    let mut succ: Matrix<usize> = Matrix::filled_with(usize::MAX, n, n);
    proof {
        assert forall|a: int, b: int| 0 <= a < n && 0 <= b < n implies #[trigger] succ.at(a, b)
            == usize::MAX by {
            crate::matrix::lemma_flat_in_bounds(a, b, n as int, n as int);
        }
    }
    let mut s: usize = 0;
    while s < n
        invariant
            prev.wf(),
            prev.nrows() == prev.ncols(),
            n == prev.nrows(),
            chains_terminate(*prev),
            succ.wf(),
            succ.is_square(n as nat),
            s <= n,
            forall|a: int, b: int|
                0 <= a < n && 0 <= b < n ==> #[trigger] succ.at(a, b) == if a < s {
                    successor(*prev, a, b)
                } else {
                    usize::MAX
                },
        decreases n - s,
    {
        let mut t: usize = 0;
        while t < n
            invariant
                prev.wf(),
                prev.nrows() == prev.ncols(),
                n == prev.nrows(),
                chains_terminate(*prev),
                succ.wf(),
                succ.is_square(n as nat),
                s < n,
                t <= n,
                forall|a: int, b: int|
                    0 <= a < n && 0 <= b < n ==> #[trigger] succ.at(a, b) == if visited_before(
                        a,
                        b,
                        s as int,
                        t as int,
                    ) {
                        successor(*prev, a, b)
                    } else {
                        usize::MAX
                    },
            decreases n - t,
        {
            if *succ.get(s, t) == usize::MAX {
                proof {
                    if prev.at(s as int, t as int) is Some {
                        assert(prev.contains(s as int, t as int));
                    }
                }
                let path = shortest_path(prev, s, t);
                // The successor written for the first vertex of the path is a
                // vertex index, never `usize::MAX`, so only that first write
                // happens.
                if path.len() > 0 {
                    let next = if 1 < path.len() {
                        path[1]
                    } else {
                        t
                    };
                    succ.set(path[0], t, next);
                }
            }
            t = t + 1;
        }
        s = s + 1;
    }
    succ
}


/// Every predecessor chain of `prev` reaches its source within as many steps
/// as there are vertices.
pub open spec fn chains_short(prev: Matrix<Option<usize>>) -> bool {
    forall|s: int, t: int|
        prev.contains(s, t) && (#[trigger] prev.at(s, t)) is Some ==> reaches_back(
            prev,
            s,
            t,
            prev.ncols(),
        )
}

/// Follows the predecessors back from `t` for at most `fuel` steps and
/// reports whether `s` was reached.
fn reaches_back_within(prev: &Matrix<Option<usize>>, s: usize, t: usize, fuel: usize) -> (b: bool)
    requires
        prev.wf(),
        prev.nrows() == prev.ncols(),
        s < prev.ncols(),
        t < prev.ncols(),
    ensures
        b == reaches_back(*prev, s as int, t as int, fuel as nat),
{
    let mut cur = t;
    let mut left = fuel;
    while cur != s
        invariant
            prev.wf(),
            prev.nrows() == prev.ncols(),
            s < prev.ncols(),
            cur < prev.ncols(),
            left <= fuel,
            reaches_back(*prev, s as int, t as int, fuel as nat) == reaches_back(
                *prev,
                s as int,
                cur as int,
                left as nat,
            ),
        decreases left,
    {
        if left == 0 {
            return false;
        }
        match *prev.get(s, cur) {
            Some(p) => {
                if p >= prev.num_columns() {
                    return false;
                }
                cur = p;
                left = left - 1;
            },
            None => {
                return false;
            },
        }
    }
    true
}

/// Turns a predecessor matrix into a successor matrix like
/// `invert_predecessors`, after checking that every predecessor chain
/// reaches its source within as many steps as there are vertices; a
/// predecessor matrix that fails the check is corrupt.
pub fn try_invert_predecessors(prev: &Matrix<Option<usize>>) -> (r: Result<Matrix<usize>, SolverError>)
    requires
        prev.wf(),
        prev.nrows() == prev.ncols(),
    ensures
        r is Ok <==> chains_short(*prev),
        r matches Err(e) ==> e == SolverError::PathMatrixCorruptError,
        r matches Ok(succ) ==> succ.wf() && succ.is_square(prev.nrows()) && forall|s: int, t: int|
            succ.contains(s, t) ==> #[trigger] succ.at(s, t) == successor(*prev, s, t),
{
    let n = prev.num_rows();
    let mut s: usize = 0;
    while s < n
        invariant
            prev.wf(),
            prev.nrows() == prev.ncols(),
            n == prev.nrows(),
            s <= n,
            forall|a: int, b: int|
                0 <= a < s && 0 <= b < n && (#[trigger] prev.at(a, b)) is Some ==> reaches_back(
                    *prev,
                    a,
                    b,
                    n as nat,
                ),
        decreases n - s,
    {
        let mut t: usize = 0;
        while t < n
            invariant
                prev.wf(),
                prev.nrows() == prev.ncols(),
                n == prev.nrows(),
                s < n,
                t <= n,
                forall|a: int, b: int|
                    0 <= a < n && 0 <= b < n && visited_before(a, b, s as int, t as int) && (
                    #[trigger] prev.at(a, b)) is Some ==> reaches_back(*prev, a, b, n as nat),
            decreases n - t,
        {
            if prev.get(s, t).is_some() && !reaches_back_within(prev, s, t, n) {
                return Err(SolverError::PathMatrixCorruptError);
            }
            t = t + 1;
        }
        s = s + 1;
    }
    proof {
        assert forall|a: int, b: int| prev.contains(a, b) && (#[trigger] prev.at(a, b)) is Some implies exists|
            f: nat,
        | reaches_back(*prev, a, b, f) by {
            assert(reaches_back(*prev, a, b, n as nat));
        }
    }
    Ok(invert_predecessors(prev))
}

/// Two capacity matrices of `n` rows that agree on every cell.
pub open spec fn agree(c1: Matrix<usize>, c2: Matrix<usize>) -> bool {
    &&& c1.nrows() == c2.nrows()
    &&& forall|a: int, b: int|
        0 <= a < c1.nrows() && 0 <= b < c1.nrows() ==> #[trigger] c1.at(a, b) == c2.at(a, b)
}

/// Floyd-Warshall depends on the capacities only through their cells:
/// matrices that agree give the same distances and predecessors.
pub proof fn lemma_fw_congruent(c1: Matrix<usize>, c2: Matrix<usize>, costs: Matrix<usize>, k: nat, i: int, j: int)
    requires
        agree(c1, c2),
        k <= c1.nrows(),
        0 <= i < c1.nrows(),
        0 <= j < c1.nrows(),
    ensures
        fw_dist(c1, costs, k, i, j) == fw_dist(c2, costs, k, i, j),
        fw_pred(c1, costs, k, i, j) == fw_pred(c2, costs, k, i, j),
    decreases k,
{
    if k == 0 {
        assert(c1.at(i, j) == c2.at(i, j));
    } else {
        let m = (k - 1) as nat;
        let mi = m as int;
        lemma_fw_congruent(c1, c2, costs, m, i, j);
        lemma_fw_congruent(c1, c2, costs, m, i, mi);
        lemma_fw_congruent(c1, c2, costs, m, mi, j);
        assert(fw_improves(c1, costs, m, i, j) == fw_improves(c2, costs, m, i, j));
    }
}

/// Matrices that agree overflow Floyd-Warshall alike.
pub proof fn lemma_fw_no_overflow_congruent(c1: Matrix<usize>, c2: Matrix<usize>, costs: Matrix<usize>)
    requires
        agree(c1, c2),
    ensures
        fw_no_overflow(c1, costs) == fw_no_overflow(c2, costs),
{
    let n = c1.nrows();
    assert forall|k: nat, i: int, j: int|
        k < n && 0 <= i < n && 0 <= j < n implies #[trigger] fw_dist(c1, costs, k, i, k as int)
        == fw_dist(c2, costs, k, i, k as int) && #[trigger] fw_dist(c1, costs, k, k as int, j)
        == fw_dist(c2, costs, k, k as int, j) by {
        lemma_fw_congruent(c1, c2, costs, k, i, k as int);
        lemma_fw_congruent(c1, c2, costs, k, k as int, j);
    }
    if fw_no_overflow(c1, costs) {
        assert forall|k: nat, i: int, j: int|
            #![trigger fw_dist(c2, costs, k, i, k as int), fw_dist(c2, costs, k, k as int, j)]
            k < n && 0 <= i < n && 0 <= j < n && fw_dist(c2, costs, k, i, k as int) < usize::MAX
                && fw_dist(c2, costs, k, k as int, j) < usize::MAX implies fw_dist(c2, costs, k, i, k as int)
            + fw_dist(c2, costs, k, k as int, j) <= usize::MAX by {
            lemma_fw_congruent(c1, c2, costs, k, i, k as int);
            lemma_fw_congruent(c1, c2, costs, k, k as int, j);
        }
    }
    if fw_no_overflow(c2, costs) {
        assert forall|k: nat, i: int, j: int|
            #![trigger fw_dist(c1, costs, k, i, k as int), fw_dist(c1, costs, k, k as int, j)]
            k < n && 0 <= i < n && 0 <= j < n && fw_dist(c1, costs, k, i, k as int) < usize::MAX
                && fw_dist(c1, costs, k, k as int, j) < usize::MAX implies fw_dist(c1, costs, k, i, k as int)
            + fw_dist(c1, costs, k, k as int, j) <= usize::MAX by {
            lemma_fw_congruent(c1, c2, costs, k, i, k as int);
            lemma_fw_congruent(c1, c2, costs, k, k as int, j);
        }
    }
}

/// Predecessor matrices that agree on every cell have the same chains.
pub proof fn lemma_reaches_back_congruent(
    p1: Matrix<Option<usize>>,
    p2: Matrix<Option<usize>>,
    s: int,
    t: int,
    fuel: nat,
)
    requires
        p1.ncols() == p2.ncols(),
        forall|a: int, b: int|
            0 <= a < p1.ncols() && 0 <= b < p1.ncols() ==> #[trigger] p1.at(a, b) == p2.at(a, b),
        0 <= s < p1.ncols(),
        0 <= t < p1.ncols(),
    ensures
        reaches_back(p1, s, t, fuel) == reaches_back(p2, s, t, fuel),
    decreases fuel,
{
    if s != t && fuel > 0 {
        assert(p1.at(s, t) == p2.at(s, t));
        if let Some(p) = p1.at(s, t) {
            if p < p1.ncols() {
                lemma_reaches_back_congruent(p1, p2, s, p as int, (fuel - 1) as nat);
            }
        }
    }
}

/// The Floyd-Warshall results of matrices that agree have chains that are
/// short alike.
pub proof fn lemma_chains_short_congruent(
    c1: Matrix<usize>,
    c2: Matrix<usize>,
    costs: Matrix<usize>,
    d1: Matrix<usize>,
    p1: Matrix<Option<usize>>,
    d2: Matrix<usize>,
    p2: Matrix<Option<usize>>,
)
    requires
        agree(c1, c2),
        fw_result(c1, costs, d1, p1),
        fw_result(c2, costs, d2, p2),
    ensures
        chains_short(p1) == chains_short(p2),
        forall|a: int, b: int| d1.contains(a, b) ==> #[trigger] d1.at(a, b) == d2.at(a, b),
{
    let n = c1.nrows();
    assert forall|a: int, b: int| 0 <= a < n && 0 <= b < n implies #[trigger] p1.at(a, b) == p2.at(a, b)
        && d1.at(a, b) == d2.at(a, b) by {
        assert(p1.contains(a, b));
        assert(d1.contains(a, b));
        lemma_fw_congruent(c1, c2, costs, n, a, b);
    }
    assert forall|a: int, b: int| d1.contains(a, b) implies #[trigger] d1.at(a, b) == d2.at(a, b) by {
        assert(p1.at(a, b) == p2.at(a, b) && d1.at(a, b) == d2.at(a, b));
    }
    assert forall|a: int, b: int| p1.contains(a, b) implies reaches_back(p1, a, b, n) == reaches_back(
        p2,
        a,
        b,
        n,
    ) && #[trigger] p1.at(a, b) == p2.at(a, b) by {
        assert(p1.at(a, b) == p2.at(a, b) && d1.at(a, b) == d2.at(a, b));
        lemma_reaches_back_congruent(p1, p2, a, b, n);
    }
    if chains_short(p1) {
        assert forall|a: int, b: int| p2.contains(a, b) && (#[trigger] p2.at(a, b)) is Some implies reaches_back(
            p2,
            a,
            b,
            p2.ncols(),
        ) by {
            assert(p1.contains(a, b));
            assert(p1.at(a, b) == p2.at(a, b));
        }
    }
    if chains_short(p2) {
        assert forall|a: int, b: int| p1.contains(a, b) && (#[trigger] p1.at(a, b)) is Some implies reaches_back(
            p1,
            a,
            b,
            p1.ncols(),
        ) by {
            assert(p1.at(a, b) == p2.at(a, b));
            assert(p2.at(a, b) is Some);
        }
    }
}

/// The first step of a predecessor chain: the vertex before the source in
/// the chain from `t` back to `s` has `s` as its predecessor.
pub proof fn lemma_chain_first_step(prev: Matrix<Option<usize>>, s: int, t: int, fuel: nat)
    requires
        prev.wf(),
        0 <= s < prev.ncols(),
        0 <= t < prev.ncols(),
        s != t,
        reaches_back(prev, s, t, fuel),
    ensures
        back_chain(prev, s, t, fuel).len() >= 2,
        ({
            let chain = back_chain(prev, s, t, fuel);
            let x = chain[chain.len() - 2] as int;
            &&& x != s
            &&& 0 <= x < prev.ncols()
            &&& prev.at(s, x) == Some(s as usize)
        }),
    decreases fuel,
{
    let p = prev.at(s, t).unwrap() as int;
    if p == s {
        assert(back_chain(prev, s, p, (fuel - 1) as nat) == seq![s as usize]);
    } else {
        lemma_chain_first_step(prev, s, p, (fuel - 1) as nat);
        let rest = back_chain(prev, s, p, (fuel - 1) as nat);
        let chain = back_chain(prev, s, t, fuel);
        assert(chain == seq![t as usize] + rest);
        assert(chain[chain.len() - 2] == rest[rest.len() - 2]);
    }
}

/// Along the predecessor chain from `t` back to `s`, every vertex `y` lies
/// on a shortest path (`dist(s, y) + dist(y, t) == dist(s, t)`), and every
/// step from `x = chain[k + 1]` to `y = chain[k]` is an arc with capacity
/// that extends a shortest path (`dist(s, x) + cost(x, y) == dist(s, y)`).
pub proof fn lemma_chain_on_shortest_path(
    capacities: Matrix<usize>,
    costs: Matrix<usize>,
    dist: Matrix<usize>,
    prev: Matrix<Option<usize>>,
    s: int,
    t: int,
    fuel: nat,
)
    requires
        capacities.wf(),
        fw_no_overflow(capacities, costs),
        fw_result(capacities, costs, dist, prev),
        0 <= s < capacities.nrows(),
        0 <= t < capacities.nrows(),
        fw_dist(capacities, costs, capacities.nrows(), s, t) < usize::MAX,
        reaches_back(prev, s, t, fuel),
    ensures
        ({
            let n = capacities.nrows();
            let chain = back_chain(prev, s, t, fuel);
            &&& forall|k: int|
                0 <= k < chain.len() ==> fw_dist(capacities, costs, n, s, #[trigger] chain[k] as int)
                    + fw_dist(capacities, costs, n, chain[k] as int, t) == fw_dist(
                    capacities,
                    costs,
                    n,
                    s,
                    t,
                )
            &&& forall|k: int|
                0 <= k < chain.len() - 1 ==> {
                    let y = #[trigger] chain[k] as int;
                    let x = chain[k + 1] as int;
                    &&& x != y
                    &&& capacities.at(x, y) > 0
                    &&& fw_dist(capacities, costs, n, s, x) + costs.at(x, y) == fw_dist(
                        capacities,
                        costs,
                        n,
                        s,
                        y,
                    )
                }
        }),
    decreases fuel,
{
    let n = capacities.nrows();
    let chain = back_chain(prev, s, t, fuel);
    lemma_fw_diagonal(capacities, costs, n, t);
    if s != t {
        let p = prev.at(s, t).unwrap() as int;
        assert(prev.contains(s, t));
        law_predecessor_closes_shortest_path(capacities, costs, s, t);
        lemma_back_chain(prev, s, p, (fuel - 1) as nat, (fuel - 1) as nat);
        lemma_chain_on_shortest_path(capacities, costs, dist, prev, s, p, (fuel - 1) as nat);
        let rest = back_chain(prev, s, p, (fuel - 1) as nat);
        assert(chain == seq![t as usize] + rest);
        let hop = seq![p, t];
        assert(hop.drop_last() =~= seq![p]);
        assert(is_walk(capacities, hop, p, t, n));
        assert(walk_cost(costs, seq![p]) == 0);
        assert(walk_cost(costs, hop) == costs.at(p, t));
        law_distance_at_most_walk_cost(capacities, costs, hop, p, t);
        assert forall|k: int| 0 <= k < chain.len() implies fw_dist(
            capacities,
            costs,
            n,
            s,
            #[trigger] chain[k] as int,
        ) + fw_dist(capacities, costs, n, chain[k] as int, t) == fw_dist(capacities, costs, n, s, t) by {
            if k > 0 {
                let y = rest[k - 1] as int;
                assert(chain[k] == rest[k - 1]);
                assert(0 <= y < prev.ncols());
                law_triangle_inequality(capacities, costs, y, t, p);
                law_triangle_inequality(capacities, costs, s, t, y);
            }
        }
        assert forall|k: int| 0 <= k < chain.len() - 1 implies {
            let y = #[trigger] chain[k] as int;
            let x = chain[k + 1] as int;
            &&& x != y
            &&& capacities.at(x, y) > 0
            &&& fw_dist(capacities, costs, n, s, x) + costs.at(x, y) == fw_dist(capacities, costs, n, s, y)
        } by {
            if k > 0 {
                assert(chain[k] == rest[k - 1]);
                assert(chain[k + 1] == rest[k]);
            } else {
                assert(chain[1] == rest[0]);
            }
        }
    }
}

/// Inverting the predecessors of Floyd-Warshall gives the right
/// successors: no successor exactly where there is no predecessor, each
/// vertex is its own successor, and otherwise the successor is the second
/// vertex of the path, reached over an arc with capacity, and the rest of
/// a shortest path starts there.
pub proof fn law_successors_follow_shortest_paths(
    capacities: Matrix<usize>,
    costs: Matrix<usize>,
    dist: Matrix<usize>,
    prev: Matrix<Option<usize>>,
    s: int,
    t: int,
)
    requires
        same_network(capacities, costs, capacities.nrows()),
        fw_no_overflow(capacities, costs),
        positive_arc_costs(capacities, costs),
        fw_result(capacities, costs, dist, prev),
        0 <= s < capacities.nrows(),
        0 <= t < capacities.nrows(),
    ensures
        successor(prev, s, t) == usize::MAX <==> prev.at(s, t) is None,
        successor(prev, s, s) == s,
        s != t && dist.at(s, t) < usize::MAX ==> {
            let v = successor(prev, s, t) as int;
            &&& pred_path(prev, s, t).len() >= 2
            &&& v == pred_path(prev, s, t)[1]
            &&& capacities.at(s, v) > 0
            &&& dist.at(s, t) == costs.at(s, v) + dist.at(v, t)
        },
{
    let n = capacities.nrows();
    law_positive_costs_chains_terminate(capacities, costs, prev);
    lemma_fw_pred(capacities, costs, n, s, s);
    lemma_fw_pred(capacities, costs, n, s, t);
    assert(prev.contains(s, s));
    assert(prev.contains(s, t));
    assert(dist.contains(s, t));
    let fs = choose|f: nat| reaches_back(prev, s, s, f);
    assert(reaches_back(prev, s, s, 0));
    assert(back_chain(prev, s, s, fs) == seq![s as usize]);
    assert(seq![s as usize].reverse() =~= seq![s as usize]);
    if prev.at(s, t) is Some {
        let f = choose|f: nat| reaches_back(prev, s, t, f);
        lemma_back_chain(prev, s, t, f, f);
        let chain = back_chain(prev, s, t, f);
        let path = chain.reverse();
        assert(path.len() >= 1);
        if path.len() > 1 {
            assert(path[1] == chain[chain.len() - 2]);
            assert(chain[chain.len() - 2] < prev.ncols());
        }
        if s != t && dist.at(s, t) < usize::MAX {
            assert(dist.contains(s, t));
            lemma_chain_first_step(prev, s, t, f);
            lemma_chain_on_shortest_path(capacities, costs, dist, prev, s, t, f);
            let k = chain.len() - 2;
            let v = chain[k] as int;
            assert(chain[k + 1] == s);
            lemma_fw_diagonal(capacities, costs, n, s);
            assert(path[1] == chain[k]);
            assert(pred_path(prev, s, t) == path);
            assert(successor(prev, s, t) == v);
            assert(0 <= v < n);
            assert(dist.contains(v, t));
            assert(capacities.at(s, v) > 0);
            assert(fw_dist(capacities, costs, n, s, v) + fw_dist(capacities, costs, n, v, t) == fw_dist(capacities, costs, n, s, t));
            assert(dist.at(s, t) == costs.at(s, v) + dist.at(v, t));
        }
    }
}

/// Two consecutive vertices `x`, `y` of the predecessor path from `s` to
/// `t` are joined by an arc with capacity that lies on a shortest path:
/// `dist(s, x) + cost(x, y) + dist(y, t) == dist(s, t)`.
pub proof fn lemma_pred_path_step(
    capacities: Matrix<usize>,
    costs: Matrix<usize>,
    dist: Matrix<usize>,
    prev: Matrix<Option<usize>>,
    s: int,
    t: int,
    k: int,
)
    requires
        same_network(capacities, costs, capacities.nrows()),
        fw_no_overflow(capacities, costs),
        positive_arc_costs(capacities, costs),
        fw_result(capacities, costs, dist, prev),
        0 <= s < capacities.nrows(),
        0 <= t < capacities.nrows(),
        dist.at(s, t) < usize::MAX,
        0 <= k < pred_path(prev, s, t).len() - 1,
    ensures
        ({
            let x = pred_path(prev, s, t)[k] as int;
            let y = pred_path(prev, s, t)[k + 1] as int;
            &&& 0 <= x < capacities.nrows()
            &&& 0 <= y < capacities.nrows()
            &&& x != y
            &&& capacities.at(x, y) > 0
            &&& dist.at(s, x) + costs.at(x, y) + dist.at(y, t) == dist.at(s, t)
        }),
{
    let n = capacities.nrows();
    law_positive_costs_chains_terminate(capacities, costs, prev);
    assert(prev.contains(s, t));
    assert(dist.contains(s, t));
    let f = choose|f: nat| reaches_back(prev, s, t, f);
    lemma_back_chain(prev, s, t, f, f);
    lemma_chain_on_shortest_path(capacities, costs, dist, prev, s, t, f);
    let chain = back_chain(prev, s, t, f);
    let j = chain.len() - 2 - k;
    let x = chain[j + 1] as int;
    let y = chain[j] as int;
    assert(pred_path(prev, s, t)[k] == chain[j + 1]);
    assert(pred_path(prev, s, t)[k + 1] == chain[j]);
    assert(0 <= x < n && 0 <= y < n);
    assert(dist.contains(s, x) && dist.contains(s, y) && dist.contains(y, t));
    assert(fw_dist(capacities, costs, n, s, chain[j] as int) + fw_dist(capacities, costs, n, chain[j] as int, t)
        == fw_dist(capacities, costs, n, s, t));
}

} // verus!
