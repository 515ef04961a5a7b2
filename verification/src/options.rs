//! The tunable functions of the solver: network cost, detour allowance,
//! relative draw towards fixed arcs, slack and the remainder method.
use vstd::prelude::*;

use crate::matrix::{seq_sum, Matrix};

verus! {

/// How the costs of the scenarios combine into the cost of a network.
#[derive(Debug, Clone, Copy, PartialEq, Eq)]
pub enum CostFunction {
    Max,
    Mean,
    Median,
}

/// The largest element, `usize::MAX` for an empty sequence.
pub open spec fn seq_max(s: Seq<usize>) -> usize
    decreases s.len(),
{
    if s.len() == 0 {
        usize::MAX
    } else if s.len() == 1 {
        s[0]
    } else {
        let rest = seq_max(s.drop_last());
        if s.last() > rest {
            s.last()
        } else {
            rest
        }
    }
}

/// `x` inserted into the sorted sequence `s` before the first element that
/// is not smaller.
pub open spec fn insert_sorted(x: usize, s: Seq<usize>) -> Seq<usize>
    decreases s.len(),
{
    if s.len() == 0 {
        seq![x]
    } else if x <= s[0] {
        seq![x] + s
    } else {
        seq![s[0]] + insert_sorted(x, s.drop_first())
    }
}

/// The elements of `s` in ascending order.
pub open spec fn sort_seq(s: Seq<usize>) -> Seq<usize>
    decreases s.len(),
{
    if s.len() == 0 {
        seq![]
    } else {
        insert_sorted(s.last(), sort_seq(s.drop_last()))
    }
}

/// `s` is in ascending order.
pub open spec fn is_sorted(s: Seq<usize>) -> bool {
    forall|i: int, j: int| 0 <= i <= j < s.len() ==> s[i] <= s[j]
}

/// The median as the mean of the two middle elements of the sorted sequence,
/// rounded down.
pub open spec fn median(s: Seq<usize>) -> int {
    let sorted = sort_seq(s);
    (sorted[s.len() as int / 2] + sorted[(s.len() - 1) / 2]) / 2
}

proof fn lemma_insert_sorted(x: usize, s: Seq<usize>, pos: int)
    requires
        is_sorted(s),
        0 <= pos <= s.len(),
        forall|i: int| 0 <= i < pos ==> s[i] < x,
        pos < s.len() ==> x <= s[pos],
    ensures
        insert_sorted(x, s) == s.insert(pos, x),
        is_sorted(insert_sorted(x, s)),
        insert_sorted(x, s).len() == s.len() + 1,
    decreases s.len(),
{
    if s.len() == 0 {
        assert(s.insert(pos, x) =~= seq![x]);
    } else if x <= s[0] {
        assert(pos == 0);
        assert(s.insert(pos, x) =~= seq![x] + s);
    } else {
        let rest = s.drop_first();
        assert(is_sorted(rest));
        assert forall|i: int| 0 <= i < pos - 1 implies rest[i] < x by {
            assert(rest[i] == s[i + 1]);
        }
        lemma_insert_sorted(x, rest, pos - 1);
        assert(s.insert(pos, x) =~= seq![s[0]] + rest.insert(pos - 1, x));
    }
}

/// Sorting keeps the length and puts the elements in ascending order.
pub proof fn lemma_sort_seq(s: Seq<usize>)
    ensures
        sort_seq(s).len() == s.len(),
        is_sorted(sort_seq(s)),
    decreases s.len(),
{
    if s.len() > 0 {
        lemma_sort_seq(s.drop_last());
        let sorted = sort_seq(s.drop_last());
        let x = s.last();
        let pos = first_not_smaller(x, sorted);
        lemma_insert_sorted(x, sorted, pos);
    }
}

/// The position of the first element that is not smaller than `x`.
proof fn first_not_smaller(x: usize, s: Seq<usize>) -> (p: int)
    ensures
        0 <= p <= s.len(),
        forall|i: int| 0 <= i < p ==> s[i] < x,
        p < s.len() ==> x <= s[p],
    decreases s.len(),
{
    if s.len() > 0 && s[0] < x {
        let q = first_not_smaller(x, s.drop_first());
        assert forall|i: int| 0 <= i < q + 1 implies s[i] < x by {
            if i > 0 {
                assert(s[i] == s.drop_first()[i - 1]);
            }
        }
        q + 1
    } else {
        0
    }
}

/// A copy of `v` in ascending order.
pub(crate) fn sorted_copy(v: &Vec<usize>) -> (r: Vec<usize>)
    ensures
        r@ == sort_seq(v@),
{
    let mut sorted: Vec<usize> = Vec::new();
    let mut k: usize = 0;
    while k < v.len()
        invariant
            k <= v@.len(),
            sorted@ == sort_seq(v@.take(k as int)),
            is_sorted(sorted@),
        decreases v@.len() - k,
    {
        let x = v[k];
        let mut pos: usize = 0;
        while pos < sorted.len() && sorted[pos] < x
            invariant
                pos <= sorted@.len(),
                forall|i: int| 0 <= i < pos ==> sorted@[i] < x,
            decreases sorted@.len() - pos,
        {
            pos = pos + 1;
        }
        proof {
            assert(v@.take(k + 1).drop_last() =~= v@.take(k as int));
            assert(v@.take(k + 1).last() == x);
            lemma_insert_sorted(x, sorted@, pos as int);
        }
        sorted.insert(pos, x);
        k = k + 1;
    }
    proof {
        assert(v@.take(v@.len() as int) =~= v@);
    }
    sorted
}

/// Sorting keeps every element: the sorted sequence is a permutation, in
/// ascending order, of the input.
pub proof fn law_sort_permutes(s: Seq<usize>)
    ensures
        sort_seq(s).to_multiset() == s.to_multiset(),
        is_sorted(sort_seq(s)),
    decreases s.len(),
{
    lemma_sort_seq(s);
    if s.len() > 0 {
        let rest = s.drop_last();
        law_sort_permutes(rest);
        let sorted = sort_seq(rest);
        let x = s.last();
        let pos = first_not_smaller(x, sorted);
        lemma_insert_sorted(x, sorted, pos);
        vstd::seq_lib::to_multiset_insert(sorted, pos, x);
        vstd::seq_lib::to_multiset_build(rest, x);
        assert(rest.push(x) =~= s);
        assert(sort_seq(s) == insert_sorted(x, sorted));
        assert(sort_seq(s).to_multiset() == sorted.to_multiset().insert(x));
        assert(s.to_multiset() == rest.to_multiset().insert(x));
    } else {
        assert(sort_seq(s) =~= s);
    }
}

/// The smallest element, zero for an empty sequence.
pub open spec fn seq_min(s: Seq<usize>) -> usize
    decreases s.len(),
{
    if s.len() == 0 {
        0
    } else if s.len() == 1 {
        s[0]
    } else {
        let rest = seq_min(s.drop_last());
        if s.last() < rest {
            s.last()
        } else {
            rest
        }
    }
}

/// The cost of a network whose scenarios cost `costs`, under `f`.
pub open spec fn cost_of(f: CostFunction, costs: Seq<usize>) -> int {
    match f {
        CostFunction::Max => seq_max(costs) as int,
        CostFunction::Mean => if costs.len() == 0 {
            0
        } else {
            seq_sum(costs) / (costs.len() as int)
        },
        CostFunction::Median => median(costs),
    }
}

/// The largest element is one of the elements and no element exceeds it.
proof fn lemma_seq_max_bounds(s: Seq<usize>)
    requires
        s.len() > 0,
    ensures
        exists|i: int| 0 <= i < s.len() && s[i] == seq_max(s),
        forall|i: int| 0 <= i < s.len() ==> s[i] <= seq_max(s),
    decreases s.len(),
{
    if s.len() == 1 {
        assert(s[0] == seq_max(s));
    } else {
        let rest = s.drop_last();
        lemma_seq_max_bounds(rest);
        assert forall|i: int| 0 <= i < s.len() implies s[i] <= seq_max(s) by {
            if i < s.len() - 1 {
                assert(s[i] == rest[i]);
            }
        }
        if s.last() > seq_max(rest) {
            assert(s[s.len() - 1] == seq_max(s));
        } else {
            let i = choose|i: int| 0 <= i < rest.len() && rest[i] == seq_max(rest);
            assert(s[i] == seq_max(s));
        }
    }
}

/// The smallest element is one of the elements and no element is below it.
proof fn lemma_seq_min_bounds(s: Seq<usize>)
    requires
        s.len() > 0,
    ensures
        exists|i: int| 0 <= i < s.len() && s[i] == seq_min(s),
        forall|i: int| 0 <= i < s.len() ==> seq_min(s) <= s[i],
    decreases s.len(),
{
    if s.len() == 1 {
        assert(s[0] == seq_min(s));
    } else {
        let rest = s.drop_last();
        lemma_seq_min_bounds(rest);
        assert forall|i: int| 0 <= i < s.len() implies seq_min(s) <= s[i] by {
            if i < s.len() - 1 {
                assert(s[i] == rest[i]);
            }
        }
        if s.last() < seq_min(rest) {
            assert(s[s.len() - 1] == seq_min(s));
        } else {
            let i = choose|i: int| 0 <= i < rest.len() && rest[i] == seq_min(rest);
            assert(s[i] == seq_min(s));
        }
    }
}

/// Sequences with the same elements have the same extremes.
proof fn lemma_same_extremes(a: Seq<usize>, b: Seq<usize>)
    requires
        a.len() > 0,
        a.to_multiset() == b.to_multiset(),
    ensures
        b.len() == a.len(),
        seq_max(a) == seq_max(b),
        seq_min(a) == seq_min(b),
{
    broadcast use vstd::seq_lib::group_to_multiset_ensures;

    assert(b.len() == a.to_multiset().len());
    lemma_seq_max_bounds(a);
    lemma_seq_max_bounds(b);
    lemma_seq_min_bounds(a);
    lemma_seq_min_bounds(b);
    let ia = choose|i: int| 0 <= i < a.len() && a[i] == seq_max(a);
    let ib = choose|i: int| 0 <= i < b.len() && b[i] == seq_max(b);
    assert(a.contains(a[ia]));
    vstd::seq_lib::to_multiset_contains(a, a[ia]);
    vstd::seq_lib::to_multiset_contains(b, a[ia]);
    assert(b.contains(b[ib]));
    vstd::seq_lib::to_multiset_contains(b, b[ib]);
    vstd::seq_lib::to_multiset_contains(a, b[ib]);
    let ja = choose|i: int| 0 <= i < a.len() && a[i] == seq_min(a);
    let jb = choose|i: int| 0 <= i < b.len() && b[i] == seq_min(b);
    assert(a.contains(a[ja]));
    vstd::seq_lib::to_multiset_contains(a, a[ja]);
    vstd::seq_lib::to_multiset_contains(b, a[ja]);
    assert(b.contains(b[jb]));
    vstd::seq_lib::to_multiset_contains(b, b[jb]);
    vstd::seq_lib::to_multiset_contains(a, b[jb]);
}

/// Inserting `x` adds it to the sum.
proof fn lemma_seq_sum_insert(t: Seq<usize>, pos: int, x: usize)
    requires
        0 <= pos <= t.len(),
    ensures
        seq_sum(t.insert(pos, x)) == seq_sum(t) + x,
    decreases t.len(),
{
    let u = t.insert(pos, x);
    if pos == t.len() {
        assert(u.drop_last() =~= t);
    } else {
        assert(u.drop_last() =~= t.drop_last().insert(pos, x));
        assert(u.last() == t.last());
        lemma_seq_sum_insert(t.drop_last(), pos, x);
    }
}

/// Sorting keeps the sum.
proof fn lemma_sum_sorted(s: Seq<usize>)
    ensures
        seq_sum(sort_seq(s)) == seq_sum(s),
    decreases s.len(),
{
    if s.len() > 0 {
        let rest = s.drop_last();
        lemma_sum_sorted(rest);
        lemma_sort_seq(rest);
        let sorted = sort_seq(rest);
        let x = s.last();
        let pos = first_not_smaller(x, sorted);
        lemma_insert_sorted(x, sorted, pos);
        lemma_seq_sum_insert(sorted, pos, x);
    }
}

/// Sequences with the same elements sort to the same sequence.
proof fn lemma_sort_unique(a: Seq<usize>, b: Seq<usize>)
    requires
        a.to_multiset() == b.to_multiset(),
    ensures
        sort_seq(a) == sort_seq(b),
{
    law_sort_permutes(a);
    law_sort_permutes(b);
    let leq = |x: usize, y: usize| x <= y;
    assert(vstd::relations::sorted_by(sort_seq(a), leq));
    assert(vstd::relations::sorted_by(sort_seq(b), leq));
    assert(vstd::relations::total_ordering(leq));
    vstd::seq_lib::lemma_sorted_unique(sort_seq(a), sort_seq(b), leq);
}

/// `len · lo <= sum <= len · hi` when every element lies in `[lo, hi]`.
proof fn lemma_sum_between(s: Seq<usize>, lo: int, hi: int)
    requires
        forall|i: int| 0 <= i < s.len() ==> lo <= #[trigger] s[i] <= hi,
    ensures
        s.len() * lo <= seq_sum(s) <= s.len() * hi,
    decreases s.len(),
{
    if s.len() > 0 {
        let rest = s.drop_last();
        assert forall|i: int| 0 <= i < rest.len() implies lo <= #[trigger] rest[i] <= hi by {
            assert(rest[i] == s[i]);
        }
        lemma_sum_between(rest, lo, hi);
        assert(s.last() == s[s.len() - 1]);
        let n = s.len() as int;
        assert(n * lo == (n - 1) * lo + lo) by (nonlinear_arith);
        assert(n * hi == (n - 1) * hi + hi) by (nonlinear_arith);
    }
}

/// The cost functions look only at which costs there are, not at their
/// order, and each gives a cost between the smallest and the largest
/// scenario cost.
pub proof fn law_cost_functions(f: CostFunction, costs: Seq<usize>, reordered: Seq<usize>)
    requires
        costs.len() > 0,
        reordered.to_multiset() == costs.to_multiset(),
    ensures
        cost_of(f, reordered) == cost_of(f, costs),
        seq_min(costs) <= cost_of(f, costs) <= seq_max(costs),
{
    broadcast use vstd::seq_lib::group_to_multiset_ensures;

    lemma_same_extremes(costs, reordered);
    lemma_sort_unique(costs, reordered);
    lemma_sum_sorted(costs);
    lemma_sum_sorted(reordered);
    lemma_seq_max_bounds(costs);
    lemma_seq_min_bounds(costs);
    let lo = seq_min(costs) as int;
    let hi = seq_max(costs) as int;
    let n = costs.len() as int;
    match f {
        CostFunction::Max => {
            let i = choose|i: int| 0 <= i < costs.len() && costs[i] == seq_min(costs);
            assert(costs[i] <= seq_max(costs));
        },
        CostFunction::Mean => {
            lemma_sum_between(costs, lo, hi);
            let total = seq_sum(costs);
            assert(lo <= total / n <= hi) by (nonlinear_arith)
                requires
                    n > 0,
                    n * lo <= total <= n * hi,
            ;
        },
        CostFunction::Median => {
            law_sort_permutes(costs);
            lemma_sort_seq(costs);
            let sorted = sort_seq(costs);
            let a = sorted[n / 2];
            let b = sorted[(n - 1) / 2];
            assert(sorted.contains(a));
            assert(sorted.contains(b));
            vstd::seq_lib::to_multiset_contains(sorted, a);
            vstd::seq_lib::to_multiset_contains(sorted, b);
            vstd::seq_lib::to_multiset_contains(costs, a);
            vstd::seq_lib::to_multiset_contains(costs, b);
            let ia = choose|i: int| 0 <= i < costs.len() && costs[i] == a;
            let ib = choose|i: int| 0 <= i < costs.len() && costs[i] == b;
            assert(lo <= a <= hi);
            assert(lo <= b <= hi);
        },
    }
}

/// The sign of `x`: -1, 0 or 1.
pub open spec fn sign(x: int) -> int {
    if x < 0 {
        -1
    } else if x == 0 {
        0
    } else {
        1
    }
}

/// A positive base gives a positive power; zero gives zero from the first
/// power on; a negative base gives a positive even and a negative odd power.
proof fn lemma_power_signs(d: int, e: nat)
    ensures
        d > 0 ==> power(d, e) > 0,
        d == 0 && e > 0 ==> power(d, e) == 0,
        d < 0 && e % 2 == 0 ==> power(d, e) > 0,
        d < 0 && e % 2 == 1 ==> power(d, e) < 0,
    decreases e,
{
    if e > 0 {
        lemma_power_signs(d, (e - 1) as nat);
        let x = power(d, (e - 1) as nat);
        assert(power(d, e) == d * x);
        assert(d > 0 && x > 0 ==> d * x > 0) by (nonlinear_arith);
        assert(d < 0 && x > 0 ==> d * x < 0) by (nonlinear_arith);
        assert(d < 0 && x < 0 ==> d * x > 0) by (nonlinear_arith);
        assert(d == 0 ==> d * x == 0) by (nonlinear_arith);
    }
}

/// A power of a base of at least one is at least one.
proof fn lemma_power_at_least_one(b: int, e: nat)
    requires
        b >= 1,
    ensures
        power(b, e) >= 1,
    decreases e,
{
    if e > 0 {
        lemma_power_at_least_one(b, (e - 1) as nat);
        let x = power(b, (e - 1) as nat);
        assert(b * x >= 1) by (nonlinear_arith)
            requires
                b >= 1,
                x >= 1,
        ;
    }
}

/// Every peer above `scenario` exceeds it by at least one.
proof fn lemma_excess_covers_count(peers: Seq<i64>, scenario: i64)
    ensures
        excess_sum(peers, scenario) >= count_above(peers, scenario),
    decreases peers.len(),
{
    if peers.len() > 0 {
        lemma_excess_covers_count(peers.drop_last(), scenario);
    }
}

/// The signs of the relative draws: the linear, quadratic and cubic draws
/// have the sign of the difference between the peers' loads and the
/// scenario's; each non-negative variant is its draw with negative values
/// raised to zero; peer pressure always draws; no draw is zero.
pub proof fn law_draw_signs(peers: Seq<i64>, scenario: i64, exp_draw: i64)
    ensures
        ({
            let d = draw_difference(peers, scenario);
            &&& sign(draw_spec(RelativeDrawFunction::Linear, peers, scenario, exp_draw)) == sign(d)
            &&& sign(draw_spec(RelativeDrawFunction::Quadratic, peers, scenario, exp_draw)) == sign(d)
            &&& sign(draw_spec(RelativeDrawFunction::Cubic, peers, scenario, exp_draw)) == sign(d)
        }),
        draw_spec(RelativeDrawFunction::LinearNonNeg, peers, scenario, exp_draw) == non_neg(
            draw_spec(RelativeDrawFunction::Linear, peers, scenario, exp_draw),
        ),
        draw_spec(RelativeDrawFunction::QuadraticNonNeg, peers, scenario, exp_draw) == non_neg(
            draw_spec(RelativeDrawFunction::Quadratic, peers, scenario, exp_draw),
        ),
        draw_spec(RelativeDrawFunction::CubicNonNeg, peers, scenario, exp_draw) == non_neg(
            draw_spec(RelativeDrawFunction::Cubic, peers, scenario, exp_draw),
        ),
        draw_spec(RelativeDrawFunction::ExponentialNonNeg, peers, scenario, exp_draw) == non_neg(
            draw_spec(RelativeDrawFunction::Exponential, peers, scenario, exp_draw),
        ),
        draw_spec(RelativeDrawFunction::PeerPressure, peers, scenario, exp_draw) >= 1,
        draw_spec(RelativeDrawFunction::NoDraw, peers, scenario, exp_draw) == 0,
{
    let d = draw_difference(peers, scenario);
    lemma_power_signs(d, 1);
    lemma_power_signs(d, 2);
    lemma_power_signs(d, 3);
    assert(power(d, 1) == d * power(d, 0));
    lemma_excess_covers_count(peers, scenario);
    let count = count_above(peers, scenario);
    if count > 0 {
        lemma_power_at_least_one(excess_sum(peers, scenario), count);
    }
}

/// The difference-to-maximum slack tops every scenario up to the same
/// amount: its total supply plus its slack is the largest total plus the
/// variant's offset.
pub proof fn law_slack_equalizes(f: SlackFunction, balances: Seq<Matrix<usize>>, i: int)
    requires
        slack_offset(f, balances) is Some,
        0 <= i < balances.len(),
    ensures
        slack_spec(f, balances, i) + balance_total(balances[i]) == max_total(balances) + slack_offset(
            f,
            balances,
        ).unwrap(),
{
}

/// Every difference-to-maximum slack is at least the variant's offset.
pub proof fn law_slack_at_least_offset(f: SlackFunction, balances: Seq<Matrix<usize>>, i: int)
    requires
        slack_offset(f, balances) is Some,
        balances_summable(balances),
        0 <= i < balances.len(),
    ensures
        slack_spec(f, balances, i) >= slack_offset(f, balances).unwrap(),
{
    lemma_total_bounds(balances);
}

impl CostFunction {
    /// The cost of a network whose scenarios have the given costs.
    pub fn apply(&self, costs: &Vec<usize>) -> (c: usize)
        requires
            *self == CostFunction::Mean ==> seq_sum(costs@) <= usize::MAX,
            *self == CostFunction::Median ==> costs@.len() > 0 && sort_seq(costs@)[costs@.len()
                as int / 2] + sort_seq(costs@)[(costs@.len() - 1) / 2] <= usize::MAX,
        ensures
            *self == CostFunction::Max ==> c == seq_max(costs@),
            *self == CostFunction::Mean ==> c == if costs@.len() == 0 {
                0
            } else {
                seq_sum(costs@) / (costs@.len() as int)
            },
            *self == CostFunction::Median ==> c == median(costs@),
            c == cost_of(*self, costs@),
    {
        match self {
            CostFunction::Max => {
                let mut best: usize = usize::MAX;
                let mut k: usize = 0;
                while k < costs.len()
                    invariant
                        k <= costs@.len(),
                        best == seq_max(costs@.take(k as int)),
                    decreases costs@.len() - k,
                {
                    proof {
                        assert(costs@.take(k + 1).drop_last() =~= costs@.take(k as int));
                    }
                    if k == 0 || costs[k] > best {
                        best = costs[k];
                    }
                    k = k + 1;
                }
                proof {
                    assert(costs@.take(costs@.len() as int) =~= costs@);
                }
                best
            },
            CostFunction::Mean => {
                let n = costs.len();
                let mut total: usize = 0;
                let mut k: usize = 0;
                while k < n
                    invariant
                        n == costs@.len(),
                        seq_sum(costs@) <= usize::MAX,
                        k <= n,
                        total == seq_sum(costs@.take(k as int)),
                    decreases n - k,
                {
                    proof {
                        assert(costs@.take(k + 1).drop_last() =~= costs@.take(k as int));
                        crate::matrix::lemma_seq_sum_prefix(costs@, k + 1);
                    }
                    total = total + costs[k];
                    k = k + 1;
                }
                proof {
                    assert(costs@.take(n as int) =~= costs@);
                }
                if n == 0 {
                    0
                } else {
                    total / n
                }
            },
            CostFunction::Median => {
                let sorted = sorted_copy(costs);
                proof {
                    lemma_sort_seq(costs@);
                }
                let n = sorted.len();
                (sorted[n / 2] + sorted[(n - 1) / 2]) / 2
            },
        }
    }
}

/// How far a path may detour: the bound on the length of a path from `s` to
/// `t` as a function of their distance.
#[derive(Debug, Clone, Copy, PartialEq, Eq)]
pub enum DeltaFunction {
    LinearMini,
    LinearLow,
    LinearMedium,
    LinearHigh,
    LogarithmicMini,
    LogarithmicLow,
    LogarithmicMedium,
    LogarithmicHigh,
    Unlimited,
}

/// `x` capped at `usize::MAX`.
pub open spec fn saturate(x: int) -> usize {
    if x > usize::MAX {
        usize::MAX
    } else {
        x as usize
    }
}

/// The detour bound for distance `x`; `log_term` is the rounded-down
/// logarithmic part `⌊k · ln(x + 1)⌋` for the logarithmic variants (scale
/// `k` of 2.5, 5, 10 or 20), which only they read.
pub open spec fn delta_spec(f: DeltaFunction, x: usize, log_term: usize) -> int {
    match f {
        DeltaFunction::LinearMini => saturate(11 * x / 10) as int,
        DeltaFunction::LinearLow => saturate(3 * x / 2) as int,
        DeltaFunction::LinearMedium => saturate(2 * x) as int,
        DeltaFunction::LinearHigh => saturate(3 * x) as int,
        DeltaFunction::Unlimited => usize::MAX as int,
        _ => x + log_term,
    }
}

impl DeltaFunction {
    /// The variant grows with a logarithm of the distance.
    pub open spec fn is_logarithmic(self) -> bool {
        ||| self == DeltaFunction::LogarithmicMini
        ||| self == DeltaFunction::LogarithmicLow
        ||| self == DeltaFunction::LogarithmicMedium
        ||| self == DeltaFunction::LogarithmicHigh
    }

    /// The longest path allowed between two vertices at distance `x`.
    /// The linear variants scale `x` by 1.1, 1.5, 2 and 3 and round down,
    /// saturating at `usize::MAX`; the logarithmic ones add `log_term`, the
    /// rounded-down `k · ln(x + 1)` for their scale `k` (2.5, 5, 10, 20).
    pub fn apply(&self, x: usize, log_term: usize) -> (d: usize)
        requires
            self.is_logarithmic() ==> x + log_term <= usize::MAX,
        ensures
            d == delta_spec(*self, x, log_term),
    {
        let wide = x as u128;
        let scaled: u128 = match self {
            DeltaFunction::LinearMini => 11 * wide / 10,
            DeltaFunction::LinearLow => 3 * wide / 2,
            DeltaFunction::LinearMedium => 2 * wide,
            DeltaFunction::LinearHigh => 3 * wide,
            DeltaFunction::Unlimited => {
                return usize::MAX;
            },
            _ => {
                return x + log_term;
            },
        };
        if scaled > usize::MAX as u128 {
            usize::MAX
        } else {
            scaled as usize
        }
    }
}

/// How strongly supply is drawn towards the fixed arcs that other scenarios
/// already load more.
#[derive(Debug, Clone, Copy, PartialEq, Eq)]
pub enum RelativeDrawFunction {
    NoDraw,
    Linear,
    LinearNonNeg,
    Quadratic,
    QuadraticNonNeg,
    Cubic,
    CubicNonNeg,
    Exponential,
    ExponentialNonNeg,
    PeerPressure,
}

/// The sum of a sequence of integers.
pub open spec fn sum_i64(s: Seq<i64>) -> int
    decreases s.len(),
{
    if s.len() == 0 {
        0
    } else {
        sum_i64(s.drop_last()) + s.last()
    }
}

/// `b` to the power `e`.
pub open spec fn power(b: int, e: nat) -> int
    decreases e,
{
    if e == 0 {
        1
    } else {
        b * power(b, (e - 1) as nat)
    }
}

/// How much more the peers load an arc than this scenario:
/// `Σ peers - |peers| · scenario`.
pub open spec fn draw_difference(peers: Seq<i64>, scenario: i64) -> int {
    sum_i64(peers) - peers.len() * scenario
}

/// The sign of `d` times `|d|^e`: the difference raised to `e` without ever
/// turning a repulsion into an attraction.
pub open spec fn signed_power(d: int, e: nat) -> int {
    if d < 0 && e % 2 == 0 {
        -power(d, e)
    } else {
        power(d, e)
    }
}

/// The sum of the amounts by which each peer exceeds `scenario`.
pub open spec fn excess_sum(peers: Seq<i64>, scenario: i64) -> int
    decreases peers.len(),
{
    if peers.len() == 0 {
        0
    } else {
        excess_sum(peers.drop_last(), scenario) + if peers.last() > scenario {
            peers.last() - scenario
        } else {
            0
        }
    }
}

/// The number of peers that exceed `scenario`.
pub open spec fn count_above(peers: Seq<i64>, scenario: i64) -> nat
    decreases peers.len(),
{
    if peers.len() == 0 {
        0
    } else {
        count_above(peers.drop_last(), scenario) + if peers.last() > scenario {
            1nat
        } else {
            0nat
        }
    }
}

/// The value of a 64-bit signed integer.
pub open spec fn fits_i64(x: int) -> bool {
    i64::MIN <= x <= i64::MAX
}

/// `x` where it is positive, zero elsewhere.
pub open spec fn non_neg(x: int) -> int {
    if x < 0 {
        0
    } else {
        x
    }
}

/// The relative draw; `exp_draw` is the exponential draw of the difference
/// (`e^d` rounded toward zero, saturating, with the sign of `d`), which only
/// the exponential variants read.
pub open spec fn draw_spec(f: RelativeDrawFunction, peers: Seq<i64>, scenario: i64, exp_draw: i64) -> int {
    let d = draw_difference(peers, scenario);
    match f {
        RelativeDrawFunction::NoDraw => 0,
        RelativeDrawFunction::Linear => signed_power(d, 1),
        RelativeDrawFunction::LinearNonNeg => non_neg(signed_power(d, 1)),
        RelativeDrawFunction::Quadratic => signed_power(d, 2),
        RelativeDrawFunction::QuadraticNonNeg => non_neg(signed_power(d, 2)),
        RelativeDrawFunction::Cubic => signed_power(d, 3),
        RelativeDrawFunction::CubicNonNeg => non_neg(signed_power(d, 3)),
        RelativeDrawFunction::Exponential => exp_draw as int,
        RelativeDrawFunction::ExponentialNonNeg => non_neg(exp_draw as int),
        RelativeDrawFunction::PeerPressure => power(
            excess_sum(peers, scenario),
            count_above(peers, scenario),
        ),
    }
}

/// The prefix sums of `peers` and the difference all fit in an `i64`.
pub open spec fn difference_fits(peers: Seq<i64>, scenario: i64) -> bool {
    &&& peers.len() <= i64::MAX
    &&& forall|k: int| 0 <= k <= peers.len() ==> #[trigger] fits_i64(sum_i64(peers.take(k)))
    &&& fits_i64(peers.len() * scenario)
    &&& fits_i64(draw_difference(peers, scenario))
}

/// The excess of every peer, their prefix sums and the final power fit in
/// an `i64`.
pub open spec fn pressure_fits(peers: Seq<i64>, scenario: i64) -> bool {
    &&& peers.len() <= u32::MAX
    &&& forall|k: int| 0 <= k < peers.len() ==> #[trigger] fits_i64(peers[k] - scenario)
    &&& forall|k: int| 0 <= k <= peers.len() ==> #[trigger] fits_i64(excess_sum(peers.take(k), scenario))
    &&& fits_i64(power(excess_sum(peers, scenario), count_above(peers, scenario)))
}

/// The inputs on which the draw computes without overflow.
pub open spec fn draw_fits(f: RelativeDrawFunction, peers: Seq<i64>, scenario: i64) -> bool {
    match f {
        RelativeDrawFunction::NoDraw => true,
        RelativeDrawFunction::Exponential => true,
        RelativeDrawFunction::ExponentialNonNeg => true,
        RelativeDrawFunction::PeerPressure => pressure_fits(peers, scenario),
        RelativeDrawFunction::Linear => difference_fits(peers, scenario),
        RelativeDrawFunction::LinearNonNeg => difference_fits(peers, scenario),
        RelativeDrawFunction::Quadratic => difference_fits(peers, scenario) && fits_i64(
            power(draw_difference(peers, scenario), 2),
        ),
        RelativeDrawFunction::QuadraticNonNeg => difference_fits(peers, scenario) && fits_i64(
            power(draw_difference(peers, scenario), 2),
        ),
        RelativeDrawFunction::Cubic => difference_fits(peers, scenario) && fits_i64(
            power(draw_difference(peers, scenario), 3),
        ),
        RelativeDrawFunction::CubicNonNeg => difference_fits(peers, scenario) && fits_i64(
            power(draw_difference(peers, scenario), 3),
        ),
    }
}

/// The absolute value.
pub open spec fn magnitude(x: int) -> int {
    if x < 0 {
        -x
    } else {
        x
    }
}

/// Raising a non-zero base to a higher power never shrinks the magnitude.
proof fn lemma_power_magnitude(b: int, t: nat, e: nat)
    requires
        b != 0,
        t <= e,
    ensures
        magnitude(power(b, t)) <= magnitude(power(b, e)),
    decreases e - t,
{
    if t < e {
        lemma_power_magnitude(b, t, (e - 1) as nat);
        let x = power(b, (e - 1) as nat);
        assert(power(b, e) == b * x);
        assert(magnitude(x) <= magnitude(b * x)) by (nonlinear_arith)
            requires
                b != 0,
        ;
    }
}

/// `b` to the power `e`, computed by repeated multiplication.
fn int_pow(b: i64, e: u32) -> (r: i64)
    requires
        fits_i64(power(b as int, e as nat)),
    ensures
        r == power(b as int, e as nat),
{
    let wide = b as i128;
    let mut acc: i128 = 1;
    let mut t: u32 = 0;
    while t < e
        invariant
            t <= e,
            wide == b,
            fits_i64(power(b as int, e as nat)),
            acc == power(b as int, t as nat),
            magnitude(acc as int) <= 0x8000_0000_0000_0000,
        decreases e - t,
    {
        proof {
            assert(power(b as int, (t + 1) as nat) == b * power(b as int, t as nat));
            assert(magnitude(acc * wide) <= 0x8000_0000_0000_0000int * 0x8000_0000_0000_0000int)
                by (nonlinear_arith)
                requires
                    magnitude(acc as int) <= 0x8000_0000_0000_0000,
                    magnitude(wide as int) <= 0x8000_0000_0000_0000,
            ;
            if b != 0 {
                lemma_power_magnitude(b as int, (t + 1) as nat, e as nat);
            } else {
                assert(power(b as int, (t + 1) as nat) == 0);
            }
        }
        acc = acc * wide;
        t = t + 1;
    }
    acc as i64
}

/// The sum of `peers` as an `i64`.
fn sum_peers(peers: &[i64]) -> (total: i64)
    requires
        forall|k: int| 0 <= k <= peers@.len() ==> #[trigger] fits_i64(sum_i64(peers@.take(k))),
    ensures
        total == sum_i64(peers@),
{
    let mut total: i64 = 0;
    let mut k: usize = 0;
    while k < peers.len()
        invariant
            k <= peers@.len(),
            forall|j: int| 0 <= j <= peers@.len() ==> #[trigger] fits_i64(sum_i64(peers@.take(j))),
            total == sum_i64(peers@.take(k as int)),
        decreases peers@.len() - k,
    {
        proof {
            assert(peers@.take(k + 1).drop_last() =~= peers@.take(k as int));
            assert(fits_i64(sum_i64(peers@.take(k + 1))));
        }
        total = total + peers[k];
        k = k + 1;
    }
    proof {
        assert(peers@.take(peers@.len() as int) =~= peers@);
    }
    total
}

/// Whether `b` to the power `e` fits in an `i64`.
fn power_fits(b: i64, e: u32) -> (r: bool)
    ensures
        r == fits_i64(power(b as int, e as nat)),
{
    let wide = b as i128;
    let mut acc: i128 = 1;
    let mut t: u32 = 0;
    while t < e
        invariant
            t <= e,
            wide == b,
            acc == power(b as int, t as nat),
            magnitude(acc as int) <= 0x8000_0000_0000_0000int * 0x8000_0000_0000_0000int,
        decreases e - t,
    {
        if acc > 0x8000_0000_0000_0000i128 || acc < -0x8000_0000_0000_0000i128 {
            proof {
                assert(b != 0) by {
                    if b == 0 {
                        if t > 0 {
                            assert(power(0, t as nat) == 0 * power(0, (t - 1) as nat));
                        }
                    }
                }
                lemma_power_magnitude(b as int, t as nat, e as nat);
            }
            return false;
        }
        proof {
            assert(power(b as int, (t + 1) as nat) == b * power(b as int, t as nat));
            assert(magnitude(acc * wide) <= 0x8000_0000_0000_0000int * 0x8000_0000_0000_0000int)
                by (nonlinear_arith)
                requires
                    magnitude(acc as int) <= 0x8000_0000_0000_0000,
                    magnitude(wide as int) <= 0x8000_0000_0000_0000,
            ;
        }
        acc = acc * wide;
        t = t + 1;
    }
    i64::MIN as i128 <= acc && acc <= i64::MAX as i128
}

/// Whether the difference of the peers to the scenario computes without
/// overflow.
fn difference_fits_check(peers: &[i64], scenario: i64) -> (r: Option<i64>)
    ensures
        r is Some <==> difference_fits(peers@, scenario),
        r matches Some(d) ==> d == draw_difference(peers@, scenario),
{
    if peers.len() as u128 > i64::MAX as u128 {
        return None;
    }
    let mut total: i128 = 0;
    let mut k: usize = 0;
    while k < peers.len()
        invariant
            k <= peers@.len(),
            total == sum_i64(peers@.take(k as int)),
            forall|j: int| 0 <= j <= k ==> #[trigger] fits_i64(sum_i64(peers@.take(j))),
        decreases peers@.len() - k,
    {
        proof {
            assert(peers@.take(k + 1).drop_last() =~= peers@.take(k as int));
            assert(fits_i64(sum_i64(peers@.take(k as int))));
        }
        total = total + peers[k] as i128;
        k = k + 1;
        if total < i64::MIN as i128 || total > i64::MAX as i128 {
            proof {
                assert(!fits_i64(sum_i64(peers@.take(k as int))));
            }
            return None;
        }
    }
    proof {
        assert(peers@.take(k as int) =~= peers@);
        assert(fits_i64(sum_i64(peers@.take(k as int))));
        let len = peers@.len() as int;
        assert(-0x8000_0000_0000_0000int * 0x8000_0000_0000_0000int <= len * scenario
            <= 0x8000_0000_0000_0000int * 0x8000_0000_0000_0000int) by (nonlinear_arith)
            requires
                0 <= len <= i64::MAX,
                i64::MIN <= scenario <= i64::MAX,
        ;
    }
    let product = peers.len() as i128 * scenario as i128;
    if product < i64::MIN as i128 || product > i64::MAX as i128 {
        return None;
    }
    let difference = total - product;
    if difference < i64::MIN as i128 || difference > i64::MAX as i128 {
        return None;
    }
    Some(difference as i64)
}

/// Whether the peer pressure computes without overflow.
fn pressure_fits_check(peers: &[i64], scenario: i64) -> (r: bool)
    ensures
        r == pressure_fits(peers@, scenario),
{
    if peers.len() as u128 > u32::MAX as u128 {
        return false;
    }
    let mut total: i128 = 0;
    let mut m: u32 = 0;
    let mut k: usize = 0;
    while k < peers.len()
        invariant
            k <= peers@.len(),
            peers@.len() <= u32::MAX,
            total == excess_sum(peers@.take(k as int), scenario),
            m == count_above(peers@.take(k as int), scenario),
            m <= k,
            forall|j: int| 0 <= j < k ==> #[trigger] fits_i64(peers@[j] - scenario),
            forall|j: int| 0 <= j <= k ==> #[trigger] fits_i64(excess_sum(peers@.take(j), scenario)),
        decreases peers@.len() - k,
    {
        proof {
            assert(peers@.take(k + 1).drop_last() =~= peers@.take(k as int));
            assert(peers@.take(k + 1).last() == peers@[k as int]);
            assert(fits_i64(excess_sum(peers@.take(k as int), scenario)));
        }
        let excess = peers[k] as i128 - scenario as i128;
        if excess < i64::MIN as i128 || excess > i64::MAX as i128 {
            proof {
                assert(!fits_i64(peers@[k as int] - scenario));
            }
            return false;
        }
        if excess > 0 {
            total = total + excess;
            m = m + 1;
        }
        k = k + 1;
        if total < i64::MIN as i128 || total > i64::MAX as i128 {
            proof {
                assert(!fits_i64(excess_sum(peers@.take(k as int), scenario)));
            }
            return false;
        }
    }
    proof {
        assert(peers@.take(k as int) =~= peers@);
        assert(fits_i64(excess_sum(peers@.take(k as int), scenario)));
    }
    power_fits(total as i64, m)
}

impl RelativeDrawFunction {
    /// The draw of a fixed arc on which this scenario has `scenario` supply
    /// waiting and its peers have `peers`; `exp_draw` is the exponential draw
    /// of the difference, read by the exponential variants only.
    pub fn apply(&self, peers: &[i64], scenario: i64, exp_draw: i64) -> (r: i64)
        requires
            draw_fits(*self, peers@, scenario),
        ensures
            r == draw_spec(*self, peers@, scenario, exp_draw),
    {
        proof {
            let d = draw_difference(peers@, scenario);
            assert(power(d, 0) == 1);
            assert(power(d, 1) == d);
        }
        match self {
            RelativeDrawFunction::NoDraw => 0,
            RelativeDrawFunction::Linear => Self::to_power(peers, scenario, 1),
            RelativeDrawFunction::LinearNonNeg => {
                let d = Self::to_power(peers, scenario, 1);
                if d < 0 {
                    0
                } else {
                    d
                }
            },
            RelativeDrawFunction::Quadratic => Self::to_power(peers, scenario, 2),
            RelativeDrawFunction::QuadraticNonNeg => {
                let d = Self::to_power(peers, scenario, 2);
                if d < 0 {
                    0
                } else {
                    d
                }
            },
            RelativeDrawFunction::Cubic => Self::to_power(peers, scenario, 3),
            RelativeDrawFunction::CubicNonNeg => {
                let d = Self::to_power(peers, scenario, 3);
                if d < 0 {
                    0
                } else {
                    d
                }
            },
            RelativeDrawFunction::Exponential => exp_draw,
            RelativeDrawFunction::ExponentialNonNeg => {
                if exp_draw < 0 {
                    0
                } else {
                    exp_draw
                }
            },
            RelativeDrawFunction::PeerPressure => Self::peer_pressure(peers, scenario),
        }
    }

    /// Whether the draw of a fixed arc with these loads computes without
    /// overflow, i.e. whether `apply` may be called on them.
    pub fn fits(&self, peers: &[i64], scenario: i64) -> (r: bool)
        ensures
            r == draw_fits(*self, peers@, scenario),
    {
        match self {
            RelativeDrawFunction::NoDraw => true,
            RelativeDrawFunction::Exponential => true,
            RelativeDrawFunction::ExponentialNonNeg => true,
            RelativeDrawFunction::PeerPressure => pressure_fits_check(peers, scenario),
            RelativeDrawFunction::Linear => difference_fits_check(peers, scenario).is_some(),
            RelativeDrawFunction::LinearNonNeg => difference_fits_check(peers, scenario).is_some(),
            RelativeDrawFunction::Quadratic | RelativeDrawFunction::QuadraticNonNeg => {
                match difference_fits_check(peers, scenario) {
                    Some(d) => power_fits(d, 2),
                    None => false,
                }
            },
            RelativeDrawFunction::Cubic | RelativeDrawFunction::CubicNonNeg => {
                match difference_fits_check(peers, scenario) {
                    Some(d) => power_fits(d, 3),
                    None => false,
                }
            },
        }
    }

    /// The difference raised to `e`, keeping its sign.
    fn to_power(peers: &[i64], scenario: i64, e: u32) -> (r: i64)
        requires
            difference_fits(peers@, scenario),
            fits_i64(power(draw_difference(peers@, scenario), e as nat)),
        ensures
            r == signed_power(draw_difference(peers@, scenario), e as nat),
    {
        let waiting_at_peers = sum_peers(peers);
        let len = peers.len() as i64;
        let difference = waiting_at_peers - len * scenario;
        let draw = int_pow(difference, e);
        if difference < 0 && e % 2 == 0 {
            proof {
                lemma_even_power_non_neg(difference as int, e as nat);
            }
            -draw
        } else {
            draw
        }
    }

    /// The summed excess of the peers over this scenario, raised to the
    /// number of peers that exceed it.
    fn peer_pressure(peers: &[i64], scenario: i64) -> (r: i64)
        requires
            pressure_fits(peers@, scenario),
        ensures
            r == power(excess_sum(peers@, scenario), count_above(peers@, scenario)),
    {
        let mut m: u32 = 0;
        let mut total: i64 = 0;
        let mut k: usize = 0;
        while k < peers.len()
            invariant
                k <= peers@.len(),
                pressure_fits(peers@, scenario),
                total == excess_sum(peers@.take(k as int), scenario),
                m == count_above(peers@.take(k as int), scenario),
                m <= k,
            decreases peers@.len() - k,
        {
            proof {
                assert(peers@.take(k + 1).drop_last() =~= peers@.take(k as int));
                assert(fits_i64(excess_sum(peers@.take(k + 1), scenario)));
                assert(fits_i64(peers@[k as int] - scenario));
            }
            let excess = peers[k] - scenario;
            if excess > 0 {
                total = total + excess;
                m = m + 1;
            }
            k = k + 1;
        }
        proof {
            assert(peers@.take(peers@.len() as int) =~= peers@);
        }
        int_pow(total, m)
    }
}

/// An even power is never negative.
proof fn lemma_even_power_non_neg(d: int, e: nat)
    requires
        e % 2 == 0,
    ensures
        power(d, e) >= 0,
    decreases e,
{
    if e >= 2 {
        lemma_even_power_non_neg(d, (e - 2) as nat);
        let x = power(d, (e - 2) as nat);
        assert(power(d, (e - 1) as nat) == d * x);
        assert(power(d, e) == d * power(d, (e - 1) as nat));
        assert(d * (d * x) >= 0) by (nonlinear_arith)
            requires
                x >= 0,
        ;
    }
}

/// How much slack each scenario gets: the amount of supply it may route
/// over fixed arcs beyond what the others route there.
#[allow(non_camel_case_types)]
#[derive(Debug, Clone, Copy, PartialEq, Eq)]
pub enum SlackFunction {
    Const_10,
    Const_100,
    Const_1000,
    Unlimited,
    BalanceMin,
    DifferenceToMax,
    DifferenceToMaxPlusMin,
    DifferenceToMaxPlus_10,
    DifferenceToMaxPlus_100,
    DifferenceToMaxPlus_1000,
}

/// The total supply of a scenario.
pub open spec fn balance_total(b: Matrix<usize>) -> int {
    seq_sum(b.cells())
}

/// The largest total supply, zero when there are no scenarios.
pub open spec fn max_total(balances: Seq<Matrix<usize>>) -> int
    decreases balances.len(),
{
    if balances.len() == 0 {
        0
    } else {
        let rest = max_total(balances.drop_last());
        let last = balance_total(balances.last());
        if balances.len() == 1 || last > rest {
            last
        } else {
            rest
        }
    }
}

/// The smallest total supply, zero when there are no scenarios.
pub open spec fn min_total(balances: Seq<Matrix<usize>>) -> int
    decreases balances.len(),
{
    if balances.len() == 0 {
        0
    } else {
        let rest = min_total(balances.drop_last());
        let last = balance_total(balances.last());
        if balances.len() == 1 || last < rest {
            last
        } else {
            rest
        }
    }
}

/// The offset that a difference-to-maximum variant adds; `None` for the
/// other variants.
pub open spec fn slack_offset(f: SlackFunction, balances: Seq<Matrix<usize>>) -> Option<int> {
    match f {
        SlackFunction::DifferenceToMax => Some(0),
        SlackFunction::DifferenceToMaxPlusMin => Some(min_total(balances)),
        SlackFunction::DifferenceToMaxPlus_10 => Some(10),
        SlackFunction::DifferenceToMaxPlus_100 => Some(100),
        SlackFunction::DifferenceToMaxPlus_1000 => Some(1000),
        _ => None,
    }
}

/// The slack of scenario `i`.
pub open spec fn slack_spec(f: SlackFunction, balances: Seq<Matrix<usize>>, i: int) -> int {
    match f {
        SlackFunction::Const_10 => 10,
        SlackFunction::Const_100 => 100,
        SlackFunction::Const_1000 => 1000,
        SlackFunction::Unlimited => usize::MAX as int,
        SlackFunction::BalanceMin => min_total(balances),
        _ => max_total(balances) - balance_total(balances[i]) + slack_offset(f, balances).unwrap(),
    }
}

/// Every scenario is a well-formed matrix whose total supply fits in a
/// `usize`.
pub open spec fn balances_summable(balances: Seq<Matrix<usize>>) -> bool {
    forall|i: int|
        0 <= i < balances.len() ==> (#[trigger] balances[i]).wf() && balance_total(balances[i])
            <= usize::MAX
}

/// The largest total is one of the totals and no total exceeds it; the same
/// for the smallest.
pub proof fn lemma_total_bounds(balances: Seq<Matrix<usize>>)
    requires
        balances_summable(balances),
    ensures
        0 <= min_total(balances) <= usize::MAX,
        0 <= max_total(balances) <= usize::MAX,
        forall|i: int|
            0 <= i < balances.len() ==> min_total(balances) <= #[trigger] balance_total(balances[i])
                <= max_total(balances),
    decreases balances.len(),
{
    if balances.len() > 0 {
        let rest = balances.drop_last();
        assert(balances_summable(rest)) by {
            assert forall|i: int| 0 <= i < rest.len() implies (#[trigger] rest[i]).wf()
                && balance_total(rest[i]) <= usize::MAX by {
                assert(rest[i] == balances[i]);
            }
        }
        lemma_total_bounds(rest);
        crate::matrix::lemma_seq_sum_nonneg(balances.last().cells());
        assert forall|i: int| 0 <= i < balances.len() implies min_total(balances)
            <= #[trigger] balance_total(balances[i]) <= max_total(balances) by {
            if i < balances.len() - 1 {
                assert(balances[i] == rest[i]);
            }
        }
    }
}

impl SlackFunction {
    /// The variant depends on the total supplies of the scenarios.
    pub open spec fn sums_balances(self) -> bool {
        !(self == SlackFunction::Const_10 || self == SlackFunction::Const_100 || self
            == SlackFunction::Const_1000 || self == SlackFunction::Unlimited)
    }

    /// The slack of every scenario.
    pub fn apply(&self, balances: &[Matrix<usize>]) -> (slack: Vec<usize>)
        requires
            self.sums_balances() ==> balances_summable(balances@),
            slack_offset(*self, balances@) matches Some(offset) ==> max_total(balances@) + offset
                <= usize::MAX + min_total(balances@),
        ensures
            slack@.len() == balances@.len(),
            forall|i: int|
                0 <= i < balances@.len() ==> #[trigger] slack@[i] == slack_spec(
                    *self,
                    balances@,
                    i,
                ),
    {
        proof {
            if self.sums_balances() {
                lemma_total_bounds(balances@);
            }
        }
        match self {
            SlackFunction::Const_10 => Self::constant(10, balances.len()),
            SlackFunction::Const_100 => Self::constant(100, balances.len()),
            SlackFunction::Const_1000 => Self::constant(1000, balances.len()),
            SlackFunction::Unlimited => Self::constant(usize::MAX, balances.len()),
            SlackFunction::BalanceMin => Self::constant(Self::min_balance(balances), balances.len()),
            SlackFunction::DifferenceToMax => Self::differences(balances, 0),
            SlackFunction::DifferenceToMaxPlusMin => {
                let m = Self::min_balance(balances);
                Self::differences(balances, m)
            },
            SlackFunction::DifferenceToMaxPlus_10 => Self::differences(balances, 10),
            SlackFunction::DifferenceToMaxPlus_100 => Self::differences(balances, 100),
            SlackFunction::DifferenceToMaxPlus_1000 => Self::differences(balances, 1000),
        }
    }

    fn constant(value: usize, n: usize) -> (v: Vec<usize>)
        ensures
            v@.len() == n,
            forall|i: int| 0 <= i < n ==> #[trigger] v@[i] == value,
    {
        let mut v: Vec<usize> = Vec::new();
        let mut k: usize = 0;
        while k < n
            invariant
                k <= n,
                v@.len() == k,
                forall|i: int| 0 <= i < k ==> #[trigger] v@[i] == value,
            decreases n - k,
        {
            v.push(value);
            k = k + 1;
        }
        v
    }

    /// The smallest total supply of a scenario, zero without scenarios.
    fn min_balance(balances: &[Matrix<usize>]) -> (m: usize)
        requires
            balances_summable(balances@),
        ensures
            m == min_total(balances@),
    {
        let mut m: usize = 0;
        let mut k: usize = 0;
        while k < balances.len()
            invariant
                k <= balances@.len(),
                balances_summable(balances@),
                m == min_total(balances@.take(k as int)),
            decreases balances@.len() - k,
        {
            proof {
                assert(balances@.take(k + 1).drop_last() =~= balances@.take(k as int));
                assert(balances@[k as int].wf());
            }
            let total = balances[k].sum();
            if k == 0 || total < m {
                m = total;
            }
            k = k + 1;
        }
        proof {
            assert(balances@.take(balances@.len() as int) =~= balances@);
        }
        m
    }

    /// The largest total supply of a scenario, zero without scenarios.
    fn max_balance(balances: &[Matrix<usize>]) -> (m: usize)
        requires
            balances_summable(balances@),
        ensures
            m == max_total(balances@),
    {
        let mut m: usize = 0;
        let mut k: usize = 0;
        while k < balances.len()
            invariant
                k <= balances@.len(),
                balances_summable(balances@),
                m == max_total(balances@.take(k as int)),
            decreases balances@.len() - k,
        {
            proof {
                assert(balances@.take(k + 1).drop_last() =~= balances@.take(k as int));
                assert(balances@[k as int].wf());
            }
            let total = balances[k].sum();
            if k == 0 || total > m {
                m = total;
            }
            k = k + 1;
        }
        proof {
            assert(balances@.take(balances@.len() as int) =~= balances@);
        }
        m
    }

    /// For each scenario, how much less supply it has than the largest one,
    /// plus `offset`.
    fn differences(balances: &[Matrix<usize>], offset: usize) -> (v: Vec<usize>)
        requires
            balances_summable(balances@),
            max_total(balances@) + offset <= usize::MAX + min_total(balances@),
        ensures
            v@.len() == balances@.len(),
            forall|i: int|
                0 <= i < balances@.len() ==> #[trigger] v@[i] == max_total(balances@)
                    - balance_total(balances@[i]) + offset,
    {
        proof {
            lemma_total_bounds(balances@);
        }
        let max = Self::max_balance(balances);
        let mut v: Vec<usize> = Vec::new();
        let mut k: usize = 0;
        while k < balances.len()
            invariant
                k <= balances@.len(),
                balances_summable(balances@),
                max == max_total(balances@),
                max_total(balances@) + offset <= usize::MAX + min_total(balances@),
                forall|i: int|
                    0 <= i < balances@.len() ==> min_total(balances@) <= #[trigger] balance_total(
                        balances@[i],
                    ) <= max_total(balances@),
                v@.len() == k,
                forall|i: int|
                    0 <= i < k ==> #[trigger] v@[i] == max_total(balances@) - balance_total(
                        balances@[i],
                    ) + offset,
            decreases balances@.len() - k,
        {
            proof {
                assert(balances@[k as int].wf());
                assert(min_total(balances@) <= balance_total(balances@[k as int]));
            }
            let total = balances[k].sum();
            v.push(max - total + offset);
            k = k + 1;
        }
        v
    }
}

/// How the supply that the greedy pass leaves undelivered is routed.
#[derive(Debug, Clone, Copy, PartialEq, Eq)]
pub enum RemainderSolveMethod {
    Skip,
    Greedy,
    Gurobi,
    Ilp,
}

impl RemainderSolveMethod {
    /// What the method did with the supply, as a sentence.
    pub open spec fn spec_description(self) -> Seq<char> {
        match self {
            RemainderSolveMethod::Skip => "Only relevant (s, t) pairs were considered in the greedy solution. The remainder of the network has not been solved."@,
            RemainderSolveMethod::Greedy => "The entire network was solved greedily."@,
            RemainderSolveMethod::Gurobi => "Only relevant (s, t) pairs were considered in the greedy solution. The remainder of the network has been solved via an ILP."@,
            RemainderSolveMethod::Ilp => "The entire network has been solved via ILP."@,
        }
    }

    /// What the method did with the supply, as a sentence.
    pub fn description(&self) -> (d: String)
        ensures
            d@ == self.spec_description(),
    {
        match self {
            RemainderSolveMethod::Skip => String::from_str(
                "Only relevant (s, t) pairs were considered in the greedy solution. The remainder of the network has not been solved.",
            ),
            RemainderSolveMethod::Greedy => String::from_str("The entire network was solved greedily."),
            RemainderSolveMethod::Gurobi => String::from_str(
                "Only relevant (s, t) pairs were considered in the greedy solution. The remainder of the network has been solved via an ILP.",
            ),
            RemainderSolveMethod::Ilp => String::from_str("The entire network has been solved via ILP."),
        }
    }
}

/// The solver's configuration.
#[derive(Debug, Clone, Copy, PartialEq, Eq)]
pub struct Options {
    pub cost_fn: CostFunction,
    pub delta_fn: DeltaFunction,
    pub relative_draw_fn: RelativeDrawFunction,
    pub slack_fn: SlackFunction,
    pub remainder_solve_method: RemainderSolveMethod,
}

impl Default for Options {
    fn default() -> (o: Self)
        ensures
            o == (Options {
                cost_fn: CostFunction::Max,
                delta_fn: DeltaFunction::LinearMedium,
                relative_draw_fn: RelativeDrawFunction::Linear,
                slack_fn: SlackFunction::DifferenceToMax,
                remainder_solve_method: RemainderSolveMethod::Skip,
            }),
    {
        Options {
            cost_fn: CostFunction::Max,
            delta_fn: DeltaFunction::LinearMedium,
            relative_draw_fn: RelativeDrawFunction::Linear,
            slack_fn: SlackFunction::DifferenceToMax,
            remainder_solve_method: RemainderSolveMethod::Skip,
        }
    }
}

/// The constant slack functions give every scenario the same fixed
/// budget, whatever its supply: 10, 100 or 1000 units, and the unlimited
/// one `usize::MAX`.
pub proof fn law_constant_slacks(balances: Seq<Matrix<usize>>, i: int, j: int)
    ensures
        slack_spec(SlackFunction::Const_10, balances, i) == 10,
        slack_spec(SlackFunction::Const_100, balances, i) == 100,
        slack_spec(SlackFunction::Const_1000, balances, i) == 1000,
        slack_spec(SlackFunction::Unlimited, balances, i) == usize::MAX,
        slack_spec(SlackFunction::Const_1000, balances, i) == 10 * slack_spec(SlackFunction::Const_100, balances, j),
        slack_spec(SlackFunction::Const_100, balances, i) == 10 * slack_spec(SlackFunction::Const_10, balances, j),
{
}

} // verus!
