use robmcf_greedy::algorithms::{floyd_warshall, invert_predecessors, shortest_path};
use robmcf_greedy::network::default_true;
use robmcf_greedy::preprocessing::generate_intermediate_arc_sets;
use robmcf_greedy::solution::{measures_fit, network_measures, ScenarioSolution};
use robmcf_greedy::{
    CostFunction, DeltaFunction, Matrix, Network, Options, RelativeDrawFunction, Vertex,
};

fn vertex(name: &str) -> Vertex {
    Vertex { name: name.to_string(), is_station: default_true() }
}

fn solution(id: usize, slack: usize, loads: Vec<usize>) -> ScenarioSolution {
    ScenarioSolution {
        id,
        slack,
        supply_remaining: Matrix::filled_with(0, 3, 3),
        arc_loads: Matrix::from_elements(&loads, 3, 3),
    }
}

/// A triangle with one fixed arc (1, 2), two scenarios of two units each,
/// solutions of cost 4 and 3 and a lower bound of cost 10 and 6.
fn solved() -> Network {
    Network {
        vertices: vec![vertex("a"), vertex("b"), vertex("c")],
        capacities: Matrix::from_elements(&vec![0, 5, 1, 0, 0, 5, 5, 0, 0], 3, 3),
        costs: Matrix::from_elements(&vec![0, 1, 5, 0, 0, 1, 1, 0, 0], 3, 3),
        balances: vec![
            Matrix::from_elements(&vec![0, 0, 2, 0, 0, 0, 0, 0, 0], 3, 3),
            Matrix::from_elements(&vec![0, 1, 1, 0, 0, 0, 0, 0, 0], 3, 3),
        ],
        fixed_arcs: vec![(1, 2)],
        baseline: Some(vec![
            solution(0, 0, vec![0, 0, 2, 0, 0, 0, 0, 0, 0]),
            solution(1, 0, vec![0, 1, 1, 0, 0, 0, 0, 0, 0]),
        ]),
        solutions: Some(vec![
            solution(0, 0, vec![0, 2, 0, 0, 0, 2, 0, 0, 0]),
            solution(1, 1, vec![0, 2, 0, 0, 0, 1, 0, 0, 0]),
        ]),
        auxiliary_network: None,
        options: Options::default(),
    }
}

#[test]
fn measures_of_a_solved_network() {
    let n = solved();
    assert!(measures_fit(&n));
    let m = network_measures(&n);
    assert_eq!(m.vertex_count, 3);
    assert_eq!(m.num_scenarios, 2);
    assert_eq!(m.num_fixed_arcs, 1);
    // the least load on (1, 2) is 1; the lower bound leaves it empty
    assert_eq!(m.consistent_flows_total, 1);
    assert_eq!(m.consistent_flows_gain, Some(1));
    // cost under Max: lower bound 10, solution 4
    assert_eq!(m.benefit, 6);
    assert_eq!((m.supply_min, m.supply_avg, m.supply_max), (2, 2, 2));
    assert_eq!((m.slack_min, m.slack_avg, m.slack_max), (0, 0, 1));
    assert_eq!((m.cost_max, m.cost_mean, m.cost_median), (4, 3, 3));
    assert_eq!(m.lower_bound_max, Some(10));
    assert_eq!(m.lower_bound_mean, Some(8));
    assert_eq!(m.lower_bound_median, Some(8));
}

#[test]
fn measures_without_solutions() {
    let mut n = solved();
    n.solutions = None;
    n.baseline = None;
    n.fixed_arcs = vec![(7, 7)];
    assert!(measures_fit(&n));
    let m = network_measures(&n);
    assert_eq!(m.consistent_flows_total, 0);
    assert_eq!(m.consistent_flows_gain, None);
    assert_eq!(m.benefit, 0);
    assert_eq!((m.cost_max, m.cost_mean, m.cost_median), (0, 0, 0));
    assert_eq!((m.slack_min, m.slack_avg, m.slack_max), (0, 0, 0));
    assert_eq!(m.lower_bound_max, None);
}

#[test]
fn measures_that_cannot_be_taken() {
    let mut n = solved();
    n.balances = vec![];
    assert!(!measures_fit(&n));
    let mut n = solved();
    n.solutions = Some(vec![]);
    assert!(!measures_fit(&n));
    let mut n = solved();
    n.costs.set(0, 1, usize::MAX);
    assert!(!measures_fit(&n));
    let mut n = solved();
    n.fixed_arcs = vec![(1, 3)];
    assert!(!measures_fit(&n));
}

#[test]
fn cost_functions_ignore_order_and_stay_between_extremes() {
    let costs = vec![7, 1, 4, 10, 4];
    let reordered = vec![4, 10, 1, 4, 7];
    for f in [CostFunction::Max, CostFunction::Mean, CostFunction::Median] {
        let c = f.apply(&costs);
        assert_eq!(c, f.apply(&reordered));
        assert!(1 <= c && c <= 10);
    }
}

#[test]
fn detour_bounds_grow_with_the_distance() {
    let all = [
        DeltaFunction::LinearMini,
        DeltaFunction::LinearLow,
        DeltaFunction::LinearMedium,
        DeltaFunction::LinearHigh,
        DeltaFunction::LogarithmicMedium,
        DeltaFunction::Unlimited,
    ];
    for f in all {
        for x in 0..30usize {
            assert!(f.apply(x, x / 3) >= x);
            assert!(f.apply(x, x / 3) <= f.apply(x + 1, (x + 1) / 3));
        }
    }
}

#[test]
fn relative_draws_have_the_sign_of_the_difference() {
    let peers = vec![3, 5, 7];
    for (scenario, sign) in [(2, 1), (5, 0), (6, -1)] {
        for f in [RelativeDrawFunction::Linear, RelativeDrawFunction::Quadratic, RelativeDrawFunction::Cubic] {
            assert_eq!(f.apply(&peers, scenario, 0).signum(), sign);
        }
        assert!(RelativeDrawFunction::PeerPressure.apply(&peers, scenario, 0) >= 1);
        assert_eq!(
            RelativeDrawFunction::LinearNonNeg.apply(&peers, scenario, 0),
            RelativeDrawFunction::Linear.apply(&peers, scenario, 0).max(0)
        );
    }
}

/// A square a -> b -> d, a -> c -> d with the cheaper way over b.
fn square() -> (Matrix<usize>, Matrix<usize>) {
    let capacities = Matrix::from_elements(&vec![0, 1, 1, 0, 0, 0, 0, 1, 0, 0, 0, 1, 1, 0, 0, 0], 4, 4);
    let costs = Matrix::from_elements(&vec![0, 1, 2, 0, 0, 0, 0, 1, 0, 0, 0, 2, 1, 0, 0, 0], 4, 4);
    (capacities, costs)
}

#[test]
fn successors_follow_shortest_paths() {
    let (capacities, costs) = square();
    let (dist, prev) = floyd_warshall(&capacities, &costs);
    let succ = invert_predecessors(&prev);
    for s in 0..4 {
        assert_eq!(*succ.get(s, s), s);
        for t in 0..4 {
            if s == t {
                continue;
            }
            let v = *succ.get(s, t);
            assert_eq!(v == usize::MAX, prev.get(s, t).is_none());
            if *dist.get(s, t) != usize::MAX {
                assert_eq!(v, shortest_path(&prev, s, t)[1]);
                assert!(*capacities.get(s, v) > 0);
                assert_eq!(*dist.get(s, t), *costs.get(s, v) + *dist.get(v, t));
            }
        }
    }
    assert_eq!(*succ.get(0, 3), 1);
}

#[test]
fn shortest_paths_lie_in_their_arc_sets() {
    let (capacities, costs) = square();
    let (dist, prev) = floyd_warshall(&capacities, &costs);
    let no_terms = Matrix::filled_with(0, 4, 4);
    for f in [DeltaFunction::LinearMini, DeltaFunction::LinearMedium, DeltaFunction::Unlimited] {
        let arc_sets = generate_intermediate_arc_sets(&dist, &costs, &capacities, &f, &no_terms);
        for s in 0..4 {
            for t in 0..4 {
                if s == t || *dist.get(s, t) == usize::MAX {
                    continue;
                }
                let path = shortest_path(&prev, s, t);
                for k in 0..path.len() - 1 {
                    assert!(*arc_sets.get(s, t).get(path[k], path[k + 1]));
                }
            }
        }
    }
}
