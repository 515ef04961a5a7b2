use robmcf_greedy::auxiliary::AuxiliaryNetwork;
use robmcf_greedy::greedy::get_solutions;
use robmcf_greedy::network::default_true;
use robmcf_greedy::solution::ScenarioSolution;
use robmcf_greedy::{Matrix, Network, Options, RemainderSolveMethod, SolverError, Vertex};

fn vertex(name: &str) -> Vertex {
    Vertex { name: name.to_string(), is_station: default_true() }
}

/// A triangle a -> b -> c -> a with a shortcut a -> c, one fixed arc
/// (b, c) and two scenarios.
fn triangle() -> Network {
    Network {
        vertices: vec![vertex("a"), vertex("b"), vertex("c")],
        capacities: Matrix::from_elements(&vec![0, 5, 1, 0, 0, 5, 5, 0, 0], 3, 3),
        costs: Matrix::from_elements(&vec![0, 1, 5, 0, 0, 1, 1, 0, 0], 3, 3),
        balances: vec![
            Matrix::from_elements(&vec![0, 0, 2, 0, 0, 0, 0, 0, 0], 3, 3),
            Matrix::from_elements(&vec![0, 1, 1, 0, 0, 0, 0, 0, 0], 3, 3),
        ],
        fixed_arcs: vec![(1, 2)],
        baseline: None,
        solutions: None,
        auxiliary_network: None,
        options: Options::default(),
    }
}

fn message(r: Result<(), SolverError>) -> String {
    match r {
        Err(SolverError::NetworkShapeError(msg)) => msg,
        other => panic!("expected a shape error, got {:?}", other),
    }
}

#[test]
fn valid_network_passes_validation() {
    assert_eq!(triangle().validate_network(), Ok(()));
}

#[test]
fn mismatched_matrices_are_rejected() {
    let mut n = triangle();
    n.costs = Matrix::from_elements(&vec![0, 1, 1, 0], 2, 2);
    assert_eq!(
        message(n.validate_network()),
        "capacities, and costs have differing dimensions or are not quadratic"
    );
}

#[test]
fn dead_end_is_rejected() {
    let mut n = triangle();
    n.capacities = Matrix::from_elements(&vec![0, 5, 1, 0, 0, 0, 5, 0, 0], 3, 3);
    assert_eq!(message(n.validate_network()), "vertex b is a dead end");
}

#[test]
fn unreachable_vertex_is_rejected() {
    let mut n = triangle();
    n.capacities = Matrix::from_elements(&vec![0, 5, 0, 0, 0, 5, 5, 0, 0], 3, 3);
    n.capacities.set(2, 1, 1);
    n.capacities.set(1, 2, 0);
    n.capacities.set(1, 0, 1);
    // column 2 is now empty
    assert_eq!(message(n.validate_network()), "vertex c is unreachable");
}

#[test]
fn misshapen_balance_is_rejected() {
    let mut n = triangle();
    n.balances.push(Matrix::from_elements(&vec![0, 1, 0, 0], 2, 2));
    assert_eq!(
        message(n.validate_network()),
        "some balances have differing dimensions or are not quadratic"
    );
}

#[test]
fn self_supply_is_rejected() {
    let mut n = triangle();
    n.balances[1].set(1, 1, 3);
    assert_eq!(message(n.validate_network()), "self-supply (b->b) is not allowed");
}

#[test]
fn excess_supply_is_rejected() {
    let mut n = triangle();
    n.balances[1].set(0, 1, 100);
    assert_eq!(
        message(n.validate_network()),
        "scenario 1 has higher supply than the network has capacities"
    );
}

#[test]
fn penalty_arcs_connect_unserved_pairs() {
    let mut n = triangle();
    n.balances[0].set(1, 0, 1);
    assert_eq!(n.add_penalty_arcs(), Ok(()));
    assert_eq!(*n.capacities.get(1, 0), usize::MAX);
    assert_eq!(*n.costs.get(1, 0), usize::MAX / 2);
    // arcs that exist or carry no supply stay as they were
    assert_eq!(*n.capacities.get(0, 2), 1);
    assert_eq!(*n.capacities.get(2, 1), 0);
    assert_eq!(*n.costs.get(2, 1), 0);
}

#[test]
fn validating_without_solutions_fails() {
    assert_eq!(triangle().validate_solution(), Err(SolverError::SkippedSolveError));
}

#[test]
fn solution_count_must_match() {
    let mut n = triangle();
    n.solutions = Some(vec![ScenarioSolution::new(0, &n.balances[0])]);
    assert_eq!(
        message(n.validate_solution()),
        "Found 1 scenario solutions, but expected 2."
    );
}

#[test]
fn overloaded_arc_is_reported() {
    let mut n = triangle();
    let mut first = ScenarioSolution::new(0, &n.balances[0]);
    let second = ScenarioSolution::new(1, &n.balances[1]);
    first.arc_loads.set(0, 2, 2);
    n.solutions = Some(vec![first, second]);
    assert_eq!(
        message(n.validate_solution()),
        "Scenario 0 puts load 2 on arc (a->c), but its capacity is 1."
    );
}

#[test]
fn fixed_arcs_have_no_capacity_limit() {
    let mut n = triangle();
    n.capacities.set(1, 2, 1);
    let mut first = ScenarioSolution::new(0, &n.balances[0]);
    let second = ScenarioSolution::new(1, &n.balances[1]);
    first.arc_loads.set(1, 2, 2);
    n.solutions = Some(vec![first, second]);
    assert_eq!(n.validate_solution(), Ok(()));
}

#[test]
fn load_beyond_total_supply_is_reported() {
    let mut n = triangle();
    n.capacities.set(0, 1, 100);
    n.capacities.set(1, 2, 100);
    let first = ScenarioSolution::new(0, &n.balances[0]);
    let mut second = ScenarioSolution::new(1, &n.balances[1]);
    second.arc_loads.set(0, 1, 3);
    second.arc_loads.set(2, 0, 4);
    n.solutions = Some(vec![first, second]);
    assert_eq!(
        message(n.validate_solution()),
        "Scenario 1 has 2 supply, but the following arcs exceed this: [(0, 1), (2, 0)]"
    );
}

fn zeros() -> Matrix<usize> {
    Matrix::filled_with(0, 3, 3)
}

#[test]
fn preprocessing_builds_one_scenario_per_supply() {
    let mut n = triangle();
    n.options.remainder_solve_method = RemainderSolveMethod::Greedy;
    assert_eq!(n.preprocess(&zeros()), Ok(()));
    let aux = n.auxiliary_network.as_ref().unwrap();
    assert_eq!(aux.fixed_arcs, vec![(1, 2)]);
    assert_eq!(aux.scenarios.len(), 2);
    assert_eq!(aux.scenarios[0].supply_tokens.len(), 2);
    assert_eq!(aux.scenarios[1].supply_tokens.len(), 2);
    // closest first: a -> b (distance 1) before a -> c (distance 2)
    assert_eq!(aux.scenarios[1].supply_tokens[0].t, 1);
    assert_eq!(aux.scenarios[1].supply_tokens[1].t, 2);
    // the fixed arc has unlimited capacity
    assert_eq!(*aux.scenarios[0].network_state.capacities.get(1, 2), usize::MAX);
    assert!(aux.exists_supply());
    // a second call keeps the auxiliary network
    assert_eq!(n.preprocess(&zeros()), Ok(()));
}

#[test]
fn skip_method_keeps_only_pairs_that_can_use_a_fixed_arc() {
    let mut n = triangle();
    n.options.remainder_solve_method = RemainderSolveMethod::Skip;
    n.fixed_arcs = vec![(0, 1)];
    let aux = AuxiliaryNetwork::from_network(&n, &zeros()).unwrap();
    // a -> c may pass a -> b; a -> b is the fixed arc itself.
    assert_eq!(aux.scenarios[0].supply_tokens.len(), 2);
    assert_eq!(aux.scenarios[1].supply_tokens.len(), 2);
}

fn run_greedy(aux: &mut AuxiliaryNetwork) -> Result<(), SolverError> {
    let draw = Options::default().relative_draw_fn;
    while aux.exists_supply() {
        let snapshot = aux.snapshot_fixed_arc_loads();
        for scenario in aux.scenarios.iter_mut() {
            let exp_draws = vec![0; snapshot.len()];
            scenario.greedy_step(&snapshot, &draw, &exp_draws)?;
        }
    }
    Ok(())
}

#[test]
fn greedy_delivers_all_supply() {
    let mut n = triangle();
    n.options.remainder_solve_method = RemainderSolveMethod::Greedy;
    let mut aux = AuxiliaryNetwork::from_network(&n, &zeros()).unwrap();
    assert_eq!(run_greedy(&mut aux), Ok(()));
    assert!(!aux.exists_supply());
    for scenario in aux.scenarios.iter() {
        assert_eq!(scenario.supply_remaining.sum(), 0);
    }
    // scenario 0 sends two units a -> b -> c: along the shortest path,
    // which uses the fixed arc
    let loads = &aux.scenarios[0].network_state.arc_loads;
    assert_eq!(*loads.get(0, 1), 2);
    assert_eq!(*loads.get(1, 2), 2);
    assert_eq!(*loads.get(0, 2), 0);
    assert_eq!(*aux.scenarios[0].network_state.capacities.get(0, 1), 3);
    let solutions = get_solutions(&aux).unwrap();
    assert_eq!(solutions.len(), 2);
    // the consistent total is the largest load on (1, 2): 2
    assert_eq!(solutions[0].slack, 0);
    assert_eq!(solutions[1].slack, 1);
    assert_eq!(solutions[1].id, 1);
}

#[test]
fn unreachable_destination_is_infeasible() {
    let mut n = triangle();
    n.options.remainder_solve_method = RemainderSolveMethod::Greedy;
    n.balances[0] = Matrix::from_elements(&vec![0, 0, 0, 0, 0, 0, 0, 1, 0], 3, 3);
    // c -> b is only reachable over c -> a -> b
    let mut aux = AuxiliaryNetwork::from_network(&n, &zeros()).unwrap();
    assert!(run_greedy(&mut aux).is_ok());
    n.capacities.set(0, 1, 0);
    n.capacities.set(0, 2, 5);
    n.capacities.set(1, 2, 5);
    let mut cut = AuxiliaryNetwork::from_network(&n, &zeros()).unwrap();
    assert_eq!(run_greedy(&mut cut), Err(SolverError::NoFeasibleFlowError(0)));
}

#[test]
fn slack_can_be_used_until_exhausted() {
    let mut n = triangle();
    n.options.remainder_solve_method = RemainderSolveMethod::Greedy;
    let mut aux = AuxiliaryNetwork::from_network(&n, &zeros()).unwrap();
    let scenario = &mut aux.scenarios[1];
    scenario.slack = 3;
    assert_eq!(scenario.use_slack(2), Ok(()));
    assert_eq!(scenario.slack_used, 2);
    assert_eq!(scenario.use_slack(2), Err(SolverError::NoSlackLeftError(1)));
    assert_eq!(scenario.slack_used, 2);
    assert_eq!(scenario.use_slack(1), Ok(()));
}

#[test]
fn greedy_never_overloads_an_arc_that_is_not_fixed() {
    let mut n = triangle();
    n.options.remainder_solve_method = RemainderSolveMethod::Greedy;
    // a -> b carries one unit at most: the second unit to c must go direct
    n.capacities.set(0, 1, 1);
    n.capacities.set(0, 2, 2);
    // a -> c costs 3, within the detour bound of the shortest path (2)
    n.costs.set(0, 2, 3);
    let mut aux = AuxiliaryNetwork::from_network(&n, &zeros()).unwrap();
    assert_eq!(run_greedy(&mut aux), Ok(()));
    assert!(!aux.exists_supply());
    for scenario in aux.scenarios.iter() {
        let state = &scenario.network_state;
        for i in 0..3 {
            for j in 0..3 {
                if aux.fixed_arcs.contains(&(i, j)) {
                    continue;
                }
                assert_eq!(
                    *state.arc_loads.get(i, j) + *state.capacities.get(i, j),
                    *n.capacities.get(i, j)
                );
                assert!(*state.arc_loads.get(i, j) <= *n.capacities.get(i, j));
            }
        }
    }
    // scenario 0: one unit over a -> b -> c, the other over a -> c
    let loads = &aux.scenarios[0].network_state.arc_loads;
    assert_eq!(*loads.get(0, 1), 1);
    assert_eq!(*loads.get(0, 2), 1);
    assert_eq!(*loads.get(1, 2), 1);
}

#[test]
fn preprocessing_starts_with_the_network_capacities() {
    let mut n = triangle();
    n.options.remainder_solve_method = RemainderSolveMethod::Greedy;
    let aux = AuxiliaryNetwork::from_network(&n, &zeros()).unwrap();
    for scenario in aux.scenarios.iter() {
        let state = &scenario.network_state;
        for i in 0..3 {
            for j in 0..3 {
                assert_eq!(*state.arc_loads.get(i, j), 0);
                if (i, j) != (1, 2) {
                    assert_eq!(*state.capacities.get(i, j), *n.capacities.get(i, j));
                }
            }
        }
    }
}

#[test]
fn solutions_report_totals_that_do_not_fit() {
    let mut n = triangle();
    n.options.remainder_solve_method = RemainderSolveMethod::Greedy;
    let mut aux = AuxiliaryNetwork::from_network(&n, &zeros()).unwrap();
    assert_eq!(run_greedy(&mut aux), Ok(()));
    let solutions = robmcf_greedy::greedy::solutions_of(&aux).unwrap();
    assert_eq!(solutions[1].slack, 1);
    aux.fixed_arcs = vec![(1, 2), (0, 1)];
    for scenario in aux.scenarios.iter_mut() {
        scenario.network_state.fixed_arcs = vec![(1, 2), (0, 1)];
        scenario.network_state.relative_draws = vec![0, 0];
        scenario.network_state.arc_loads.set(0, 1, usize::MAX);
    }
    match robmcf_greedy::greedy::solutions_of(&aux) {
        Err(SolverError::NetworkShapeError(msg)) => {
            assert_eq!(msg, "the fixed arc loads exceed the machine's integers")
        }
        other => panic!("expected a shape error, got {:?}", other.map(|s| s.len())),
    }
}

#[test]
fn verified_greedy_pass_delivers_all_supply() {
    let mut n = triangle();
    n.options.remainder_solve_method = RemainderSolveMethod::Greedy;
    let mut aux = AuxiliaryNetwork::from_network(&n, &zeros()).unwrap();
    assert!(robmcf_greedy::greedy::all_tokens_on_the_way(&aux));
    let draw = Options::default().relative_draw_fn;
    assert_eq!(robmcf_greedy::greedy::greedy(&mut aux, &draw), Ok(()));
    assert!(!aux.exists_supply());
    for (j, scenario) in aux.scenarios.iter().enumerate() {
        assert_eq!(scenario.id, j);
        assert_eq!(scenario.supply_remaining.sum(), 0);
    }
    let loads = &aux.scenarios[0].network_state.arc_loads;
    assert_eq!(*loads.get(0, 1), 2);
    assert_eq!(*loads.get(1, 2), 2);
}

#[test]
fn verified_greedy_pass_reports_infeasible_supply() {
    let mut n = triangle();
    n.options.remainder_solve_method = RemainderSolveMethod::Greedy;
    n.balances[0] = Matrix::from_elements(&vec![0, 0, 0, 0, 0, 0, 0, 1, 0], 3, 3);
    n.capacities.set(0, 1, 0);
    n.capacities.set(0, 2, 5);
    n.capacities.set(1, 2, 5);
    let mut cut = AuxiliaryNetwork::from_network(&n, &zeros()).unwrap();
    let draw = Options::default().relative_draw_fn;
    assert_eq!(robmcf_greedy::greedy::greedy(&mut cut, &draw), Err(SolverError::NoFeasibleFlowError(0)));
}

#[test]
fn solutions_are_checked_against_the_capacities_shape() {
    let mut n = triangle();
    n.solutions = Some(vec![
        ScenarioSolution::new(0, &Matrix::filled_with(0, 3, 3)),
        ScenarioSolution::new(1, &Matrix::filled_with(0, 3, 3)),
    ]);
    assert!(n.solutions_checkable());
    assert_eq!(n.validate_solution(), Ok(()));
    // no arc is overloaded, so no vertex name is needed
    n.vertices.truncate(1);
    assert!(n.solutions_checkable());
    assert_eq!(n.validate_solution(), Ok(()));
    n.solutions.as_mut().unwrap()[1].id = 5;
    assert!(!n.solutions_checkable());
    n.solutions = None;
    assert!(n.solutions_checkable());
    assert_eq!(n.validate_solution(), Err(SolverError::SkippedSolveError));
}

#[test]
fn solving_needs_preprocessing() {
    let mut n = triangle();
    assert_eq!(n.solve(), Err(SolverError::SkippedPreprocessingError));
    assert!(n.solutions.is_none());
}

#[test]
fn solving_keeps_the_greedy_solutions() {
    let mut n = triangle();
    n.options.remainder_solve_method = RemainderSolveMethod::Greedy;
    assert_eq!(n.preprocess(&zeros()), Ok(()));
    assert_eq!(n.solve(), Ok(()));
    let solutions = n.solutions.as_ref().unwrap();
    assert_eq!(solutions.len(), 2);
    assert_eq!(solutions[0].slack, 0);
    assert_eq!(solutions[1].slack, 1);
    assert_eq!(*solutions[0].arc_loads.get(0, 1), 2);
    assert_eq!(solutions[0].supply_remaining.sum(), 0);
    assert_eq!(n.validate_solution(), Ok(()));
}

#[test]
fn solving_reports_the_scenario_without_a_route() {
    let mut n = triangle();
    n.options.remainder_solve_method = RemainderSolveMethod::Greedy;
    n.balances[1] = Matrix::from_elements(&vec![0, 0, 0, 0, 0, 0, 0, 1, 0], 3, 3);
    n.capacities.set(0, 1, 0);
    n.capacities.set(0, 2, 5);
    n.capacities.set(1, 2, 5);
    assert_eq!(n.preprocess(&zeros()), Ok(()));
    assert_eq!(n.solve(), Err(SolverError::NoFeasibleFlowError(1)));
    assert!(n.solutions.is_none());
}
