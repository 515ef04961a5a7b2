use robmcf_greedy::parsing::{parse_triplet, parse_tuple};
use robmcf_greedy::solution::{consistent_flows, network_cost, ScenarioSolution};
use robmcf_greedy::{CostFunction, Matrix, SolverError};

fn solution(id: usize, loads: Vec<usize>) -> ScenarioSolution {
    let mut s = ScenarioSolution::new(id, &Matrix::from_elements(&vec![0, 1, 2, 0], 2, 2));
    s.arc_loads = Matrix::from_elements(&loads, 2, 2);
    s
}

#[test]
fn new_solution_has_no_load() {
    let supply = Matrix::from_elements(&vec![0, 1, 2, 0], 2, 2);
    let s = ScenarioSolution::new(4, &supply);
    assert_eq!(s.id, 4);
    assert_eq!(s.slack, 0);
    assert_eq!(s.supply_remaining, supply);
    assert_eq!(s.arc_loads, Matrix::filled_with(0, 2, 2));
}

#[test]
fn cost_weighs_loads_by_arc_costs() {
    let costs = Matrix::from_elements(&vec![0, 3, 5, 0], 2, 2);
    assert_eq!(solution(0, vec![0, 2, 1, 0]).cost(&costs), 11);
}

#[test]
fn delivered_supply_is_what_no_longer_remains() {
    let s = solution(0, vec![0, 0, 0, 0]);
    assert_eq!(s.supply_delivered(10), 7);
}

#[test]
fn network_cost_combines_scenario_costs() {
    let costs = Matrix::from_elements(&vec![0, 1, 1, 0], 2, 2);
    let sols = vec![solution(0, vec![0, 4, 0, 0]), solution(1, vec![0, 1, 0, 0]), solution(2, vec![0, 2, 7, 0])];
    assert_eq!(network_cost(&sols, &costs, &CostFunction::Max), 9);
    assert_eq!(network_cost(&sols, &costs, &CostFunction::Mean), 4);
    assert_eq!(network_cost(&sols, &costs, &CostFunction::Median), 4);
}

#[test]
fn consistent_flows_take_the_smallest_load() {
    let sols = vec![solution(0, vec![0, 4, 2, 0]), solution(1, vec![0, 1, 6, 0])];
    let flows = consistent_flows(&sols, &[(0, 1)]);
    assert_eq!(*flows.get(0, 1), 1);
    assert_eq!(*flows.get(1, 0), i64::MAX);
    assert_eq!(*flows.get(0, 0), i64::MAX);
}

#[test]
fn triplets_parse() {
    assert_eq!(parse_triplet("3,8,1"), Ok((3, 8, 1)));
    assert_eq!(parse_triplet("+3,0,18446744073709551615"), Ok((3, 0, usize::MAX)));
    assert_eq!(parse_triplet("3,8"), Err("Triplet must contain exactly three values".to_string()));
    assert_eq!(parse_triplet("a,8,1"), Err("Failed to parse first number".to_string()));
    assert_eq!(parse_triplet("3,,1"), Err("Failed to parse second number".to_string()));
    assert_eq!(parse_triplet("3,8, 1"), Err("Failed to parse third number".to_string()));
    assert_eq!(
        parse_triplet("3,8,18446744073709551616"),
        Err("Failed to parse third number".to_string())
    );
}

#[test]
fn tuples_parse() {
    assert_eq!(parse_tuple("15,40"), Ok((15, 40)));
    assert_eq!(parse_tuple("15"), Err("Tuple must contain exactly two values".to_string()));
    assert_eq!(parse_tuple("15,40,1"), Err("Tuple must contain exactly two values".to_string()));
    assert_eq!(parse_tuple("-1,40"), Err("Failed to parse first number".to_string()));
    assert_eq!(parse_tuple("1,+"), Err("Failed to parse second number".to_string()));
}

#[test]
fn errors_describe_themselves() {
    assert_eq!(
        SolverError::NoFeasibleFlowError(12).message(),
        "No feasible flow could be found in scenario 12."
    );
    assert_eq!(
        SolverError::NetworkShapeError("vertex a is a dead end".to_string()).message(),
        "Network is invalid: vertex a is a dead end"
    );
    assert_eq!(
        SolverError::SkippedSolveError.message(),
        "No solution found for validation. Forgot to solve?"
    );
    assert_eq!(
        SolverError::InvalidSolutionError("loop".to_string()).message(),
        "Found a solution, but it is invalid: loop."
    );
}
