use robmcf_greedy::matrix::{create_extension_vertex, extend_matrix};
use robmcf_greedy::preprocessing::{
    generate_b_tuples, generate_intermediate_arc_sets, generate_supply_tokens, sort_by_distance,
};
use robmcf_greedy::{DeltaFunction, Matrix, RemainderSolveMethod};

fn setup() -> (Matrix<usize>, Matrix<usize>, Matrix<usize>) {
    let distance_map: Matrix<usize> = Matrix::from_elements(&vec![0, 2, 1, 1, 0, 2, 2, 1, 0], 3, 3);
    let costs: Matrix<usize> = Matrix::from_elements(&vec![0, 5, 1, 1, 0, 0, 0, 1, 0], 3, 3);
    let capacities: Matrix<usize> = Matrix::from_elements(&vec![0, 1, 1, 1, 0, 0, 0, 1, 0], 3, 3);

    (distance_map, costs, capacities)
}

fn no_log_terms() -> Matrix<usize> {
    Matrix::filled_with(0, 3, 3)
}

#[test]
fn test_generate_intermediate_arc_sets() {
    let (distance_map, costs, capacities) = setup();
    let expected_result_0_1: Matrix<bool> = Matrix::from_elements(
        &vec![false, false, true, false, false, false, false, true, false],
        3,
        3,
    );
    let actual_result = generate_intermediate_arc_sets(
        &distance_map,
        &costs,
        &capacities,
        &DeltaFunction::LinearMedium,
        &no_log_terms(),
    );
    let actual_result_0_1 = actual_result.get(0, 1).clone();

    assert_eq!(expected_result_0_1, actual_result_0_1);
}

#[test]
fn preprocessing_test_generate_intermediate_arc_sets() {
    let (distance_map, costs, capacities) = setup();
    let expected_result_0_1: Matrix<bool> = Matrix::from_elements(
        &vec![false, false, true, false, false, false, false, true, false],
        3,
        3,
    );
    // The detour bound doubles the distance, as `|x| 2 * x` does.
    let actual_result = generate_intermediate_arc_sets(
        &distance_map,
        &costs,
        &capacities,
        &DeltaFunction::LinearMedium,
        &no_log_terms(),
    );
    let actual_result_0_1 = actual_result.get(0, 1).clone();

    assert_eq!(expected_result_0_1, actual_result_0_1);
}

#[test]
fn test_generate_supply_tokens() {
    let supply: Matrix<usize> = Matrix::from_elements(&vec![0, 2, 1, 1, 0, 1, 0, 6, 0], 3, 3);

    let actual_result =
        generate_supply_tokens(&supply, &[], RemainderSolveMethod::Greedy, &Matrix::empty());

    assert_eq!(11, actual_result.len());
}

#[test]
fn test_generate_b_tuples() {
    let supply: Matrix<usize> = Matrix::from_elements(&vec![0, 2, 1, 1, 0, 1, 0, 6, 0], 3, 3);

    let actual_result = generate_b_tuples(&supply);

    assert_eq!(11, actual_result.0.len());
    assert!(actual_result.1.is_empty());
}

#[test]
fn test_extend_matrix() {
    let initial = vec![vec![1, 2], vec![4, 5]];
    assert_eq!(
        extend_matrix(&Matrix::from_rows(&initial), (vec![7, 8], vec![3, 6, 9])).as_rows(),
        vec![vec![1, 2, 3], vec![4, 5, 6], vec![7, 8, 9]]
    );
}

#[test]
fn extension_vertex_splits_an_arc() {
    let m: Matrix<usize> = Matrix::from_elements(&vec![0, 4, 1, 2, 0, 3, 5, 6, 0], 3, 3);
    let (row, column) = create_extension_vertex(&m, 0, 1);
    assert_eq!(row, vec![0, 4, 0]);
    assert_eq!(column, vec![0, 2, 5, 0]);
}

#[test]
fn arc_sets_exclude_loops_and_arcs_into_the_source() {
    let (distance_map, costs, capacities) = setup();
    let arc_sets = generate_intermediate_arc_sets(
        &distance_map,
        &costs,
        &capacities,
        &DeltaFunction::LinearMedium,
        &no_log_terms(),
    );
    for s in 0..3 {
        let own = arc_sets.get(s, s);
        for x in 0..3 {
            for y in 0..3 {
                assert!(!*own.get(x, y));
            }
        }
        for t in 0..3 {
            for x in 0..3 {
                assert!(!*arc_sets.get(s, t).get(x, s));
                assert!(!*arc_sets.get(s, t).get(t, x));
            }
        }
    }
}

#[test]
fn tight_detour_bound_keeps_only_shortest_paths() {
    let (distance_map, costs, capacities) = setup();
    // LinearMini allows 1.1 times the distance: from 0 to 1 (distance 2)
    // only a path of length 2 fits, which is 0 -> 2 -> 1.
    let arc_sets = generate_intermediate_arc_sets(
        &distance_map,
        &costs,
        &capacities,
        &DeltaFunction::LinearMini,
        &no_log_terms(),
    );
    let expected: Matrix<bool> = Matrix::from_elements(
        &vec![false, false, true, false, false, false, false, true, false],
        3,
        3,
    );
    assert_eq!(*arc_sets.get(0, 1), expected);
}

#[test]
fn logarithmic_bound_adds_its_term() {
    let (distance_map, costs, capacities) = setup();
    // With a logarithmic part of 3 the bound from 0 to 1 is 5: the direct
    // arc (cost 5) fits as well.
    let log_terms: Matrix<usize> = Matrix::filled_with(3, 3, 3);
    let arc_sets = generate_intermediate_arc_sets(
        &distance_map,
        &costs,
        &capacities,
        &DeltaFunction::LogarithmicLow,
        &log_terms,
    );
    assert!(*arc_sets.get(0, 1).get(0, 1));
    assert_eq!(DeltaFunction::LogarithmicLow.apply(2, 3), 5);
}

#[test]
fn fixed_arcs_filter_supply_unless_greedy() {
    let (distance_map, costs, capacities) = setup();
    let arc_sets = generate_intermediate_arc_sets(
        &distance_map,
        &costs,
        &capacities,
        &DeltaFunction::LinearMedium,
        &no_log_terms(),
    );
    let supply: Matrix<usize> = Matrix::from_elements(&vec![0, 2, 0, 0, 0, 0, 3, 0, 0], 3, 3);
    // (0, 1) may use the fixed arc (0, 2); (2, 0) may not, as the arc
    // leaves its destination.
    let tokens = generate_supply_tokens(&supply, &[(0, 2)], RemainderSolveMethod::Skip, &arc_sets);
    assert_eq!(tokens.len(), 2);
    assert!(tokens.iter().all(|t| t.origin == 0 && t.s == 0 && t.t == 1));
    let all = generate_supply_tokens(&supply, &[(0, 2)], RemainderSolveMethod::Greedy, &arc_sets);
    assert_eq!(all.len(), 5);
    assert_eq!((all[0].s, all[0].t), (0, 1));
    assert_eq!((all[4].s, all[4].t), (2, 0));
}

#[test]
fn tokens_sort_by_distance_keeping_order_on_ties() {
    let dist: Matrix<usize> = Matrix::from_elements(&vec![0, 5, 1, 1, 0, 1, 2, 1, 0], 3, 3);
    let supply: Matrix<usize> = Matrix::from_elements(&vec![0, 1, 1, 1, 0, 1, 1, 0, 0], 3, 3);
    let tokens = generate_supply_tokens(&supply, &[], RemainderSolveMethod::Greedy, &Matrix::empty());
    let sorted = sort_by_distance(tokens, &dist);
    let pairs: Vec<(usize, usize)> = sorted.iter().map(|t| (t.s, t.t)).collect();
    assert_eq!(pairs, vec![(0, 2), (1, 0), (1, 2), (2, 0), (0, 1)]);
}

#[test]
fn tokens_describe_themselves() {
    let supply: Matrix<usize> = Matrix::from_elements(&vec![0, 0, 0, 0, 0, 0, 0, 1, 0], 3, 3);
    let tokens = generate_supply_tokens(&supply, &[], RemainderSolveMethod::Greedy, &Matrix::empty());
    assert_eq!(tokens[0].describe(), "(origin=2, destination=1, currently at=2)");
}
