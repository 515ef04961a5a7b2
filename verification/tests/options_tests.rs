use robmcf_greedy::{
    CostFunction, DeltaFunction, Matrix, Options, RelativeDrawFunction, RemainderSolveMethod,
    SlackFunction,
};

#[test]
fn cost_functions_combine_scenario_costs() {
    let costs = vec![7, 1, 4, 10];
    assert_eq!(CostFunction::Max.apply(&costs), 10);
    assert_eq!(CostFunction::Mean.apply(&costs), 5);
    assert_eq!(CostFunction::Median.apply(&costs), 5);
    assert_eq!(CostFunction::Median.apply(&vec![3, 9, 5]), 5);
    assert_eq!(CostFunction::Max.apply(&vec![]), usize::MAX);
    assert_eq!(CostFunction::Mean.apply(&vec![]), 0);
}

#[test]
fn delta_functions_bound_detours() {
    assert_eq!(DeltaFunction::LinearMini.apply(10, 0), 11);
    assert_eq!(DeltaFunction::LinearMini.apply(9, 0), 9);
    assert_eq!(DeltaFunction::LinearLow.apply(5, 0), 7);
    assert_eq!(DeltaFunction::LinearMedium.apply(5, 0), 10);
    assert_eq!(DeltaFunction::LinearHigh.apply(5, 0), 15);
    assert_eq!(DeltaFunction::LinearHigh.apply(usize::MAX, 0), usize::MAX);
    assert_eq!(DeltaFunction::LogarithmicMedium.apply(5, 17), 22);
    assert_eq!(DeltaFunction::Unlimited.apply(5, 0), usize::MAX);
}

#[test]
fn relative_draws_follow_the_difference_to_peers() {
    // peers wait 3 + 5 = 8, the scenario 2 per peer: difference 4
    let peers = [3, 5];
    assert_eq!(RelativeDrawFunction::NoDraw.apply(&peers, 2, 0), 0);
    assert_eq!(RelativeDrawFunction::Linear.apply(&peers, 2, 0), 4);
    assert_eq!(RelativeDrawFunction::Quadratic.apply(&peers, 2, 0), 16);
    assert_eq!(RelativeDrawFunction::Cubic.apply(&peers, 2, 0), 64);
    // a negative difference repels, also for even powers
    assert_eq!(RelativeDrawFunction::Linear.apply(&peers, 6, 0), -4);
    assert_eq!(RelativeDrawFunction::Quadratic.apply(&peers, 6, 0), -16);
    assert_eq!(RelativeDrawFunction::QuadraticNonNeg.apply(&peers, 6, 0), 0);
    assert_eq!(RelativeDrawFunction::LinearNonNeg.apply(&peers, 6, 0), 0);
    assert_eq!(RelativeDrawFunction::CubicNonNeg.apply(&peers, 6, 0), 0);
    // the exponential variants read the exponential draw they are given
    assert_eq!(RelativeDrawFunction::Exponential.apply(&peers, 6, -54), -54);
    assert_eq!(RelativeDrawFunction::ExponentialNonNeg.apply(&peers, 6, -54), 0);
    // peer pressure: excess 1 + 3 over 2 peers above the scenario
    assert_eq!(RelativeDrawFunction::PeerPressure.apply(&peers, 2, 0), 16);
    assert_eq!(RelativeDrawFunction::PeerPressure.apply(&peers, 9, 0), 1);
}

fn balances() -> Vec<Matrix<usize>> {
    vec![
        Matrix::from_elements(&vec![0, 3, 1, 0], 2, 2),
        Matrix::from_elements(&vec![0, 1, 0, 0], 2, 2),
        Matrix::from_elements(&vec![0, 2, 0, 0], 2, 2),
    ]
}

#[test]
fn slack_functions() {
    let b = balances();
    assert_eq!(SlackFunction::Const_10.apply(&b), vec![10, 10, 10]);
    assert_eq!(SlackFunction::Unlimited.apply(&b), vec![usize::MAX; 3]);
    assert_eq!(SlackFunction::BalanceMin.apply(&b), vec![1, 1, 1]);
    assert_eq!(SlackFunction::DifferenceToMax.apply(&b), vec![0, 3, 2]);
    assert_eq!(SlackFunction::DifferenceToMaxPlusMin.apply(&b), vec![1, 4, 3]);
    assert_eq!(SlackFunction::DifferenceToMaxPlus_100.apply(&b), vec![100, 103, 102]);
    assert_eq!(SlackFunction::BalanceMin.apply(&[]), Vec::<usize>::new());
}

#[test]
fn default_options() {
    let o = Options::default();
    assert_eq!(o.cost_fn, CostFunction::Max);
    assert_eq!(o.delta_fn, DeltaFunction::LinearMedium);
    assert_eq!(o.relative_draw_fn, RelativeDrawFunction::Linear);
    assert_eq!(o.slack_fn, SlackFunction::DifferenceToMax);
    assert_eq!(o.remainder_solve_method, RemainderSolveMethod::Skip);
}

#[test]
fn draws_that_overflow_are_detected() {
    assert!(RelativeDrawFunction::Linear.fits(&[3, 5], 2));
    assert!(!RelativeDrawFunction::Linear.fits(&[i64::MAX, 1], 0));
    assert!(RelativeDrawFunction::Cubic.fits(&[2_000_000, 0], 0));
    assert!(!RelativeDrawFunction::Cubic.fits(&[3_000_000, 0], 0));
    assert!(!RelativeDrawFunction::Quadratic.fits(&[4_000_000_000, 0], 0));
    assert!(RelativeDrawFunction::PeerPressure.fits(&[3, 5], 2));
    assert!(!RelativeDrawFunction::PeerPressure.fits(&[100_000, 100_000, 100_000, 100_000], 0));
    assert!(RelativeDrawFunction::Exponential.fits(&[i64::MAX, i64::MAX], i64::MIN));
}

#[test]
fn remainder_methods_describe_themselves() {
    assert_eq!(RemainderSolveMethod::Greedy.description(), "The entire network was solved greedily.");
    assert_eq!(RemainderSolveMethod::Ilp.description(), "The entire network has been solved via ILP.");
}
