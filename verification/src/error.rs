//! The errors of the solver and the text of their messages.
use vstd::prelude::*;

verus! {

/// What can go wrong while checking, preprocessing or solving a network.
#[derive(Debug, Clone, PartialEq, Eq)]
pub enum SolverError {
    NetworkShapeError(String),
    FixedArcMemoryCorruptError,
    PathMatrixCorruptError,
    NoFeasibleFlowError(usize),
    NoSlackLeftError(usize),
    GurobiSolutionError(usize),
    SkippedPreprocessingError,
    SkippedSolveError,
    InvalidSolutionError(String),
}

/// The solver's result type.
pub type Result<T> = std::result::Result<T, SolverError>;

/// The decimal digit `d` as text.
pub open spec fn digit_text(d: int) -> Seq<char> {
    if d == 0 {
        "0"@
    } else if d == 1 {
        "1"@
    } else if d == 2 {
        "2"@
    } else if d == 3 {
        "3"@
    } else if d == 4 {
        "4"@
    } else if d == 5 {
        "5"@
    } else if d == 6 {
        "6"@
    } else if d == 7 {
        "7"@
    } else if d == 8 {
        "8"@
    } else {
        "9"@
    }
}

/// `n` written in decimal.
pub open spec fn decimal(n: nat) -> Seq<char>
    decreases n,
{
    if n < 10 {
        digit_text(n as int)
    } else {
        decimal(n / 10) + digit_text((n % 10) as int)
    }
}

fn digit(d: usize) -> (s: &'static str)
    requires
        d < 10,
    ensures
        s@ == digit_text(d as int),
{
    if d == 0 {
        "0"
    } else if d == 1 {
        "1"
    } else if d == 2 {
        "2"
    } else if d == 3 {
        "3"
    } else if d == 4 {
        "4"
    } else if d == 5 {
        "5"
    } else if d == 6 {
        "6"
    } else if d == 7 {
        "7"
    } else if d == 8 {
        "8"
    } else {
        "9"
    }
}

/// Appends `n` in decimal to `text`.
pub fn push_decimal(text: &mut String, n: usize)
    ensures
        final(text)@ == old(text)@ + decimal(n as nat),
    decreases n,
{
    if n >= 10 {
        push_decimal(text, n / 10);
    }
    text.append(digit(n % 10));
}

impl SolverError {
    /// The text that describes the error.
    pub open spec fn spec_message(self) -> Seq<char> {
        match self {
            SolverError::NetworkShapeError(e) => "Network is invalid: "@ + e@,
            SolverError::FixedArcMemoryCorruptError => "The fixed arc memory is corrupted."@,
            SolverError::PathMatrixCorruptError => "The shortest path matrix is corrupted."@,
            SolverError::NoFeasibleFlowError(i) => "No feasible flow could be found in scenario "@
                + decimal(i as nat) + "."@,
            SolverError::NoSlackLeftError(i) => "Slack allowance exceeded in scenario "@ + decimal(
                i as nat,
            ) + "."@,
            SolverError::GurobiSolutionError(i) => "Gurobi could not find a feasible flow in scenario "@
                + decimal(i as nat) + "."@,
            SolverError::SkippedPreprocessingError => "No auxiliary network found. Forgot to preprocess?"@,
            SolverError::SkippedSolveError => "No solution found for validation. Forgot to solve?"@,
            SolverError::InvalidSolutionError(e) => "Found a solution, but it is invalid: "@ + e@
                + "."@,
        }
    }

    /// The text that describes the error.
    pub fn message(&self) -> (m: String)
        ensures
            m@ == self.spec_message(),
    {
        match self {
            SolverError::NetworkShapeError(e) => {
                let mut m = String::from_str("Network is invalid: ");
                m.append(e.as_str());
                m
            },
            SolverError::FixedArcMemoryCorruptError => String::from_str(
                "The fixed arc memory is corrupted.",
            ),
            SolverError::PathMatrixCorruptError => String::from_str(
                "The shortest path matrix is corrupted.",
            ),
            SolverError::NoFeasibleFlowError(i) => {
                let mut m = String::from_str("No feasible flow could be found in scenario ");
                push_decimal(&mut m, *i);
                m.append(".");
                m
            },
            SolverError::NoSlackLeftError(i) => {
                let mut m = String::from_str("Slack allowance exceeded in scenario ");
                push_decimal(&mut m, *i);
                m.append(".");
                m
            },
            SolverError::GurobiSolutionError(i) => {
                let mut m = String::from_str("Gurobi could not find a feasible flow in scenario ");
                push_decimal(&mut m, *i);
                m.append(".");
                m
            },
            SolverError::SkippedPreprocessingError => String::from_str(
                "No auxiliary network found. Forgot to preprocess?",
            ),
            SolverError::SkippedSolveError => String::from_str(
                "No solution found for validation. Forgot to solve?",
            ),
            SolverError::InvalidSolutionError(e) => {
                let mut m = String::from_str("Found a solution, but it is invalid: ");
                m.append(e.as_str());
                m.append(".");
                m
            },
        }
    }
}

} // verus!
