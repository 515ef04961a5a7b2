//! A greedy solver for robust minimum cost flows in (rail) networks: the
//! verified core of the matrix type, the shortest-path machinery, the
//! preprocessing of networks and the solver options.
use vstd::prelude::*;

pub mod algorithms;
pub mod auxiliary;
pub mod error;
pub mod greedy;
pub mod matrix;
pub mod network;
pub mod options;
pub mod parsing;
pub mod preprocessing;
pub mod solution;

pub use error::{Result, SolverError};
pub use matrix::Matrix;
pub use network::{Network, Vertex};
pub use options::{CostFunction, DeltaFunction, Options, RelativeDrawFunction, RemainderSolveMethod, SlackFunction};

verus! {

} // verus!
