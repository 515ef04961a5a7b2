# robmcf_greedy

A greedy solver for robust minimum cost flows in (rail) networks, written in
Verus. Every scenario of a network routes its supply unit by unit along
shortest paths; fixed arcs are shared by all scenarios, and the solver tries
to load them consistently across scenarios.

## Layout

- `src/` is the verified library.
  - `matrix.rs`: a row-major matrix with its laws (shrink undoes extend,
    decrement undoes increment).
  - `algorithms.rs`: Floyd-Warshall with predecessors, shortest paths and
    the laws of the distances it computes.
  - `options.rs`: the cost, detour, draw and slack functions and the
    remainder methods.
  - `preprocessing.rs`: intermediate arc sets, supply tokens and their
    order.
  - `auxiliary.rs`: the state of the greedy pass (tokens, network states,
    scenarios, the auxiliary network), one greedy round per scenario, and
    the laws that the rounds keep.
  - `greedy.rs`: the greedy pass (rounds over all scenarios until no supply
    is on the way, with what each round does and the capacities it keeps)
    and the solutions it leaves.
  - `solution.rs`: solutions, their costs, consistent flows and the measures
    of a solved network.
  - `network.rs`: the network, its validation and the validation of
    solutions.
  - `parsing.rs`, `error.rs`: argument parsing and the solver's errors.
- `tests/`: tests of the library.
- `app/`: the command line program: files, logging, random networks,
  floating-point terms, the rounds spread over threads, reports and the
  integer programs solved with Gurobi.

## Design notes

- `Matrix` is the library's own row-major matrix, modelled by its row and
  column counts and its sequence of cells. Every cell access is verified
  against that model, so no matrix type of an outside crate is used: one
  would put each read and write behind a trusted contract.
- The scenarios of the auxiliary network are a `Vec` indexed by scenario id:
  `AuxiliaryNetwork::wf` states that the scenario at position `j` has id
  `j`, one scenario per id.
- The relative draws of a network state are a `Vec` aligned with the list
  of fixed arcs rather than a map keyed by arc: `NetworkState::wf` states
  one draw per fixed arc, and the position of an arc in the list identifies
  it.
- The floating-point terms (the logarithmic part of the detour bounds, the
  exponential draws, densities and the robustness coefficient) are computed
  in `app/`; the library takes the integer results as arguments.
- The greedy pass (`greedy::greedy`, run by `Network::solve`) is verified to end: a token only ever
  moves along an arc of its own arc set, which the move then removes from
  that set, so every round lowers the number of moves left. When it
  succeeds no token is left. With exponential draws, which need
  floating-point exponentials every round, `app/` repeats the verified
  round step itself, spreading the scenarios of a round over threads.
