//! Two stateless combinatorial-optimization solvers: an exact, bounds-pruned
//! dynamic-programming solver for the 0/1 knapsack decision problem, and an
//! ant-colony metaheuristic that builds closed tours for a vehicle-routing
//! instance. Each solver is a pure function from an immutable problem
//! instance to an optional solution.

pub mod knapsack;
pub mod rng;
pub mod vehicle_routing;
