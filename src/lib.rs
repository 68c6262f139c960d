//! Assignment of transport orders to (driver, vehicle) pairs under hard
//! feasibility constraints, searched with a verified genetic algorithm.
pub mod model;
pub mod feasibility;
pub mod random;
pub mod state;
pub mod operators;
pub mod evolution;

pub use evolution::{Config, Evolution, Step, StopReason};
pub use model::{Assignment, Break, Driver, Interval, Order, Problem, SchedulingResponse, Vehicle};
pub use operators::{crossover, initialize_random_state, mutate, select_parent};
pub use random::Random;
pub use state::{Placement, SolverState};
