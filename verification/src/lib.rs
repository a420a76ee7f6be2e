//! Workload leveling: given a run of days, each with a capacity and an amount
//! of work that falls due on it, decide how much work to do on each day so
//! that everything is finished by its due day and the load per unit of
//! capacity is spread as evenly, and as far back in time, as earlier
//! commitments allow.
//!
//! A day is a pair `(capacity, amount)`. Contracts are stated over two integer
//! sequences, the capacities and the amounts of the days.

pub mod ranges;
pub mod slots;
pub mod window;
pub mod allot;
pub mod engine;
pub mod laws;

pub use crate::engine::{distribute, run_algorithm, within_limits};
