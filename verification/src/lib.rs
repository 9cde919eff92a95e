//! A staged simulation engine for models built from ordered partial state
//! update blocks.
//!
//! A model is an initial state, an ordered list of blocks and a set of
//! sweepable parameters. Running it yields the full trajectory: the seeded
//! initial snapshot followed by one snapshot per block per timestep, for
//! every run and every parameter subset, in a fixed order.
//!
//! The policies and state update functions of a block are the modeller's.
//! The engine says nothing of what they answer; it says what it hands them
//! and what it makes of their answers. Each stage is therefore described by
//! the outcomes that are possible for it, and what holds of every possible
//! outcome is proved: the length of a trajectory and what it records under
//! the reserved keys, the order of the units, where errors come from, and
//! that functions with one answer to each question give one outcome.
//!
//! The engine computes the units one after the other. They depend on each
//! other in nothing, so that a caller is free to compute them elsewhere with
//! [`trajectory::single_run`] and to put the trajectories together in the
//! order that [`order`] describes.

pub mod determinism;
pub mod dict;
pub mod error;
pub mod failures;
pub mod model;
pub mod order;
pub mod records;
pub mod scheduler;
pub mod signals;
pub mod state;
pub mod steps;
pub mod substep;
pub mod sweep;
pub mod trajectory;
pub mod value;

pub use crate::error::EngineError;
pub use crate::model::{Entry, Model, PolicyFunction, Psub, Simulation, StateUpdateFunction, Sweep};
pub use crate::scheduler::run;
pub use crate::signals::reduce_signals;
pub use crate::state::{ParameterSet, Signals, State};
pub use crate::trajectory::single_run;
pub use crate::value::Value;
