//! States, parameter sets and signals, and the keys that the engine owns.

use vstd::prelude::*;

use crate::dict::{assign, Dict};
use crate::error::EngineError;
use crate::value::{Datum, Value};

verus! {

/// A snapshot of the model's variables. Every state that the engine emits
/// carries the five reserved keys `simulation`, `subset`, `run`, `substep`
/// and `timestep`.
pub type State = Dict<Value>;

/// One concrete value for each parameter.
pub type ParameterSet = Dict<Value>;

/// What the policies of one block ask for: a number per signal name. Signals
/// live for one substep and never enter the trajectory.
pub type Signals = Dict<i128>;

/// The content of a [`State`] or a [`ParameterSet`].
pub type Fields = Seq<(Seq<char>, Datum)>;

/// The content of a [`Signals`].
pub type Tally = Seq<(Seq<char>, i128)>;

/// `initial` as the first entry of the trajectory of the given unit. Values
/// that the caller put under a reserved key are overwritten. Runs are
/// recorded from one.
pub open spec fn seeded(initial: Fields, simulation: int, subset: int, run: int) -> Fields {
    let a = assign(initial, "simulation"@, Datum::Number(simulation));
    let b = assign(a, "subset"@, Datum::Number(subset));
    let c = assign(b, "run"@, Datum::Number(run + 1));
    let d = assign(c, "substep"@, Datum::Number(0));
    assign(d, "timestep"@, Datum::Number(0))
}

/// `state` with the timestep set.
pub open spec fn at_timestep(state: Fields, timestep: int) -> Fields {
    assign(state, "timestep"@, Datum::Number(timestep))
}

/// `state` with the substep set.
pub open spec fn at_substep(state: Fields, substep: int) -> Fields {
    assign(state, "substep"@, Datum::Number(substep))
}

/// The content of each state of a trajectory that may have failed to come
/// about.
pub open spec fn contents(result: Result<Vec<State>, EngineError>) -> Result<
    Seq<Fields>,
    EngineError,
> {
    match result {
        Ok(states) => Ok(states.deep_view()),
        Err(e) => Err(e),
    }
}

/// The content of a state that may have failed to come about.
pub open spec fn content(result: Result<State, EngineError>) -> Result<Fields, EngineError> {
    match result {
        Ok(state) => Ok(state@),
        Err(e) => Err(e),
    }
}

/// A copy of `initial` as the first entry of the trajectory of the given
/// unit.
pub fn seed(initial: &State, simulation: usize, subset: usize, run: usize) -> (state: State)
    ensures
        state@ == seeded(initial@, simulation as int, subset as int, run as int),
{
    let mut state = initial.clone();
    state.set("simulation".to_owned(), Value::Number(simulation as i128));
    state.set("subset".to_owned(), Value::Number(subset as i128));
    state.set("run".to_owned(), Value::Number(run as i128 + 1));
    state.set("substep".to_owned(), Value::Number(0));
    state.set("timestep".to_owned(), Value::Number(0));
    state
}

/// A copy of `state` with the timestep set.
pub fn stamp_timestep(state: &State, timestep: i128) -> (stamped: State)
    ensures
        stamped@ == at_timestep(state@, timestep as int),
{
    let mut stamped = state.clone();
    stamped.set("timestep".to_owned(), Value::Number(timestep));
    stamped
}

/// A copy of `state` with the substep set.
pub fn stamp_substep(state: &State, substep: i128) -> (stamped: State)
    ensures
        stamped@ == at_substep(state@, substep as int),
{
    let mut stamped = state.clone();
    stamped.set("substep".to_owned(), Value::Number(substep));
    stamped
}

} // verus!
