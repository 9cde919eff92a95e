//! What a modeller hands to the engine: the functions of a block, the blocks
//! of a model, and a model with its run configuration.

use vstd::prelude::*;

use crate::dict::Dict;
use crate::error::EngineError;
use crate::state::{Fields, ParameterSet, Signals, State, Tally};
use crate::value::{Datum, Value};

verus! {

/// A function that looks at the state and answers with signals.
///
/// The engine calls it with the parameters of the unit, the index of the
/// block, the trajectory so far and a copy of the block's working state.
pub trait PolicyFunction {
    /// Whether `signals` is an answer that the function may give to these
    /// arguments. A function that gives one answer to each question admits
    /// exactly that answer; by default nothing is said of the answer.
    open spec fn may_signal(
        &self,
        params: Fields,
        substep: int,
        history: Seq<Fields>,
        substate: Fields,
        signals: Tally,
    ) -> bool {
        true
    }

    /// Answers with the signals that the policy asks for.
    fn evaluate(
        &self,
        params: &ParameterSet,
        substep: usize,
        history: &Vec<State>,
        substate: State,
    ) -> (signals: Signals)
        ensures
            self.may_signal(params@, substep as int, history.deep_view(), substate@, signals@),
    ;
}

/// A function that computes the new value of one state variable.
///
/// The engine calls it with the parameters of the unit, the index of the
/// block, the trajectory so far, a copy of the block's working state and a
/// copy of the block's signals. It answers with the key of its variable and
/// the new value.
pub trait StateUpdateFunction {
    /// Whether `(key, value)` is an answer that the function may give to
    /// these arguments. By default nothing is said of the answer.
    open spec fn may_return(
        &self,
        params: Fields,
        substep: int,
        history: Seq<Fields>,
        substate: Fields,
        signals: Tally,
        key: Seq<char>,
        value: Datum,
    ) -> bool {
        true
    }

    /// Answers with the key of the variable and its new value.
    fn apply(
        &self,
        params: &ParameterSet,
        substep: usize,
        history: &Vec<State>,
        substate: State,
        signals: Signals,
    ) -> (update: (String, Value))
        ensures
            self.may_return(
                params@,
                substep as int,
                history.deep_view(),
                substate@,
                signals@,
                update.0@,
                update.1@,
            ),
    ;
}

/// What a block declares under a name: a function, or something that
/// cannot be invoked.
#[derive(Debug, PartialEq, Eq)]
pub enum Entry<F> {
    /// A function.
    Callable(F),
    /// Something that was declared but cannot be invoked.
    NotCallable,
}

impl<F> DeepView for Entry<F> {
    type V = Entry<F>;

    open spec fn deep_view(&self) -> Entry<F> {
        *self
    }
}

/// Some entry under `entries` cannot be invoked.
pub open spec fn has_inert<F>(entries: Seq<(Seq<char>, Entry<F>)>) -> bool {
    exists|j: int| 0 <= j < entries.len() && (#[trigger] entries[j]).1 is NotCallable
}

/// Whether every entry can be invoked.
fn all_callable<F>(entries: &Dict<Entry<F>>) -> (ok: bool)
    ensures
        ok == !has_inert(entries@),
{
    let mut j: usize = 0;
    while j < entries.len()
        invariant
            j <= entries@.len(),
            forall|k: int| 0 <= k < j ==> (#[trigger] entries@[k]).1 is Callable,
        decreases entries@.len() - j,
    {
        match entries.value_at(j) {
            Entry::NotCallable => {
                assert(entries@[j as int].1 is NotCallable);
                return false;
            },
            Entry::Callable(_) => {},
        }
        j += 1;
    }
    true
}

/// A partial state update block: the policies and the state update
/// functions that run together in one substep, each in declared order.
#[derive(Debug, PartialEq, Eq)]
pub struct Psub<P, U> {
    /// The policies by name.
    pub policies: Dict<Entry<P>>,
    /// The state update functions, each under the key of its variable.
    pub variables: Dict<Entry<U>>,
}

impl<P, U> Psub<P, U> {
    /// A block of the given policies and state update functions.
    pub fn new(policies: Dict<Entry<P>>, variables: Dict<Entry<U>>) -> (psub: Self)
        ensures
            psub.policies == policies,
            psub.variables == variables,
    {
        Psub { policies, variables }
    }

    /// Some policy or state update entry of the block cannot be invoked.
    pub open spec fn inert(&self) -> bool {
        has_inert(self.policies@) || has_inert(self.variables@)
    }

    /// Checks that every entry of the block can be invoked.
    pub fn validate(&self) -> (result: Result<(), EngineError>)
        ensures
            result == if self.inert() {
                Err::<(), EngineError>(EngineError::NotCallable)
            } else {
                Ok::<(), EngineError>(())
            },
    {
        if all_callable(&self.policies) && all_callable(&self.variables) {
            Ok(())
        } else {
            Err(EngineError::NotCallable)
        }
    }
}

/// The sequences of values to sweep, by parameter name.
pub type Sweep = Dict<Vec<Value>>;

/// The content of a [`Sweep`].
pub type Grid = Seq<(Seq<char>, Seq<Datum>)>;

/// A model: where it starts, the blocks of a timestep in order, and the
/// parameters to sweep.
#[derive(Debug, PartialEq, Eq)]
pub struct Model<P, U> {
    initial_state: State,
    psubs: Vec<Psub<P, U>>,
    params: Sweep,
}

impl<P, U> Model<P, U> {
    /// The state that every unit starts from.
    pub closed spec fn spec_initial_state(&self) -> &State {
        &self.initial_state
    }

    /// The blocks of a timestep, in the order in which they run.
    pub closed spec fn spec_psubs(&self) -> &Vec<Psub<P, U>> {
        &self.psubs
    }

    /// The parameters to sweep.
    pub closed spec fn spec_params(&self) -> &Sweep {
        &self.params
    }

    /// A model of the given initial state, blocks and parameters. The
    /// order of the blocks is the order in which they run, and stays as it
    /// is given here.
    pub fn new(initial_state: State, psubs: Vec<Psub<P, U>>, params: Sweep) -> (model: Self)
        ensures
            model.spec_initial_state() == initial_state,
            model.spec_psubs() == psubs,
            model.spec_params() == params,
    {
        Model { initial_state, psubs, params }
    }

    /// Some entry of some block cannot be invoked.
    pub open spec fn inert(&self) -> bool {
        exists|i: int| 0 <= i < self.psubs()@.len() && (#[trigger] self.psubs()@[i]).inert()
    }

    /// Checks, before anything is run, that every entry of every block can
    /// be invoked.
    pub fn validate(&self) -> (result: Result<(), EngineError>)
        ensures
            result == if self.inert() {
                Err::<(), EngineError>(EngineError::NotCallable)
            } else {
                Ok::<(), EngineError>(())
            },
    {
        let mut i: usize = 0;
        while i < self.psubs.len()
            invariant
                i <= self.psubs@.len(),
                forall|k: int| 0 <= k < i ==> !(#[trigger] self.psubs@[k]).inert(),
            decreases self.psubs@.len() - i,
        {
            if self.psubs[i].validate().is_err() {
                assert(self.psubs()@[i as int].inert());
                return Err(EngineError::NotCallable);
            }
            i += 1;
        }
        Ok(())
    }

    /// The state that every unit starts from.
    #[verifier::when_used_as_spec(spec_initial_state)]
    pub fn initial_state(&self) -> (state: &State)
        ensures
            state == self.spec_initial_state(),
    {
        &self.initial_state
    }

    /// The blocks of a timestep, in the order in which they run.
    #[verifier::when_used_as_spec(spec_psubs)]
    pub fn psubs(&self) -> (psubs: &Vec<Psub<P, U>>)
        ensures
            psubs == self.spec_psubs(),
    {
        &self.psubs
    }

    /// The parameters to sweep.
    #[verifier::when_used_as_spec(spec_params)]
    pub fn params(&self) -> (params: &Sweep)
        ensures
            params == self.spec_params(),
    {
        &self.params
    }
}

/// A model with the number of timesteps of a trajectory and the number of
/// runs.
#[derive(Debug, PartialEq, Eq)]
pub struct Simulation<P, U> {
    model: Model<P, U>,
    timesteps: usize,
    runs: usize,
}

impl<P, U> Simulation<P, U> {
    /// The model.
    pub closed spec fn spec_model(&self) -> &Model<P, U> {
        &self.model
    }

    /// The number of timesteps of each trajectory.
    pub closed spec fn spec_timesteps(&self) -> usize {
        self.timesteps
    }

    /// The number of runs.
    pub closed spec fn spec_runs(&self) -> usize {
        self.runs
    }

    /// A simulation of `model` over `runs` runs of `timesteps` timesteps.
    pub fn new(timesteps: usize, runs: usize, model: Model<P, U>) -> (simulation: Self)
        ensures
            simulation.spec_timesteps() == timesteps,
            simulation.spec_runs() == runs,
            simulation.spec_model() == model,
    {
        Simulation { model, timesteps, runs }
    }

    /// The model.
    #[verifier::when_used_as_spec(spec_model)]
    pub fn model(&self) -> (model: &Model<P, U>)
        ensures
            model == self.spec_model(),
    {
        &self.model
    }

    /// The number of timesteps of each trajectory.
    #[verifier::when_used_as_spec(spec_timesteps)]
    pub fn timesteps(&self) -> (timesteps: usize)
        ensures
            timesteps == self.spec_timesteps(),
    {
        self.timesteps
    }

    /// The number of runs.
    #[verifier::when_used_as_spec(spec_runs)]
    pub fn runs(&self) -> (runs: usize)
        ensures
            runs == self.spec_runs(),
    {
        self.runs
    }
}

} // verus!
