//! Where the errors of a run come from, and when a run cannot fail.

use vstd::prelude::*;

use crate::error::EngineError;
use crate::model::{
    has_inert, Entry, PolicyFunction, Psub, Simulation, StateUpdateFunction,
};
use crate::scheduler::{
    lone_unit, run_outcome, run_step, simulation_outcome, simulation_step, subset_step,
    unit_outcome,
};
use crate::signals::reduced;
use crate::state::{at_substep, Fields, Tally};
use crate::steps::{iterate, lemma_iterate_failure};
use crate::substep::{
    gathered, settled, signals_outcome, substep_outcome, update_step, updated,
};
use crate::sweep::{raw, swept};
use crate::trajectory::{
    appended, chain_outcome, chain_step, extended, opening, source_of, timestep_step,
    trajectory_outcome,
};
use crate::value::Datum;

verus! {

/// Some state update function of the block may answer for another key than
/// the one it is declared under.
pub open spec fn may_stray<P: PolicyFunction, U: StateUpdateFunction>(psub: Psub<P, U>) -> bool {
    exists|
        j: int,
        params: Fields,
        index: int,
        history: Seq<Fields>,
        base: Fields,
        signals: Tally,
        key: Seq<char>,
        value: Datum,
    |
        0 <= j < psub.variables@.len() && psub.variables@[j].1 is Callable && key
            != psub.variables@[j].0 && #[trigger] psub.variables@[j].1->Callable_0.may_return(
            params,
            index,
            history,
            base,
            signals,
            key,
            value,
        )
}

/// The block can be the source of the error: an entry that cannot be
/// invoked for `NotCallable`, a state update function that may answer for
/// another key for `KeyMismatch`, and two policies or more, whose answers
/// have to be added, for `Overflow`. No block is the source of
/// `MalformedSweep`.
pub open spec fn may_fail<P: PolicyFunction, U: StateUpdateFunction>(
    psub: Psub<P, U>,
    e: EngineError,
) -> bool {
    match e {
        EngineError::NotCallable => has_inert(psub.policies@) || has_inert(psub.variables@),
        EngineError::KeyMismatch => may_stray(psub),
        EngineError::Overflow => psub.policies@.len() >= 2,
        EngineError::MalformedSweep => false,
    }
}

/// Some block can be the source of the error.
pub open spec fn some_may_fail<P: PolicyFunction, U: StateUpdateFunction>(
    psubs: Seq<Psub<P, U>>,
    e: EngineError,
) -> bool {
    exists|i: int| 0 <= i < psubs.len() && may_fail(#[trigger] psubs[i], e)
}

/// The simulation can be the source of the error: its sweep for
/// `MalformedSweep`, one of its blocks for the others.
pub open spec fn simulation_may_fail<P: PolicyFunction, U: StateUpdateFunction>(
    simulation: Simulation<P, U>,
    e: EngineError,
) -> bool {
    if e == EngineError::MalformedSweep {
        swept(simulation.model().params()@) is Err
    } else {
        some_may_fail(simulation.model().psubs()@, e)
    }
}

/// A substep fails only with an error that its block can be the source of.
pub proof fn lemma_substep_failure<P: PolicyFunction, U: StateUpdateFunction>(
    psub: Psub<P, U>,
    params: Fields,
    index: int,
    history: Seq<Fields>,
    start: Fields,
    e: EngineError,
)
    requires
        substep_outcome(psub, params, index, history, start, Err(e)),
    ensures
        may_fail(psub, e),
{
    let base = at_substep(start, index + 1);
    let variables = psub.variables@;
    let out = Err::<Fields, EngineError>(e);
    let signals = choose|signals: Result<Tally, EngineError>| #[trigger]
        signals_outcome(psub.policies@, params, index, history, base, signals) && match signals {
            Ok(tally) => iterate(
                update_step(variables, params, index, history, tally),
                base,
                variables.len(),
                out,
            ),
            Err(e) => out == Err::<Fields, EngineError>(e),
        };
    match signals {
        Ok(tally) => {
            let step = update_step(variables, params, index, history, tally);
            lemma_iterate_failure(step, base, variables.len(), e);
            let (j, state) = choose|j: int, state: Fields|
                0 <= j < variables.len() && iterate(step, base, j as nat, Ok(state))
                    && #[trigger] step(j, state, Err(e));
            assert(updated(variables[j], params, index, history, tally, state, out));
            match variables[j].1 {
                Entry::NotCallable => {
                    assert(variables[j].1 is NotCallable);
                },
                Entry::Callable(f) => {
                    let (key, value) = choose|key: Seq<char>, value: Datum| #[trigger]
                        f.may_return(params, index, history, state, tally, key, value) && out
                            == settled(variables[j].0, state, key, value);
                    assert(psub.variables@[j].1->Callable_0.may_return(
                        params,
                        index,
                        history,
                        state,
                        tally,
                        key,
                        value,
                    ));
                },
            }
        },
        Err(_) => {
            if !has_inert(psub.policies@) {
                let outputs = choose|outputs: Seq<Tally>| #[trigger]
                    gathered(psub.policies@, params, index, history, base, outputs) && signals
                        == reduced(outputs);
                if outputs.len() == 0 {
                    assert(crate::signals::fold(outputs) == Some(Seq::<(Seq<char>, i128)>::empty()));
                }
            }
        },
    }
}

/// A unit fails only with an error that one of the blocks can be the source
/// of.
pub proof fn lemma_trajectory_failure<P: PolicyFunction, U: StateUpdateFunction>(
    simulation: int,
    timesteps: nat,
    run: int,
    subset: int,
    initial: Fields,
    psubs: Seq<Psub<P, U>>,
    params: Fields,
    e: EngineError,
)
    requires
        trajectory_outcome(simulation, timesteps, run, subset, initial, psubs, params, Err(e)),
    ensures
        some_may_fail(psubs, e),
{
    let first = seq![crate::state::seeded(initial, simulation, subset, run)];
    let step = timestep_step(psubs, params);
    lemma_iterate_failure(step, first, timesteps, e);
    let (t, history) = choose|t: int, history: Seq<Fields>|
        0 <= t < timesteps && iterate(step, first, t as nat, Ok(history)) && #[trigger] step(
            t,
            history,
            Err(e),
        );
    let start = opening(history, t);
    let made = choose|made: Result<Seq<Fields>, EngineError>| #[trigger]
        chain_outcome(psubs, params, history, start, made) && Err::<Seq<Fields>, EngineError>(e)
            == extended(history, made);
    let inner = chain_step(psubs, params, history, start);
    lemma_iterate_failure(inner, Seq::empty(), psubs.len(), e);
    let (i, done) = choose|i: int, done: Seq<Fields>|
        0 <= i < psubs.len() && iterate(inner, Seq::empty(), i as nat, Ok(done)) && #[trigger] inner(
            i,
            done,
            Err(e),
        );
    let snapshot = choose|snapshot: Result<Fields, EngineError>| #[trigger]
        substep_outcome(psubs[i], params, i, history, source_of(start, done, i), snapshot) && Err::<
            Seq<Fields>,
            EngineError,
        >(e) == appended(done, snapshot);
    lemma_substep_failure(psubs[i], params, i, history, source_of(start, done, i), e);
    assert(may_fail(psubs[i], e));
}

/// A simulation fails only with an error that it can be the source of.
pub proof fn lemma_simulation_failure<P: PolicyFunction, U: StateUpdateFunction>(
    simulation: Simulation<P, U>,
    index: int,
    e: EngineError,
)
    requires
        simulation_outcome(simulation, index, Err(e)),
    ensures
        simulation_may_fail(simulation, e),
{
    let grid = simulation.model().params()@;
    let timesteps = simulation.timesteps() as nat;
    let initial = simulation.model().initial_state()@;
    let psubs = simulation.model().psubs()@;
    if swept(grid) is Ok {
        let expansion = swept(grid)->Ok_0;
        let step = run_step(simulation, index, expansion);
        lemma_iterate_failure(step, Seq::empty(), simulation.runs() as nat, e);
        let (run, block) = choose|run: int, block: Seq<Fields>|
            0 <= run < simulation.runs() && iterate(step, Seq::empty(), run as nat, Ok(block))
                && #[trigger] step(run, block, Err(e));
        if expansion.len() > 0 {
            let inner = subset_step(simulation, index, run, expansion);
            lemma_iterate_failure(inner, block, expansion.len(), e);
            let (subset, units) = choose|subset: int, units: Seq<Fields>|
                0 <= subset < expansion.len() && iterate(inner, block, subset as nat, Ok(units))
                    && #[trigger] inner(subset, units, Err(e));
            let made = choose|made: Result<Seq<Fields>, EngineError>| #[trigger]
                unit_outcome(simulation, index, run, subset, expansion[subset], made) && Err::<
                    Seq<Fields>,
                    EngineError,
                >(e) == extended(units, made);
            lemma_trajectory_failure(
                index,
                timesteps,
                run,
                subset,
                initial,
                psubs,
                expansion[subset],
                e,
            );
        } else {
            assert(lone_unit(simulation, index, run, block, Err(e)));
            let made = choose|made: Result<Seq<Fields>, EngineError>| #[trigger]
                unit_outcome(simulation, index, run, 0, raw(grid), made) && Err::<
                    Seq<Fields>,
                    EngineError,
                >(e) == extended(block, made);
            lemma_trajectory_failure(index, timesteps, run, 0, initial, psubs, raw(grid), e);
        }
    }
}

/// Where errors come from: a call fails only with an error that one of its
/// simulations can be the source of. `MalformedSweep` needs a sweep that
/// cannot be expanded, `NotCallable` an entry that cannot be invoked,
/// `KeyMismatch` a state update function that may answer for another key
/// than its own, and `Overflow` a block with two policies or more.
pub proof fn lemma_run_failure<P: PolicyFunction, U: StateUpdateFunction>(
    simulations: Seq<Simulation<P, U>>,
    e: EngineError,
)
    requires
        run_outcome(simulations, Err(e)),
    ensures
        exists|i: int|
            0 <= i < simulations.len() && simulation_may_fail(#[trigger] simulations[i], e),
{
    let step = simulation_step(simulations);
    lemma_iterate_failure(step, Seq::empty(), simulations.len(), e);
    let (i, states) = choose|i: int, states: Seq<Fields>|
        0 <= i < simulations.len() && iterate(step, Seq::empty(), i as nat, Ok(states))
            && #[trigger] step(i, states, Err(e));
    let block = choose|block: Result<Seq<Fields>, EngineError>| #[trigger]
        simulation_outcome(simulations[i], i, block) && Err::<Seq<Fields>, EngineError>(e)
            == extended(states, block);
    lemma_simulation_failure(simulations[i], i, e);
}

/// A call on models that pass validation never fails with `NotCallable`.
pub proof fn lemma_validated_never_inert<P: PolicyFunction, U: StateUpdateFunction>(
    simulations: Seq<Simulation<P, U>>,
    out: Result<Seq<Fields>, EngineError>,
)
    requires
        run_outcome(simulations, out),
        forall|i: int| 0 <= i < simulations.len() ==> !(#[trigger] simulations[i]).model().inert(),
    ensures
        out != Err::<Seq<Fields>, EngineError>(EngineError::NotCallable),
{
    if out == Err::<Seq<Fields>, EngineError>(EngineError::NotCallable) {
        lemma_run_failure(simulations, EngineError::NotCallable);
        let i = choose|i: int|
            0 <= i < simulations.len() && simulation_may_fail(
                #[trigger] simulations[i],
                EngineError::NotCallable,
            );
        let psubs = simulations[i].model().psubs()@;
        let b = choose|b: int|
            0 <= b < psubs.len() && may_fail(#[trigger] psubs[b], EngineError::NotCallable);
        assert(psubs[b].inert());
    }
}

/// When success is owed: a call on simulations of which none can be the
/// source of any error succeeds.
pub proof fn lemma_success_owed<P: PolicyFunction, U: StateUpdateFunction>(
    simulations: Seq<Simulation<P, U>>,
    out: Result<Seq<Fields>, EngineError>,
)
    requires
        run_outcome(simulations, out),
        forall|i: int, e: EngineError|
            0 <= i < simulations.len() ==> !#[trigger] simulation_may_fail(simulations[i], e),
    ensures
        out is Ok,
{
    if out is Err {
        lemma_run_failure(simulations, out->Err_0);
    }
}

} // verus!
