//! Determinism: functions that give one answer to each question give a run
//! one outcome.

use vstd::prelude::*;

use crate::error::EngineError;
use crate::model::{has_inert, PolicyFunction, Psub, Simulation, StateUpdateFunction};
use crate::scheduler::{
    lone_unit, run_outcome, run_step, simulation_outcome, simulation_step, subset_step,
    unit_outcome,
};
use crate::signals::reduced;
use crate::state::{at_substep, seeded, Fields, Tally};
use crate::steps::{functional, iterate, lemma_iterate_functional};
use crate::substep::{
    answered, gathered, signals_outcome, substep_outcome, update_step, updated,
};
use crate::sweep::{raw, swept};
use crate::trajectory::{
    appended, chain_outcome, chain_step, extended, opening, source_of, timestep_step,
    trajectory_outcome,
};
use crate::value::Datum;

verus! {

/// The policy gives one answer to each question.
pub open spec fn deterministic_policy<P: PolicyFunction>(policy: P) -> bool {
    forall|
        params: Fields,
        index: int,
        history: Seq<Fields>,
        base: Fields,
        a: Tally,
        b: Tally,
    |
        #[trigger] policy.may_signal(params, index, history, base, a) && #[trigger] policy.may_signal(
            params,
            index,
            history,
            base,
            b,
        ) ==> a == b
}

/// The state update function gives one answer to each question.
pub open spec fn deterministic_update<U: StateUpdateFunction>(update: U) -> bool {
    forall|
        params: Fields,
        index: int,
        history: Seq<Fields>,
        base: Fields,
        signals: Tally,
        key_a: Seq<char>,
        value_a: Datum,
        key_b: Seq<char>,
        value_b: Datum,
    |
        #[trigger] update.may_return(params, index, history, base, signals, key_a, value_a)
            && #[trigger] update.may_return(params, index, history, base, signals, key_b, value_b)
            ==> key_a == key_b && value_a == value_b
}

/// Every function of the block gives one answer to each question.
pub open spec fn deterministic_psub<P: PolicyFunction, U: StateUpdateFunction>(
    psub: Psub<P, U>,
) -> bool {
    &&& forall|j: int|
        0 <= j < psub.policies@.len() && (#[trigger] psub.policies@[j]).1 is Callable
            ==> deterministic_policy(psub.policies@[j].1->Callable_0)
    &&& forall|j: int|
        0 <= j < psub.variables@.len() && (#[trigger] psub.variables@[j]).1 is Callable
            ==> deterministic_update(psub.variables@[j].1->Callable_0)
}

/// Every function of every block gives one answer to each question.
pub open spec fn deterministic_psubs<P: PolicyFunction, U: StateUpdateFunction>(
    psubs: Seq<Psub<P, U>>,
) -> bool {
    forall|i: int| 0 <= i < psubs.len() ==> deterministic_psub(#[trigger] psubs[i])
}

/// With deterministic policies a block's signals have one possible outcome.
pub proof fn lemma_signals_deterministic<P: PolicyFunction, U: StateUpdateFunction>(
    psub: Psub<P, U>,
    params: Fields,
    index: int,
    history: Seq<Fields>,
    base: Fields,
    a: Result<Tally, EngineError>,
    b: Result<Tally, EngineError>,
)
    requires
        deterministic_psub(psub),
        signals_outcome(psub.policies@, params, index, history, base, a),
        signals_outcome(psub.policies@, params, index, history, base, b),
    ensures
        a == b,
{
    let policies = psub.policies@;
    if !has_inert(policies) {
        let first = choose|outputs: Seq<Tally>| #[trigger]
            gathered(policies, params, index, history, base, outputs) && a == reduced(outputs);
        let second = choose|outputs: Seq<Tally>| #[trigger]
            gathered(policies, params, index, history, base, outputs) && b == reduced(outputs);
        assert forall|j: int| 0 <= j < policies.len() implies first[j] == second[j] by {
            assert(answered(policies[j].1, params, index, history, base, first[j]));
            assert(answered(policies[j].1, params, index, history, base, second[j]));
            assert(deterministic_policy(policies[j].1->Callable_0));
        }
        assert(first =~= second);
    }
}

/// With deterministic state update functions each update of a block has
/// one possible result.
pub proof fn lemma_updates_functional<P: PolicyFunction, U: StateUpdateFunction>(
    psub: Psub<P, U>,
    params: Fields,
    index: int,
    history: Seq<Fields>,
    signals: Tally,
)
    requires
        deterministic_psub(psub),
    ensures
        functional(
            update_step(psub.variables@, params, index, history, signals),
            psub.variables@.len(),
        ),
{
    let variables = psub.variables@;
    let step = update_step(variables, params, index, history, signals);
    assert forall|
        j: int,
        base: Fields,
        a: Result<Fields, EngineError>,
        b: Result<Fields, EngineError>,
    | 0 <= j < variables.len() && #[trigger] step(j, base, a) && #[trigger] step(j, base, b) implies a
        == b by {
        assert(updated(variables[j], params, index, history, signals, base, a));
        assert(updated(variables[j], params, index, history, signals, base, b));
        if variables[j].1 is Callable {
            assert(deterministic_update(variables[j].1->Callable_0));
        }
    }
}

/// With deterministic functions a substep has one possible outcome.
pub proof fn lemma_substep_deterministic<P: PolicyFunction, U: StateUpdateFunction>(
    psub: Psub<P, U>,
    params: Fields,
    index: int,
    history: Seq<Fields>,
    start: Fields,
    a: Result<Fields, EngineError>,
    b: Result<Fields, EngineError>,
)
    requires
        deterministic_psub(psub),
        substep_outcome(psub, params, index, history, start, a),
        substep_outcome(psub, params, index, history, start, b),
    ensures
        a == b,
{
    let base = at_substep(start, index + 1);
    let first = choose|signals: Result<Tally, EngineError>| #[trigger]
        signals_outcome(psub.policies@, params, index, history, base, signals) && match signals {
            Ok(tally) => iterate(
                update_step(psub.variables@, params, index, history, tally),
                base,
                psub.variables@.len(),
                a,
            ),
            Err(e) => a == Err::<Fields, EngineError>(e),
        };
    let second = choose|signals: Result<Tally, EngineError>| #[trigger]
        signals_outcome(psub.policies@, params, index, history, base, signals) && match signals {
            Ok(tally) => iterate(
                update_step(psub.variables@, params, index, history, tally),
                base,
                psub.variables@.len(),
                b,
            ),
            Err(e) => b == Err::<Fields, EngineError>(e),
        };
    lemma_signals_deterministic(psub, params, index, history, base, first, second);
    if first is Ok {
        let tally = first->Ok_0;
        lemma_updates_functional(psub, params, index, history, tally);
        lemma_iterate_functional(
            update_step(psub.variables@, params, index, history, tally),
            base,
            psub.variables@.len(),
            a,
            b,
        );
    }
}

/// With deterministic functions a timestep has one possible outcome.
pub proof fn lemma_chain_deterministic<P: PolicyFunction, U: StateUpdateFunction>(
    psubs: Seq<Psub<P, U>>,
    params: Fields,
    history: Seq<Fields>,
    start: Fields,
    a: Result<Seq<Fields>, EngineError>,
    b: Result<Seq<Fields>, EngineError>,
)
    requires
        deterministic_psubs(psubs),
        chain_outcome(psubs, params, history, start, a),
        chain_outcome(psubs, params, history, start, b),
    ensures
        a == b,
{
    let step = chain_step(psubs, params, history, start);
    assert forall|
        i: int,
        done: Seq<Fields>,
        x: Result<Seq<Fields>, EngineError>,
        y: Result<Seq<Fields>, EngineError>,
    | 0 <= i < psubs.len() && #[trigger] step(i, done, x) && #[trigger] step(i, done, y) implies x
        == y by {
        let from = source_of(start, done, i);
        let first = choose|snapshot: Result<Fields, EngineError>| #[trigger]
            substep_outcome(psubs[i], params, i, history, from, snapshot) && x == appended(
                done,
                snapshot,
            );
        let second = choose|snapshot: Result<Fields, EngineError>| #[trigger]
            substep_outcome(psubs[i], params, i, history, from, snapshot) && y == appended(
                done,
                snapshot,
            );
        assert(deterministic_psub(psubs[i]));
        lemma_substep_deterministic(psubs[i], params, i, history, from, first, second);
    }
    lemma_iterate_functional(step, Seq::empty(), psubs.len(), a, b);
}

/// With deterministic functions a unit has one possible trajectory.
pub proof fn lemma_trajectory_deterministic<P: PolicyFunction, U: StateUpdateFunction>(
    simulation: int,
    timesteps: nat,
    run: int,
    subset: int,
    initial: Fields,
    psubs: Seq<Psub<P, U>>,
    params: Fields,
    a: Result<Seq<Fields>, EngineError>,
    b: Result<Seq<Fields>, EngineError>,
)
    requires
        deterministic_psubs(psubs),
        trajectory_outcome(simulation, timesteps, run, subset, initial, psubs, params, a),
        trajectory_outcome(simulation, timesteps, run, subset, initial, psubs, params, b),
    ensures
        a == b,
{
    let step = timestep_step(psubs, params);
    assert forall|
        t: int,
        trajectory: Seq<Fields>,
        x: Result<Seq<Fields>, EngineError>,
        y: Result<Seq<Fields>, EngineError>,
    | 0 <= t < timesteps && #[trigger] step(t, trajectory, x) && #[trigger] step(
        t,
        trajectory,
        y,
    ) implies x == y by {
        let start = opening(trajectory, t);
        let first = choose|snapshots: Result<Seq<Fields>, EngineError>| #[trigger]
            chain_outcome(psubs, params, trajectory, start, snapshots) && x == extended(
                trajectory,
                snapshots,
            );
        let second = choose|snapshots: Result<Seq<Fields>, EngineError>| #[trigger]
            chain_outcome(psubs, params, trajectory, start, snapshots) && y == extended(
                trajectory,
                snapshots,
            );
        lemma_chain_deterministic(psubs, params, trajectory, start, first, second);
    }
    lemma_iterate_functional(
        step,
        seq![seeded(initial, simulation, subset, run)],
        timesteps,
        a,
        b,
    );
}

/// With deterministic functions a simulation has one possible outcome.
pub proof fn lemma_simulation_deterministic<P: PolicyFunction, U: StateUpdateFunction>(
    simulation: Simulation<P, U>,
    index: int,
    a: Result<Seq<Fields>, EngineError>,
    b: Result<Seq<Fields>, EngineError>,
)
    requires
        deterministic_psubs(simulation.model().psubs()@),
        simulation_outcome(simulation, index, a),
        simulation_outcome(simulation, index, b),
    ensures
        a == b,
{
    let grid = simulation.model().params()@;
    if swept(grid) is Ok {
        let expansion = swept(grid)->Ok_0;
        let step = run_step(simulation, index, expansion);
        let timesteps = simulation.timesteps() as nat;
        let initial = simulation.model().initial_state()@;
        let psubs = simulation.model().psubs()@;
        assert forall|
            run: int,
            block: Seq<Fields>,
            x: Result<Seq<Fields>, EngineError>,
            y: Result<Seq<Fields>, EngineError>,
        | 0 <= run < simulation.runs() && #[trigger] step(run, block, x) && #[trigger] step(
            run,
            block,
            y,
        ) implies x == y by {
            if expansion.len() > 0 {
                let inner = subset_step(simulation, index, run, expansion);
                assert forall|
                    subset: int,
                    units: Seq<Fields>,
                    p: Result<Seq<Fields>, EngineError>,
                    q: Result<Seq<Fields>, EngineError>,
                | 0 <= subset < expansion.len() && #[trigger] inner(subset, units, p)
                    && #[trigger] inner(subset, units, q) implies p == q by {
                    let params = expansion[subset];
                    let first = choose|trajectory: Result<Seq<Fields>, EngineError>| #[trigger]
                        unit_outcome(simulation, index, run, subset, params, trajectory) && p
                            == extended(units, trajectory);
                    let second = choose|trajectory: Result<Seq<Fields>, EngineError>| #[trigger]
                        unit_outcome(simulation, index, run, subset, params, trajectory) && q
                            == extended(units, trajectory);
                    lemma_trajectory_deterministic(
                        index,
                        timesteps,
                        run,
                        subset,
                        initial,
                        psubs,
                        params,
                        first,
                        second,
                    );
                }
                lemma_iterate_functional(inner, block, expansion.len(), x, y);
            } else {
                let params = raw(grid);
                assert(lone_unit(simulation, index, run, block, x));
                assert(lone_unit(simulation, index, run, block, y));
                let first = choose|trajectory: Result<Seq<Fields>, EngineError>| #[trigger]
                    unit_outcome(simulation, index, run, 0, params, trajectory) && x == extended(
                        block,
                        trajectory,
                    );
                let second = choose|trajectory: Result<Seq<Fields>, EngineError>| #[trigger]
                    unit_outcome(simulation, index, run, 0, params, trajectory) && y == extended(
                        block,
                        trajectory,
                    );
                lemma_trajectory_deterministic(
                    index,
                    timesteps,
                    run,
                    0,
                    initial,
                    psubs,
                    params,
                    first,
                    second,
                );
            }
        }
        lemma_iterate_functional(step, Seq::empty(), simulation.runs() as nat, a, b);
    }
}

/// Determinism: when every function of every model gives one answer to each
/// question, a call has one possible outcome. Two calls on the same
/// simulations then return the same states in the same order, or the same
/// error.
pub proof fn lemma_run_deterministic<P: PolicyFunction, U: StateUpdateFunction>(
    simulations: Seq<Simulation<P, U>>,
    a: Result<Seq<Fields>, EngineError>,
    b: Result<Seq<Fields>, EngineError>,
)
    requires
        forall|i: int|
            0 <= i < simulations.len() ==> deterministic_psubs(
                (#[trigger] simulations[i]).model().psubs()@,
            ),
        run_outcome(simulations, a),
        run_outcome(simulations, b),
    ensures
        a == b,
{
    let step = simulation_step(simulations);
    assert forall|
        index: int,
        result: Seq<Fields>,
        x: Result<Seq<Fields>, EngineError>,
        y: Result<Seq<Fields>, EngineError>,
    | 0 <= index < simulations.len() && #[trigger] step(index, result, x) && #[trigger] step(
        index,
        result,
        y,
    ) implies x == y by {
        let first = choose|block: Result<Seq<Fields>, EngineError>| #[trigger]
            simulation_outcome(simulations[index], index, block) && x == extended(result, block);
        let second = choose|block: Result<Seq<Fields>, EngineError>| #[trigger]
            simulation_outcome(simulations[index], index, block) && y == extended(result, block);
        lemma_simulation_deterministic(simulations[index], index, first, second);
    }
    lemma_iterate_functional(step, Seq::empty(), simulations.len(), a, b);
}

} // verus!
