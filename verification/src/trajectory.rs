//! The trajectory of one unit: a simulation, a run and a parameter subset.

use vstd::prelude::*;

use crate::error::EngineError;
use crate::model::{PolicyFunction, Psub, StateUpdateFunction};
use crate::state::{
    at_timestep, content, contents, seed, seeded, stamp_timestep, Fields, ParameterSet, State,
};
use crate::steps::{iterate, lemma_iterate_failed, lemma_iterate_next};
use crate::substep::{run_substep, substep_outcome};

verus! {

/// The snapshots `done` with the outcome of one more substep.
pub open spec fn appended(done: Seq<Fields>, snapshot: Result<Fields, EngineError>) -> Result<
    Seq<Fields>,
    EngineError,
> {
    match snapshot {
        Ok(state) => Ok(done.push(state)),
        Err(e) => Err(e),
    }
}

/// The state that block `i` starts from: `start` for the first block, the
/// snapshot of the block before it for the others.
pub open spec fn source_of(start: Fields, done: Seq<Fields>, i: int) -> Fields {
    if i == 0 {
        start
    } else {
        done.last()
    }
}

/// The state that timestep `t + 1` starts from: the last entry of the
/// trajectory with the timestep set.
pub open spec fn opening(trajectory: Seq<Fields>, t: int) -> Fields {
    at_timestep(trajectory.last(), t + 1)
}

/// The steps of a timestep: step `i` runs the substep of block `i`, started
/// from `start` for the first block and from the snapshot of the block
/// before it for the others, and adds the block's snapshot to those made.
pub open spec fn chain_step<P: PolicyFunction, U: StateUpdateFunction>(
    psubs: Seq<Psub<P, U>>,
    params: Fields,
    history: Seq<Fields>,
    start: Fields,
) -> spec_fn(int, Seq<Fields>, Result<Seq<Fields>, EngineError>) -> bool {
    |i: int, done: Seq<Fields>, out: Result<Seq<Fields>, EngineError>|
        exists|snapshot: Result<Fields, EngineError>| #[trigger]
            substep_outcome(
                psubs[i],
                params,
                i,
                history,
                source_of(start, done, i),
                snapshot,
            ) && out == appended(done, snapshot)
}

/// `out` is a possible outcome of one timestep: the snapshots of all blocks
/// in order, or the first error.
pub open spec fn chain_outcome<P: PolicyFunction, U: StateUpdateFunction>(
    psubs: Seq<Psub<P, U>>,
    params: Fields,
    history: Seq<Fields>,
    start: Fields,
    out: Result<Seq<Fields>, EngineError>,
) -> bool {
    iterate(chain_step(psubs, params, history, start), Seq::empty(), psubs.len(), out)
}

/// The trajectory with the outcome of one more timestep.
pub open spec fn extended(trajectory: Seq<Fields>, more: Result<Seq<Fields>, EngineError>) -> Result<
    Seq<Fields>,
    EngineError,
> {
    match more {
        Ok(snapshots) => Ok(trajectory + snapshots),
        Err(e) => Err(e),
    }
}

/// The steps of a trajectory: step `t` runs timestep `t + 1`. It starts from
/// the last entry with the timestep set, shows the blocks the trajectory so
/// far, and appends their snapshots.
pub open spec fn timestep_step<P: PolicyFunction, U: StateUpdateFunction>(
    psubs: Seq<Psub<P, U>>,
    params: Fields,
) -> spec_fn(int, Seq<Fields>, Result<Seq<Fields>, EngineError>) -> bool {
    |t: int, trajectory: Seq<Fields>, out: Result<Seq<Fields>, EngineError>|
        exists|snapshots: Result<Seq<Fields>, EngineError>| #[trigger]
            chain_outcome(
                psubs,
                params,
                trajectory,
                opening(trajectory, t),
                snapshots,
            ) && out == extended(trajectory, snapshots)
}

/// `out` is a possible outcome of the unit: the seeded initial state
/// followed by the snapshots of `timesteps` timesteps, or the first error.
pub open spec fn trajectory_outcome<P: PolicyFunction, U: StateUpdateFunction>(
    simulation: int,
    timesteps: nat,
    run: int,
    subset: int,
    initial: Fields,
    psubs: Seq<Psub<P, U>>,
    params: Fields,
    out: Result<Seq<Fields>, EngineError>,
) -> bool {
    iterate(
        timestep_step(psubs, params),
        seq![seeded(initial, simulation, subset, run)],
        timesteps,
        out,
    )
}

/// Runs the blocks of one timestep in order and returns their snapshots.
/// Each block starts from a copy of the snapshot of the block before it, the
/// first from a copy of `start`; all of them see `history`.
pub fn run_chain<P: PolicyFunction, U: StateUpdateFunction>(
    psubs: &Vec<Psub<P, U>>,
    params: &ParameterSet,
    history: &Vec<State>,
    start: &State,
) -> (result: Result<Vec<State>, EngineError>)
    ensures
        chain_outcome(psubs@, params@, history.deep_view(), start@, contents(result)),
        result matches Ok(snapshots) ==> snapshots.len() == psubs.len(),
{
    let ghost step = chain_step(psubs@, params@, history.deep_view(), start@);
    let mut snapshots: Vec<State> = Vec::new();
    let mut i: usize = 0;
    assert(snapshots.deep_view() =~= Seq::<Fields>::empty());
    while i < psubs.len()
        invariant
            i <= psubs.len(),
            snapshots.len() == i,
            step == chain_step(psubs@, params@, history.deep_view(), start@),
            iterate(step, Seq::empty(), i as nat, Ok(snapshots.deep_view())),
        decreases psubs.len() - i,
    {
        let source = if i == 0 {
            start
        } else {
            &snapshots[i - 1]
        };
        let snapshot = run_substep(&psubs[i], params, i, history, source);
        proof {
            let done = snapshots.deep_view();
            let out = appended(done, content(snapshot));
            assert(i > 0 ==> source@ == done.last());
            assert(substep_outcome(
                psubs@[i as int],
                params@,
                i as int,
                history.deep_view(),
                source_of(start@, done, i as int),
                content(snapshot),
            ));
            assert(step(i as int, done, out));
            lemma_iterate_next(step, Seq::empty(), i as nat, done, out);
        }
        match snapshot {
            Ok(state) => {
                let ghost done = snapshots.deep_view();
                snapshots.push(state);
                assert(snapshots.deep_view() =~= done.push(state@));
            },
            Err(e) => {
                proof {
                    lemma_iterate_failed(step, Seq::empty(), (i + 1) as nat, psubs@.len(), e);
                }
                return Err(e);
            },
        }
        i += 1;
    }
    Ok(snapshots)
}

/// Computes the trajectory of one unit.
///
/// The first entry is a copy of `initial_state` with the reserved keys set;
/// the run is recorded as `run + 1`. Each timestep then starts from a copy
/// of the last entry with the timestep set, and appends one snapshot per
/// block. The first error ends the unit: nothing of the failed timestep is
/// kept.
pub fn single_run<P: PolicyFunction, U: StateUpdateFunction>(
    simulation: usize,
    timesteps: usize,
    run: usize,
    subset: usize,
    initial_state: &State,
    psubs: &Vec<Psub<P, U>>,
    params: &ParameterSet,
) -> (result: Result<Vec<State>, EngineError>)
    ensures
        trajectory_outcome(
            simulation as int,
            timesteps as nat,
            run as int,
            subset as int,
            initial_state@,
            psubs@,
            params@,
            contents(result),
        ),
        result matches Ok(trajectory) ==> trajectory.len() == 1 + timesteps * psubs.len()
            && trajectory[0]@ == seeded(
            initial_state@,
            simulation as int,
            subset as int,
            run as int,
        ),
{
    let ghost step = timestep_step(psubs@, params@);
    let ghost first = seq![seeded(initial_state@, simulation as int, subset as int, run as int)];
    let mut trajectory: Vec<State> = Vec::new();
    trajectory.push(seed(initial_state, simulation, subset, run));
    assert(trajectory.deep_view() =~= first);
    let mut t: usize = 0;
    while t < timesteps
        invariant
            t <= timesteps,
            trajectory.len() == 1 + t * psubs.len(),
            trajectory[0]@ == seeded(initial_state@, simulation as int, subset as int, run as int),
            step == timestep_step(psubs@, params@),
            first == seq![seeded(initial_state@, simulation as int, subset as int, run as int)],
            iterate(step, first, t as nat, Ok(trajectory.deep_view())),
        decreases timesteps - t,
    {
        let previous = stamp_timestep(&trajectory[trajectory.len() - 1], t as i128 + 1);
        let snapshots = run_chain(psubs, params, &trajectory, &previous);
        proof {
            let so_far = trajectory.deep_view();
            let out = extended(so_far, contents(snapshots));
            assert(previous@ == opening(so_far, t as int));
            assert(chain_outcome(
                psubs@,
                params@,
                so_far,
                opening(so_far, t as int),
                contents(snapshots),
            ));
            assert(step(t as int, so_far, out));
            lemma_iterate_next(step, first, t as nat, so_far, out);
        }
        match snapshots {
            Ok(snapshots) => {
                let ghost so_far = trajectory.deep_view();
                let ghost more = snapshots.deep_view();
                let mut snapshots = snapshots;
                trajectory.append(&mut snapshots);
                assert(trajectory.deep_view() =~= so_far + more);
                assert((t + 1) * psubs.len() == t * psubs.len() + psubs.len()) by (nonlinear_arith);
            },
            Err(e) => {
                proof {
                    lemma_iterate_failed(step, first, (t + 1) as nat, timesteps as nat, e);
                }
                return Err(e);
            },
        }
        t += 1;
    }
    Ok(trajectory)
}

} // verus!
