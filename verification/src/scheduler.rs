//! The order of the work: simulations, then runs, then parameter subsets.

use vstd::prelude::*;

use crate::error::EngineError;
use crate::model::{PolicyFunction, Simulation, StateUpdateFunction};
use crate::state::{contents, Fields, ParameterSet, State};
use crate::steps::{iterate, lemma_iterate_failed, lemma_iterate_next};
use crate::sweep::{expand_sweep, raw, raw_parameters, swept};
use crate::trajectory::{extended, single_run, trajectory_outcome};

verus! {

/// `out` is a possible outcome of one unit of `simulation`, the simulation
/// at `index`: the trajectory of the given run and subset under `params`.
pub open spec fn unit_outcome<P: PolicyFunction, U: StateUpdateFunction>(
    simulation: Simulation<P, U>,
    index: int,
    run: int,
    subset: int,
    params: Fields,
    out: Result<Seq<Fields>, EngineError>,
) -> bool {
    trajectory_outcome(
        index,
        simulation.timesteps() as nat,
        run,
        subset,
        simulation.model().initial_state()@,
        simulation.model().psubs()@,
        params,
        out,
    )
}

/// The steps of a run over a sweep: step `subset` computes the unit of that
/// subset, under the parameter set of that index, and appends its
/// trajectory.
pub open spec fn subset_step<P: PolicyFunction, U: StateUpdateFunction>(
    simulation: Simulation<P, U>,
    index: int,
    run: int,
    expansion: Seq<Fields>,
) -> spec_fn(int, Seq<Fields>, Result<Seq<Fields>, EngineError>) -> bool {
    |subset: int, block: Seq<Fields>, out: Result<Seq<Fields>, EngineError>|
        exists|trajectory: Result<Seq<Fields>, EngineError>| #[trigger]
            unit_outcome(simulation, index, run, subset, expansion[subset], trajectory) && out
                == extended(block, trajectory)
}

/// `out` is a possible outcome of the single unit of a run without a sweep:
/// subset 0 under the raw parameters, appended to `block`.
pub open spec fn lone_unit<P: PolicyFunction, U: StateUpdateFunction>(
    simulation: Simulation<P, U>,
    index: int,
    run: int,
    block: Seq<Fields>,
    out: Result<Seq<Fields>, EngineError>,
) -> bool {
    exists|trajectory: Result<Seq<Fields>, EngineError>| #[trigger]
        unit_outcome(
            simulation,
            index,
            run,
            0,
            raw(simulation.model().params()@),
            trajectory,
        ) && out == extended(block, trajectory)
}

/// The steps of a simulation: step `run` computes the units of that run.
/// With a sweep these are the subsets in order; without one it is the single
/// unit of subset 0 under the raw parameters.
pub open spec fn run_step<P: PolicyFunction, U: StateUpdateFunction>(
    simulation: Simulation<P, U>,
    index: int,
    expansion: Seq<Fields>,
) -> spec_fn(int, Seq<Fields>, Result<Seq<Fields>, EngineError>) -> bool {
    |run: int, block: Seq<Fields>, out: Result<Seq<Fields>, EngineError>|
        if expansion.len() > 0 {
            iterate(subset_step(simulation, index, run, expansion), block, expansion.len(), out)
        } else {
            lone_unit(simulation, index, run, block, out)
        }
}

/// `out` is a possible outcome of `simulation`, the simulation at `index`:
/// the trajectories of its units, run by run and within a run subset by
/// subset, one after the other. A sweep that cannot be expanded fails the
/// simulation before any unit.
pub open spec fn simulation_outcome<P: PolicyFunction, U: StateUpdateFunction>(
    simulation: Simulation<P, U>,
    index: int,
    out: Result<Seq<Fields>, EngineError>,
) -> bool {
    match swept(simulation.model().params()@) {
        Ok(expansion) => iterate(
            run_step(simulation, index, expansion),
            Seq::empty(),
            simulation.runs() as nat,
            out,
        ),
        Err(e) => out == Err::<Seq<Fields>, EngineError>(e),
    }
}

/// The steps of a call: step `index` computes the simulation at that
/// position and appends its states.
pub open spec fn simulation_step<P: PolicyFunction, U: StateUpdateFunction>(
    simulations: Seq<Simulation<P, U>>,
) -> spec_fn(int, Seq<Fields>, Result<Seq<Fields>, EngineError>) -> bool {
    |index: int, result: Seq<Fields>, out: Result<Seq<Fields>, EngineError>|
        exists|block: Result<Seq<Fields>, EngineError>| #[trigger]
            simulation_outcome(simulations[index], index, block) && out == extended(result, block)
}

/// `out` is a possible outcome of running `simulations`: the states of all
/// units, flat, in the order simulation, run, subset, timestep, substep; or
/// the first error.
pub open spec fn run_outcome<P: PolicyFunction, U: StateUpdateFunction>(
    simulations: Seq<Simulation<P, U>>,
    out: Result<Seq<Fields>, EngineError>,
) -> bool {
    iterate(simulation_step(simulations), Seq::empty(), simulations.len(), out)
}

/// Computes one unit and appends its trajectory to `block`.
fn run_unit<P: PolicyFunction, U: StateUpdateFunction>(
    simulation: &Simulation<P, U>,
    index: usize,
    run: usize,
    subset: usize,
    params: &ParameterSet,
    block: Vec<State>,
) -> (result: Result<Vec<State>, EngineError>)
    ensures
        exists|trajectory: Result<Seq<Fields>, EngineError>| #[trigger]
            unit_outcome(
                *simulation,
                index as int,
                run as int,
                subset as int,
                params@,
                trajectory,
            ) && contents(result) == extended(block.deep_view(), trajectory),
{
    let model = simulation.model();
    let trajectory = single_run(
        index,
        simulation.timesteps(),
        run,
        subset,
        model.initial_state(),
        model.psubs(),
        params,
    );
    assert(unit_outcome(
        *simulation,
        index as int,
        run as int,
        subset as int,
        params@,
        contents(trajectory),
    ));
    match trajectory {
        Ok(trajectory) => {
            let ghost before = block.deep_view();
            let ghost more = trajectory.deep_view();
            let mut block = block;
            let mut trajectory = trajectory;
            block.append(&mut trajectory);
            assert(block.deep_view() =~= before + more);
            Ok(block)
        },
        Err(e) => Err(e),
    }
}

/// Computes the units of one run and appends their trajectories to `block`.
fn run_units<P: PolicyFunction, U: StateUpdateFunction>(
    simulation: &Simulation<P, U>,
    index: usize,
    run: usize,
    expansion: &Vec<ParameterSet>,
    raw_params: &ParameterSet,
    block: Vec<State>,
) -> (result: Result<Vec<State>, EngineError>)
    requires
        raw_params@ == raw(simulation.model().params()@),
    ensures
        run_step(*simulation, index as int, expansion.deep_view())(
            run as int,
            block.deep_view(),
            contents(result),
        ),
{
    if expansion.len() == 0 {
        return run_unit(simulation, index, run, 0, raw_params, block);
    }
    let ghost step = subset_step(*simulation, index as int, run as int, expansion.deep_view());
    let ghost first = block.deep_view();
    let mut units = block;
    let mut subset: usize = 0;
    while subset < expansion.len()
        invariant
            subset <= expansion.len(),
            expansion.len() > 0,
            step == subset_step(*simulation, index as int, run as int, expansion.deep_view()),
            first == block.deep_view(),
            iterate(step, first, subset as nat, Ok(units.deep_view())),
        decreases expansion.len() - subset,
    {
        let ghost before = units.deep_view();
        let next = run_unit(simulation, index, run, subset, &expansion[subset], units);
        proof {
            assert(expansion.deep_view()[subset as int] == expansion[subset as int]@);
            assert(step(subset as int, before, contents(next)));
            lemma_iterate_next(step, first, subset as nat, before, contents(next));
        }
        match next {
            Ok(longer) => {
                units = longer;
            },
            Err(e) => {
                proof {
                    lemma_iterate_failed(
                        step,
                        first,
                        (subset + 1) as nat,
                        expansion.len() as nat,
                        e,
                    );
                }
                return Err(e);
            },
        }
        subset += 1;
    }
    Ok(units)
}

/// Computes all units of `simulation`, the simulation at `index`: the sweep
/// is expanded once, then each run computes its units in subset order.
pub fn run_simulation<P: PolicyFunction, U: StateUpdateFunction>(
    simulation: &Simulation<P, U>,
    index: usize,
) -> (result: Result<Vec<State>, EngineError>)
    ensures
        simulation_outcome(*simulation, index as int, contents(result)),
{
    let sweep = simulation.model().params();
    let expansion = match expand_sweep(sweep) {
        Ok(expansion) => expansion,
        Err(e) => {
            return Err(e);
        },
    };
    let raw_params = raw_parameters(sweep);
    let ghost step = run_step(*simulation, index as int, expansion.deep_view());
    let mut block: Vec<State> = Vec::new();
    assert(block.deep_view() =~= Seq::<Fields>::empty());
    let mut run: usize = 0;
    while run < simulation.runs()
        invariant
            run <= simulation.runs(),
            raw_params@ == raw(simulation.model().params()@),
            swept(simulation.model().params()@) == Ok::<Seq<Fields>, EngineError>(
                expansion.deep_view(),
            ),
            step == run_step(*simulation, index as int, expansion.deep_view()),
            iterate(step, Seq::empty(), run as nat, Ok(block.deep_view())),
        decreases simulation.runs() - run,
    {
        let ghost before = block.deep_view();
        let next = run_units(simulation, index, run, &expansion, &raw_params, block);
        proof {
            lemma_iterate_next(step, Seq::empty(), run as nat, before, contents(next));
        }
        match next {
            Ok(longer) => {
                block = longer;
            },
            Err(e) => {
                proof {
                    lemma_iterate_failed(
                        step,
                        Seq::empty(),
                        (run + 1) as nat,
                        simulation.runs() as nat,
                        e,
                    );
                }
                return Err(e);
            },
        }
        run += 1;
    }
    Ok(block)
}

/// Runs the simulations in order and returns the states of all their units
/// as one flat sequence: simulation by simulation, within a simulation run
/// by run, within a run subset by subset, and within a unit the seeded
/// initial state followed by the snapshots of each timestep in block order.
///
/// The first error ends the whole call.
pub fn run<P: PolicyFunction, U: StateUpdateFunction>(simulations: &Vec<Simulation<P, U>>) -> (result:
    Result<Vec<State>, EngineError>)
    ensures
        run_outcome(simulations@, contents(result)),
{
    let ghost step = simulation_step(simulations@);
    let mut states: Vec<State> = Vec::new();
    assert(states.deep_view() =~= Seq::<Fields>::empty());
    let mut index: usize = 0;
    while index < simulations.len()
        invariant
            index <= simulations.len(),
            step == simulation_step(simulations@),
            iterate(step, Seq::empty(), index as nat, Ok(states.deep_view())),
        decreases simulations.len() - index,
    {
        let block = run_simulation(&simulations[index], index);
        proof {
            let so_far = states.deep_view();
            let out = extended(so_far, contents(block));
            assert(simulation_outcome(simulations@[index as int], index as int, contents(block)));
            assert(step(index as int, so_far, out));
            lemma_iterate_next(step, Seq::empty(), index as nat, so_far, out);
        }
        match block {
            Ok(block) => {
                let ghost so_far = states.deep_view();
                let ghost more = block.deep_view();
                let mut block = block;
                states.append(&mut block);
                assert(states.deep_view() =~= so_far + more);
            },
            Err(e) => {
                proof {
                    lemma_iterate_failed(
                        step,
                        Seq::empty(),
                        (index + 1) as nat,
                        simulations.len() as nat,
                        e,
                    );
                }
                return Err(e);
            },
        }
        index += 1;
    }
    Ok(states)
}

} // verus!
