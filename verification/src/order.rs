//! Where each unit stands in the states of a simulation.

use vstd::prelude::*;

use crate::dict::lookup;
use crate::error::EngineError;
use crate::model::{PolicyFunction, Simulation, StateUpdateFunction};
use crate::records::{lemma_seeded, lemma_trajectory_length};
use crate::scheduler::{
    lone_unit, run_outcome, run_step, simulation_outcome, simulation_step, subset_step,
    unit_outcome,
};
use crate::state::Fields;
use crate::steps::lemma_iterate_invariant;
use crate::sweep::{raw, swept};
use crate::trajectory::extended;
use crate::value::Datum;

verus! {

/// The number of states of one unit: the seeded initial state and one
/// snapshot per block per timestep.
pub open spec fn unit_length<P: PolicyFunction, U: StateUpdateFunction>(
    simulation: Simulation<P, U>,
) -> int {
    1 + simulation.timesteps() * simulation.model().psubs()@.len()
}

/// The number of units of one run: one per parameter set of the expansion,
/// and a single one where there is nothing to sweep.
pub open spec fn units_per_run(expansion: Seq<Fields>) -> int {
    if expansion.len() > 0 {
        expansion.len() as int
    } else {
        1
    }
}

/// The parameters of the unit of `subset`: the parameter set of that index,
/// or the raw parameters where there is nothing to sweep.
pub open spec fn unit_params<P: PolicyFunction, U: StateUpdateFunction>(
    simulation: Simulation<P, U>,
    expansion: Seq<Fields>,
    subset: int,
) -> Fields {
    if expansion.len() > 0 {
        expansion[subset]
    } else {
        raw(simulation.model().params()@)
    }
}

/// The states from position `start` on that make up piece number `number`,
/// where every piece has `length` states.
pub open spec fn piece(states: Seq<Fields>, start: int, number: int, length: int) -> Seq<Fields> {
    states.subrange(start + number * length, start + number * length + length)
}

/// The number of a unit among the units of its simulation: runs come one
/// after the other, and within a run the subsets.
pub open spec fn unit_number(run: int, subset: int, per_run: int) -> int {
    run * per_run + subset
}

/// The units of one run stand one after the other, in subset order, behind
/// what was there before.
pub proof fn lemma_run_units<P: PolicyFunction, U: StateUpdateFunction>(
    simulation: Simulation<P, U>,
    index: int,
    run: int,
    expansion: Seq<Fields>,
    before: Seq<Fields>,
    after: Seq<Fields>,
)
    requires
        run_step(simulation, index, expansion)(run, before, Ok(after)),
    ensures
        after.len() == before.len() + units_per_run(expansion) * unit_length(simulation),
        after.subrange(0, before.len() as int) == before,
        forall|subset: int|
            0 <= subset < units_per_run(expansion) ==> unit_outcome(
                simulation,
                index,
                run,
                subset,
                unit_params(simulation, expansion, subset),
                Ok(#[trigger] piece(after, before.len() as int, subset, unit_length(simulation))),
            ),
{
    let length = unit_length(simulation);
    let base = before.len() as int;
    let timesteps = simulation.timesteps() as nat;
    let initial = simulation.model().initial_state()@;
    let psubs = simulation.model().psubs()@;
    assert(length >= 1) by (nonlinear_arith)
        requires
            length == 1 + simulation.timesteps() * psubs.len(),
    {}
    if expansion.len() > 0 {
        let step = subset_step(simulation, index, run, expansion);
        let holds = |n: int, block: Seq<Fields>|
            {
                &&& block.len() == base + n * length
                &&& block.subrange(0, base) == before
                &&& forall|subset: int|
                    0 <= subset < n ==> unit_outcome(
                        simulation,
                        index,
                        run,
                        subset,
                        expansion[subset],
                        Ok(#[trigger] piece(block, base, subset, length)),
                    )
            };
        assert(holds(0, before)) by {
            assert(0 * length == 0) by (nonlinear_arith);
            assert(before.subrange(0, base) =~= before);
        }
        assert forall|n: int, block: Seq<Fields>, longer: Seq<Fields>|
            0 <= n < expansion.len() && holds(n, block) && #[trigger] step(
                n,
                block,
                Ok(longer),
            ) implies holds(n + 1, longer) by {
            let made = choose|made: Result<Seq<Fields>, EngineError>| #[trigger]
                unit_outcome(simulation, index, run, n, expansion[n], made) && Ok::<
                    Seq<Fields>,
                    EngineError,
                >(longer) == extended(block, made);
            let trajectory = made->Ok_0;
            lemma_trajectory_length(
                index,
                timesteps,
                run,
                n,
                initial,
                psubs,
                expansion[n],
                trajectory,
            );
            assert(longer == block + trajectory);
            assert((n + 1) * length == n * length + length) by (nonlinear_arith);
            assert(n * length >= 0) by (nonlinear_arith)
                requires
                    n >= 0,
                    length >= 0,
            {}
            assert(longer.subrange(0, base) =~= block.subrange(0, base));
            assert forall|subset: int| 0 <= subset < n + 1 implies unit_outcome(
                simulation,
                index,
                run,
                subset,
                expansion[subset],
                Ok(#[trigger] piece(longer, base, subset, length)),
            ) by {
                if subset < n {
                    assert(subset * length + length <= n * length) by (nonlinear_arith)
                        requires
                            0 <= subset < n,
                            length >= 0,
                    {}
                    assert(subset * length >= 0) by (nonlinear_arith)
                        requires
                            subset >= 0,
                            length >= 0,
                    {}
                    assert(piece(longer, base, subset, length) =~= piece(
                        block,
                        base,
                        subset,
                        length,
                    ));
                } else {
                    assert(piece(longer, base, subset, length) =~= trajectory);
                }
            }
        }
        lemma_iterate_invariant(step, before, expansion.len(), after, holds);
    } else {
        assert(lone_unit(simulation, index, run, before, Ok(after)));
        let params = raw(simulation.model().params()@);
        let made = choose|made: Result<Seq<Fields>, EngineError>| #[trigger]
            unit_outcome(simulation, index, run, 0, params, made) && Ok::<Seq<Fields>, EngineError>(
                after,
            ) == extended(before, made);
        let trajectory = made->Ok_0;
        lemma_trajectory_length(index, timesteps, run, 0, initial, psubs, params, trajectory);
        assert(after == before + trajectory);
        assert(after.subrange(0, base) =~= before);
        assert(0 * length == 0) by (nonlinear_arith);
        assert(1 * length == length) by (nonlinear_arith);
        assert(piece(after, base, 0, length) =~= trajectory);
    }
}

/// Order of the units: the states of a simulation are the trajectories of
/// its units, all of one length, one after the other: run by run, and
/// within a run subset by subset. The unit of run `run` and subset `subset`
/// is computed under the parameter set of that subset, or, where there is
/// nothing to sweep, as the single unit of subset 0 under the raw
/// parameters.
pub proof fn lemma_simulation_units<P: PolicyFunction, U: StateUpdateFunction>(
    simulation: Simulation<P, U>,
    index: int,
    states: Seq<Fields>,
)
    requires
        simulation_outcome(simulation, index, Ok(states)),
    ensures
        swept(simulation.model().params()@) is Ok,
        states.len() == simulation.runs() * (units_per_run(
            swept(simulation.model().params()@)->Ok_0,
        ) * unit_length(simulation)),
        forall|run: int, subset: int|
            0 <= run < simulation.runs() && 0 <= subset < units_per_run(
                swept(simulation.model().params()@)->Ok_0,
            ) ==> unit_outcome(
                simulation,
                index,
                run,
                subset,
                unit_params(simulation, swept(simulation.model().params()@)->Ok_0, subset),
                Ok(
                    piece(
                        states,
                        0,
                        #[trigger] unit_number(
                            run,
                            subset,
                            units_per_run(swept(simulation.model().params()@)->Ok_0),
                        ),
                        unit_length(simulation),
                    ),
                ),
            ),
{
    let expansion = swept(simulation.model().params()@)->Ok_0;
    let per_run = units_per_run(expansion);
    let length = unit_length(simulation);
    let stride = per_run * length;
    let step = run_step(simulation, index, expansion);
    assert(length >= 1) by (nonlinear_arith)
        requires
            length == 1 + simulation.timesteps() * simulation.model().psubs()@.len(),
    {}
    assert(stride >= 0) by (nonlinear_arith)
        requires
            stride == per_run * length,
            per_run >= 1,
            length >= 1,
    {}
    let holds = |n: int, block: Seq<Fields>|
        {
            &&& block.len() == n * stride
            &&& forall|run: int, subset: int|
                0 <= run < n && 0 <= subset < per_run ==> unit_outcome(
                    simulation,
                    index,
                    run,
                    subset,
                    unit_params(simulation, expansion, subset),
                    Ok(piece(block, 0, #[trigger] unit_number(run, subset, per_run), length)),
                )
        };
    assert(holds(0, Seq::<Fields>::empty())) by {
        assert(0 * stride == 0) by (nonlinear_arith);
    }
    assert forall|n: int, block: Seq<Fields>, longer: Seq<Fields>|
        0 <= n < simulation.runs() && holds(n, block) && #[trigger] step(
            n,
            block,
            Ok(longer),
        ) implies holds(n + 1, longer) by {
        lemma_run_units(simulation, index, n, expansion, block, longer);
        assert((n + 1) * stride == n * stride + stride) by (nonlinear_arith);
        assert forall|run: int, subset: int|
            0 <= run < n + 1 && 0 <= subset < per_run implies unit_outcome(
            simulation,
            index,
            run,
            subset,
            unit_params(simulation, expansion, subset),
            Ok(piece(longer, 0, #[trigger] unit_number(run, subset, per_run), length)),
        ) by {
            let number = unit_number(run, subset, per_run);
            assert(number * length == run * stride + subset * length) by (nonlinear_arith)
                requires
                    number == run * per_run + subset,
                    stride == per_run * length,
            {}
            assert(0 <= subset * length && subset * length + length <= stride)
                by (nonlinear_arith)
                requires
                    0 <= subset < per_run,
                    stride == per_run * length,
                    length >= 0,
            {}
            if run < n {
                assert(0 <= run * stride && run * stride + stride <= n * stride)
                    by (nonlinear_arith)
                    requires
                        0 <= run < n,
                        stride >= 0,
                {}
                let kept = longer.subrange(0, block.len() as int);
                assert(kept == block);
                assert(piece(longer, 0, number, length) =~= piece(kept, 0, number, length));
            } else {
                assert(piece(longer, 0, number, length) =~= piece(
                    longer,
                    block.len() as int,
                    subset,
                    length,
                ));
            }
        }
    }
    lemma_iterate_invariant(step, Seq::empty(), simulation.runs() as nat, states, holds);
}

/// The first state of each unit says which unit it is: the entry at the
/// start of the unit of run `run` and subset `subset` holds the position of
/// the simulation, the run counted from 1 and the subset.
pub proof fn lemma_unit_heads<P: PolicyFunction, U: StateUpdateFunction>(
    simulation: Simulation<P, U>,
    index: int,
    states: Seq<Fields>,
    run: int,
    subset: int,
)
    requires
        simulation_outcome(simulation, index, Ok(states)),
        0 <= run < simulation.runs(),
        0 <= subset < units_per_run(swept(simulation.model().params()@)->Ok_0),
    ensures
        ({
            let per_run = units_per_run(swept(simulation.model().params()@)->Ok_0);
            let at = unit_number(run, subset, per_run) * unit_length(simulation);
            &&& 0 <= at < states.len()
            &&& lookup(states[at], "simulation"@) == Some(Datum::Number(index))
            &&& lookup(states[at], "run"@) == Some(Datum::Number(run + 1))
            &&& lookup(states[at], "subset"@) == Some(Datum::Number(subset))
            &&& lookup(states[at], "timestep"@) == Some(Datum::Number(0))
            &&& lookup(states[at], "substep"@) == Some(Datum::Number(0))
        }),
{
    let expansion = swept(simulation.model().params()@)->Ok_0;
    let per_run = units_per_run(expansion);
    let length = unit_length(simulation);
    let number = unit_number(run, subset, per_run);
    let initial = simulation.model().initial_state()@;
    lemma_simulation_units(simulation, index, states);
    let unit = piece(states, 0, number, length);
    let params = unit_params(simulation, expansion, subset);
    assert(unit_outcome(simulation, index, run, subset, params, Ok(unit)));
    lemma_trajectory_length(
        index,
        simulation.timesteps() as nat,
        run,
        subset,
        initial,
        simulation.model().psubs()@,
        params,
        unit,
    );
    assert(length >= 1) by (nonlinear_arith)
        requires
            length == 1 + simulation.timesteps() * simulation.model().psubs()@.len(),
    {}
    assert(0 <= number * length && number * length + length <= simulation.runs() * (per_run
        * length)) by (nonlinear_arith)
        requires
            number == run * per_run + subset,
            0 <= run < simulation.runs(),
            0 <= subset < per_run,
            length >= 1,
    {}
    assert(unit[0] == states[number * length]);
    lemma_seeded(initial, index, subset, run, "simulation"@);
    lemma_seeded(initial, index, subset, run, "run"@);
    lemma_seeded(initial, index, subset, run, "subset"@);
    lemma_seeded(initial, index, subset, run, "timestep"@);
    lemma_seeded(initial, index, subset, run, "substep"@);
    crate::records::lemma_reserved_keys_differ();
}

/// The number of states of a simulation: those of all units of all runs.
pub open spec fn simulation_length<P: PolicyFunction, U: StateUpdateFunction>(
    simulation: Simulation<P, U>,
) -> int {
    simulation.runs() * (units_per_run(swept(simulation.model().params()@)->Ok_0) * unit_length(
        simulation,
    ))
}

/// The position at which the states of simulation `n` start: behind those
/// of the simulations before it.
pub open spec fn offset<P: PolicyFunction, U: StateUpdateFunction>(
    simulations: Seq<Simulation<P, U>>,
    n: int,
) -> int
    decreases n,
{
    if n <= 0 {
        0
    } else {
        offset(simulations, n - 1) + simulation_length(simulations[n - 1])
    }
}

/// The states of each simulation.
pub open spec fn simulation_slice<P: PolicyFunction, U: StateUpdateFunction>(
    simulations: Seq<Simulation<P, U>>,
    states: Seq<Fields>,
    i: int,
) -> Seq<Fields> {
    states.subrange(offset(simulations, i), offset(simulations, i + 1))
}

/// Simulations take up room, never less than none.
pub proof fn lemma_simulation_length<P: PolicyFunction, U: StateUpdateFunction>(
    simulation: Simulation<P, U>,
)
    ensures
        simulation_length(simulation) >= 0,
{
    let per_run = units_per_run(swept(simulation.model().params()@)->Ok_0);
    let length = unit_length(simulation);
    assert(simulation.runs() * (per_run * length) >= 0) by (nonlinear_arith)
        requires
            simulation.runs() >= 0,
            per_run >= 1,
            length == 1 + simulation.timesteps() * simulation.model().psubs()@.len(),
    {}
}

/// Later simulations start further on.
pub proof fn lemma_offset_grows<P: PolicyFunction, U: StateUpdateFunction>(
    simulations: Seq<Simulation<P, U>>,
    i: int,
    n: int,
)
    requires
        0 <= i <= n,
    ensures
        0 <= offset(simulations, i) <= offset(simulations, n),
    decreases n,
{
    if i < n {
        lemma_offset_grows(simulations, i, n - 1);
        lemma_simulation_length(simulations[n - 1]);
    } else if n > 0 {
        lemma_offset_grows(simulations, i - 1, n - 1);
        lemma_simulation_length(simulations[n - 1]);
    }
}

/// Order of the simulations: the states of a call are the states of its
/// simulations one after the other, in the order given.
pub proof fn lemma_run_simulations<P: PolicyFunction, U: StateUpdateFunction>(
    simulations: Seq<Simulation<P, U>>,
    states: Seq<Fields>,
)
    requires
        run_outcome(simulations, Ok(states)),
    ensures
        states.len() == offset(simulations, simulations.len() as int),
        forall|i: int|
            0 <= i < simulations.len() ==> simulation_outcome(
                simulations[i],
                i,
                Ok(#[trigger] simulation_slice(simulations, states, i)),
            ),
{
    let step = simulation_step(simulations);
    let holds = |n: int, so_far: Seq<Fields>|
        {
            &&& so_far.len() == offset(simulations, n)
            &&& forall|i: int|
                0 <= i < n ==> simulation_outcome(
                    simulations[i],
                    i,
                    Ok(#[trigger] simulation_slice(simulations, so_far, i)),
                )
        };
    assert forall|n: int, before: Seq<Fields>, after: Seq<Fields>|
        0 <= n < simulations.len() && holds(n, before) && #[trigger] step(
            n,
            before,
            Ok(after),
        ) implies holds(n + 1, after) by {
        let made = choose|made: Result<Seq<Fields>, EngineError>| #[trigger]
            simulation_outcome(simulations[n], n, made) && Ok::<Seq<Fields>, EngineError>(after)
                == extended(before, made);
        let block = made->Ok_0;
        lemma_simulation_units(simulations[n], n, block);
        assert(after == before + block);
        assert(offset(simulations, n + 1) == offset(simulations, n) + simulation_length(
            simulations[n],
        ));
        assert forall|i: int| 0 <= i < n + 1 implies simulation_outcome(
            simulations[i],
            i,
            Ok(#[trigger] simulation_slice(simulations, after, i)),
        ) by {
            lemma_offset_grows(simulations, i, i + 1);
            if i < n {
                lemma_offset_grows(simulations, i + 1, n);
                assert(simulation_slice(simulations, after, i) =~= simulation_slice(
                    simulations,
                    before,
                    i,
                ));
            } else {
                assert(simulation_slice(simulations, after, i) =~= block);
            }
        }
    }
    lemma_iterate_invariant(step, Seq::empty(), simulations.len(), states, holds);
}

} // verus!
