//! What every trajectory records, whatever the modeller's functions answer:
//! its length, and the values under the keys that no block declares.

use vstd::prelude::*;

use crate::dict::{lemma_lookup_assign, lookup};
use crate::error::EngineError;
use crate::model::{PolicyFunction, Psub, StateUpdateFunction};
use crate::state::{at_substep, seeded, Fields, Tally};
use crate::steps::{iterate, lemma_iterate_invariant};
use crate::substep::{settled, signals_outcome, substep_outcome, update_step, updated};
use crate::trajectory::{
    appended, chain_outcome, chain_step, extended, opening, source_of, timestep_step,
    trajectory_outcome,
};
use crate::value::Datum;

verus! {

/// No block declares a state variable under `key`.
pub open spec fn undeclared<P: PolicyFunction, U: StateUpdateFunction>(
    psubs: Seq<Psub<P, U>>,
    key: Seq<char>,
) -> bool {
    forall|i: int, j: int|
        0 <= i < psubs.len() && 0 <= j < psubs[i].variables@.len() ==> (
        #[trigger] psubs[i].variables@[j]).0 != key
}

/// The position in a trajectory of the snapshot of block `block` in
/// timestep `timestep`, counted from 1, when a timestep has `blocks` blocks.
pub open spec fn position_of(timestep: int, block: int, blocks: int) -> int {
    1 + (timestep - 1) * blocks + block
}

/// What an entry made in timestep `timestep` by the block at `block` records
/// under a key that no block declares: the timestep, the substep, which is
/// the block's position counted from 1, and under any other key what the
/// first entry has.
pub open spec fn recorded(first: Fields, key: Seq<char>, timestep: int, block: int) -> Option<
    Datum,
> {
    if key == "timestep"@ {
        Some(Datum::Number(timestep))
    } else if key == "substep"@ {
        Some(Datum::Number(block + 1))
    } else {
        lookup(first, key)
    }
}

/// The five reserved keys are five different keys.
pub proof fn lemma_reserved_keys_differ()
    ensures
        "simulation"@ != "subset"@,
        "simulation"@ != "run"@,
        "simulation"@ != "substep"@,
        "simulation"@ != "timestep"@,
        "subset"@ != "run"@,
        "subset"@ != "substep"@,
        "subset"@ != "timestep"@,
        "run"@ != "substep"@,
        "run"@ != "timestep"@,
        "substep"@ != "timestep"@,
{
    reveal_strlit("simulation");
    reveal_strlit("subset");
    reveal_strlit("run");
    reveal_strlit("substep");
    reveal_strlit("timestep");
    assert("simulation"@.len() == 10);
    assert("subset"@.len() == 6);
    assert("run"@.len() == 3);
    assert("substep"@.len() == 7);
    assert("timestep"@.len() == 8);
}

/// The first entry of a trajectory holds the unit under the reserved keys,
/// whatever the initial state held there, the run counted from 1, and under
/// every other key what the initial state holds.
pub proof fn lemma_seeded(initial: Fields, simulation: int, subset: int, run: int, key: Seq<char>)
    ensures
        lookup(seeded(initial, simulation, subset, run), key) == if key == "simulation"@ {
            Some(Datum::Number(simulation))
        } else if key == "subset"@ {
            Some(Datum::Number(subset))
        } else if key == "run"@ {
            Some(Datum::Number(run + 1))
        } else if key == "substep"@ {
            Some(Datum::Number(0))
        } else if key == "timestep"@ {
            Some(Datum::Number(0))
        } else {
            lookup(initial, key)
        },
{
    lemma_reserved_keys_differ();
    let a = crate::dict::assign(initial, "simulation"@, Datum::Number(simulation));
    let b = crate::dict::assign(a, "subset"@, Datum::Number(subset));
    let c = crate::dict::assign(b, "run"@, Datum::Number(run + 1));
    let d = crate::dict::assign(c, "substep"@, Datum::Number(0));
    lemma_lookup_assign(initial, "simulation"@, Datum::Number(simulation), key);
    lemma_lookup_assign(a, "subset"@, Datum::Number(subset), key);
    lemma_lookup_assign(b, "run"@, Datum::Number(run + 1), key);
    lemma_lookup_assign(c, "substep"@, Datum::Number(0), key);
    lemma_lookup_assign(d, "timestep"@, Datum::Number(0), key);
}

/// A substep leaves alone what its block does not declare: under such a key
/// the snapshot holds what the working state held, that is the substep
/// under `substep` and what the starting state held under any other key.
pub proof fn lemma_substep_frame<P: PolicyFunction, U: StateUpdateFunction>(
    psub: Psub<P, U>,
    params: Fields,
    index: int,
    history: Seq<Fields>,
    start: Fields,
    snapshot: Fields,
    key: Seq<char>,
)
    requires
        substep_outcome(psub, params, index, history, start, Ok(snapshot)),
        forall|j: int| 0 <= j < psub.variables@.len() ==> (#[trigger] psub.variables@[j]).0 != key,
    ensures
        lookup(snapshot, key) == if key == "substep"@ {
            Some(Datum::Number(index + 1))
        } else {
            lookup(start, key)
        },
{
    let base = at_substep(start, index + 1);
    let variables = psub.variables@;
    let out = Ok::<Fields, EngineError>(snapshot);
    let signals = choose|signals: Result<Tally, EngineError>| #[trigger]
        signals_outcome(psub.policies@, params, index, history, base, signals) && match signals {
            Ok(tally) => iterate(
                update_step(variables, params, index, history, tally),
                base,
                variables.len(),
                out,
            ),
            Err(e) => out == Err::<Fields, EngineError>(e),
        };
    let tally = signals->Ok_0;
    let step = update_step(variables, params, index, history, tally);
    let holds = |j: int, state: Fields| lookup(state, key) == lookup(base, key);
    assert forall|j: int, before: Fields, after: Fields|
        0 <= j < variables.len() && holds(j, before) && #[trigger] step(
            j,
            before,
            Ok(after),
        ) implies holds(j + 1, after) by {
        assert(updated(variables[j], params, index, history, tally, before, Ok(after)));
        let (k, v) = choose|k: Seq<char>, v: Datum| #[trigger]
            variables[j].1->Callable_0.may_return(params, index, history, before, tally, k, v)
                && Ok::<Fields, EngineError>(after) == settled(variables[j].0, before, k, v);
        lemma_lookup_assign(before, k, v, key);
    }
    lemma_iterate_invariant(step, base, variables.len(), snapshot, holds);
    lemma_lookup_assign(start, "substep"@, Datum::Number(index + 1), key);
}

/// A timestep makes one snapshot per block.
pub proof fn lemma_chain_length<P: PolicyFunction, U: StateUpdateFunction>(
    psubs: Seq<Psub<P, U>>,
    params: Fields,
    history: Seq<Fields>,
    start: Fields,
    snapshots: Seq<Fields>,
)
    requires
        chain_outcome(psubs, params, history, start, Ok(snapshots)),
    ensures
        snapshots.len() == psubs.len(),
{
    let step = chain_step(psubs, params, history, start);
    let holds = |n: int, done: Seq<Fields>| done.len() == n;
    assert forall|n: int, before: Seq<Fields>, after: Seq<Fields>|
        0 <= n < psubs.len() && holds(n, before) && #[trigger] step(
            n,
            before,
            Ok(after),
        ) implies holds(n + 1, after) by {
        let snapshot = choose|snapshot: Result<Fields, EngineError>| #[trigger]
            substep_outcome(psubs[n], params, n, history, source_of(start, before, n), snapshot)
                && Ok::<Seq<Fields>, EngineError>(after) == appended(before, snapshot);
    }
    lemma_iterate_invariant(step, Seq::empty(), psubs.len(), snapshots, holds);
}

/// Trajectory length: a unit's trajectory has one entry for the seeded
/// initial state and one per block per timestep, and starts with the seeded
/// initial state.
pub proof fn lemma_trajectory_length<P: PolicyFunction, U: StateUpdateFunction>(
    simulation: int,
    timesteps: nat,
    run: int,
    subset: int,
    initial: Fields,
    psubs: Seq<Psub<P, U>>,
    params: Fields,
    trajectory: Seq<Fields>,
)
    requires
        trajectory_outcome(
            simulation,
            timesteps,
            run,
            subset,
            initial,
            psubs,
            params,
            Ok(trajectory),
        ),
    ensures
        trajectory.len() == 1 + timesteps * psubs.len(),
        trajectory[0] == seeded(initial, simulation, subset, run),
{
    let blocks = psubs.len() as int;
    let first = seeded(initial, simulation, subset, run);
    let step = timestep_step(psubs, params);
    let holds = |n: int, so_far: Seq<Fields>| so_far.len() == 1 + n * blocks && so_far[0] == first;
    assert(holds(0, seq![first])) by {
        assert(0 * blocks == 0) by (nonlinear_arith);
    }
    assert forall|n: int, before: Seq<Fields>, after: Seq<Fields>|
        0 <= n < timesteps && holds(n, before) && #[trigger] step(n, before, Ok(after)) implies holds(
        n + 1,
        after,
    ) by {
        let start = opening(before, n);
        let made = choose|made: Result<Seq<Fields>, EngineError>| #[trigger]
            chain_outcome(psubs, params, before, start, made) && Ok::<Seq<Fields>, EngineError>(
                after,
            ) == extended(before, made);
        lemma_chain_length(psubs, params, before, start, made->Ok_0);
        assert((n + 1) * blocks == n * blocks + blocks) by (nonlinear_arith);
        assert(n * blocks >= 0) by (nonlinear_arith)
            requires
                n >= 0,
                blocks >= 0,
        {}
    }
    lemma_iterate_invariant(step, seq![first], timesteps, trajectory, holds);
}

/// A timestep makes one snapshot per block, and each records, under a key
/// that no block declares, its substep or what the timestep started from.
pub proof fn lemma_chain_records<P: PolicyFunction, U: StateUpdateFunction>(
    psubs: Seq<Psub<P, U>>,
    params: Fields,
    history: Seq<Fields>,
    start: Fields,
    snapshots: Seq<Fields>,
    key: Seq<char>,
)
    requires
        chain_outcome(psubs, params, history, start, Ok(snapshots)),
        undeclared(psubs, key),
    ensures
        snapshots.len() == psubs.len(),
        forall|i: int|
            0 <= i < psubs.len() ==> lookup(#[trigger] snapshots[i], key) == if key == "substep"@ {
                Some(Datum::Number(i + 1))
            } else {
                lookup(start, key)
            },
{
    let step = chain_step(psubs, params, history, start);
    let holds = |n: int, done: Seq<Fields>|
        {
            &&& done.len() == n
            &&& forall|i: int|
                0 <= i < n ==> lookup(#[trigger] done[i], key) == if key == "substep"@ {
                    Some(Datum::Number(i + 1))
                } else {
                    lookup(start, key)
                }
        };
    assert forall|n: int, before: Seq<Fields>, after: Seq<Fields>|
        0 <= n < psubs.len() && holds(n, before) && #[trigger] step(
            n,
            before,
            Ok(after),
        ) implies holds(n + 1, after) by {
        let from = source_of(start, before, n);
        let snapshot = choose|snapshot: Result<Fields, EngineError>| #[trigger]
            substep_outcome(psubs[n], params, n, history, from, snapshot) && Ok::<
                Seq<Fields>,
                EngineError,
            >(after) == appended(before, snapshot);
        let state = snapshot->Ok_0;
        assert forall|j: int| 0 <= j < psubs[n].variables@.len() implies (
        #[trigger] psubs[n].variables@[j]).0 != key by {}
        lemma_substep_frame(psubs[n], params, n, history, from, state, key);
        assert(after == before.push(state));
        assert forall|i: int| 0 <= i < n + 1 implies lookup(#[trigger] after[i], key) == if key
            == "substep"@ {
            Some(Datum::Number(i + 1))
        } else {
            lookup(start, key)
        } by {
            if i < n {
                assert(after[i] == before[i]);
            } else if n > 0 {
                assert(from == before[n - 1]);
            }
        }
    }
    lemma_iterate_invariant(step, Seq::empty(), psubs.len(), snapshots, holds);
}

/// What a trajectory records. It has one entry for the seeded initial state
/// and one per block per timestep. Under a key that no block declares, the
/// entry that the block at `block` made in timestep `timestep` holds the
/// timestep under `timestep`, the block's position counted from 1 under
/// `substep`, and under any other key what the first entry holds.
pub proof fn lemma_trajectory_records<P: PolicyFunction, U: StateUpdateFunction>(
    simulation: int,
    timesteps: nat,
    run: int,
    subset: int,
    initial: Fields,
    psubs: Seq<Psub<P, U>>,
    params: Fields,
    trajectory: Seq<Fields>,
    key: Seq<char>,
)
    requires
        trajectory_outcome(
            simulation,
            timesteps,
            run,
            subset,
            initial,
            psubs,
            params,
            Ok(trajectory),
        ),
        undeclared(psubs, key),
    ensures
        trajectory.len() == 1 + timesteps * psubs.len(),
        trajectory[0] == seeded(initial, simulation, subset, run),
        forall|timestep: int, block: int|
            1 <= timestep <= timesteps && 0 <= block < psubs.len() ==> {
                &&& 0 < position_of(timestep, block, psubs.len() as int) < trajectory.len()
                &&& lookup(
                    trajectory[#[trigger] position_of(timestep, block, psubs.len() as int)],
                    key,
                ) == recorded(trajectory[0], key, timestep, block)
            },
{
    let blocks = psubs.len() as int;
    let first = seeded(initial, simulation, subset, run);
    let step = timestep_step(psubs, params);
    let holds = |n: int, so_far: Seq<Fields>|
        {
            &&& so_far.len() == 1 + n * blocks
            &&& so_far[0] == first
            &&& forall|timestep: int, block: int|
                1 <= timestep <= n && 0 <= block < blocks ==> {
                    &&& 0 < position_of(timestep, block, blocks) < so_far.len()
                    &&& lookup(so_far[#[trigger] position_of(timestep, block, blocks)], key)
                        == recorded(first, key, timestep, block)
                }
        };
    assert(holds(0, seq![first])) by {
        assert(0 * blocks == 0) by (nonlinear_arith);
    }
    assert forall|n: int, before: Seq<Fields>, after: Seq<Fields>|
        0 <= n < timesteps && holds(n, before) && #[trigger] step(n, before, Ok(after)) implies holds(
        n + 1,
        after,
    ) by {
        let start = opening(before, n);
        let made = choose|made: Result<Seq<Fields>, EngineError>| #[trigger]
            chain_outcome(psubs, params, before, start, made) && Ok::<Seq<Fields>, EngineError>(
                after,
            ) == extended(before, made);
        let snapshots = made->Ok_0;
        lemma_chain_records(psubs, params, before, start, snapshots, key);
        assert(after == before + snapshots);
        assert((n + 1) * blocks == n * blocks + blocks) by (nonlinear_arith);
        lemma_lookup_assign(before.last(), "timestep"@, Datum::Number(n + 1), key);
        lemma_reserved_keys_differ();
        // What the last entry so far holds under the key.
        if n > 0 && blocks > 0 {
            assert(position_of(n, blocks - 1, blocks) == before.len() - 1) by (nonlinear_arith)
                requires
                    before.len() == 1 + n * blocks,
            {}
            assert(lookup(before[position_of(n, blocks - 1, blocks)], key) == recorded(
                first,
                key,
                n,
                blocks - 1,
            ));
        } else if blocks > 0 {
            assert(before.len() == 1) by (nonlinear_arith)
                requires
                    before.len() == 1 + n * blocks,
                    n == 0,
            {}
        }
        assert forall|timestep: int, block: int|
            1 <= timestep <= n + 1 && 0 <= block < blocks implies {
            &&& 0 < position_of(timestep, block, blocks) < after.len()
            &&& lookup(after[#[trigger] position_of(timestep, block, blocks)], key) == recorded(
                first,
                key,
                timestep,
                block,
            )
        } by {
            let at = position_of(timestep, block, blocks);
            if timestep <= n {
                assert(0 < at < before.len());
                assert(after[at] == before[at]);
            } else {
                assert(at == before.len() + block) by (nonlinear_arith)
                    requires
                        at == 1 + (timestep - 1) * blocks + block,
                        timestep == n + 1,
                        before.len() == 1 + n * blocks,
                {}
                assert(after[at] == snapshots[block]);
                if key != "timestep"@ && key != "substep"@ {
                    lemma_seeded(initial, simulation, subset, run, key);
                }
            }
        }
    }
    lemma_iterate_invariant(step, seq![first], timesteps, trajectory, holds);
}

/// What an entry of the trajectory of the given unit holds under the
/// reserved keys when it was made in timestep `timestep` by the block at
/// `block`.
pub open spec fn stamped(
    entry: Fields,
    simulation: int,
    subset: int,
    run: int,
    timestep: int,
    substep: int,
) -> bool {
    &&& lookup(entry, "simulation"@) == Some(Datum::Number(simulation))
    &&& lookup(entry, "subset"@) == Some(Datum::Number(subset))
    &&& lookup(entry, "run"@) == Some(Datum::Number(run + 1))
    &&& lookup(entry, "timestep"@) == Some(Datum::Number(timestep))
    &&& lookup(entry, "substep"@) == Some(Datum::Number(substep))
}

/// No block declares a state variable under a reserved key.
pub open spec fn reserved_undeclared<P: PolicyFunction, U: StateUpdateFunction>(
    psubs: Seq<Psub<P, U>>,
) -> bool {
    &&& undeclared(psubs, "simulation"@)
    &&& undeclared(psubs, "subset"@)
    &&& undeclared(psubs, "run"@)
    &&& undeclared(psubs, "timestep"@)
    &&& undeclared(psubs, "substep"@)
}

/// Reserved keys: the first entry of a trajectory holds the unit, timestep 0
/// and substep 0 under the reserved keys, whatever the initial state held
/// there. Where no block declares a variable under the key `timestep`, every
/// entry made in timestep `t` holds `t` under it; and where none declares a
/// variable under any reserved key, every entry holds the unit, its timestep
/// and its substep.
pub proof fn lemma_reserved_keys<P: PolicyFunction, U: StateUpdateFunction>(
    simulation: int,
    timesteps: nat,
    run: int,
    subset: int,
    initial: Fields,
    psubs: Seq<Psub<P, U>>,
    params: Fields,
    trajectory: Seq<Fields>,
)
    requires
        trajectory_outcome(
            simulation,
            timesteps,
            run,
            subset,
            initial,
            psubs,
            params,
            Ok(trajectory),
        ),
    ensures
        trajectory.len() == 1 + timesteps * psubs.len(),
        stamped(trajectory[0], simulation, subset, run, 0, 0),
        undeclared(psubs, "timestep"@) ==> forall|timestep: int, block: int|
            1 <= timestep <= timesteps && 0 <= block < psubs.len() ==> lookup(
                trajectory[#[trigger] position_of(timestep, block, psubs.len() as int)],
                "timestep"@,
            ) == Some(Datum::Number(timestep)),
        reserved_undeclared(psubs) ==> forall|timestep: int, block: int|
            1 <= timestep <= timesteps && 0 <= block < psubs.len() ==> stamped(
                trajectory[#[trigger] position_of(timestep, block, psubs.len() as int)],
                simulation,
                subset,
                run,
                timestep,
                block + 1,
            ),
{
    lemma_trajectory_length(simulation, timesteps, run, subset, initial, psubs, params, trajectory);
    lemma_reserved_keys_differ();
    lemma_seeded(initial, simulation, subset, run, "simulation"@);
    lemma_seeded(initial, simulation, subset, run, "subset"@);
    lemma_seeded(initial, simulation, subset, run, "run"@);
    lemma_seeded(initial, simulation, subset, run, "timestep"@);
    lemma_seeded(initial, simulation, subset, run, "substep"@);
    if undeclared(psubs, "timestep"@) {
        lemma_trajectory_records(
            simulation,
            timesteps,
            run,
            subset,
            initial,
            psubs,
            params,
            trajectory,
            "timestep"@,
        );
    }
    if reserved_undeclared(psubs) {
        lemma_trajectory_records(
            simulation,
            timesteps,
            run,
            subset,
            initial,
            psubs,
            params,
            trajectory,
            "simulation"@,
        );
        lemma_trajectory_records(
            simulation,
            timesteps,
            run,
            subset,
            initial,
            psubs,
            params,
            trajectory,
            "subset"@,
        );
        lemma_trajectory_records(
            simulation,
            timesteps,
            run,
            subset,
            initial,
            psubs,
            params,
            trajectory,
            "run"@,
        );
        lemma_trajectory_records(
            simulation,
            timesteps,
            run,
            subset,
            initial,
            psubs,
            params,
            trajectory,
            "substep"@,
        );
        assert forall|timestep: int, block: int|
            1 <= timestep <= timesteps && 0 <= block < psubs.len() implies stamped(
            trajectory[#[trigger] position_of(timestep, block, psubs.len() as int)],
            simulation,
            subset,
            run,
            timestep,
            block + 1,
        ) by {
            let entry = trajectory[position_of(timestep, block, psubs.len() as int)];
            assert(lookup(entry, "simulation"@) == recorded(
                trajectory[0],
                "simulation"@,
                timestep,
                block,
            ));
            assert(lookup(entry, "subset"@) == recorded(trajectory[0], "subset"@, timestep, block));
            assert(lookup(entry, "run"@) == recorded(trajectory[0], "run"@, timestep, block));
            assert(lookup(entry, "timestep"@) == recorded(
                trajectory[0],
                "timestep"@,
                timestep,
                block,
            ));
            assert(lookup(entry, "substep"@) == recorded(
                trajectory[0],
                "substep"@,
                timestep,
                block,
            ));
        }
    }
}

} // verus!
