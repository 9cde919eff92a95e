//! One substep: a block's policies are asked for signals, and its state
//! update functions are applied one after the other.

use vstd::prelude::*;

use crate::dict::{assign, distinct_keys, Dict};
use crate::error::EngineError;
use crate::model::{has_inert, Entry, PolicyFunction, Psub, StateUpdateFunction};
use crate::signals::{reduce_signals, reduced, tally_of};
use crate::state::{
    at_substep, content, stamp_substep, Fields, ParameterSet, Signals, State, Tally,
};
use crate::steps::{iterate, lemma_iterate_failed, lemma_iterate_next};
use crate::value::{Datum, Value};

verus! {

/// `entry` is a policy and `output`, a proper mapping, is an answer that it
/// may give.
pub open spec fn answered<P: PolicyFunction>(
    entry: Entry<P>,
    params: Fields,
    index: int,
    history: Seq<Fields>,
    base: Fields,
    output: Tally,
) -> bool {
    &&& entry is Callable
    &&& entry->Callable_0.may_signal(params, index, history, base, output)
    &&& distinct_keys(output)
}

/// `outputs` holds, for each policy in order, an answer that it may give.
pub open spec fn gathered<P: PolicyFunction>(
    policies: Seq<(Seq<char>, Entry<P>)>,
    params: Fields,
    index: int,
    history: Seq<Fields>,
    base: Fields,
    outputs: Seq<Tally>,
) -> bool {
    &&& outputs.len() == policies.len()
    &&& forall|j: int|
        0 <= j < policies.len() ==> answered(
            policies[j].1,
            params,
            index,
            history,
            base,
            #[trigger] outputs[j],
        )
}

/// `out` is a possible outcome of asking the policies of a block for
/// signals: `NotCallable` if one of them cannot be invoked, and otherwise
/// what their answers reduce to.
pub open spec fn signals_outcome<P: PolicyFunction>(
    policies: Seq<(Seq<char>, Entry<P>)>,
    params: Fields,
    index: int,
    history: Seq<Fields>,
    base: Fields,
    out: Result<Tally, EngineError>,
) -> bool {
    if has_inert(policies) {
        out == Err::<Tally, EngineError>(EngineError::NotCallable)
    } else {
        exists|outputs: Seq<Tally>| #[trigger]
            gathered(policies, params, index, history, base, outputs) && out == reduced(outputs)
    }
}

/// The working state after a state update function declared under
/// `declared` has answered `(key, value)`: the value is stored if the key is
/// the declared one, and the answer is refused otherwise.
pub open spec fn settled(declared: Seq<char>, base: Fields, key: Seq<char>, value: Datum) -> Result<
    Fields,
    EngineError,
> {
    if key == declared {
        Ok(assign(base, key, value))
    } else {
        Err(EngineError::KeyMismatch)
    }
}

/// `out` is a possible outcome of applying the state update declared as
/// `variable` to the working state `base`.
pub open spec fn updated<U: StateUpdateFunction>(
    variable: (Seq<char>, Entry<U>),
    params: Fields,
    index: int,
    history: Seq<Fields>,
    signals: Tally,
    base: Fields,
    out: Result<Fields, EngineError>,
) -> bool {
    match variable.1 {
        Entry::NotCallable => out == Err::<Fields, EngineError>(EngineError::NotCallable),
        Entry::Callable(f) => exists|key: Seq<char>, value: Datum| #[trigger]
            f.may_return(params, index, history, base, signals, key, value) && out == settled(
                variable.0,
                base,
                key,
                value,
            ),
    }
}

/// The steps of a block's state updates: step `j` applies the `j`-th
/// declared variable to the working state that the earlier ones left.
pub open spec fn update_step<U: StateUpdateFunction>(
    variables: Seq<(Seq<char>, Entry<U>)>,
    params: Fields,
    index: int,
    history: Seq<Fields>,
    signals: Tally,
) -> spec_fn(int, Fields, Result<Fields, EngineError>) -> bool {
    |j: int, base: Fields, out: Result<Fields, EngineError>|
        updated(variables[j], params, index, history, signals, base, out)
}

/// `out` is a possible outcome of the substep of `psub`, the block at
/// `index`, started from `start`: the working state is `start` with the
/// substep set to `index + 1`, the signals come from the policies, and the
/// state updates are applied to the working state in declared order.
pub open spec fn substep_outcome<P: PolicyFunction, U: StateUpdateFunction>(
    psub: Psub<P, U>,
    params: Fields,
    index: int,
    history: Seq<Fields>,
    start: Fields,
    out: Result<Fields, EngineError>,
) -> bool {
    let base = at_substep(start, index + 1);
    exists|signals: Result<Tally, EngineError>| #[trigger]
        signals_outcome(psub.policies@, params, index, history, base, signals) && match signals {
            Ok(tally) => iterate(
                update_step(psub.variables@, params, index, history, tally),
                base,
                psub.variables@.len(),
                out,
            ),
            Err(e) => out == Err::<Fields, EngineError>(e),
        }
}

/// Asks each policy in declared order, each with a copy of `base`, and
/// reduces the answers to the block's signals.
pub fn gather_signals<P: PolicyFunction>(
    policies: &Dict<Entry<P>>,
    params: &ParameterSet,
    index: usize,
    history: &Vec<State>,
    base: &State,
) -> (result: Result<Signals, EngineError>)
    ensures
        signals_outcome(
            policies@,
            params@,
            index as int,
            history.deep_view(),
            base@,
            tally_of(result),
        ),
{
    let mut outputs: Vec<Signals> = Vec::new();
    let mut j: usize = 0;
    while j < policies.len()
        invariant
            j <= policies@.len(),
            outputs.len() == j,
            forall|k: int|
                0 <= k < j ==> answered(
                    policies@[k].1,
                    params@,
                    index as int,
                    history.deep_view(),
                    base@,
                    #[trigger] outputs.deep_view()[k],
                ),
        decreases policies@.len() - j,
    {
        match policies.value_at(j) {
            Entry::NotCallable => {
                assert(policies@[j as int].1 is NotCallable);
                return Err(EngineError::NotCallable);
            },
            Entry::Callable(policy) => {
                let output = policy.evaluate(params, index, history, base.clone());
                proof {
                    use_type_invariant(&output);
                    output.lemma_distinct();
                }
                let ghost before = outputs.deep_view();
                outputs.push(output);
                assert forall|k: int| 0 <= k < j + 1 implies answered(
                    policies@[k].1,
                    params@,
                    index as int,
                    history.deep_view(),
                    base@,
                    #[trigger] outputs.deep_view()[k],
                ) by {
                    if k < j {
                        assert(outputs.deep_view()[k] == before[k]);
                    }
                }
            },
        }
        j += 1;
    }
    assert forall|k: int| 0 <= k < policies@.len() implies !((#[trigger] policies@[k]).1
        is NotCallable) by {
        assert(answered(
            policies@[k].1,
            params@,
            index as int,
            history.deep_view(),
            base@,
            outputs.deep_view()[k],
        ));
    }
    assert(gathered(
        policies@,
        params@,
        index as int,
        history.deep_view(),
        base@,
        outputs.deep_view(),
    ));
    reduce_signals(outputs)
}

/// Takes the answer of a state update function declared under `declared`:
/// stores the value in the working state, or refuses an answer for another
/// key.
pub fn settle(declared: &String, base: State, update: (String, Value)) -> (result: Result<
    State,
    EngineError,
>)
    ensures
        content(result) == settled(declared@, base@, update.0@, update.1@),
{
    let (key, value) = update;
    if key == *declared {
        let mut next = base;
        next.set(key, value);
        Ok(next)
    } else {
        Err(EngineError::KeyMismatch)
    }
}

/// Applies the state updates of a block in declared order. Each function
/// sees a copy of the working state as the earlier ones left it.
pub fn apply_updates<U: StateUpdateFunction>(
    variables: &Dict<Entry<U>>,
    params: &ParameterSet,
    index: usize,
    history: &Vec<State>,
    signals: &Signals,
    base: State,
) -> (result: Result<State, EngineError>)
    ensures
        iterate(
            update_step(variables@, params@, index as int, history.deep_view(), signals@),
            base@,
            variables@.len(),
            content(result),
        ),
{
    let ghost step = update_step(variables@, params@, index as int, history.deep_view(), signals@);
    let ghost first = base@;
    let mut current = base;
    let mut j: usize = 0;
    while j < variables.len()
        invariant
            j <= variables@.len(),
            first == base@,
            step == update_step(variables@, params@, index as int, history.deep_view(), signals@),
            iterate(step, first, j as nat, Ok(current@)),
        decreases variables@.len() - j,
    {
        match variables.value_at(j) {
            Entry::NotCallable => {
                proof {
                    let out = Err::<Fields, EngineError>(EngineError::NotCallable);
                    assert(step(j as int, current@, out));
                    lemma_iterate_next(step, first, j as nat, current@, out);
                    lemma_iterate_failed(
                        step,
                        first,
                        (j + 1) as nat,
                        variables@.len(),
                        EngineError::NotCallable,
                    );
                }
                return Err(EngineError::NotCallable);
            },
            Entry::Callable(function) => {
                let update = function.apply(params, index, history, current.clone(), signals.clone());
                let ghost before = current@;
                let ghost answer = (update.0@, update.1@);
                let settled_state = settle(variables.key_at(j), current, update);
                proof {
                    let out = content(settled_state);
                    assert(out == settled(variables@[j as int].0, before, answer.0, answer.1));
                    assert(step(j as int, before, out));
                    lemma_iterate_next(step, first, j as nat, before, out);
                }
                match settled_state {
                    Ok(next) => {
                        current = next;
                    },
                    Err(e) => {
                        proof {
                            lemma_iterate_failed(step, first, (j + 1) as nat, variables@.len(), e);
                        }
                        return Err(e);
                    },
                }
            },
        }
        j += 1;
    }
    Ok(current)
}

/// Runs the substep of the block at `index`, started from `start`, and
/// returns the block's snapshot.
pub fn run_substep<P: PolicyFunction, U: StateUpdateFunction>(
    psub: &Psub<P, U>,
    params: &ParameterSet,
    index: usize,
    history: &Vec<State>,
    start: &State,
) -> (result: Result<State, EngineError>)
    ensures
        substep_outcome(
            *psub,
            params@,
            index as int,
            history.deep_view(),
            start@,
            content(result),
        ),
{
    let base = stamp_substep(start, index as i128 + 1);
    let signals = gather_signals(&psub.policies, params, index, history, &base);
    match signals {
        Ok(signals) => {
            let ghost tally = signals@;
            let result = apply_updates(&psub.variables, params, index, history, &signals, base);
            assert(signals_outcome(
                psub.policies@,
                params@,
                index as int,
                history.deep_view(),
                at_substep(start@, index + 1),
                Ok(tally),
            ));
            result
        },
        Err(e) => {
            assert(signals_outcome(
                psub.policies@,
                params@,
                index as int,
                history.deep_view(),
                at_substep(start@, index + 1),
                Err(e),
            ));
            Err(e)
        },
    }
}

} // verus!
