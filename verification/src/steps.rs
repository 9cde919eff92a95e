//! Outcomes of work done step by step, where the first failing step ends it.
//!
//! Each stage of the engine is a loop whose steps may consult functions
//! supplied by the modeller. What such a function answers is not for the
//! engine to say, so a stage is described by a relation: which outcomes are
//! possible after a given number of steps.

use vstd::prelude::*;

use crate::error::EngineError;

verus! {

/// `out` is a possible outcome of taking the first `n` steps from `init`.
///
/// `step(i, s, r)` says that step number `i`, taken in state `s`, may end in
/// `r`. A failed step ends the work: its error is the outcome whatever the
/// number of steps asked for.
pub open spec fn iterate<S>(
    step: spec_fn(int, S, Result<S, EngineError>) -> bool,
    init: S,
    n: nat,
    out: Result<S, EngineError>,
) -> bool
    decreases n,
{
    if n == 0 {
        out == Ok::<S, EngineError>(init)
    } else {
        exists|prev: Result<S, EngineError>|
            iterate(step, init, (n - 1) as nat, prev) && #[trigger] follows(step, n, prev, out)
    }
}

/// `out` may come after `prev`, the outcome of the steps before step number
/// `n - 1`: it is a result of that step, or the error already met.
pub open spec fn follows<S>(
    step: spec_fn(int, S, Result<S, EngineError>) -> bool,
    n: nat,
    prev: Result<S, EngineError>,
    out: Result<S, EngineError>,
) -> bool {
    match prev {
        Ok(state) => step(n - 1, state, out),
        Err(e) => out == Err::<S, EngineError>(e),
    }
}

/// Each of the first `n` steps has at most one possible result.
pub open spec fn functional<S>(
    step: spec_fn(int, S, Result<S, EngineError>) -> bool,
    n: nat,
) -> bool {
    forall|i: int, state: S, a: Result<S, EngineError>, b: Result<S, EngineError>|
        0 <= i < n && #[trigger] step(i, state, a) && #[trigger] step(i, state, b) ==> a == b
}

/// One more step after `n` successful ones.
pub proof fn lemma_iterate_next<S>(
    step: spec_fn(int, S, Result<S, EngineError>) -> bool,
    init: S,
    n: nat,
    state: S,
    out: Result<S, EngineError>,
)
    requires
        iterate(step, init, n, Ok(state)),
        step(n as int, state, out),
    ensures
        iterate(step, init, n + 1, out),
{
    assert(follows(step, n + 1, Ok(state), out));
}

/// Once failed, the outcome stays the same however many steps are asked for.
pub proof fn lemma_iterate_failed<S>(
    step: spec_fn(int, S, Result<S, EngineError>) -> bool,
    init: S,
    n: nat,
    m: nat,
    e: EngineError,
)
    requires
        iterate(step, init, n, Err(e)),
        n <= m,
    ensures
        iterate(step, init, m, Err(e)),
    decreases m - n,
{
    if n < m {
        lemma_iterate_failed(step, init, n, (m - 1) as nat, e);
        assert(follows(step, m, Err::<S, EngineError>(e), Err::<S, EngineError>(e)));
    }
}

/// A failure comes from a step: some step, taken after the steps before it
/// had succeeded, ended in the error.
pub proof fn lemma_iterate_failure<S>(
    step: spec_fn(int, S, Result<S, EngineError>) -> bool,
    init: S,
    n: nat,
    e: EngineError,
)
    requires
        iterate(step, init, n, Err(e)),
    ensures
        exists|i: int, state: S|
            0 <= i < n && iterate(step, init, i as nat, Ok(state)) && #[trigger] step(
                i,
                state,
                Err(e),
            ),
    decreases n,
{
    let out = Err::<S, EngineError>(e);
    let prev = choose|prev: Result<S, EngineError>|
        iterate(step, init, (n - 1) as nat, prev) && #[trigger] follows(step, n, prev, out);
    match prev {
        Ok(state) => {
            assert(step(n - 1, state, out));
        },
        Err(earlier) => {
            lemma_iterate_failure(step, init, (n - 1) as nat, e);
        },
    }
}

/// With steps that each have one possible result, the whole has one outcome.
pub proof fn lemma_iterate_functional<S>(
    step: spec_fn(int, S, Result<S, EngineError>) -> bool,
    init: S,
    n: nat,
    a: Result<S, EngineError>,
    b: Result<S, EngineError>,
)
    requires
        functional(step, n),
        iterate(step, init, n, a),
        iterate(step, init, n, b),
    ensures
        a == b,
    decreases n,
{
    if n > 0 {
        let pa = choose|prev: Result<S, EngineError>|
            iterate(step, init, (n - 1) as nat, prev) && #[trigger] follows(step, n, prev, a);
        let pb = choose|prev: Result<S, EngineError>|
            iterate(step, init, (n - 1) as nat, prev) && #[trigger] follows(step, n, prev, b);
        lemma_iterate_functional(step, init, (n - 1) as nat, pa, pb);
    }
}

/// What holds at the start, and is carried over by every successful step,
/// holds after any number of successful steps.
pub proof fn lemma_iterate_invariant<S>(
    step: spec_fn(int, S, Result<S, EngineError>) -> bool,
    init: S,
    n: nat,
    state: S,
    holds: spec_fn(int, S) -> bool,
)
    requires
        iterate(step, init, n, Ok(state)),
        holds(0, init),
        forall|i: int, before: S, after: S|
            0 <= i < n && holds(i, before) && #[trigger] step(i, before, Ok(after)) ==> holds(
                i + 1,
                after,
            ),
    ensures
        holds(n as int, state),
    decreases n,
{
    if n > 0 {
        let prev = choose|prev: Result<S, EngineError>|
            iterate(step, init, (n - 1) as nat, prev) && #[trigger] follows(
                step,
                n,
                prev,
                Ok(state),
            );
        let before = prev->Ok_0;
        lemma_iterate_invariant(step, init, (n - 1) as nat, before, holds);
    }
}

} // verus!
