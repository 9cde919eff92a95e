//! Expanding the sequences of a parameter sweep into parameter sets.

use vstd::prelude::*;

use crate::dict::{distinct_keys, lemma_index_of_is};
use crate::error::EngineError;
use crate::model::{Grid, Sweep};
use crate::state::{contents, Fields, ParameterSet};
use crate::value::{Datum, Value};

verus! {

/// The length of the longest sequence, 0 if there is no parameter.
pub open spec fn longest(grid: Grid) -> nat
    decreases grid.len(),
{
    if grid.len() == 0 {
        0
    } else {
        let before = longest(grid.drop_last());
        let here = grid.last().1.len();
        if here > before {
            here
        } else {
            before
        }
    }
}

/// Some parameter has no value at all.
pub open spec fn has_empty(grid: Grid) -> bool {
    exists|k: int| 0 <= k < grid.len() && (#[trigger] grid[k]).1.len() == 0
}

/// The value that a sequence contributes at sweep index `i`: its own value
/// there, or its last one once it has run out.
pub open spec fn pick(values: Seq<Datum>, i: int) -> Datum {
    if i < values.len() {
        values[i]
    } else {
        values.last()
    }
}

/// The parameter set at sweep index `i`.
pub open spec fn parameter_set(grid: Grid, i: int) -> Fields {
    Seq::new(grid.len(), |k: int| (grid[k].0, pick(grid[k].1, i)))
}

/// One parameter set per index of the longest sequence.
pub open spec fn expansion(grid: Grid) -> Seq<Fields> {
    Seq::new(longest(grid), |i: int| parameter_set(grid, i))
}

/// The expansion of a sweep. A sweep in which some sequence is empty while
/// another holds values has none: the empty one has no last value to hold.
pub open spec fn swept(grid: Grid) -> Result<Seq<Fields>, EngineError> {
    if longest(grid) > 0 && has_empty(grid) {
        Err(EngineError::MalformedSweep)
    } else {
        Ok(expansion(grid))
    }
}

/// The sweep itself as a parameter set: each parameter with its whole
/// sequence as the value.
pub open spec fn raw(grid: Grid) -> Fields {
    Seq::new(grid.len(), |k: int| (grid[k].0, Datum::Sequence(grid[k].1)))
}

/// `longest` bounds every sequence, and is the length of one of them unless
/// it is 0.
pub proof fn lemma_longest(grid: Grid)
    ensures
        forall|k: int| 0 <= k < grid.len() ==> (#[trigger] grid[k]).1.len() <= longest(grid),
        longest(grid) > 0 ==> exists|k: int|
            0 <= k < grid.len() && (#[trigger] grid[k]).1.len() == longest(grid),
    decreases grid.len(),
{
    if grid.len() > 0 {
        let rest = grid.drop_last();
        lemma_longest(rest);
        assert forall|k: int| 0 <= k < grid.len() implies (#[trigger] grid[k]).1.len() <= longest(
            grid,
        ) by {
            if k < rest.len() {
                assert(grid[k] == rest[k]);
            }
        }
        if longest(grid) > 0 {
            if grid.last().1.len() > longest(rest) {
                assert(grid[grid.len() - 1].1.len() == longest(grid));
            } else {
                let k = choose|k: int|
                    0 <= k < rest.len() && (#[trigger] rest[k]).1.len() == longest(rest);
                assert(grid[k] == rest[k]);
            }
        }
    }
}

/// Broadcast: every parameter set of an expansion names the parameters in
/// the order of the sweep, and gives each the value of its sequence at the
/// sweep index, or the last value of a sequence that is shorter.
pub proof fn lemma_expansion(grid: Grid, i: int, k: int)
    requires
        swept(grid) is Ok,
        0 <= i < longest(grid),
        0 <= k < grid.len(),
    ensures
        swept(grid)->Ok_0.len() == longest(grid),
        swept(grid)->Ok_0[i].len() == grid.len(),
        grid[k].1.len() > 0,
        swept(grid)->Ok_0[i][k] == (
            grid[k].0,
            grid[k].1[if i <= grid[k].1.len() - 1 {
                i
            } else {
                grid[k].1.len() - 1
            }],
        ),
{
    assert(grid[k].1.len() != 0);
}

/// Where no parameter holds a value there is nothing to sweep: the
/// expansion is empty.
pub proof fn lemma_nothing_to_sweep(grid: Grid)
    requires
        forall|k: int| 0 <= k < grid.len() ==> (#[trigger] grid[k]).1.len() == 0,
    ensures
        swept(grid) == Ok::<Seq<Fields>, EngineError>(Seq::empty()),
{
    lemma_longest(grid);
    assert(expansion(grid) =~= Seq::<Fields>::empty());
}

/// The length of the longest sequence of `params`, and whether some
/// sequence is empty.
fn measure(params: &Sweep) -> (found: (usize, bool))
    ensures
        found.0 == longest(params@),
        found.1 == has_empty(params@),
{
    let mut max_len: usize = 0;
    let mut any_empty = false;
    let mut k: usize = 0;
    assert(params@.take(0) =~= Seq::empty());
    while k < params.len()
        invariant
            k <= params@.len(),
            max_len == longest(params@.take(k as int)),
            any_empty == has_empty(params@.take(k as int)),
        decreases params@.len() - k,
    {
        let n = params.value_at(k).len();
        proof {
            let before = params@.take(k as int);
            let after = params@.take(k + 1);
            assert(after.drop_last() =~= before);
            assert(after.last() == params@[k as int]);
            if has_empty(before) {
                let e = choose|e: int| 0 <= e < before.len() && (#[trigger] before[e]).1.len() == 0;
                assert(after[e] == before[e]);
            }
            if has_empty(after) && n != 0 {
                let e = choose|e: int| 0 <= e < after.len() && (#[trigger] after[e]).1.len() == 0;
                assert(before[e] == after[e]);
            }
            if n == 0 {
                assert(after[k as int].1.len() == 0);
            }
        }
        if n > max_len {
            max_len = n;
        }
        if n == 0 {
            any_empty = true;
        }
        k += 1;
    }
    assert(params@.take(k as int) =~= params@);
    (max_len, any_empty)
}

/// The parameter set at sweep index `i` of a sweep without an empty
/// sequence.
fn parameter_set_at(params: &Sweep, i: usize) -> (set: ParameterSet)
    requires
        !has_empty(params@),
    ensures
        set@ == parameter_set(params@, i as int),
{
    proof {
        use_type_invariant(params);
        params.lemma_distinct();
    }
    let mut set = ParameterSet::new();
    let mut k: usize = 0;
    while k < params.len()
        invariant
            k <= params@.len(),
            !has_empty(params@),
            distinct_keys(params@),
            set@ == parameter_set(params@, i as int).take(k as int),
        decreases params@.len() - k,
    {
        let values = params.value_at(k);
        assert(params@[k as int].1.len() != 0);
        let at = if i < values.len() {
            i
        } else {
            values.len() - 1
        };
        let key = params.key_at(k).clone();
        let value = values[at].clone();
        proof {
            assert forall|j: int| 0 <= j < set@.len() implies (#[trigger] set@[j]).0 != key@ by {
                assert(set@[j].0 == params@[j].0);
            }
            lemma_index_of_is(set@, key@, set@.len() as int);
            assert(value@ == pick(params@[k as int].1, i as int));
        }
        let ghost before = set@;
        set.append(key, value);
        assert(set@ =~= parameter_set(params@, i as int).take(k + 1));
        k += 1;
    }
    assert(set@ =~= parameter_set(params@, i as int));
    set
}

/// Expands a sweep into its parameter sets, one per index of the longest
/// sequence. A sequence that has run out holds its last value. Without any
/// value to sweep the expansion is empty.
pub fn expand_sweep(params: &Sweep) -> (result: Result<Vec<ParameterSet>, EngineError>)
    ensures
        contents(result) == swept(params@),
{
    let (max_len, any_empty) = measure(params);
    let mut sets: Vec<ParameterSet> = Vec::new();
    if max_len == 0 {
        assert(sets.deep_view() =~= expansion(params@));
        return Ok(sets);
    }
    if any_empty {
        return Err(EngineError::MalformedSweep);
    }
    let mut i: usize = 0;
    while i < max_len
        invariant
            i <= max_len,
            max_len == longest(params@),
            !has_empty(params@),
            sets.len() == i,
            forall|j: int| 0 <= j < i ==> (#[trigger] sets[j])@ == parameter_set(params@, j),
        decreases max_len - i,
    {
        sets.push(parameter_set_at(params, i));
        i += 1;
    }
    assert(sets.deep_view() =~= expansion(params@));
    Ok(sets)
}

/// A copy of the sweep as a parameter set, each parameter with its whole
/// sequence as the value.
pub fn raw_parameters(params: &Sweep) -> (set: ParameterSet)
    ensures
        set@ == raw(params@),
{
    proof {
        use_type_invariant(params);
        params.lemma_distinct();
    }
    let mut set = ParameterSet::new();
    let mut k: usize = 0;
    while k < params.len()
        invariant
            k <= params@.len(),
            distinct_keys(params@),
            set@ == raw(params@).take(k as int),
        decreases params@.len() - k,
    {
        let values = params.value_at(k);
        let mut copies: Vec<Value> = Vec::new();
        let mut i: usize = 0;
        while i < values.len()
            invariant
                i <= values.len(),
                copies.len() == i,
                forall|j: int| 0 <= j < i ==> (#[trigger] copies[j])@ == values[j]@,
            decreases values.len() - i,
        {
            copies.push(values[i].clone());
            i += 1;
        }
        let key = params.key_at(k).clone();
        let value = Value::Sequence(copies);
        proof {
            assert forall|j: int| 0 <= j < set@.len() implies (#[trigger] set@[j]).0 != key@ by {
                assert(set@[j].0 == params@[j].0);
            }
            lemma_index_of_is(set@, key@, set@.len() as int);
            assert(value@->Sequence_0 =~= params@[k as int].1);
        }
        set.append(key, value);
        assert(set@ =~= raw(params@).take(k + 1));
        k += 1;
    }
    assert(set@ =~= raw(params@));
    set
}

} // verus!
