//! Reducing the answers of a block's policies to one set of signals.

use vstd::prelude::*;

use crate::dict::{
    assign, distinct_keys, index_of, lemma_index_of, lemma_index_of_is, lemma_lookup_assign, lookup,
};
use crate::error::EngineError;
use crate::state::{Signals, Tally};

verus! {

/// `acc` with `amount` added under `key`: the sum with what is held there, or
/// `amount` itself under a new key. `None` when the sum leaves the range of
/// the number type.
pub open spec fn add_entry(acc: Tally, key: Seq<char>, amount: i128) -> Option<Tally> {
    match lookup(acc, key) {
        Some(held) => if i128::MIN <= held + amount <= i128::MAX {
            Some(assign(acc, key, (held + amount) as i128))
        } else {
            None
        },
        None => Some(assign(acc, key, amount)),
    }
}

/// `acc` with every entry of `more` added in turn.
pub open spec fn merge(acc: Tally, more: Tally) -> Option<Tally>
    decreases more.len(),
{
    if more.len() == 0 {
        Some(acc)
    } else {
        match merge(acc, more.drop_last()) {
            Some(sofar) => add_entry(sofar, more.last().0, more.last().1),
            None => None,
        }
    }
}

/// The left fold of `merge` over `outputs`, from the empty tally.
pub open spec fn fold(outputs: Seq<Tally>) -> Option<Tally>
    decreases outputs.len(),
{
    if outputs.len() == 0 {
        Some(Seq::empty())
    } else {
        match fold(outputs.drop_last()) {
            Some(acc) => merge(acc, outputs.last()),
            None => None,
        }
    }
}

/// The signals that the answers of a block's policies reduce to: nothing for
/// no policy, the answer itself for a single policy, and otherwise the union
/// of the answers with the numbers under one name added up.
pub open spec fn reduced(outputs: Seq<Tally>) -> Result<Tally, EngineError> {
    if outputs.len() == 1 {
        Ok(outputs[0])
    } else {
        match fold(outputs) {
            Some(tally) => Ok(tally),
            None => Err(EngineError::Overflow),
        }
    }
}

/// The content of signals that may have failed to come about.
pub open spec fn tally_of(result: Result<Signals, EngineError>) -> Result<Tally, EngineError> {
    match result {
        Ok(signals) => Ok(signals@),
        Err(e) => Err(e),
    }
}

/// A merge that has failed on a part of `more` fails on all of it.
pub proof fn lemma_merge_failed(acc: Tally, more: Tally, n: int)
    requires
        0 <= n <= more.len(),
        merge(acc, more.take(n)) is None,
    ensures
        merge(acc, more) is None,
    decreases more.len() - n,
{
    if n < more.len() {
        assert(more.take(n + 1).drop_last() =~= more.take(n));
        lemma_merge_failed(acc, more, n + 1);
    } else {
        assert(more.take(n) =~= more);
    }
}

/// A fold that has failed on the first outputs fails on all of them.
pub proof fn lemma_fold_failed(outputs: Seq<Tally>, n: int)
    requires
        0 <= n <= outputs.len(),
        fold(outputs.take(n)) is None,
    ensures
        fold(outputs) is None,
    decreases outputs.len() - n,
{
    if n < outputs.len() {
        assert(outputs.take(n + 1).drop_last() =~= outputs.take(n));
        lemma_fold_failed(outputs, n + 1);
    } else {
        assert(outputs.take(n) =~= outputs);
    }
}

/// What `output` gives under `key`: its number, or nothing.
pub open spec fn share(output: Tally, key: Seq<char>) -> int {
    match lookup(output, key) {
        Some(amount) => amount as int,
        None => 0,
    }
}

/// The sum of what the outputs give under `key`.
pub open spec fn sum_of(outputs: Seq<Tally>, key: Seq<char>) -> int
    decreases outputs.len(),
{
    if outputs.len() == 0 {
        0
    } else {
        sum_of(outputs.drop_last(), key) + share(outputs.last(), key)
    }
}

/// Some output has a number under `key`.
pub open spec fn named(outputs: Seq<Tally>, key: Seq<char>) -> bool {
    exists|j: int| 0 <= j < outputs.len() && lookup(#[trigger] outputs[j], key) is Some
}

/// In a mapping the last entry is found under its key, and every other key
/// is found among the entries before it.
pub proof fn lemma_lookup_last(entries: Tally, key: Seq<char>)
    requires
        entries.len() > 0,
        distinct_keys(entries),
    ensures
        lookup(entries, key) == if entries.last().0 == key {
            Some(entries.last().1)
        } else {
            lookup(entries.drop_last(), key)
        },
{
    let front = entries.drop_last();
    lemma_index_of(front, key);
    lemma_index_of(entries, key);
    let i = index_of(front, key);
    if entries.last().0 == key {
        assert forall|j: int| 0 <= j < entries.len() - 1 implies (#[trigger] entries[j]).0
            != key by {
            assert(entries[j].0 != entries[entries.len() - 1].0);
        }
        lemma_index_of_is(entries, key, entries.len() - 1);
    } else if i < front.len() {
        assert(front[i] == entries[i]);
        assert forall|j: int| 0 <= j < i implies (#[trigger] entries[j]).0 != key by {
            assert(front[j] == entries[j]);
        }
        lemma_index_of_is(entries, key, i);
    } else {
        assert forall|j: int| 0 <= j < entries.len() implies (#[trigger] entries[j]).0 != key by {
            if j < front.len() {
                assert(front[j] == entries[j]);
            }
        }
        lemma_index_of_is(entries, key, entries.len() as int);
    }
}

/// Merging a mapping into a tally adds, under each key, what the mapping
/// gives there, and names what either of them names.
pub proof fn lemma_merge_adds(acc: Tally, more: Tally, key: Seq<char>)
    requires
        distinct_keys(more),
        merge(acc, more) is Some,
    ensures
        lookup(merge(acc, more)->0, key) == if lookup(acc, key) is Some || lookup(more, key)
            is Some {
            Some((share(acc, key) + share(more, key)) as i128)
        } else {
            None
        },
        lookup(acc, key) is Some || lookup(more, key) is Some ==> i128::MIN <= share(acc, key)
            + share(more, key) <= i128::MAX,
    decreases more.len(),
{
    if more.len() > 0 {
        let front = more.drop_last();
        let last = more.last();
        assert forall|i: int, j: int| 0 <= i < j < front.len() implies (#[trigger] front[i]).0 != (
        #[trigger] front[j]).0 by {
            assert(front[i] == more[i]);
            assert(front[j] == more[j]);
        }
        let sofar = merge(acc, front)->0;
        lemma_merge_adds(acc, front, key);
        lemma_merge_adds(acc, front, last.0);
        lemma_lookup_last(more, key);
        lemma_lookup_last(more, last.0);
        if lookup(front, last.0) is Some {
            lemma_index_of(front, last.0);
            let i = index_of(front, last.0);
            assert(front[i] == more[i]);
            assert(more[i].0 != more[more.len() - 1].0);
        }
        match lookup(sofar, last.0) {
            Some(held) => {
                lemma_lookup_assign(sofar, last.0, (held + last.1) as i128, key);
            },
            None => {
                lemma_lookup_assign(sofar, last.0, last.1, key);
            },
        }
    }
}

/// Union with addition: when the fold succeeds, the signals hold a number
/// under exactly the keys that some output names, and the number under a
/// key is the sum of what the outputs give under it.
pub proof fn lemma_fold_sums(outputs: Seq<Tally>, key: Seq<char>)
    requires
        forall|j: int| 0 <= j < outputs.len() ==> distinct_keys(#[trigger] outputs[j]),
        fold(outputs) is Some,
    ensures
        lookup(fold(outputs)->0, key) == if named(outputs, key) {
            Some(sum_of(outputs, key) as i128)
        } else {
            None
        },
        named(outputs, key) ==> i128::MIN <= sum_of(outputs, key) <= i128::MAX,
        !named(outputs, key) ==> sum_of(outputs, key) == 0,
    decreases outputs.len(),
{
    if outputs.len() == 0 {
        lemma_index_of_is(Seq::<(Seq<char>, i128)>::empty(), key, 0);
    } else {
        let front = outputs.drop_last();
        let last = outputs.last();
        assert forall|j: int| 0 <= j < front.len() implies distinct_keys(#[trigger] front[j]) by {
            assert(front[j] == outputs[j]);
        }
        lemma_fold_sums(front, key);
        let acc = fold(front)->0;
        lemma_merge_adds(acc, last, key);
        if named(front, key) {
            let j = choose|j: int| 0 <= j < front.len() && lookup(#[trigger] front[j], key) is Some;
            assert(outputs[j] == front[j]);
        }
        if lookup(last, key) is Some {
            assert(lookup(outputs[outputs.len() - 1], key) is Some);
        }
        if named(outputs, key) {
            let j = choose|j: int|
                0 <= j < outputs.len() && lookup(#[trigger] outputs[j], key) is Some;
            if j < front.len() {
                assert(front[j] == outputs[j]);
            }
        }
    }
}

/// The empty tally is the identity of the fold: a single mapping folds to
/// itself, so that one policy's answer is the block's signals unchanged
/// whether it is taken as it is or folded.
pub proof fn lemma_fold_single(output: Tally)
    requires
        distinct_keys(output),
    ensures
        fold(seq![output]) == Some(output),
{
    let empty = Seq::<(Seq<char>, i128)>::empty();
    assert(seq![output].drop_last() =~= Seq::<Tally>::empty());
    assert(fold(seq![output].drop_last()) == Some(empty));
    lemma_merge_fresh(output, output.len() as int);
    assert(output.take(output.len() as int) =~= output);
}

/// Merging the first `n` entries of a mapping into the empty tally gives
/// those entries.
pub proof fn lemma_merge_fresh(output: Tally, n: int)
    requires
        distinct_keys(output),
        0 <= n <= output.len(),
    ensures
        merge(Seq::empty(), output.take(n)) == Some(output.take(n)),
    decreases n,
{
    let part = output.take(n);
    if n > 0 {
        lemma_merge_fresh(output, n - 1);
        assert(part.drop_last() =~= output.take(n - 1));
        let front = output.take(n - 1);
        let last = part.last();
        assert forall|j: int| 0 <= j < front.len() implies (#[trigger] front[j]).0 != last.0 by {
            assert(output[j].0 != output[n - 1].0);
        }
        lemma_index_of_is(front, last.0, front.len() as int);
        assert(assign(front, last.0, last.1) =~= part);
    }
}

/// Adds `amount` under `key`, or reports that the sum is out of range.
pub fn add_signal(acc: &mut Signals, key: String, amount: i128) -> (done: bool)
    ensures
        match add_entry(old(acc)@, key@, amount) {
            Some(tally) => done && final(acc)@ == tally,
            None => !done && final(acc)@ == old(acc)@,
        },
{
    let held = match acc.get(key.as_str()) {
        Some(held) => Some(*held),
        None => None,
    };
    match held {
        Some(held) => match held.checked_add(amount) {
            Some(sum) => {
                acc.set(key, sum);
                true
            },
            None => false,
        },
        None => {
            acc.set(key, amount);
            true
        },
    }
}

/// Reduces the answers of a block's policies, in the order of the policies,
/// to the block's signals.
pub fn reduce_signals(outputs: Vec<Signals>) -> (result: Result<Signals, EngineError>)
    ensures
        tally_of(result) == reduced(outputs.deep_view()),
{
    let ghost all = outputs.deep_view();
    let mut answers = outputs;
    if answers.len() == 1 {
        let only = answers.pop().unwrap();
        return Ok(only);
    }
    let mut acc = Signals::new();
    let mut i: usize = 0;
    while i < answers.len()
        invariant
            i <= answers.len(),
            answers.deep_view() == all,
            all == outputs.deep_view(),
            all.len() != 1,
            fold(all.take(i as int)) == Some(acc@),
        decreases answers.len() - i,
    {
        let ghost start = acc@;
        let output = &answers[i];
        let mut j: usize = 0;
        while j < output.len()
            invariant
                j <= output@.len(),
                i < answers.len(),
                answers.deep_view() == all,
            all == outputs.deep_view(),
                all.len() != 1,
                output@ == all[i as int],
                fold(all.take(i as int)) == Some(start),
                merge(start, output@.take(j as int)) == Some(acc@),
            decreases output@.len() - j,
        {
            let key = output.key_at(j).clone();
            let amount = *output.value_at(j);
            proof {
                assert(output@.take(j + 1).drop_last() =~= output@.take(j as int));
            }
            if !add_signal(&mut acc, key, amount) {
                proof {
                    let part = output@.take(j + 1);
                    assert(part.last() == output@[j as int]);
                    assert(merge(start, part) is None);
                    lemma_merge_failed(start, output@, j + 1);
                    let first = all.take(i + 1);
                    assert(first.drop_last() =~= all.take(i as int));
                    assert(first.last() == output@);
                    assert(fold(first) is None);
                    lemma_fold_failed(all, i + 1);
                }
                return Err(EngineError::Overflow);
            }
            j += 1;
        }
        proof {
            assert(output@.take(j as int) =~= output@);
            assert(all.take(i + 1).drop_last() =~= all.take(i as int));
        }
        i += 1;
    }
    proof {
        assert(all.take(i as int) =~= all);
    }
    Ok(acc)
}

} // verus!
