//! An insertion-ordered dictionary keyed by text, and the vocabulary used to
//! speak about such dictionaries in contracts.

use vstd::prelude::*;

use crate::value::Value;

verus! {

/// The position of the first entry of `entries` stored under `key`, or
/// `entries.len()` when there is none.
pub open spec fn index_of<X>(entries: Seq<(Seq<char>, X)>, key: Seq<char>) -> int
    decreases entries.len(),
{
    if entries.len() == 0 {
        0
    } else if entries[0].0 == key {
        0
    } else {
        1 + index_of(entries.drop_first(), key)
    }
}

/// The value stored under `key`, if any.
pub open spec fn lookup<X>(entries: Seq<(Seq<char>, X)>, key: Seq<char>) -> Option<X> {
    let i = index_of(entries, key);
    if i < entries.len() {
        Some(entries[i].1)
    } else {
        None
    }
}

/// `entries` with `value` stored under `key`: an existing entry keeps its
/// place and takes the new value, a new key is appended.
pub open spec fn assign<X>(entries: Seq<(Seq<char>, X)>, key: Seq<char>, value: X) -> Seq<
    (Seq<char>, X),
> {
    let i = index_of(entries, key);
    if i < entries.len() {
        entries.update(i, (key, value))
    } else {
        entries.push((key, value))
    }
}

/// No key occurs twice.
pub open spec fn distinct_keys<X>(entries: Seq<(Seq<char>, X)>) -> bool {
    forall|i: int, j: int|
        0 <= i < j < entries.len() ==> (#[trigger] entries[i]).0 != (#[trigger] entries[j]).0
}

/// `index_of` is the first match: it lies within bounds, no earlier entry
/// has the key, and the entry at it, if there is one, has the key.
pub proof fn lemma_index_of<X>(entries: Seq<(Seq<char>, X)>, key: Seq<char>)
    ensures
        0 <= index_of(entries, key) <= entries.len(),
        index_of(entries, key) < entries.len() ==> entries[index_of(entries, key)].0 == key,
        forall|j: int| 0 <= j < index_of(entries, key) ==> (#[trigger] entries[j]).0 != key,
    decreases entries.len(),
{
    if entries.len() > 0 && entries[0].0 != key {
        let rest = entries.drop_first();
        lemma_index_of(rest, key);
        assert forall|j: int| 0 <= j < index_of(entries, key) implies (#[trigger] entries[j]).0
            != key by {
            if j > 0 {
                assert(entries[j] == rest[j - 1]);
            }
        }
    }
}

/// Any position that is a first match is `index_of`.
pub proof fn lemma_index_of_is<X>(entries: Seq<(Seq<char>, X)>, key: Seq<char>, i: int)
    requires
        0 <= i <= entries.len(),
        i < entries.len() ==> entries[i].0 == key,
        forall|j: int| 0 <= j < i ==> (#[trigger] entries[j]).0 != key,
    ensures
        index_of(entries, key) == i,
{
    lemma_index_of(entries, key);
    let k = index_of(entries, key);
    if k < i {
        assert(entries[k].0 != key);
    }
}

/// Reading back what `assign` stored, and what it left alone.
pub proof fn lemma_lookup_assign<X>(
    entries: Seq<(Seq<char>, X)>,
    key: Seq<char>,
    value: X,
    other: Seq<char>,
)
    ensures
        lookup(assign(entries, key, value), other) == if other == key {
            Some(value)
        } else {
            lookup(entries, other)
        },
        index_of(assign(entries, key, value), other) == if other == key {
            index_of(entries, key)
        } else if index_of(entries, other) < entries.len() {
            index_of(entries, other)
        } else {
            assign(entries, key, value).len() as int
        },
{
    lemma_index_of(entries, key);
    lemma_index_of(entries, other);
    let after = assign(entries, key, value);
    let i = index_of(entries, key);
    let o = index_of(entries, other);
    if other == key {
        lemma_index_of_is(after, other, i);
    } else if o < entries.len() {
        lemma_index_of_is(after, other, o);
    } else {
        lemma_index_of_is(after, other, after.len() as int);
    }
}

/// `assign` keeps keys distinct.
pub proof fn lemma_assign_distinct<X>(entries: Seq<(Seq<char>, X)>, key: Seq<char>, value: X)
    requires
        distinct_keys(entries),
    ensures
        distinct_keys(assign(entries, key, value)),
{
    lemma_index_of(entries, key);
    let after = assign(entries, key, value);
    let i = index_of(entries, key);
    assert forall|a: int, b: int| 0 <= a < b < after.len() implies (#[trigger] after[a]).0 != (
    #[trigger] after[b]).0 by {
        if i < entries.len() {
            assert(after[a].0 == entries[a].0);
            assert(after[b].0 == entries[b].0);
        } else if b == entries.len() {
            assert(after[a] == entries[a]);
        } else {
            assert(after[a] == entries[a]);
            assert(after[b] == entries[b]);
        }
    }
}

/// An insertion-ordered mapping from text keys to values of type `V`.
///
/// Each key occurs at most once. Storing under a key that is present
/// replaces the value and keeps the entry's place; a new key goes to the end.
#[derive(Debug, PartialEq, Eq)]
pub struct Dict<V> {
    entries: Vec<(String, V)>,
}

impl<V: DeepView> View for Dict<V> {
    type V = Seq<(Seq<char>, V::V)>;

    /// The entries in order, each as its key and the content of its value.
    closed spec fn view(&self) -> Seq<(Seq<char>, V::V)> {
        Seq::new(self.entries@.len(), |i: int| (self.entries@[i].0@, self.entries@[i].1.deep_view()))
    }
}

impl<V: DeepView> DeepView for Dict<V> {
    type V = Seq<(Seq<char>, V::V)>;

    open spec fn deep_view(&self) -> Seq<(Seq<char>, V::V)> {
        self.view()
    }
}

impl<V> Dict<V> {
    /// The keys in order.
    pub closed spec fn keys(&self) -> Seq<Seq<char>> {
        Seq::new(self.entries@.len(), |i: int| self.entries@[i].0@)
    }

    /// No key occurs twice. This holds of every dictionary.
    #[verifier::type_invariant]
    pub open spec fn well_formed(&self) -> bool {
        forall|i: int, j: int|
            0 <= i < j < self.keys().len() ==> #[trigger] self.keys()[i] != #[trigger] self.keys()[j]
    }
}

impl<V: DeepView> Dict<V> {
    /// The empty dictionary.
    pub fn new() -> (dict: Self)
        ensures
            dict@ == Seq::<(Seq<char>, V::V)>::empty(),
    {
        let dict = Dict { entries: Vec::new() };
        assert(dict@ =~= Seq::<(Seq<char>, V::V)>::empty());
        dict
    }

    /// A well-formed dictionary holds each key once.
    pub proof fn lemma_distinct(&self)
        requires
            self.well_formed(),
        ensures
            distinct_keys(self@),
    {
        assert forall|i: int, j: int| 0 <= i < j < self@.len() implies (#[trigger] self@[i]).0 != (
        #[trigger] self@[j]).0 by {
            assert(self.keys()[i] != self.keys()[j]);
        }
    }

    /// The number of entries.
    pub fn len(&self) -> (n: usize)
        ensures
            n == self@.len(),
    {
        self.entries.len()
    }

    /// The key of the entry at position `i`.
    pub fn key_at(&self, i: usize) -> (key: &String)
        requires
            i < self@.len(),
        ensures
            key@ == self@[i as int].0,
    {
        &self.entries[i].0
    }

    /// The value of the entry at position `i`.
    pub fn value_at(&self, i: usize) -> (value: &V)
        requires
            i < self@.len(),
        ensures
            value.deep_view() == self@[i as int].1,
    {
        &self.entries[i].1
    }

    /// The position of the entry stored under `key`, if there is one.
    pub fn position(&self, key: &str) -> (found: Option<usize>)
        ensures
            match found {
                Some(i) => i == index_of(self@, key@) && i < self@.len(),
                None => index_of(self@, key@) == self@.len(),
            },
    {
        let wanted = key.to_owned();
        let mut i: usize = 0;
        while i < self.entries.len()
            invariant
                i <= self.entries.len(),
                wanted@ == key@,
                forall|j: int| 0 <= j < i ==> (#[trigger] self@[j]).0 != key@,
            decreases self.entries.len() - i,
        {
            if self.entries[i].0 == wanted {
                proof {
                    lemma_index_of_is(self@, key@, i as int);
                }
                return Some(i);
            }
            i += 1;
        }
        proof {
            lemma_index_of_is(self@, key@, i as int);
        }
        None
    }

    /// The value stored under `key`, if there is one.
    pub fn get(&self, key: &str) -> (found: Option<&V>)
        ensures
            match found {
                Some(value) => lookup(self@, key@) == Some(value.deep_view()),
                None => lookup(self@, key@) is None,
            },
    {
        match self.position(key) {
            Some(i) => Some(&self.entries[i].1),
            None => None,
        }
    }

    /// Stores `value` under `key`.
    pub fn set(&mut self, key: String, value: V)
        ensures
            final(self)@ == assign(old(self)@, key@, value.deep_view()),
    {
        proof {
            use_type_invariant(&*self);
            lemma_index_of(self@, key@);
        }
        let found = self.position(key.as_str());
        let ghost before = self@;
        let ghost stored = self.entries@;
        let ghost names = self.keys();
        let mut entries: Vec<(String, V)> = Vec::new();
        std::mem::swap(&mut entries, &mut self.entries);
        match found {
            Some(i) => {
                assert(before[i as int].0 == key@);
                entries.set(i, (key, value));
            },
            None => {
                assert forall|j: int| 0 <= j < stored.len() implies (#[trigger] stored[j]).0@
                    != key@ by {
                    assert(before[j].0 != key@);
                }
                entries.push((key, value));
            },
        }
        assert forall|a: int, b: int| 0 <= a < b < entries@.len() implies (#[trigger] entries@[a]).0@
            != (#[trigger] entries@[b]).0@ by {
            if a < stored.len() && b < stored.len() {
                assert(names[a] != names[b]);
            }
        }
        self.entries = entries;
        assert(self@ =~= assign(before, key@, value.deep_view()));
    }

    /// Appends `value` under `key`, which must not be present yet.
    pub(crate) fn append(&mut self, key: String, value: V)
        requires
            lookup(old(self)@, key@) is None,
        ensures
            final(self)@ == old(self)@.push((key@, value.deep_view())),
    {
        proof {
            use_type_invariant(&*self);
            lemma_index_of(self@, key@);
        }
        let ghost before = self@;
        let ghost stored = self.entries@;
        let ghost names = self.keys();
        let mut entries: Vec<(String, V)> = Vec::new();
        std::mem::swap(&mut entries, &mut self.entries);
        assert forall|j: int| 0 <= j < stored.len() implies (#[trigger] stored[j]).0@ != key@ by {
            assert(before[j].0 != key@);
        }
        entries.push((key, value));
        assert forall|a: int, b: int| 0 <= a < b < entries@.len() implies (#[trigger] entries@[a]).0@
            != (#[trigger] entries@[b]).0@ by {
            if b < stored.len() {
                assert(names[a] != names[b]);
            }
        }
        self.entries = entries;
        assert(self@ =~= before.push((key@, value.deep_view())));
    }
}

impl Clone for Dict<Value> {
    /// A deep copy: same keys, same order, each value copied in depth.
    fn clone(&self) -> (copy: Self)
        ensures
            copy@ == self@,
    {
        proof {
            use_type_invariant(self);
        }
        let mut entries: Vec<(String, Value)> = Vec::new();
        let mut i: usize = 0;
        while i < self.entries.len()
            invariant
                i <= self.entries.len(),
                entries.len() == i,
                forall|j: int|
                    0 <= j < i ==> (#[trigger] entries[j]).0@ == self.entries[j].0@ && entries[j].1@
                        == self.entries[j].1@,
            decreases self.entries.len() - i,
        {
            entries.push((self.entries[i].0.clone(), self.entries[i].1.clone()));
            i += 1;
        }
        assert forall|a: int, b: int| 0 <= a < b < entries@.len() implies (#[trigger] entries@[a]).0@
            != (#[trigger] entries@[b]).0@ by {
            assert(self.keys()[a] != self.keys()[b]);
        }
        let copy = Dict { entries };
        assert(copy@ =~= self@);
        copy
    }
}

impl Clone for Dict<i128> {
    /// A copy with the same keys and numbers in the same order.
    fn clone(&self) -> (copy: Self)
        ensures
            copy@ == self@,
    {
        proof {
            use_type_invariant(self);
        }
        let mut entries: Vec<(String, i128)> = Vec::new();
        let mut i: usize = 0;
        while i < self.entries.len()
            invariant
                i <= self.entries.len(),
                entries.len() == i,
                forall|j: int|
                    0 <= j < i ==> (#[trigger] entries[j]).0@ == self.entries[j].0@ && entries[j].1
                        == self.entries[j].1,
            decreases self.entries.len() - i,
        {
            entries.push((self.entries[i].0.clone(), self.entries[i].1));
            i += 1;
        }
        assert forall|a: int, b: int| 0 <= a < b < entries@.len() implies (#[trigger] entries@[a]).0@
            != (#[trigger] entries@[b]).0@ by {
            assert(self.keys()[a] != self.keys()[b]);
        }
        let copy = Dict { entries };
        assert(copy@ =~= self@);
        copy
    }
}

} // verus!
