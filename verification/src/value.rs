//! The dynamically typed values that states and parameters hold.

use vstd::prelude::*;

verus! {

/// A dynamically typed value held in a state, a parameter set or a sweep.
///
/// The engine stores and copies values; it never looks into one.
#[derive(Debug, PartialEq, Eq)]
pub enum Value {
    /// An integer.
    Number(i128),
    /// A piece of text.
    Text(String),
    /// An ordered sequence of values.
    Sequence(Vec<Value>),
    /// A nested mapping, as its named members in order.
    Mapping(Vec<(String, Value)>),
}

/// The mathematical content of a [`Value`].
pub enum Datum {
    /// An integer.
    Number(int),
    /// A piece of text.
    Text(Seq<char>),
    /// An ordered sequence.
    Sequence(Seq<Datum>),
    /// A nested mapping, as its named members in order.
    Mapping(Seq<(Seq<char>, Datum)>),
}

impl View for Value {
    type V = Datum;

    open spec fn view(&self) -> Datum
        decreases self,
    {
        match self {
            Value::Number(n) => Datum::Number(*n as int),
            Value::Text(t) => Datum::Text(t@),
            Value::Sequence(items) => Datum::Sequence(
                Seq::new(
                    items@.len(),
                    |i: int|
                        if 0 <= i < items@.len() {
                            items@[i].view()
                        } else {
                            Datum::Number(0)
                        },
                ),
            ),
            Value::Mapping(members) => Datum::Mapping(
                Seq::new(
                    members@.len(),
                    |i: int|
                        if 0 <= i < members@.len() {
                            (members@[i].0@, members@[i].1.view())
                        } else {
                            (Seq::empty(), Datum::Number(0))
                        },
                ),
            ),
        }
    }
}

impl DeepView for Value {
    type V = Datum;

    open spec fn deep_view(&self) -> Datum {
        self.view()
    }
}

impl Clone for Value {
    /// A deep copy: the result has the same content and shares nothing with
    /// `self`.
    #[verifier::loop_isolation(false)]
    fn clone(&self) -> (copy: Value)
        ensures
            copy@ == self@,
        decreases self,
    {
        match self {
            Value::Number(n) => Value::Number(*n),
            Value::Text(t) => Value::Text(t.clone()),
            Value::Sequence(items) => {
                let mut copies: Vec<Value> = Vec::new();
                let mut i: usize = 0;
                while i < items.len()
                    invariant
                        i <= items.len(),
                        copies.len() == i,
                        forall|j: int| 0 <= j < i ==> copies[j]@ == items[j]@,
                    decreases items.len() - i,
                {
                    copies.push(items[i].clone());
                    i += 1;
                }
                let copy = Value::Sequence(copies);
                assert(copy@->Sequence_0 =~= self@->Sequence_0);
                copy
            },
            Value::Mapping(members) => {
                let mut copies: Vec<(String, Value)> = Vec::new();
                let mut i: usize = 0;
                while i < members.len()
                    invariant
                        i <= members.len(),
                        copies.len() == i,
                        forall|j: int|
                            0 <= j < i ==> copies[j].0@ == members[j].0@ && copies[j].1@
                                == members[j].1@,
                    decreases members.len() - i,
                {
                    copies.push((members[i].0.clone(), members[i].1.clone()));
                    i += 1;
                }
                let copy = Value::Mapping(copies);
                assert(copy@->Mapping_0 =~= self@->Mapping_0);
                copy
            },
        }
    }
}

} // verus!
