use rad_cad::dict::Dict;
use rad_cad::error::EngineError;
use rad_cad::signals::{add_signal, reduce_signals};
use rad_cad::state::{Signals, State};
use rad_cad::value::Value;

fn signals(pairs: Vec<(&str, i128)>) -> Signals {
    let mut signals = Signals::new();
    for (key, amount) in pairs {
        signals.set(key.to_string(), amount);
    }
    signals
}

#[test]
fn a_new_dictionary_is_empty() {
    let dict: Dict<i128> = Dict::new();
    assert_eq!(dict.len(), 0);
    assert_eq!(dict.get("a"), None);
    assert_eq!(dict.position("a"), None);
}

#[test]
fn set_replaces_in_place_and_appends_new_keys() {
    let mut dict: Dict<i128> = Dict::new();
    dict.set("a".to_string(), 1);
    dict.set("b".to_string(), 2);
    dict.set("a".to_string(), 3);
    assert_eq!(dict.len(), 2);
    assert_eq!(dict.key_at(0), "a");
    assert_eq!(*dict.value_at(0), 3);
    assert_eq!(dict.key_at(1), "b");
    assert_eq!(*dict.value_at(1), 2);
    assert_eq!(dict.get("a"), Some(&3));
    assert_eq!(dict.get("b"), Some(&2));
    assert_eq!(dict.get("c"), None);
    assert_eq!(dict.position("b"), Some(1));
}

#[test]
fn a_copy_of_a_state_is_independent() {
    let mut state = State::new();
    state.set("n".to_string(), Value::Number(1));
    state.set(
        "nested".to_string(),
        Value::Mapping(vec![
            ("inner".to_string(), Value::Sequence(vec![Value::Text("t".to_string())])),
        ]),
    );
    let copy = state.clone();
    assert_eq!(copy, state);
    state.set("n".to_string(), Value::Number(2));
    assert_eq!(copy.get("n"), Some(&Value::Number(1)));
    assert_eq!(state.get("n"), Some(&Value::Number(2)));
    let numbers = signals(vec![("x", 1), ("y", 2)]);
    assert_eq!(numbers.clone(), numbers);
}

#[test]
fn reduce_adds_under_shared_names() {
    let result = reduce_signals(vec![signals(vec![("x", 1)]), signals(vec![("x", 2), ("y", 5)])]);
    assert_eq!(result, Ok(signals(vec![("x", 3), ("y", 5)])));
}

#[test]
fn reduce_keeps_a_single_answer() {
    assert_eq!(reduce_signals(vec![signals(vec![("x", 7)])]), Ok(signals(vec![("x", 7)])));
}

#[test]
fn reduce_of_nothing_is_empty() {
    assert_eq!(reduce_signals(vec![]), Ok(Signals::new()));
}

#[test]
fn reduce_keeps_the_order_of_first_appearance() {
    let result = reduce_signals(vec![
        signals(vec![("b", 1), ("a", -4)]),
        signals(vec![("c", 2), ("a", 1)]),
        signals(vec![("a", 1), ("b", 1)]),
    ])
    .unwrap();
    assert_eq!(result, signals(vec![("b", 2), ("a", -2), ("c", 2)]));
}

#[test]
fn reduce_reports_a_sum_out_of_range() {
    let above = reduce_signals(vec![signals(vec![("x", i128::MAX)]), signals(vec![("x", 1)])]);
    assert_eq!(above, Err(EngineError::Overflow));
    let below = reduce_signals(vec![signals(vec![("x", i128::MIN)]), signals(vec![("x", -1)])]);
    assert_eq!(below, Err(EngineError::Overflow));
    let back = reduce_signals(vec![
        signals(vec![("x", i128::MAX)]),
        signals(vec![("x", 1)]),
        signals(vec![("x", -1)]),
    ]);
    assert_eq!(back, Err(EngineError::Overflow));
    let fits = reduce_signals(vec![signals(vec![("x", i128::MAX)]), signals(vec![("x", -1)])]);
    assert_eq!(fits, Ok(signals(vec![("x", i128::MAX - 1)])));
}

#[test]
fn add_signal_leaves_the_tally_alone_when_it_fails() {
    let mut tally = signals(vec![("x", i128::MAX)]);
    assert!(!add_signal(&mut tally, "x".to_string(), 1));
    assert_eq!(tally, signals(vec![("x", i128::MAX)]));
    assert!(add_signal(&mut tally, "y".to_string(), 1));
    assert!(add_signal(&mut tally, "y".to_string(), 1));
    assert_eq!(tally, signals(vec![("x", i128::MAX), ("y", 2)]));
}

#[test]
fn each_error_has_its_message() {
    assert_eq!(EngineError::NotCallable.message(), "entry is not callable");
    assert_eq!(
        EngineError::KeyMismatch.message(),
        "block state key doesn't match function state key"
    );
    assert_eq!(
        EngineError::MalformedSweep.message(),
        "parameter sequences cannot be swept together"
    );
    assert_eq!(EngineError::Overflow.message(), "signal sum out of range");
}
