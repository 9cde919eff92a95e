use rad_cad::error::EngineError;
use rad_cad::model::Sweep;
use rad_cad::state::ParameterSet;
use rad_cad::sweep::{expand_sweep, raw_parameters};
use rad_cad::value::Value;

fn num(n: i128) -> Value {
    Value::Number(n)
}

fn sweep(pairs: Vec<(&str, Vec<Value>)>) -> Sweep {
    let mut sweep = Sweep::new();
    for (key, values) in pairs {
        sweep.set(key.to_string(), values);
    }
    sweep
}

fn set(pairs: Vec<(&str, Value)>) -> ParameterSet {
    let mut set = ParameterSet::new();
    for (key, value) in pairs {
        set.set(key.to_string(), value);
    }
    set
}

#[test]
fn shorter_sequences_hold_their_last_value() {
    let params = sweep(vec![("a", vec![num(1), num(2), num(3)]), ("b", vec![num(10)])]);
    let expansion = expand_sweep(&params).unwrap();
    assert_eq!(
        expansion,
        vec![
            set(vec![("a", num(1)), ("b", num(10))]),
            set(vec![("a", num(2)), ("b", num(10))]),
            set(vec![("a", num(3)), ("b", num(10))]),
        ]
    );
}

#[test]
fn a_sequence_of_two_is_held_from_its_second_value() {
    let params = sweep(vec![
        ("short", vec![num(7), num(8)]),
        ("long", vec![num(1), num(2), num(3), num(4)]),
        ("text", vec![Value::Text("t".to_string())]),
    ]);
    let expansion = expand_sweep(&params).unwrap();
    let short: Vec<Value> = expansion.iter().map(|s| s.get("short").unwrap().clone()).collect();
    assert_eq!(short, vec![num(7), num(8), num(8), num(8)]);
    let long: Vec<Value> = expansion.iter().map(|s| s.get("long").unwrap().clone()).collect();
    assert_eq!(long, vec![num(1), num(2), num(3), num(4)]);
    assert_eq!(expansion[3].key_at(0), "short");
    assert_eq!(expansion[3].key_at(2), "text");
}

#[test]
fn nothing_to_sweep_gives_no_parameter_set() {
    assert_eq!(expand_sweep(&sweep(vec![])), Ok(vec![]));
    assert_eq!(expand_sweep(&sweep(vec![("a", vec![]), ("b", vec![])])), Ok(vec![]));
}

#[test]
fn an_empty_sequence_beside_values_cannot_be_swept() {
    let params = sweep(vec![("a", vec![]), ("b", vec![num(1)])]);
    assert_eq!(expand_sweep(&params), Err(EngineError::MalformedSweep));
    let params = sweep(vec![("b", vec![num(1)]), ("a", vec![])]);
    assert_eq!(expand_sweep(&params), Err(EngineError::MalformedSweep));
}

#[test]
fn raw_parameters_keep_whole_sequences() {
    let params = sweep(vec![("a", vec![num(1), num(2)]), ("b", vec![])]);
    assert_eq!(
        raw_parameters(&params),
        set(vec![("a", Value::Sequence(vec![num(1), num(2)])), ("b", Value::Sequence(vec![]))])
    );
}
