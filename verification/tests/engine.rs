use rad_cad::dict::Dict;
use rad_cad::error::EngineError;
use rad_cad::model::{Entry, Model, PolicyFunction, Psub, Simulation, StateUpdateFunction, Sweep};
use rad_cad::scheduler::{run, run_simulation};
use rad_cad::state::{ParameterSet, Signals, State};
use rad_cad::substep::{apply_updates, gather_signals, run_substep, settle};
use rad_cad::trajectory::{run_chain, single_run};
use rad_cad::value::Value;

type PolicyBody = fn(&ParameterSet, usize, &Vec<State>, &State) -> Signals;

type UpdateBody = fn(&ParameterSet, usize, &Vec<State>, &State, &Signals) -> (String, Value);

struct Policy(PolicyBody);

impl PolicyFunction for Policy {
    fn evaluate(
        &self,
        params: &ParameterSet,
        substep: usize,
        history: &Vec<State>,
        substate: State,
    ) -> Signals {
        (self.0)(params, substep, history, &substate)
    }
}

struct Update(UpdateBody);

impl StateUpdateFunction for Update {
    fn apply(
        &self,
        params: &ParameterSet,
        substep: usize,
        history: &Vec<State>,
        substate: State,
        signals: Signals,
    ) -> (String, Value) {
        (self.0)(params, substep, history, &substate, &signals)
    }
}

fn num(n: i128) -> Value {
    Value::Number(n)
}

fn state_of(pairs: Vec<(&str, Value)>) -> State {
    let mut state = State::new();
    for (key, value) in pairs {
        state.set(key.to_string(), value);
    }
    state
}

fn signals_of(pairs: Vec<(&str, i128)>) -> Signals {
    let mut signals = Signals::new();
    for (key, amount) in pairs {
        signals.set(key.to_string(), amount);
    }
    signals
}

fn sweep_of(pairs: Vec<(&str, Vec<Value>)>) -> Sweep {
    let mut sweep = Sweep::new();
    for (key, values) in pairs {
        sweep.set(key.to_string(), values);
    }
    sweep
}

fn policies_of(pairs: Vec<(&str, Entry<Policy>)>) -> Dict<Entry<Policy>> {
    let mut policies = Dict::new();
    for (name, entry) in pairs {
        policies.set(name.to_string(), entry);
    }
    policies
}

fn variables_of(pairs: Vec<(&str, Entry<Update>)>) -> Dict<Entry<Update>> {
    let mut variables = Dict::new();
    for (key, entry) in pairs {
        variables.set(key.to_string(), entry);
    }
    variables
}

fn number_at(state: &State, key: &str) -> i128 {
    match state.get(key) {
        Some(Value::Number(n)) => *n,
        other => panic!("no number under {}: {:?}", key, other),
    }
}

fn one_and_five(_: &ParameterSet, _: usize, _: &Vec<State>, _: &State) -> Signals {
    signals_of(vec![("x", 2), ("y", 5)])
}

fn one(_: &ParameterSet, _: usize, _: &Vec<State>, _: &State) -> Signals {
    signals_of(vec![("x", 1)])
}

fn seven(_: &ParameterSet, _: usize, _: &Vec<State>, _: &State) -> Signals {
    signals_of(vec![("x", 7)])
}

fn huge(_: &ParameterSet, _: usize, _: &Vec<State>, _: &State) -> Signals {
    signals_of(vec![("x", i128::MAX)])
}

fn count_plus_x(
    _: &ParameterSet,
    _: usize,
    _: &Vec<State>,
    substate: &State,
    signals: &Signals,
) -> (String, Value) {
    let x = signals.get("x").copied().unwrap_or(0);
    ("count".to_string(), num(number_at(substate, "count") + x))
}

fn double_of_count(
    _: &ParameterSet,
    _: usize,
    _: &Vec<State>,
    substate: &State,
    _: &Signals,
) -> (String, Value) {
    ("double".to_string(), num(2 * number_at(substate, "count")))
}

fn seen_history(
    _: &ParameterSet,
    _: usize,
    history: &Vec<State>,
    _: &State,
    _: &Signals,
) -> (String, Value) {
    ("seen".to_string(), num(history.len() as i128))
}

fn seen_index(
    _: &ParameterSet,
    substep: usize,
    _: &Vec<State>,
    _: &State,
    _: &Signals,
) -> (String, Value) {
    ("index".to_string(), num(substep as i128))
}

fn param_a(
    params: &ParameterSet,
    _: usize,
    _: &Vec<State>,
    _: &State,
    _: &Signals,
) -> (String, Value) {
    ("a".to_string(), params.get("a").cloned().unwrap_or(num(-1)))
}

fn bar(_: &ParameterSet, _: usize, _: &Vec<State>, _: &State, _: &Signals) -> (String, Value) {
    ("bar".to_string(), num(1))
}

fn stubborn_timestep(
    _: &ParameterSet,
    _: usize,
    _: &Vec<State>,
    _: &State,
    _: &Signals,
) -> (String, Value) {
    ("timestep".to_string(), num(99))
}

fn counting_psub() -> Psub<Policy, Update> {
    Psub::new(
        policies_of(vec![("p", Entry::Callable(Policy(one)))]),
        variables_of(vec![("count", Entry::Callable(Update(count_plus_x)))]),
    )
}

fn counting_model(psubs: usize, params: Sweep) -> Model<Policy, Update> {
    let mut blocks = Vec::new();
    for _ in 0..psubs {
        blocks.push(counting_psub());
    }
    Model::new(state_of(vec![("count", num(0))]), blocks, params)
}

#[test]
fn trajectory_has_one_entry_per_substep_and_the_seed() {
    for (timesteps, psubs) in [(0usize, 0usize), (0, 3), (4, 0), (1, 1), (3, 2), (5, 4)] {
        let model = counting_model(psubs, Sweep::new());
        let trajectory = single_run(
            0,
            timesteps,
            0,
            0,
            model.initial_state(),
            model.psubs(),
            &ParameterSet::new(),
        )
        .unwrap();
        assert_eq!(trajectory.len(), 1 + timesteps * psubs);
    }
}

#[test]
fn reserved_keys_are_assigned_by_the_engine() {
    let initial = state_of(vec![
        ("timestep", num(40)),
        ("count", num(0)),
        ("run", Value::Text("mine".to_string())),
        ("substep", num(41)),
        ("simulation", num(42)),
        ("subset", num(43)),
    ]);
    let psubs = vec![counting_psub(), counting_psub()];
    let trajectory = single_run(7, 3, 4, 2, &initial, &psubs, &ParameterSet::new()).unwrap();
    assert_eq!(trajectory.len(), 7);
    assert_eq!(number_at(&trajectory[0], "timestep"), 0);
    assert_eq!(number_at(&trajectory[0], "substep"), 0);
    for (position, entry) in trajectory.iter().enumerate() {
        assert_eq!(number_at(entry, "simulation"), 7);
        assert_eq!(number_at(entry, "subset"), 2);
        assert_eq!(number_at(entry, "run"), 5);
        if position > 0 {
            assert_eq!(number_at(entry, "timestep"), ((position - 1) / 2 + 1) as i128);
            assert_eq!(number_at(entry, "substep"), ((position - 1) % 2 + 1) as i128);
            assert_eq!(number_at(entry, "count"), position as i128);
        }
    }
    assert_eq!(initial.get("timestep"), Some(&num(40)));
    assert_eq!(trajectory[0].key_at(0), "timestep");
    assert_eq!(trajectory[0].len(), 6);
}

#[test]
fn seed_appends_missing_reserved_keys_in_order() {
    let seeded = rad_cad::state::seed(&state_of(vec![("count", num(3))]), 1, 2, 3);
    let expected = state_of(vec![
        ("count", num(3)),
        ("simulation", num(1)),
        ("subset", num(2)),
        ("run", num(4)),
        ("substep", num(0)),
        ("timestep", num(0)),
    ]);
    assert_eq!(seeded, expected);
    let stamped = rad_cad::state::stamp_timestep(&seeded, 9);
    assert_eq!(number_at(&stamped, "timestep"), 9);
    assert_eq!(number_at(&seeded, "timestep"), 0);
    let stamped = rad_cad::state::stamp_substep(&stamped, 5);
    assert_eq!(number_at(&stamped, "substep"), 5);
    assert_eq!(number_at(&stamped, "timestep"), 9);
}

#[test]
fn policies_reduce_by_union_with_addition() {
    let policies = policies_of(vec![
        ("first", Entry::Callable(Policy(one))),
        ("second", Entry::Callable(Policy(one_and_five))),
    ]);
    let signals =
        gather_signals(&policies, &ParameterSet::new(), 0, &Vec::new(), &State::new()).unwrap();
    assert_eq!(signals, signals_of(vec![("x", 3), ("y", 5)]));
}

#[test]
fn a_single_policy_reduces_unchanged() {
    let policies = policies_of(vec![("only", Entry::Callable(Policy(seven)))]);
    let signals =
        gather_signals(&policies, &ParameterSet::new(), 0, &Vec::new(), &State::new()).unwrap();
    assert_eq!(signals, signals_of(vec![("x", 7)]));
}

#[test]
fn no_policy_reduces_to_nothing() {
    let policies = policies_of(vec![]);
    let signals =
        gather_signals(&policies, &ParameterSet::new(), 0, &Vec::new(), &State::new()).unwrap();
    assert_eq!(signals, Signals::new());
    assert_eq!(signals.len(), 0);
}

#[test]
fn a_sum_out_of_range_is_reported() {
    let policies = policies_of(vec![
        ("first", Entry::Callable(Policy(huge))),
        ("second", Entry::Callable(Policy(one))),
    ]);
    let result = gather_signals(&policies, &ParameterSet::new(), 0, &Vec::new(), &State::new());
    assert_eq!(result, Err(EngineError::Overflow));
}

#[test]
fn a_policy_that_cannot_be_invoked_is_reported() {
    let policies = policies_of(vec![
        ("first", Entry::Callable(Policy(huge))),
        ("second", Entry::NotCallable),
        ("third", Entry::Callable(Policy(one))),
    ]);
    let result = gather_signals(&policies, &ParameterSet::new(), 0, &Vec::new(), &State::new());
    assert_eq!(result, Err(EngineError::NotCallable));
}

#[test]
fn an_update_for_another_key_is_refused() {
    let psub = Psub::new(
        policies_of(vec![]),
        variables_of(vec![("foo", Entry::Callable(Update(bar)))]),
    );
    let initial = state_of(vec![("foo", num(0))]);
    let result = single_run(0, 2, 0, 0, &initial, &vec![psub], &ParameterSet::new());
    assert_eq!(result, Err(EngineError::KeyMismatch));
}

#[test]
fn a_failing_unit_ends_the_call() {
    let good = Simulation::new(1, 1, counting_model(1, Sweep::new()));
    let bad = Simulation::new(
        1,
        1,
        Model::new(
            state_of(vec![("foo", num(0))]),
            vec![Psub::new(
                policies_of(vec![]),
                variables_of(vec![("foo", Entry::Callable(Update(bar)))]),
            )],
            Sweep::new(),
        ),
    );
    assert_eq!(run_simulation(&good, 0).map(|states| states.len()), Ok(2));
    assert_eq!(run_simulation(&bad, 1), Err(EngineError::KeyMismatch));
    assert_eq!(run(&vec![good, bad]), Err(EngineError::KeyMismatch));
}

#[test]
fn an_update_that_cannot_be_invoked_is_reported() {
    let variables = variables_of(vec![
        ("count", Entry::Callable(Update(count_plus_x))),
        ("other", Entry::NotCallable),
    ]);
    let result = apply_updates(
        &variables,
        &ParameterSet::new(),
        0,
        &Vec::new(),
        &Signals::new(),
        state_of(vec![("count", num(1))]),
    );
    assert_eq!(result, Err(EngineError::NotCallable));
}

#[test]
fn settle_stores_under_the_declared_key_only() {
    let base = state_of(vec![("a", num(1)), ("b", num(2))]);
    let stored = settle(&"b".to_string(), base.clone(), ("b".to_string(), num(5)));
    assert_eq!(stored, Ok(state_of(vec![("a", num(1)), ("b", num(5))])));
    let fresh = settle(&"c".to_string(), base.clone(), ("c".to_string(), num(5)));
    assert_eq!(fresh, Ok(state_of(vec![("a", num(1)), ("b", num(2)), ("c", num(5))])));
    let refused = settle(&"b".to_string(), base, ("a".to_string(), num(5)));
    assert_eq!(refused, Err(EngineError::KeyMismatch));
}

#[test]
fn later_updates_see_earlier_ones() {
    let psub = Psub::new(
        policies_of(vec![("p", Entry::Callable(Policy(seven)))]),
        variables_of(vec![
            ("count", Entry::Callable(Update(count_plus_x))),
            ("double", Entry::Callable(Update(double_of_count))),
        ]),
    );
    let start = state_of(vec![("count", num(1)), ("substep", num(0))]);
    let snapshot = run_substep(&psub, &ParameterSet::new(), 2, &Vec::new(), &start).unwrap();
    assert_eq!(
        snapshot,
        state_of(vec![("count", num(8)), ("substep", num(3)), ("double", num(16))])
    );
    assert_eq!(number_at(&start, "count"), 1);
}

#[test]
fn blocks_see_the_trajectory_before_their_timestep() {
    let psub = || {
        Psub::new(
            policies_of(vec![]),
            variables_of(vec![
                ("seen", Entry::Callable(Update(seen_history))),
                ("index", Entry::Callable(Update(seen_index))),
            ]),
        )
    };
    let psubs = vec![psub(), psub(), psub()];
    let trajectory =
        single_run(0, 2, 0, 0, &State::new(), &psubs, &ParameterSet::new()).unwrap();
    let seen: Vec<i128> = trajectory[1..].iter().map(|s| number_at(s, "seen")).collect();
    assert_eq!(seen, vec![1, 1, 1, 4, 4, 4]);
    let index: Vec<i128> = trajectory[1..].iter().map(|s| number_at(s, "index")).collect();
    assert_eq!(index, vec![0, 1, 2, 0, 1, 2]);
    let substep: Vec<i128> = trajectory.iter().map(|s| number_at(s, "substep")).collect();
    assert_eq!(substep, vec![0, 1, 2, 3, 1, 2, 3]);
}

#[test]
fn a_chain_starts_each_block_from_the_one_before() {
    let psubs = vec![counting_psub(), counting_psub(), counting_psub()];
    let start = state_of(vec![("count", num(10))]);
    let snapshots = run_chain(&psubs, &ParameterSet::new(), &Vec::new(), &start).unwrap();
    let counts: Vec<i128> = snapshots.iter().map(|s| number_at(s, "count")).collect();
    assert_eq!(counts, vec![11, 12, 13]);
    let none = Vec::<Psub<Policy, Update>>::new();
    assert_eq!(run_chain(&none, &ParameterSet::new(), &Vec::new(), &start), Ok(vec![]));
}

#[test]
fn a_variable_may_overwrite_a_reserved_key() {
    let psub = Psub::new(
        policies_of(vec![]),
        variables_of(vec![("timestep", Entry::Callable(Update(stubborn_timestep)))]),
    );
    let trajectory =
        single_run(0, 2, 0, 0, &State::new(), &vec![psub], &ParameterSet::new()).unwrap();
    let timesteps: Vec<i128> = trajectory.iter().map(|s| number_at(s, "timestep")).collect();
    assert_eq!(timesteps, vec![0, 99, 99]);
}

fn swept_simulation(runs: usize) -> Simulation<Policy, Update> {
    let psub = Psub::new(
        policies_of(vec![]),
        variables_of(vec![("a", Entry::Callable(Update(param_a)))]),
    );
    let params = sweep_of(vec![("a", vec![num(10), num(20)]), ("b", vec![num(1)])]);
    Simulation::new(1, runs, Model::new(state_of(vec![("a", num(0))]), vec![psub], params))
}

#[test]
fn units_come_run_by_run_and_subset_by_subset() {
    let states = run(&vec![swept_simulation(2)]).unwrap();
    let blocks: Vec<(i128, i128, i128, i128)> = states
        .iter()
        .map(|s| {
            (
                number_at(s, "run"),
                number_at(s, "subset"),
                number_at(s, "timestep"),
                number_at(s, "a"),
            )
        })
        .collect();
    assert_eq!(
        blocks,
        vec![
            (1, 0, 0, 0),
            (1, 0, 1, 10),
            (1, 1, 0, 0),
            (1, 1, 1, 20),
            (2, 0, 0, 0),
            (2, 0, 1, 10),
            (2, 1, 0, 0),
            (2, 1, 1, 20),
        ]
    );
}

#[test]
fn simulations_come_in_the_order_given() {
    let states = run(&vec![swept_simulation(1), swept_simulation(2)]).unwrap();
    let simulation: Vec<i128> = states.iter().map(|s| number_at(s, "simulation")).collect();
    assert_eq!(simulation, vec![0, 0, 0, 0, 1, 1, 1, 1, 1, 1, 1, 1]);
    assert_eq!(run(&Vec::<Simulation<Policy, Update>>::new()), Ok(vec![]));
    assert_eq!(run(&vec![swept_simulation(0)]), Ok(vec![]));
}

#[test]
fn without_a_sweep_each_run_is_one_unit_with_the_raw_parameters() {
    let psub = || {
        Psub::new(
            policies_of(vec![]),
            variables_of(vec![("a", Entry::Callable(Update(param_a)))]),
        )
    };
    for params in [sweep_of(vec![]), sweep_of(vec![("a", vec![]), ("b", vec![])])] {
        let named = params.len() > 0;
        let simulation =
            Simulation::new(1, 3, Model::new(state_of(vec![("a", num(0))]), vec![psub()], params));
        let states = run(&vec![simulation]).unwrap();
        let units: Vec<(i128, i128, i128)> = states
            .iter()
            .map(|s| (number_at(s, "run"), number_at(s, "subset"), number_at(s, "timestep")))
            .collect();
        assert_eq!(units, vec![(1, 0, 0), (1, 0, 1), (2, 0, 0), (2, 0, 1), (3, 0, 0), (3, 0, 1)]);
        for state in states.iter().filter(|s| number_at(s, "timestep") == 1) {
            let expected = if named { Value::Sequence(vec![]) } else { num(-1) };
            assert_eq!(state.get("a"), Some(&expected));
        }
    }
}

#[test]
fn identical_inputs_give_identical_output() {
    let first = run(&vec![swept_simulation(2), swept_simulation(1)]);
    let second = run(&vec![swept_simulation(2), swept_simulation(1)]);
    assert!(first.is_ok());
    assert_eq!(first, second);
}

#[test]
fn a_malformed_sweep_fails_the_simulation() {
    let params = sweep_of(vec![("a", vec![num(1), num(2)]), ("b", vec![])]);
    let simulation = Simulation::new(1, 1, Model::new(State::new(), Vec::new(), params));
    let result: Result<Vec<State>, EngineError> =
        run::<Policy, Update>(&vec![simulation]);
    assert_eq!(result, Err(EngineError::MalformedSweep));
}

#[test]
fn accessors_return_what_was_given() {
    let simulation = swept_simulation(5);
    assert_eq!(simulation.timesteps(), 1);
    assert_eq!(simulation.runs(), 5);
    assert_eq!(simulation.model().psubs().len(), 1);
    assert_eq!(simulation.model().initial_state(), &state_of(vec![("a", num(0))]));
    assert_eq!(simulation.model().params().len(), 2);
    assert_eq!(simulation.model().psubs()[0].variables.key_at(0), "a");
}

#[test]
fn validation_finds_entries_that_cannot_be_invoked() {
    let sound = counting_psub();
    assert_eq!(sound.validate(), Ok(()));
    let inert_policy = Psub::<Policy, Update>::new(
        policies_of(vec![("p", Entry::Callable(Policy(one))), ("q", Entry::NotCallable)]),
        variables_of(vec![]),
    );
    assert_eq!(inert_policy.validate(), Err(EngineError::NotCallable));
    let inert_variable = Psub::<Policy, Update>::new(
        policies_of(vec![]),
        variables_of(vec![("v", Entry::NotCallable)]),
    );
    assert_eq!(inert_variable.validate(), Err(EngineError::NotCallable));
    let model = Model::new(State::new(), vec![counting_psub(), inert_variable], Sweep::new());
    assert_eq!(model.validate(), Err(EngineError::NotCallable));
    assert_eq!(counting_model(3, Sweep::new()).validate(), Ok(()));
    assert_eq!(counting_model(0, Sweep::new()).validate(), Ok(()));
}

#[test]
fn the_entry_points_stand_at_the_root() {
    let simulation = rad_cad::Simulation::new(0, 2, counting_model(2, rad_cad::Sweep::new()));
    let states = rad_cad::run(&vec![simulation]).unwrap();
    assert_eq!(states.len(), 2);
    assert_eq!(number_at(&states[0], "run"), 1);
    assert_eq!(number_at(&states[1], "run"), 2);
    assert_eq!(number_at(&states[1], "timestep"), 0);
    let answers = vec![signals_of(vec![("x", 1)]), signals_of(vec![("z", 1)])];
    assert_eq!(rad_cad::reduce_signals(answers), Ok(signals_of(vec![("x", 1), ("z", 1)])));
    let none = Vec::<Psub<Policy, Update>>::new();
    let lone = rad_cad::single_run(0, 9, 0, 0, &State::new(), &none, &ParameterSet::new());
    assert_eq!(lone.map(|trajectory| trajectory.len()), Ok(1));
}
