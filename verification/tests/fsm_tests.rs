use fsm::fsm::{validate_parsed_fsm, FSMError, State};
use fsm::fsm_parser::{ParsedFSM, ParsedState, ParsedTransition};

const SAMPLE: &str = "states:\n\tA\n\tB\n\tfinal: C\n\ntransitions:\n\t0: A -> B\n\t0: B -> C\n\t0: C -> A\n\t1: B -> A\n\t1: C -> B\n\t1: A -> C\n\nstart: A";

fn sample_fsm() -> fsm::fsm::FSM {
    let parsed = ParsedFSM::parse(SAMPLE).expect("sample must parse");
    validate_parsed_fsm(parsed).expect("sample must validate")
}

#[test]
fn sample_run_0011_rejects() {
    let machine = sample_fsm();
    assert_eq!(machine.run(String::from("0011")).unwrap(), false);
}

#[test]
fn sample_run_000_rejects() {
    let machine = sample_fsm();
    assert_eq!(machine.run(String::from("000")).unwrap(), false);
}

#[test]
fn sample_run_00_accepts() {
    let machine = sample_fsm();
    assert_eq!(machine.run(String::from("00")).unwrap(), true);
}

#[test]
fn sample_run_empty_input_rejects() {
    // the start state A is plain, so the empty input is rejected
    let machine = sample_fsm();
    assert_eq!(machine.run(String::new()).unwrap(), false);
}

#[test]
fn run_twice_same_result() {
    let machine = sample_fsm();
    let first = machine.run(String::from("0011")).unwrap();
    let second = machine.run(String::from("0011")).unwrap();
    assert_eq!(first, second);
    let third = machine.run(String::from("00")).unwrap();
    let fourth = machine.run(String::from("00")).unwrap();
    assert_eq!(third, fourth);
}

#[test]
fn run_decides_acceptance_only_at_end_of_input() {
    // "001" passes through the accepting state C after "00" but ends in B
    let machine = sample_fsm();
    assert_eq!(machine.run(String::from("001")).unwrap(), false);
}

#[test]
fn run_rejects_char_outside_alphabet() {
    let machine = sample_fsm();
    match machine.run(String::from("012")) {
        Err(FSMError::CharNotInInputAlphabet(c)) => assert_eq!(c, '2'),
        _ => panic!("expected CharNotInInputAlphabet"),
    }
}

#[test]
fn run_rejects_state_name_char_not_in_alphabet() {
    // 'A' names a state but never appears as a transition symbol, so it is
    // not in the alphabet
    let machine = sample_fsm();
    match machine.run(String::from("A")) {
        Err(FSMError::CharNotInInputAlphabet(c)) => assert_eq!(c, 'A'),
        _ => panic!("expected CharNotInInputAlphabet"),
    }
}

#[test]
fn run_stops_at_first_foreign_char() {
    let machine = sample_fsm();
    match machine.run(String::from("0x1y")) {
        Err(FSMError::CharNotInInputAlphabet(c)) => assert_eq!(c, 'x'),
        _ => panic!("expected CharNotInInputAlphabet"),
    }
}

#[test]
fn validate_rejects_unknown_start() {
    let parsed = ParsedFSM {
        start_state: String::from("Q"),
        states: vec![ParsedState::State(String::from("A"))],
        transitions: vec![ParsedTransition {
            input: '0',
            start_state: String::from("A"),
            end_state: String::from("A"),
        }],
    };
    assert!(matches!(validate_parsed_fsm(parsed), Err(FSMError::NoStartState)));
}

#[test]
fn validate_rejects_unknown_target() {
    let parsed = ParsedFSM {
        start_state: String::from("A"),
        states: vec![ParsedState::State(String::from("A"))],
        transitions: vec![ParsedTransition {
            input: '0',
            start_state: String::from("A"),
            end_state: String::from("Q"),
        }],
    };
    match validate_parsed_fsm(parsed) {
        Err(FSMError::UnknownState(name)) => assert_eq!(name, "Q"),
        _ => panic!("expected UnknownState"),
    }
}

#[test]
fn validate_rejects_missing_transition() {
    // symbol '0' covers only A; the (0, B) pair is missing
    let parsed = ParsedFSM {
        start_state: String::from("A"),
        states: vec![
            ParsedState::State(String::from("A")),
            ParsedState::State(String::from("B")),
        ],
        transitions: vec![ParsedTransition {
            input: '0',
            start_state: String::from("A"),
            end_state: String::from("B"),
        }],
    };
    match validate_parsed_fsm(parsed) {
        Err(FSMError::MissingTransition(c, state)) => {
            assert_eq!(c, '0');
            assert_eq!(state.get_name(), "B");
        },
        _ => panic!("expected MissingTransition"),
    }
}

#[test]
fn validate_rejects_duplicate_pair_with_distinct_targets() {
    let parsed = ParsedFSM {
        start_state: String::from("A"),
        states: vec![
            ParsedState::State(String::from("A")),
            ParsedState::State(String::from("B")),
        ],
        transitions: vec![
            ParsedTransition {
                input: '0',
                start_state: String::from("A"),
                end_state: String::from("A"),
            },
            ParsedTransition {
                input: '0',
                start_state: String::from("A"),
                end_state: String::from("B"),
            },
            ParsedTransition {
                input: '0',
                start_state: String::from("B"),
                end_state: String::from("A"),
            },
        ],
    };
    match validate_parsed_fsm(parsed) {
        Err(FSMError::ExtraTransition(first, second)) => {
            assert_eq!(first.input, '0');
            assert_eq!(first.start_state, "A");
            assert_eq!(first.end_state, "A");
            assert_eq!(second.input, '0');
            assert_eq!(second.start_state, "A");
            assert_eq!(second.end_state, "B");
        },
        _ => panic!("expected ExtraTransition"),
    }
}

#[test]
fn validate_rejects_duplicate_pair_with_identical_targets() {
    // non-determinism is reported even when both declarations agree on the
    // target
    let parsed = ParsedFSM {
        start_state: String::from("A"),
        states: vec![ParsedState::State(String::from("A"))],
        transitions: vec![
            ParsedTransition {
                input: '0',
                start_state: String::from("A"),
                end_state: String::from("A"),
            },
            ParsedTransition {
                input: '0',
                start_state: String::from("A"),
                end_state: String::from("A"),
            },
        ],
    };
    assert!(matches!(
        validate_parsed_fsm(parsed),
        Err(FSMError::ExtraTransition(_, _))
    ));
}

#[test]
fn validate_collapses_duplicate_state_names() {
    // "A" is declared plain first and accepting second: the state set keeps
    // the first tag (transition targets resolve to the plain entry), while
    // the start state takes the latest matching declaration (accepting)
    let parsed = ParsedFSM {
        start_state: String::from("A"),
        states: vec![
            ParsedState::State(String::from("A")),
            ParsedState::AcceptState(String::from("A")),
        ],
        transitions: vec![ParsedTransition {
            input: '0',
            start_state: String::from("A"),
            end_state: String::from("A"),
        }],
    };
    let machine = validate_parsed_fsm(parsed).expect("must validate");
    assert_eq!(machine.run(String::new()).unwrap(), true);
    assert_eq!(machine.run(String::from("0")).unwrap(), false);
}

#[test]
fn validate_accepts_empty_input_on_accepting_start() {
    let parsed = ParsedFSM {
        start_state: String::from("A"),
        states: vec![ParsedState::AcceptState(String::from("A"))],
        transitions: vec![ParsedTransition {
            input: 'x',
            start_state: String::from("A"),
            end_state: String::from("A"),
        }],
    };
    let machine = validate_parsed_fsm(parsed).expect("must validate");
    assert_eq!(machine.run(String::new()).unwrap(), true);
    assert_eq!(machine.run(String::from("xxx")).unwrap(), true);
}

#[test]
fn validate_ignores_transition_from_undeclared_state() {
    // a transition leaving an undeclared state is never examined by the
    // cross product, but its symbol still enters the alphabet
    let parsed = ParsedFSM {
        start_state: String::from("A"),
        states: vec![ParsedState::State(String::from("A"))],
        transitions: vec![
            ParsedTransition {
                input: '0',
                start_state: String::from("A"),
                end_state: String::from("A"),
            },
            ParsedTransition {
                input: '0',
                start_state: String::from("X"),
                end_state: String::from("Q"),
            },
        ],
    };
    let machine = validate_parsed_fsm(parsed).expect("must validate");
    assert_eq!(machine.run(String::from("00")).unwrap(), false);
}

#[test]
fn state_get_name_strips_tag() {
    assert_eq!(State::State(String::from("idle")).get_name(), "idle");
    assert_eq!(State::AcceptState(String::from("done")).get_name(), "done");
}
