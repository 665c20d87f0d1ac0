use fsm::fsm_parser::{ParsedFSM, ParsedState};

fn state_names(parsed: &ParsedFSM) -> Vec<(String, bool)> {
    parsed
        .states
        .iter()
        .map(|s| match s {
            ParsedState::State(name) => (name.clone(), false),
            ParsedState::AcceptState(name) => (name.clone(), true),
        })
        .collect()
}

#[test]
fn parse_sample_specification() {
    let text = "states:\n\tA\n\tB\n\tfinal: C\n\ntransitions:\n\t0: A -> B\n\t0: B -> C\n\t0: C -> A\n\t1: B -> A\n\t1: C -> B\n\t1: A -> C\n\nstart: A";
    let parsed = ParsedFSM::parse(text).expect("must parse");
    assert_eq!(parsed.start_state, "A");
    assert_eq!(
        state_names(&parsed),
        vec![
            (String::from("A"), false),
            (String::from("B"), false),
            (String::from("C"), true),
        ]
    );
    assert_eq!(parsed.transitions.len(), 6);
    assert_eq!(parsed.transitions[0].input, '0');
    assert_eq!(parsed.transitions[0].start_state, "A");
    assert_eq!(parsed.transitions[0].end_state, "B");
    assert_eq!(parsed.transitions[5].input, '1');
    assert_eq!(parsed.transitions[5].start_state, "A");
    assert_eq!(parsed.transitions[5].end_state, "C");
}

#[test]
fn parse_blocks_in_any_order() {
    let orders = [
        "start: A\nstates:\n\tA\ntransitions:\n\t0: A -> A\n",
        "start: A\ntransitions:\n\t0: A -> A\nstates:\n\tA\n",
        "transitions:\n\t0: A -> A\nstates:\n\tA\nstart: A",
        "transitions:\n\t0: A -> A\nstart: A\nstates:\n\tA\n",
        "states:\n\tA\nstart: A\ntransitions:\n\t0: A -> A\n",
        "states:\n\tA\ntransitions:\n\t0: A -> A\nstart: A",
    ];
    for text in orders.iter() {
        let parsed = ParsedFSM::parse(text).expect("every block order must parse");
        assert_eq!(parsed.start_state, "A");
        assert_eq!(parsed.states.len(), 1);
        assert_eq!(parsed.transitions.len(), 1);
    }
}

#[test]
fn parse_accepts_empty_states_block() {
    let text = "states:\ntransitions:\n\t0: A -> A\nstart: A";
    let parsed = ParsedFSM::parse(text).expect("must parse");
    assert_eq!(parsed.states.len(), 0);
    assert_eq!(parsed.transitions.len(), 1);
}

#[test]
fn parse_rejects_empty_transitions_block() {
    // at least one transition line is required, already at parse time
    let text = "states:\n\tA\ntransitions:\nstart: A";
    let err = match ParsedFSM::parse(text) {
        Err(e) => e,
        Ok(_) => panic!("zero transitions must be a parse failure"),
    };
    // the states block was read; transitions and start were still missing
    // when parsing got stuck
    assert!(err.missing_transitions);
    assert!(!err.missing_states);
    assert!(err.missing_start);
}

#[test]
fn parse_rejects_missing_start_block() {
    let text = "states:\n\tA\ntransitions:\n\t0: A -> A\n";
    let err = match ParsedFSM::parse(text) {
        Err(e) => e,
        Ok(_) => panic!("a missing start block must fail"),
    };
    assert!(err.missing_start);
}

#[test]
fn parse_rejects_state_line_without_tab() {
    // every state line must begin with a literal tab
    let text = "states:\nA\ntransitions:\n\t0: A -> A\nstart: A";
    assert!(ParsedFSM::parse(text).is_err());
}

#[test]
fn parse_final_marker_allows_blanks_before_name() {
    let text = "states:\n\tfinal:  \t Done\ntransitions:\n\t0: Done -> Done\nstart: Done";
    let parsed = ParsedFSM::parse(text).expect("must parse");
    assert_eq!(state_names(&parsed), vec![(String::from("Done"), true)]);
}

#[test]
fn parse_rejects_final_marker_without_name() {
    // once the accepting marker has matched, the line must carry a name
    let text = "states:\n\tfinal:\ntransitions:\n\t0: A -> A\nstart: A";
    assert!(ParsedFSM::parse(text).is_err());
}

#[test]
fn parse_transition_needs_spaced_arrow() {
    // without blank space the arrow is swallowed by the start-state name
    let text = "states:\n\tA\ntransitions:\n\t0: A->A\nstart: A";
    assert!(ParsedFSM::parse(text).is_err());
}

#[test]
fn parse_transition_allows_extra_blanks() {
    let text = "states:\n\tA\n\tB\ntransitions:\n  7:   A   ->   B\n  7: B -> A\nstart: B";
    let parsed = ParsedFSM::parse(text).expect("must parse");
    assert_eq!(parsed.transitions[0].input, '7');
    assert_eq!(parsed.transitions[0].start_state, "A");
    assert_eq!(parsed.transitions[0].end_state, "B");
    assert_eq!(parsed.start_state, "B");
}

#[test]
fn parse_ignores_trailing_text() {
    // text after the three blocks is left unread
    let text = "states:\n\tA\ntransitions:\n\t0: A -> A\nstart: A\nleftover";
    let parsed = ParsedFSM::parse(text).expect("must parse");
    assert_eq!(parsed.start_state, "A");
}

#[test]
fn parse_reports_offset_of_stuck_position() {
    let err = match ParsedFSM::parse("nonsense") {
        Err(e) => e,
        Ok(_) => panic!("must fail"),
    };
    assert_eq!(err.offset, 0);
    assert!(err.missing_states && err.missing_transitions && err.missing_start);
}

#[test]
fn parse_crlf_line_endings() {
    let text = "states:\r\n\tA\r\n\tfinal: B\r\ntransitions:\r\n\t0: A -> B\r\n\t0: B -> A\r\nstart: A\r\n";
    let parsed = ParsedFSM::parse(text).expect("must parse");
    assert_eq!(parsed.states.len(), 2);
    assert_eq!(parsed.transitions.len(), 2);
    assert_eq!(parsed.start_state, "A");
}
