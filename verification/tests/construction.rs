use dfa_engine::{DfaError, DFA};

fn build(alphabet: &str, states: &str, transitions: &str, start: &str, accept: &str) -> Result<DFA, DfaError> {
    DFA::new(
        alphabet.to_string(),
        states.to_string(),
        transitions.to_string(),
        start.to_string(),
        accept.to_string(),
    )
}

#[test]
fn state_count_matches_entries() {
    let d = build("01", "q0,q1", "q0->0->q0", "q0", "q1").unwrap();
    assert_eq!(d.states, vec!["q0".to_string(), "q1".to_string()]);
    assert_eq!(d.states.len(), 2);
}

#[test]
fn accept_states_round_trip() {
    let d = build("01", "q0,q1,q2", "q0->0->q0", "q0", "q1,q2").unwrap();
    assert_eq!(d.accept, vec!["q1".to_string(), "q2".to_string()]);
}

#[test]
fn alphabet_keeps_every_character() {
    let d = build("010", "q0", "q0->0->q0", "q0", "q0").unwrap();
    assert_eq!(d.alphabet, vec!['0', '1', '0']);
}

#[test]
fn start_state_is_verbatim() {
    let d = build("01", "q0,q1", "q0->0->q0", "q1", "q0").unwrap();
    assert_eq!(d.start, "q1".to_string());
}

#[test]
fn transitions_decompose() {
    let d = build("01", "q0,q1", "q0->0->q0,q0->1->q1", "q0", "q1").unwrap();
    assert_eq!(d.transitions.len(), 2);
    assert_eq!(d.transitions[0].from, "q0".to_string());
    assert_eq!(d.transitions[0].symbol, '0');
    assert_eq!(d.transitions[0].to, "q0".to_string());
    assert_eq!(d.transitions[1].from, "q0".to_string());
    assert_eq!(d.transitions[1].symbol, '1');
    assert_eq!(d.transitions[1].to, "q1".to_string());
}

#[test]
fn missing_separator_is_malformed() {
    let r = build("01", "q0,q1", "q0-0->q0", "q0", "q1");
    assert_eq!(r.unwrap_err(), DfaError::MalformedTransition);
}

#[test]
fn four_part_triple_is_malformed() {
    let r = build("01", "q0,q1", "q0->0->q0->q1", "q0", "q1");
    assert_eq!(r.unwrap_err(), DfaError::MalformedTransition);
}

#[test]
fn empty_symbol_part_is_malformed() {
    let r = build("01", "q0,q1", "q0->->q1", "q0", "q1");
    assert_eq!(r.unwrap_err(), DfaError::MalformedTransition);
}

#[test]
fn empty_transitions_field_is_malformed() {
    let r = build("01", "q0,q1", "", "q0", "q1");
    assert_eq!(r.unwrap_err(), DfaError::MalformedTransition);
}

#[test]
fn one_bad_triple_spoils_construction() {
    let r = build("01", "q0,q1", "q0->0->q0,q1->1", "q0", "q1");
    assert_eq!(r.unwrap_err(), DfaError::MalformedTransition);
}

#[test]
fn multi_character_symbol_part_uses_first_character() {
    let d = build("a", "q0,q1", "q0->ab->q1", "q0", "q1").unwrap();
    assert_eq!(d.transitions[0].symbol, 'a');
    assert_eq!(d.test("a".to_string()), Ok(true));
}

#[test]
fn empty_state_labels_are_kept() {
    let d = build("01", ",q1", "q0->0->q0", "", "").unwrap();
    assert_eq!(d.states, vec!["".to_string(), "q1".to_string()]);
    assert_eq!(d.start, "".to_string());
    assert_eq!(d.accept, vec!["".to_string()]);
}

#[test]
fn split_commas_keeps_empty_pieces() {
    let parts = dfa_engine::split::split_commas("a,,b");
    assert_eq!(parts, vec!["a".to_string(), "".to_string(), "b".to_string()]);
    assert_eq!(dfa_engine::split::split_commas(""), vec!["".to_string()]);
    assert_eq!(
        dfa_engine::split::split_commas("x,"),
        vec!["x".to_string(), "".to_string()]
    );
}

#[test]
fn split_arrows_matches_greedily() {
    let parts = dfa_engine::split::split_arrows("a->->b");
    assert_eq!(parts, vec!["a".to_string(), "".to_string(), "b".to_string()]);
    assert_eq!(
        dfa_engine::split::split_arrows("-->"),
        vec!["-".to_string(), "".to_string()]
    );
    assert_eq!(dfa_engine::split::split_arrows("x-"), vec!["x-".to_string()]);
}
