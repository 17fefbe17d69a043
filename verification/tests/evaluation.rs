use dfa_engine::{DfaError, DFA};

fn build(alphabet: &str, states: &str, transitions: &str, start: &str, accept: &str) -> DFA {
    DFA::new(
        alphabet.to_string(),
        states.to_string(),
        transitions.to_string(),
        start.to_string(),
        accept.to_string(),
    )
    .unwrap()
}

fn odd_ones() -> DFA {
    build(
        "01",
        "q0,q1",
        "q0->0->q0,q0->1->q1,q1->0->q1,q1->1->q0",
        "q0",
        "q1",
    )
}

#[test]
fn odd_ones_rejects_two_ones() {
    assert_eq!(odd_ones().test("11".to_string()), Ok(false));
}

#[test]
fn odd_ones_accepts_one_one() {
    assert_eq!(odd_ones().test("1".to_string()), Ok(true));
}

#[test]
fn odd_ones_rejects_empty_input() {
    assert_eq!(odd_ones().test("".to_string()), Ok(false));
}

#[test]
fn odd_ones_accepts_one_zero() {
    assert_eq!(odd_ones().test("10".to_string()), Ok(true));
}

#[test]
fn empty_input_accepts_iff_start_accepts() {
    let accepting_start = build("0", "q0", "q0->0->q0", "q0", "q0");
    assert_eq!(accepting_start.test("".to_string()), Ok(true));
    let rejecting_start = build("0", "q0,q1", "q0->0->q1", "q0", "q1");
    assert_eq!(rejecting_start.test("".to_string()), Ok(false));
}

#[test]
fn repeated_evaluation_is_identical() {
    let d = odd_ones();
    let first = d.test("1101".to_string());
    let second = d.test("1101".to_string());
    let third = d.test("1101".to_string());
    assert_eq!(first, second);
    assert_eq!(second, third);
    assert_eq!(first, Ok(true));
}

#[test]
fn missing_entry_fails_with_invalid_transition() {
    let d = build("01", "q0,q1", "q0->1->q1", "q0", "q1");
    let r = d.test("10".to_string());
    assert_eq!(
        r,
        Err(DfaError::InvalidTransition { state: "q1".to_string(), symbol: '0' })
    );
}

#[test]
fn failure_stops_before_later_characters() {
    // From q0 the character 'a' has no entry; had evaluation skipped it,
    // the later 'b' would reach the accept state and flip the answer.
    let d = build("ab", "q0,q1", "q0->b->q1", "q0", "q1");
    let r = d.test("ab".to_string());
    assert_eq!(
        r,
        Err(DfaError::InvalidTransition { state: "q0".to_string(), symbol: 'a' })
    );
}

#[test]
fn automaton_survives_a_failed_evaluation() {
    let d = build("01", "q0,q1", "q0->1->q1", "q0", "q1");
    assert!(d.test("0".to_string()).is_err());
    assert_eq!(d.test("1".to_string()), Ok(true));
}

#[test]
fn later_duplicate_transition_wins() {
    let d = build("0", "q0,q1", "q0->0->q0,q0->0->q1", "q0", "q1");
    assert_eq!(d.test("0".to_string()), Ok(true));
}

#[test]
fn undeclared_symbol_with_entry_is_followed() {
    // Alphabet membership is documentation, not a run-time check: a
    // character outside the declared alphabet that has a table entry is
    // still followed.
    let d = build("0", "q0,q1", "q0->x->q1", "q0", "q1");
    assert_eq!(d.test("x".to_string()), Ok(true));
}

#[test]
fn accept_membership_is_by_exact_value() {
    let d = build("0", "q0,q1", "q0->0->q1", "q0", "q1 ");
    assert_eq!(d.test("0".to_string()), Ok(false));
}
