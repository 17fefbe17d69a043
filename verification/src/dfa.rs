//! The DFA engine: a deterministic finite automaton built from five
//! textual fields, and the single-pass table-lookup evaluation that
//! decides whether an input string is accepted.

use vstd::prelude::*;

use crate::split::{chars_of, split_arrow, split_arrows, split_comma, split_commas, views_of};

verus! {

/// One rule of the transition table: in state `from`, reading `symbol`
/// moves the automaton to state `to`.
#[derive(Debug, Clone)]
pub struct Transition {
    pub from: String,
    pub symbol: char,
    pub to: String,
}

/// The mathematical content of a [`Transition`]: its labels as
/// character sequences.
#[verifier::ext_equal]
pub struct TransitionModel {
    pub from: Seq<char>,
    pub symbol: char,
    pub to: Seq<char>,
}

impl View for Transition {
    type V = TransitionModel;

    open spec fn view(&self) -> TransitionModel {
        TransitionModel { from: self.from@, symbol: self.symbol, to: self.to@ }
    }
}

/// The two ways the engine can fail: a transition triple whose text
/// cannot be decomposed at construction time, and a missing table
/// entry met during evaluation (carrying the offending state and
/// symbol).
#[derive(Debug, Clone, PartialEq, Eq)]
pub enum DfaError {
    MalformedTransition,
    InvalidTransition { state: String, symbol: char },
}

/// The mathematical content of a [`DfaError`].
#[verifier::ext_equal]
pub enum ErrorModel {
    MalformedTransition,
    InvalidTransition { state: Seq<char>, symbol: char },
}

impl View for DfaError {
    type V = ErrorModel;

    open spec fn view(&self) -> ErrorModel {
        match self {
            DfaError::MalformedTransition => ErrorModel::MalformedTransition,
            DfaError::InvalidTransition { state, symbol } => ErrorModel::InvalidTransition {
                state: state@,
                symbol: *symbol,
            },
        }
    }
}

/// The transition a triple's text denotes: its three `->`-separated
/// parts, with the middle part's first character as the symbol; `None`
/// when the text does not split into exactly three parts or the symbol
/// part is empty.
pub open spec fn parse_triple(p: Seq<char>) -> Option<TransitionModel> {
    let parts = split_arrow(p);
    if parts.len() == 3 && parts[1].len() > 0 {
        Some(TransitionModel { from: parts[0], symbol: parts[1][0], to: parts[2] })
    } else {
        None
    }
}

/// Decodes one `from->symbol->to` triple.
pub fn parse_transition(part: &str) -> (res: Result<Transition, DfaError>)
    ensures
        res is Ok <==> parse_triple(part@) is Some,
        res matches Ok(t) ==> parse_triple(part@) == Some(t@),
        res matches Err(e) ==> e is MalformedTransition,
{
    let parts = split_arrows(part);
    proof {
        assert(views_of(parts@) == split_arrow(part@));
    }
    if parts.len() == 3 {
        let sym_part = &parts[1];
        if !sym_part.as_str().is_empty() {
            let symbol = sym_part.as_str().get_char(0);
            let from = parts[0].clone();
            let to = parts[2].clone();
            let t = Transition { from, symbol, to };
            proof {
                assert(t@ =~= parse_triple(part@).unwrap());
            }
            Ok(t)
        } else {
            Err(DfaError::MalformedTransition)
        }
    } else {
        Err(DfaError::MalformedTransition)
    }
}

/// A deterministic finite automaton: alphabet, state labels,
/// transition table, start state and accept states.  Immutable once
/// constructed; evaluation only tracks a local cursor.
#[derive(Debug, Clone)]
pub struct DFA {
    pub alphabet: Vec<char>,
    pub states: Vec<String>,
    pub transitions: Vec<Transition>,
    pub start: String,
    pub accept: Vec<String>,
}

/// The mathematical content of a [`DFA`]: every label as a character
/// sequence.
#[verifier::ext_equal]
pub struct DfaModel {
    pub alphabet: Seq<char>,
    pub states: Seq<Seq<char>>,
    pub transitions: Seq<TransitionModel>,
    pub start: Seq<char>,
    pub accept: Seq<Seq<char>>,
}

/// The transition table the listed transitions build up, one insertion
/// per triple in order, so that a later triple for the same
/// (state, symbol) pair silently overwrites an earlier one.
pub open spec fn table_map(ts: Seq<TransitionModel>) -> Map<(Seq<char>, char), Seq<char>>
    decreases ts.len(),
{
    if ts.len() == 0 {
        Map::<(Seq<char>, char), Seq<char>>::empty()
    } else {
        table_map(ts.drop_last()).insert((ts.last().from, ts.last().symbol), ts.last().to)
    }
}

impl DfaModel {
    /// The transition table as a mapping from (state, symbol) to the
    /// next state.
    pub open spec fn table(self) -> Map<(Seq<char>, char), Seq<char>> {
        table_map(self.transitions)
    }
}

impl View for DFA {
    type V = DfaModel;

    open spec fn view(&self) -> DfaModel {
        DfaModel {
            alphabet: self.alphabet@,
            states: views_of(self.states@),
            transitions: self.transitions@.map_values(|t: Transition| t@),
            start: self.start@,
            accept: views_of(self.accept@),
        }
    }
}

/// Every comma-separated piece of the transitions field decodes as a
/// triple: the condition under which construction succeeds.
pub open spec fn transitions_ok(s: Seq<char>) -> bool {
    forall|i: int|
        0 <= i < split_comma(s).len() ==> parse_triple(#[trigger] split_comma(s)[i]) is Some
}

/// The transitions a well-formed transitions field denotes, in textual
/// order.
pub open spec fn parsed_transitions(s: Seq<char>) -> Seq<TransitionModel> {
    split_comma(s).map_values(|p: Seq<char>| parse_triple(p).unwrap())
}

impl DFA {
    /// Builds a DFA from its five textual fields: the alphabet as raw
    /// characters, the states and accept states as comma-separated
    /// labels, the transitions as comma-separated `from->symbol->to`
    /// triples, and the start state verbatim.  Fails with
    /// [`DfaError::MalformedTransition`] exactly when some triple does
    /// not decompose; no field is cross-checked against another.
    pub fn new(
        alphabet: String,
        states: String,
        transitions: String,
        start: String,
        accept: String,
    ) -> (res: Result<DFA, DfaError>)
        ensures
            res is Ok <==> transitions_ok(transitions@),
            res matches Ok(d) ==> {
                &&& d@.alphabet == alphabet@
                &&& d@.states == split_comma(states@)
                &&& d@.transitions == parsed_transitions(transitions@)
                &&& d@.start == start@
                &&& d@.accept == split_comma(accept@)
            },
            res matches Err(e) ==> e is MalformedTransition,
    {
        let alphabet_chars = chars_of(alphabet.as_str());
        let state_labels = split_commas(states.as_str());
        let accept_labels = split_commas(accept.as_str());
        let parts = split_commas(transitions.as_str());
        let ghost pieces = split_comma(transitions@);
        let mut table: Vec<Transition> = Vec::new();
        let mut i: usize = 0;
        proof {
            assert(table@.map_values(|t: Transition| t@) =~= pieces.map_values(
                |p: Seq<char>| parse_triple(p).unwrap(),
            ).take(0));
        }
        while i < parts.len()
            invariant
                i <= parts.len(),
                views_of(parts@) == pieces,
                pieces == split_comma(transitions@),
                forall|j: int| 0 <= j < i ==> parse_triple(#[trigger] pieces[j]) is Some,
                table@.map_values(|t: Transition| t@) == pieces.map_values(
                    |p: Seq<char>| parse_triple(p).unwrap(),
                ).take(i as int),
            decreases parts.len() - i,
        {
            proof {
                assert(views_of(parts@)[i as int] == parts@[i as int]@);
            }
            match parse_transition(parts[i].as_str()) {
                Ok(t) => {
                    let ghost prev = table@;
                    table.push(t);
                    proof {
                        let parsed = pieces.map_values(|p: Seq<char>| parse_triple(p).unwrap());
                        assert(table@.map_values(|t: Transition| t@) =~= prev.map_values(
                            |t: Transition| t@,
                        ).push(t@));
                        assert(parsed.take(i + 1) =~= parsed.take(i as int).push(parsed[i as int]));
                    }
                },
                Err(e) => {
                    proof {
                        assert(parse_triple(pieces[i as int]) is None);
                    }
                    return Err(e);
                },
            }
            i = i + 1;
        }
        proof {
            let parsed = pieces.map_values(|p: Seq<char>| parse_triple(p).unwrap());
            assert(parsed.take(pieces.len() as int) =~= parsed);
        }
        Ok(
            DFA {
                alphabet: alphabet_chars,
                states: state_labels,
                transitions: table,
                start,
                accept: accept_labels,
            },
        )
    }
}

/// Where the automaton ends up on a given input: in a state with the
/// input exhausted, or stuck at the first (state, symbol) pair that
/// has no table entry.
#[verifier::ext_equal]
pub enum RunOutcome {
    Ended { state: Seq<char> },
    Stuck { state: Seq<char>, symbol: char },
}

/// One pass of the automaton over `input` from `state`: follow the
/// table one symbol at a time, and stop at the first missing entry.
pub open spec fn run(
    table: Map<(Seq<char>, char), Seq<char>>,
    state: Seq<char>,
    input: Seq<char>,
) -> RunOutcome
    decreases input.len(),
{
    if input.len() == 0 {
        RunOutcome::Ended { state }
    } else if table.contains_key((state, input[0])) {
        run(table, table[(state, input[0])], input.drop_first())
    } else {
        RunOutcome::Stuck { state, symbol: input[0] }
    }
}

/// What evaluation must return: acceptance of the final state when the
/// run ends, and the offending pair when it gets stuck.
pub open spec fn eval_post(m: DfaModel, input: Seq<char>, res: Result<bool, DfaError>) -> bool {
    match run(m.table(), m.start, input) {
        RunOutcome::Ended { state } => res matches Ok(b) && b == m.accept.contains(state),
        RunOutcome::Stuck { state, symbol } => res matches Err(e) && e@ == (
        ErrorModel::InvalidTransition { state, symbol }),
    }
}

/// The table entry for `(state, symbol)`, honouring last-write-wins
/// among the listed transitions.
fn lookup(ts: &Vec<Transition>, state: &String, symbol: char) -> (res: Option<String>)
    ensures
        ({
            let m = table_map(ts@.map_values(|t: Transition| t@));
            &&& res is Some <==> m.contains_key((state@, symbol))
            &&& (res matches Some(next) ==> next@ == m[(state@, symbol)])
        }),
{
    let ghost tm = ts@.map_values(|t: Transition| t@);
    let mut found: Option<String> = None;
    let mut i: usize = 0;
    proof {
        assert(tm.take(0) =~= Seq::<TransitionModel>::empty());
    }
    while i < ts.len()
        invariant
            i <= ts.len(),
            tm == ts@.map_values(|t: Transition| t@),
            ({
                let m = table_map(tm.take(i as int));
                &&& found is Some <==> m.contains_key((state@, symbol))
                &&& (found matches Some(next) ==> next@ == m[(state@, symbol)])
            }),
        decreases ts.len() - i,
    {
        let t = &ts[i];
        if t.symbol == symbol && t.from == *state {
            found = Some(t.to.clone());
        }
        proof {
            assert(tm.take(i + 1).drop_last() =~= tm.take(i as int));
            assert(tm.take(i + 1).last() == tm[i as int]);
        }
        i = i + 1;
    }
    proof {
        assert(tm.take(ts@.len() as int) =~= tm);
    }
    found
}

/// Whether `label` occurs among `labels`, compared by exact value.
fn contains_label(labels: &Vec<String>, label: &String) -> (res: bool)
    ensures
        res == views_of(labels@).contains(label@),
{
    let mut i: usize = 0;
    while i < labels.len()
        invariant
            i <= labels.len(),
            forall|j: int| 0 <= j < i ==> views_of(labels@)[j] != label@,
        decreases labels.len() - i,
    {
        if labels[i] == *label {
            proof {
                assert(views_of(labels@)[i as int] == label@);
            }
            return true;
        }
        i = i + 1;
    }
    false
}

impl DFA {
    /// Runs `input` through the automaton from the start state.
    /// Returns whether the state reached at the end of the input is an
    /// accept state, or fails with [`DfaError::InvalidTransition`] at
    /// the first character whose (state, symbol) pair has no table
    /// entry, leaving the rest of the input unread.
    pub fn test(&self, input: String) -> (res: Result<bool, DfaError>)
        ensures
            eval_post(self@, input@, res),
            res is Ok <==> run(self@.table(), self@.start, input@) is Ended,
    {
        let s = input.as_str();
        let n = s.unicode_len();
        let mut current = self.start.clone();
        let mut i: usize = 0;
        proof {
            assert(input@.skip(0) =~= input@);
        }
        while i < n
            invariant
                i <= n,
                n == input@.len(),
                s@ == input@,
                run(self@.table(), self@.start, input@) == run(
                    self@.table(),
                    current@,
                    input@.skip(i as int),
                ),
            decreases n - i,
        {
            let c = s.get_char(i);
            match lookup(&self.transitions, &current, c) {
                Some(next) => {
                    proof {
                        assert(input@.skip(i as int).drop_first() =~= input@.skip(i + 1));
                    }
                    current = next;
                },
                None => {
                    return Err(DfaError::InvalidTransition { state: current, symbol: c });
                },
            }
            i = i + 1;
        }
        proof {
            assert(input@.skip(n as int) =~= Seq::<char>::empty());
        }
        Ok(contains_label(&self.accept, &current))
    }
}

/// Evaluating the empty string never fails: no character is consumed,
/// so the run ends in the start state, and the result is `true`
/// exactly when the start state is an accept state.
pub proof fn lemma_empty_input(m: DfaModel, res: Result<bool, DfaError>)
    requires
        eval_post(m, Seq::<char>::empty(), res),
    ensures
        res matches Ok(b) && b == m.accept.contains(m.start),
{
}

/// Evaluation is deterministic: any two results the evaluation
/// contract admits for the same automaton and the same input agree —
/// same success or failure, same acceptance verdict, and the same
/// offending (state, symbol) pair on failure.
pub proof fn lemma_eval_deterministic(
    m: DfaModel,
    input: Seq<char>,
    r1: Result<bool, DfaError>,
    r2: Result<bool, DfaError>,
)
    requires
        eval_post(m, input, r1),
        eval_post(m, input, r2),
    ensures
        r1 is Ok <==> r2 is Ok,
        r1 is Ok ==> r1->Ok_0 == r2->Ok_0,
        r1 is Err ==> (r1->Err_0)@ == (r2->Err_0)@,
{
    match run(m.table(), m.start, input) {
        RunOutcome::Ended { state } => {
            assert(r1 matches Ok(b) && b == m.accept.contains(state));
            assert(r2 matches Ok(b) && b == m.accept.contains(state));
        },
        RunOutcome::Stuck { state, symbol } => {
            assert(r1 matches Err(e) && e@ == (ErrorModel::InvalidTransition { state, symbol }));
            assert(r2 matches Err(e) && e@ == (ErrorModel::InvalidTransition { state, symbol }));
        },
    }
}

/// Evaluation fails fast: once the automaton is stuck on a prefix of
/// the input, the whole input gets that very outcome — the characters
/// after the failing one play no part.
pub proof fn lemma_fail_fast(
    table: Map<(Seq<char>, char), Seq<char>>,
    state: Seq<char>,
    input: Seq<char>,
    k: int,
)
    requires
        0 <= k <= input.len(),
        run(table, state, input.take(k)) is Stuck,
    ensures
        run(table, state, input) == run(table, state, input.take(k)),
    decreases k,
{
    let p = input.take(k);
    if k == 0 {
        assert(p =~= Seq::<char>::empty());
    } else {
        assert(p[0] == input[0]);
        if table.contains_key((state, input[0])) {
            assert(p.drop_first() =~= input.drop_first().take(k - 1));
            lemma_fail_fast(table, table[(state, input[0])], input.drop_first(), k - 1);
        }
    }
}

} // verus!
