//! Validated automata and their execution.
//!
//! [`validate_parsed_fsm`] consumes the parser's intermediate representation
//! exactly once: it resolves declared names into state identities, derives
//! the input alphabet from the declared transitions, checks that the
//! transition relation is total and deterministic over the cross product of
//! the alphabet and the resolved states, and produces an immutable [`FSM`]
//! or a structured [`FSMError`]. [`FSM::run`] then simulates the automaton
//! character by character over an input string.

use vstd::prelude::*;

use crate::fsm_parser::ParsedFSM;
use crate::fsm_parser::ParsedFsmView;
use crate::fsm_parser::ParsedState;
use crate::fsm_parser::ParsedTransition;
use crate::fsm_parser::StateView;
use crate::fsm_parser::TransitionDeclView;

verus! {

/// A resolved machine state: a plain state or an accepting state, each
/// carrying its name.
///
/// Two states with the same name are the same identity for lookup purposes,
/// whatever their accepting tags say; the tag is ordinary data that only the
/// execution engine reads, to decide acceptance. Every comparison in this
/// crate therefore goes by the name alone, never by the tag.
#[derive(Debug)]
pub enum State {
    State(String),
    AcceptState(String),
}

impl View for State {
    type V = StateView;

    open spec fn view(&self) -> StateView {
        match self {
            State::State(name) => StateView { name: name@, accepting: false },
            State::AcceptState(name) => StateView { name: name@, accepting: true },
        }
    }
}

impl DeepView for State {
    type V = StateView;

    open spec fn deep_view(&self) -> StateView {
        self.view()
    }
}

impl State {
    /// The state's name, without its accepting tag.
    pub fn get_name(&self) -> (r: String)
        ensures
            r@ == self@.name,
    {
        match self {
            State::State(name) => name.clone(),
            State::AcceptState(name) => name.clone(),
        }
    }
}

/// A borrowed view of the state's name.
fn state_name_ref(s: &State) -> (r: &String)
    ensures
        r@ == s@.name,
{
    match s {
        State::State(name) => name,
        State::AcceptState(name) => name,
    }
}

/// Whether the state carries the accepting tag.
fn state_is_accepting(s: &State) -> (b: bool)
    ensures
        b == s@.accepting,
{
    match s {
        State::State(_) => false,
        State::AcceptState(_) => true,
    }
}

/// A fresh state equal to the given one.
fn clone_state(s: &State) -> (r: State)
    ensures
        r@ == s@,
{
    match s {
        State::State(name) => State::State(name.clone()),
        State::AcceptState(name) => State::AcceptState(name.clone()),
    }
}

/// The view of one resolved transition: an input symbol, a start state and
/// an end state. Its identity for lookup purposes is the (input, start name)
/// pair alone: a well-formed automaton holds exactly one transition per pair.
#[verifier::ext_equal]
pub struct TransitionView {
    pub input: char,
    pub start: StateView,
    pub end: StateView,
}

/// One resolved transition of a validated automaton.
#[derive(Debug)]
struct Transition {
    input: char,
    start_state: State,
    end_state: State,
}

impl View for Transition {
    type V = TransitionView;

    closed spec fn view(&self) -> TransitionView {
        TransitionView { input: self.input, start: self.start_state@, end: self.end_state@ }
    }
}

impl DeepView for Transition {
    type V = TransitionView;

    closed spec fn deep_view(&self) -> TransitionView {
        self.view()
    }
}

/// The view of a validated automaton: its start state, its resolved
/// transitions, and the input alphabet derived from the source transitions.
#[verifier::ext_equal]
pub struct FsmView {
    pub start: StateView,
    pub transitions: Seq<TransitionView>,
    pub alphabet: Seq<char>,
}

/// A validated, immutable automaton: a start state, a total and
/// deterministic set of transitions, and the derived input alphabet.
/// It has no setters: once built by [`validate_parsed_fsm`] it is read-only,
/// so repeated runs always see the same machine.
#[derive(Debug)]
pub struct FSM {
    start_state: State,
    transitions: Vec<Transition>,
    input_alphabet: Vec<char>,
}

impl View for FSM {
    type V = FsmView;

    closed spec fn view(&self) -> FsmView {
        FsmView {
            start: self.start_state@,
            transitions: self.transitions.deep_view(),
            alphabet: self.input_alphabet@,
        }
    }
}

/// The view of a validation or execution error.
#[verifier::ext_equal]
pub enum FsmErrorView {
    MissingTransition(char, StateView),
    ExtraTransition(TransitionDeclView, TransitionDeclView),
    UnknownState(Seq<char>),
    NoStartState,
    CharNotInInputAlphabet(char),
}

/// An error raised while validating a parsed specification or while running
/// a validated automaton:
///
/// - `MissingTransition(c, s)`: no declared transition covers symbol `c`
///   from state `s`, so the relation is not total;
/// - `ExtraTransition(d1, d2)`: the two declarations share their (symbol,
///   start state) pair, so the relation is not deterministic;
/// - `UnknownState(name)`: a transition's end-state name matches no declared
///   state;
/// - `NoStartState`: the declared start-state name matches no declared state;
/// - `CharNotInInputAlphabet(c)`: an input character fed to a run is not in
///   the automaton's alphabet.
#[derive(Debug)]
pub enum FSMError {
    MissingTransition(char, State),
    ExtraTransition(ParsedTransition, ParsedTransition),
    UnknownState(String),
    NoStartState,
    CharNotInInputAlphabet(char),
}

impl View for FSMError {
    type V = FsmErrorView;

    open spec fn view(&self) -> FsmErrorView {
        match self {
            FSMError::MissingTransition(c, s) => FsmErrorView::MissingTransition(*c, s@),
            FSMError::ExtraTransition(a, b) => FsmErrorView::ExtraTransition(a@, b@),
            FSMError::UnknownState(name) => FsmErrorView::UnknownState(name@),
            FSMError::NoStartState => FsmErrorView::NoStartState,
            FSMError::CharNotInInputAlphabet(c) => FsmErrorView::CharNotInInputAlphabet(*c),
        }
    }
}

impl DeepView for FSMError {
    type V = FsmErrorView;

    open spec fn deep_view(&self) -> FsmErrorView {
        self.view()
    }
}

/// Whether some declaration in `decls` carries this name.
pub open spec fn contains_name(decls: Seq<StateView>, name: Seq<char>) -> bool {
    exists|k: int| 0 <= k < decls.len() && decls[k].name == name
}

/// The declared state the start-state name resolves to: the latest
/// declaration whose name equals `name`, or nothing if none matches.
pub open spec fn resolve_start(decls: Seq<StateView>, name: Seq<char>) -> Option<StateView>
    decreases decls.len(),
{
    if decls.len() == 0 {
        None
    } else if decls.last().name == name {
        Some(decls.last())
    } else {
        resolve_start(decls.drop_last(), name)
    }
}

/// The resolved state set, in first-declaration order: a declaration whose
/// name was already declared collapses silently into the earlier entry, and
/// the earlier declaration's accepting tag wins.
pub open spec fn resolve_states(decls: Seq<StateView>) -> Seq<StateView>
    decreases decls.len(),
{
    if decls.len() == 0 {
        Seq::empty()
    } else {
        let prefix = resolve_states(decls.drop_last());
        if contains_name(decls.drop_last(), decls.last().name) {
            prefix
        } else {
            prefix.push(decls.last())
        }
    }
}

/// The derived input alphabet: the distinct symbols of the declared
/// transitions, in first-appearance order. An alphabet is never declared
/// separately; a symbol with no transition does not exist for validation.
pub open spec fn derive_alphabet(trs: Seq<TransitionDeclView>) -> Seq<char>
    decreases trs.len(),
{
    if trs.len() == 0 {
        Seq::empty()
    } else {
        let prefix = derive_alphabet(trs.drop_last());
        if prefix.contains(trs.last().input) {
            prefix
        } else {
            prefix.push(trs.last().input)
        }
    }
}

/// Whether a declared transition leaves state `name` on symbol `c`.
pub open spec fn decl_matches(t: TransitionDeclView, c: char, name: Seq<char>) -> bool {
    t.input == c && t.start == name
}

/// The first index at or after `k` of a declared transition leaving `name`
/// on `c`, or nothing if no such declaration follows.
pub open spec fn first_match_from(
    trs: Seq<TransitionDeclView>,
    c: char,
    name: Seq<char>,
    k: int,
) -> Option<int>
    decreases trs.len() - k,
{
    if 0 <= k < trs.len() {
        if decl_matches(trs[k], c, name) {
            Some(k)
        } else {
            first_match_from(trs, c, name, k + 1)
        }
    } else {
        None
    }
}

/// The first resolved state carrying this name, or nothing. Over a resolved
/// state set names are unique, so "first" is the only match.
pub open spec fn lookup_state(states: Seq<StateView>, name: Seq<char>, k: int) -> Option<StateView>
    decreases states.len() - k,
{
    if 0 <= k < states.len() {
        if states[k].name == name {
            Some(states[k])
        } else {
            lookup_state(states, name, k + 1)
        }
    } else {
        None
    }
}

/// The resolved transitions for the cross product of the alphabet (from
/// index `a`) and the resolved states (from index `k` for the symbol at
/// `a`, from 0 for the later symbols), or the first violation found in that
/// fixed order: no match is a missing transition, two matches are an extra
/// transition, and an end-state name that resolves to no state is unknown.
pub open spec fn build_entries(
    trs: Seq<TransitionDeclView>,
    states: Seq<StateView>,
    alphabet: Seq<char>,
    a: int,
    k: int,
) -> Result<Seq<TransitionView>, FsmErrorView>
    decreases alphabet.len() - a, states.len() - k,
{
    if a >= alphabet.len() {
        Ok(Seq::empty())
    } else if k >= states.len() {
        build_entries(trs, states, alphabet, a + 1, 0)
    } else {
        let c = alphabet[a];
        let s = states[k];
        match first_match_from(trs, c, s.name, 0) {
            None => Err(FsmErrorView::MissingTransition(c, s)),
            Some(m0) => match first_match_from(trs, c, s.name, m0 + 1) {
                Some(m1) => Err(FsmErrorView::ExtraTransition(trs[m0], trs[m1])),
                None => match lookup_state(states, trs[m0].end, 0) {
                    None => Err(FsmErrorView::UnknownState(trs[m0].end)),
                    Some(end) => match build_entries(trs, states, alphabet, a, k + 1) {
                        Err(e) => Err(e),
                        Ok(rest) => Ok(seq![TransitionView { input: c, start: s, end }] + rest),
                    },
                },
            },
        }
    }
}

/// What validating a parsed specification yields: first the start-state name
/// is resolved (failing with `NoStartState`), then the resolved transition
/// set is built over the cross product of the derived alphabet and the
/// resolved states, in alphabet-major order.
pub open spec fn spec_validate(p: ParsedFsmView) -> Result<FsmView, FsmErrorView> {
    match resolve_start(p.states, p.start) {
        None => Err(FsmErrorView::NoStartState),
        Some(start) => {
            let states = resolve_states(p.states);
            let alphabet = derive_alphabet(p.transitions);
            match build_entries(p.transitions, states, alphabet, 0, 0) {
                Err(e) => Err(e),
                Ok(entries) => Ok(FsmView { start, transitions: entries, alphabet }),
            }
        },
    }
}

/// Whether a resolved transition leaves the state named `name` on symbol `c`.
pub open spec fn entry_matches(t: TransitionView, c: char, name: Seq<char>) -> bool {
    t.input == c && t.start.name == name
}

/// The first resolved transition at or after index `k` leaving `name` on
/// `c`, or nothing.
pub open spec fn lookup_transition(
    trs: Seq<TransitionView>,
    c: char,
    name: Seq<char>,
    k: int,
) -> Option<TransitionView>
    decreases trs.len() - k,
{
    if 0 <= k < trs.len() {
        if entry_matches(trs[k], c, name) {
            Some(trs[k])
        } else {
            lookup_transition(trs, c, name, k + 1)
        }
    } else {
        None
    }
}

/// Whether some resolved transition leaves the state named `name` on `c`.
pub open spec fn has_entry(trs: Seq<TransitionView>, c: char, name: Seq<char>) -> bool {
    exists|m: int| 0 <= m < trs.len() && entry_matches(trs[m], c, name)
}

/// The names of the states the automaton can ever stand in: its start state
/// and every state a transition leaves or enters.
pub open spec fn state_names(fsm: FsmView) -> Set<Seq<char>> {
    Set::new(
        |n: Seq<char>|
            n == fsm.start.name || exists|m: int|
                0 <= m < fsm.transitions.len() && (fsm.transitions[m].start.name == n
                    || fsm.transitions[m].end.name == n),
    )
}

impl FsmView {
    /// Well-formedness of a validated automaton:
    ///
    /// - the alphabet holds no symbol twice;
    /// - every transition's symbol is in the alphabet;
    /// - determinism: no two transitions share their (symbol, start name)
    ///   pair;
    /// - totality: from every state the automaton can stand in, for every
    ///   alphabet symbol, some transition leaves that state on that symbol.
    ///
    /// Together the last two clauses give exactly one transition per
    /// (symbol, state) pair, so a run can never get stuck.
    pub open spec fn wf(self) -> bool {
        &&& (forall|x: int, y: int|
            0 <= x < y < self.alphabet.len() ==> self.alphabet[x] != self.alphabet[y])
        &&& (forall|m: int|
            0 <= m < self.transitions.len() ==> self.alphabet.contains(
                #[trigger] self.transitions[m].input,
            ))
        &&& (forall|x: int, y: int|
            0 <= x < self.transitions.len() && 0 <= y < self.transitions.len() && x != y
                ==> !(#[trigger] self.transitions[x].input == #[trigger] self.transitions[y].input
                && self.transitions[x].start.name == self.transitions[y].start.name))
        &&& (forall|n: Seq<char>, c: char|
            #[trigger] state_names(self).contains(n) && #[trigger] self.alphabet.contains(c)
                ==> has_entry(self.transitions, c, n))
    }
}

/// What a run yields from state `current` with `input` left to read: when
/// the input is exhausted, acceptance is the current state's tag; a symbol
/// outside the alphabet fails immediately, before any later character is
/// read; otherwise the run follows the transition for (symbol, current
/// state). On a well-formed automaton that transition always exists; what
/// a run would yield where it does not is left unspecified.
pub open spec fn run_from(fsm: FsmView, current: StateView, input: Seq<char>) -> Result<
    bool,
    FsmErrorView,
>
    decreases input.len(),
{
    if input.len() == 0 {
        Ok(current.accepting)
    } else if !fsm.alphabet.contains(input[0]) {
        Err(FsmErrorView::CharNotInInputAlphabet(input[0]))
    } else {
        match lookup_transition(fsm.transitions, input[0], current.name, 0) {
            None => arbitrary(),
            Some(t) => run_from(fsm, t.end, input.drop_first()),
        }
    }
}

/// What running the automaton over a whole input yields, from its start
/// state.
pub open spec fn spec_run(fsm: FsmView, input: Seq<char>) -> Result<bool, FsmErrorView> {
    run_from(fsm, fsm.start, input)
}

/// The view of a run's outcome.
pub open spec fn run_result_view(r: Result<bool, FSMError>) -> Result<bool, FsmErrorView> {
    match r {
        Ok(b) => Ok(b),
        Err(e) => Err(e@),
    }
}

/// Whether the alphabet vector holds this character.
fn alphabet_contains(alphabet: &Vec<char>, c: char) -> (b: bool)
    ensures
        b == alphabet@.contains(c),
{
    let mut k: usize = 0;
    loop
        invariant
            k <= alphabet@.len(),
            forall|j: int| 0 <= j < k ==> alphabet@[j] != c,
        decreases alphabet@.len() - k,
    {
        if k < alphabet.len() {
            if alphabet[k] == c {
                return true;
            }
            k = k + 1;
        } else {
            proof {
                assert(!alphabet@.contains(c));
            }
            return false;
        }
    }
}

/// The index of the first transition leaving the state named `name` on `c`,
/// or nothing.
fn find_transition(trs: &Vec<Transition>, c: char, name: &String) -> (r: Option<usize>)
    ensures
        match r {
            Some(m) => m < trs@.len() && lookup_transition(trs.deep_view(), c, name@, 0) == Some(
                trs.deep_view()[m as int],
            ),
            None => lookup_transition(trs.deep_view(), c, name@, 0) is None,
        },
{
    let mut k: usize = 0;
    loop
        invariant
            k <= trs@.len(),
            lookup_transition(trs.deep_view(), c, name@, 0) == lookup_transition(
                trs.deep_view(),
                c,
                name@,
                k as int,
            ),
        decreases trs@.len() - k,
    {
        if k < trs.len() {
            let t = &trs[k];
            if t.input == c && string_eq(state_name_ref(&t.start_state), name) {
                return Some(k);
            }
            k = k + 1;
        } else {
            return None;
        }
    }
}

/// Whether the two strings hold the same characters.
fn string_eq(a: &String, b: &String) -> (r: bool)
    ensures
        r == (a@ == b@),
{
    a.eq(b)
}

impl FSM {
    /// Runs the automaton over the input, one character at a time, starting
    /// at its start state: the result says whether the final state is
    /// accepting, and a character outside the alphabet fails the run at once,
    /// before any later character is looked at.
    pub fn run(&self, input: String) -> (r: Result<bool, FSMError>)
        requires
            self@.wf(),
        ensures
            run_result_view(r) == spec_run(self@, input@),
    {
        let s = input.as_str();
        let len = s.unicode_len();
        let mut current: State = clone_state(&self.start_state);
        let mut idx: usize = 0;
        proof {
            assert(input@.skip(0) =~= input@);
            assert(state_names(self@).contains(current@.name));
        }
        loop
            invariant
                self@.wf(),
                s@ == input@,
                len as nat == input@.len(),
                idx <= len,
                state_names(self@).contains(current@.name),
                spec_run(self@, input@) == run_from(self@, current@, input@.skip(idx as int)),
            decreases len - idx,
        {
            if idx < len {
                let c = s.get_char(idx);
                proof {
                    assert(input@.skip(idx as int)[0] == input@[idx as int]);
                }
                if !alphabet_contains(&self.input_alphabet, c) {
                    return Err(FSMError::CharNotInInputAlphabet(c));
                }
                proof {
                    assert(has_entry(self@.transitions, c, current@.name));
                    lemma_lookup_transition_finds(self@.transitions, c, current@.name, 0);
                }
                let m = find_transition(&self.transitions, c, state_name_ref(&current)).unwrap();
                let next = clone_state(&self.transitions[m].end_state);
                proof {
                    assert(input@.skip(idx as int).drop_first() =~= input@.skip(idx as int + 1));
                    assert(state_names(self@).contains(next@.name));
                }
                current = next;
                idx = idx + 1;
            } else {
                proof {
                    assert(input@.skip(idx as int) =~= Seq::<char>::empty());
                }
                return Ok(state_is_accepting(&current));
            }
        }
    }
}

/// The view of a validation outcome.
pub open spec fn validate_result_view(r: Result<FSM, FSMError>) -> Result<FsmView, FsmErrorView> {
    match r {
        Ok(f) => Ok(f@),
        Err(e) => Err(e@),
    }
}

/// A borrowed view of the declared state's name.
fn parsed_state_name_ref(d: &ParsedState) -> (r: &String)
    ensures
        r@ == d@.name,
{
    match d {
        ParsedState::State(name) => name,
        ParsedState::AcceptState(name) => name,
    }
}

/// The resolved identity of one declaration: same name, same tag.
fn resolve_decl(d: &ParsedState) -> (r: State)
    ensures
        r@ == d@,
{
    match d {
        ParsedState::State(name) => State::State(name.clone()),
        ParsedState::AcceptState(name) => State::AcceptState(name.clone()),
    }
}

/// A fresh declaration equal to the given one.
fn clone_parsed_transition(t: &ParsedTransition) -> (r: ParsedTransition)
    ensures
        r@ == t@,
{
    ParsedTransition {
        input: t.input,
        start_state: t.start_state.clone(),
        end_state: t.end_state.clone(),
    }
}

/// Whether some already-resolved state carries this name.
fn contains_state_name(states: &Vec<State>, name: &String) -> (b: bool)
    ensures
        b == contains_name(states.deep_view(), name@),
{
    let mut k: usize = 0;
    loop
        invariant
            k <= states@.len(),
            forall|j: int| 0 <= j < k ==> states.deep_view()[j].name != name@,
        decreases states@.len() - k,
    {
        if k < states.len() {
            if string_eq(state_name_ref(&states[k]), name) {
                proof {
                    assert(states.deep_view()[k as int].name == name@);
                }
                return true;
            }
            k = k + 1;
        } else {
            return false;
        }
    }
}

/// The index of the first declared transition at or after `from` that leaves
/// the state named `name` on `c`, or nothing.
fn find_decl_match(trs: &Vec<ParsedTransition>, c: char, name: &String, from: usize) -> (r: Option<
    usize,
>)
    requires
        from <= trs@.len(),
    ensures
        match r {
            Some(m) => from <= m < trs@.len() && first_match_from(
                trs.deep_view(),
                c,
                name@,
                from as int,
            ) == Some(m as int),
            None => first_match_from(trs.deep_view(), c, name@, from as int) is None,
        },
{
    let mut k: usize = from;
    loop
        invariant
            from <= k <= trs@.len(),
            first_match_from(trs.deep_view(), c, name@, from as int) == first_match_from(
                trs.deep_view(),
                c,
                name@,
                k as int,
            ),
        decreases trs@.len() - k,
    {
        if k < trs.len() {
            let t = &trs[k];
            if t.input == c && string_eq(&t.start_state, name) {
                return Some(k);
            }
            k = k + 1;
        } else {
            return None;
        }
    }
}

/// The index of the first resolved state carrying this name, or nothing.
fn find_state_index(states: &Vec<State>, name: &String) -> (r: Option<usize>)
    ensures
        match r {
            Some(j) => j < states@.len() && lookup_state(states.deep_view(), name@, 0) == Some(
                states.deep_view()[j as int],
            ),
            None => lookup_state(states.deep_view(), name@, 0) is None,
        },
{
    let mut k: usize = 0;
    loop
        invariant
            k <= states@.len(),
            lookup_state(states.deep_view(), name@, 0) == lookup_state(
                states.deep_view(),
                name@,
                k as int,
            ),
        decreases states@.len() - k,
    {
        if k < states.len() {
            if string_eq(state_name_ref(&states[k]), name) {
                return Some(k);
            }
            k = k + 1;
        } else {
            return None;
        }
    }
}

/// A name is declared exactly when it survives into the resolved state set.
proof fn lemma_resolved_contains(decls: Seq<StateView>, n: Seq<char>)
    ensures
        contains_name(resolve_states(decls), n) == contains_name(decls, n),
    decreases decls.len(),
{
    if decls.len() == 0 {
    } else {
        let prefix = decls.drop_last();
        let last = decls.last();
        lemma_resolved_contains(prefix, n);
        lemma_resolved_contains(prefix, last.name);
        let res = resolve_states(decls);
        let resp = resolve_states(prefix);
        if contains_name(prefix, n) {
            let k = choose|k: int| 0 <= k < prefix.len() && prefix[k].name == n;
            assert(decls[k].name == n);
            assert(contains_name(decls, n));
            let j = choose|j: int| 0 <= j < resp.len() && resp[j].name == n;
            assert(res[j].name == n);
            assert(contains_name(res, n));
        } else if last.name == n {
            assert(decls[decls.len() - 1].name == n);
            assert(contains_name(decls, n));
            if contains_name(prefix, last.name) {
                assert(contains_name(prefix, n));
            } else {
                assert(res[res.len() - 1].name == n);
                assert(contains_name(res, n));
            }
        } else {
            if contains_name(decls, n) {
                let k = choose|k: int| 0 <= k < decls.len() && decls[k].name == n;
                if k < decls.len() - 1 {
                    assert(prefix[k].name == n);
                    assert(contains_name(prefix, n));
                } else {
                    assert(last.name == n);
                }
                assert(false);
            }
            if contains_name(res, n) {
                let k = choose|k: int| 0 <= k < res.len() && res[k].name == n;
                if contains_name(prefix, last.name) {
                    assert(resp[k].name == n);
                    assert(contains_name(resp, n));
                } else {
                    if k < res.len() - 1 {
                        assert(resp[k].name == n);
                        assert(contains_name(resp, n));
                    } else {
                        assert(res[k] == last);
                    }
                }
                assert(false);
            }
        }
    }
}

/// Validates a parsed specification and builds the automaton, or reports the
/// first violation in a fixed order: an unresolved start-state name first,
/// then — walking the cross product of the derived alphabet (in
/// first-appearance order) and the resolved states (in first-declaration
/// order), alphabet-major — a missing transition, a duplicated (symbol,
/// state) pair, or an unresolved end-state name. No partial automaton is
/// ever observable: either every check passes and a well-formed [`FSM`]
/// comes back, or only the error does.
pub fn validate_parsed_fsm(parsed_fsm: ParsedFSM) -> (r: Result<FSM, FSMError>)
    ensures
        validate_result_view(r) == spec_validate(parsed_fsm@),
        r matches Ok(machine) ==> machine@.wf(),
{
    let ghost p = parsed_fsm@;

    // Resolve the declared states (first declaration of a name wins) and the
    // start state (the latest declaration of the start name wins).
    let mut states: Vec<State> = Vec::new();
    let mut start_opt: Option<State> = None;
    let mut d: usize = 0;
    proof {
        assert(p.states.take(0) =~= Seq::<StateView>::empty());
        assert(states.deep_view() =~= resolve_states(p.states.take(0)));
    }
    while d < parsed_fsm.states.len()
        invariant
            d <= parsed_fsm.states@.len(),
            parsed_fsm@ == p,
            p.states.len() == parsed_fsm.states@.len(),
            states.deep_view() == resolve_states(p.states.take(d as int)),
            start_opt.deep_view() == resolve_start(p.states.take(d as int), p.start),
        decreases parsed_fsm.states@.len() - d,
    {
        let decl = &parsed_fsm.states[d];
        proof {
            assert(p.states.take(d as int + 1).drop_last() =~= p.states.take(d as int));
            assert(p.states.take(d as int + 1).last() == p.states[d as int]);
            lemma_resolved_contains(p.states.take(d as int), decl@.name);
        }
        if !contains_state_name(&states, parsed_state_name_ref(decl)) {
            let ghost old_states = states;
            states.push(resolve_decl(decl));
            proof {
                assert(states.deep_view() =~= old_states.deep_view().push(decl@));
            }
        }
        if string_eq(parsed_state_name_ref(decl), &parsed_fsm.start_state) {
            start_opt = Some(resolve_decl(decl));
        }
        d = d + 1;
    }
    proof {
        assert(p.states.take(parsed_fsm.states@.len() as int) =~= p.states);
    }

    // The start-state name must resolve before anything else is examined.
    if start_opt.is_none() {
        return Err(FSMError::NoStartState);
    }

    // Derive the input alphabet: the distinct symbols of the declared
    // transitions, in first-appearance order.
    let mut alphabet: Vec<char> = Vec::new();
    let mut t: usize = 0;
    proof {
        assert(p.transitions.take(0) =~= Seq::<TransitionDeclView>::empty());
        assert(alphabet@ =~= derive_alphabet(p.transitions.take(0)));
    }
    while t < parsed_fsm.transitions.len()
        invariant
            t <= parsed_fsm.transitions@.len(),
            parsed_fsm@ == p,
            p.transitions.len() == parsed_fsm.transitions@.len(),
            alphabet@ == derive_alphabet(p.transitions.take(t as int)),
        decreases parsed_fsm.transitions@.len() - t,
    {
        proof {
            assert(p.transitions.take(t as int + 1).drop_last() =~= p.transitions.take(t as int));
            assert(p.transitions.take(t as int + 1).last() == p.transitions[t as int]);
        }
        let c = parsed_fsm.transitions[t].input;
        if !alphabet_contains(&alphabet, c) {
            alphabet.push(c);
        }
        t = t + 1;
    }
    proof {
        assert(p.transitions.take(parsed_fsm.transitions@.len() as int) =~= p.transitions);
    }

    // Check the cross product of the alphabet and the resolved states, in a
    // fixed alphabet-major order, collecting one resolved transition per
    // (symbol, state) pair.
    let ghost sts = states.deep_view();
    let ghost alph = alphabet@;
    let mut entries: Vec<Transition> = Vec::new();
    let mut a: usize = 0;
    proof {
        assert(entries.deep_view() =~= Seq::<TransitionView>::empty());
    }
    while a < alphabet.len()
        invariant
            a <= alphabet@.len(),
            parsed_fsm@ == p,
            states.deep_view() == sts,
            alphabet@ == alph,
            sts == resolve_states(p.states),
            alph == derive_alphabet(p.transitions),
            start_opt.deep_view() == resolve_start(p.states, p.start),
            start_opt is Some,
            build_entries(p.transitions, sts, alph, 0, 0) == (match build_entries(
                p.transitions,
                sts,
                alph,
                a as int,
                0,
            ) {
                Err(e) => Err::<Seq<TransitionView>, FsmErrorView>(e),
                Ok(rest) => Ok(entries.deep_view() + rest),
            }),
        decreases alphabet@.len() - a,
    {
        let c = alphabet[a];
        let mut k: usize = 0;
        while k < states.len()
            invariant
                a < alphabet@.len(),
                k <= states@.len(),
                c == alph[a as int],
                parsed_fsm@ == p,
                states.deep_view() == sts,
                states@.len() == sts.len(),
                alphabet@ == alph,
                sts == resolve_states(p.states),
                alph == derive_alphabet(p.transitions),
                start_opt.deep_view() == resolve_start(p.states, p.start),
                start_opt is Some,
                build_entries(p.transitions, sts, alph, 0, 0) == (match build_entries(
                    p.transitions,
                    sts,
                    alph,
                    a as int,
                    k as int,
                ) {
                    Err(e) => Err::<Seq<TransitionView>, FsmErrorView>(e),
                    Ok(rest) => Ok(entries.deep_view() + rest),
                }),
            decreases states@.len() - k,
        {
            let sname = state_name_ref(&states[k]);
            proof {
                assert(sname@ == sts[k as int].name);
            }
            let tlen = parsed_fsm.transitions.len();
            match find_decl_match(&parsed_fsm.transitions, c, sname, 0) {
                None => {
                    proof {
                        assert(build_entries(p.transitions, sts, alph, a as int, k as int) == Err::<
                            Seq<TransitionView>,
                            FsmErrorView,
                        >(FsmErrorView::MissingTransition(alph[a as int], sts[k as int])));
                    }
                    return Err(FSMError::MissingTransition(c, clone_state(&states[k])));
                },
                Some(m0) => {
                    proof {
                        assert(m0 < tlen);
                    }
                    match find_decl_match(&parsed_fsm.transitions, c, sname, m0 + 1) {
                        Some(m1) => {
                            proof {
                                assert(build_entries(
                                    p.transitions,
                                    sts,
                                    alph,
                                    a as int,
                                    k as int,
                                ) == Err::<Seq<TransitionView>, FsmErrorView>(
                                    FsmErrorView::ExtraTransition(
                                        p.transitions[m0 as int],
                                        p.transitions[m1 as int],
                                    ),
                                ));
                            }
                            return Err(
                                FSMError::ExtraTransition(
                                    clone_parsed_transition(&parsed_fsm.transitions[m0]),
                                    clone_parsed_transition(&parsed_fsm.transitions[m1]),
                                ),
                            );
                        },
                        None => {
                            match find_state_index(
                                &states,
                                &parsed_fsm.transitions[m0].end_state,
                            ) {
                                None => {
                                    proof {
                                        assert(build_entries(
                                            p.transitions,
                                            sts,
                                            alph,
                                            a as int,
                                            k as int,
                                        ) == Err::<Seq<TransitionView>, FsmErrorView>(
                                            FsmErrorView::UnknownState(
                                                p.transitions[m0 as int].end,
                                            ),
                                        ));
                                    }
                                    return Err(
                                        FSMError::UnknownState(
                                            parsed_fsm.transitions[m0].end_state.clone(),
                                        ),
                                    );
                                },
                                Some(j) => {
                                    let ghost old_entries = entries;
                                    let entry = Transition {
                                        input: c,
                                        start_state: clone_state(&states[k]),
                                        end_state: clone_state(&states[j]),
                                    };
                                    entries.push(entry);
                                    proof {
                                        assert(entries.deep_view() =~= old_entries.deep_view().push(
                                            entry@,
                                        ));
                                        assert(build_entries(
                                            p.transitions,
                                            sts,
                                            alph,
                                            a as int,
                                            k as int,
                                        ) == (match build_entries(
                                            p.transitions,
                                            sts,
                                            alph,
                                            a as int,
                                            k as int + 1,
                                        ) {
                                            Err(e) => Err::<Seq<TransitionView>, FsmErrorView>(e),
                                            Ok(rest) => Ok(seq![entry@] + rest),
                                        }));
                                        let rec = build_entries(
                                            p.transitions,
                                            sts,
                                            alph,
                                            a as int,
                                            k as int + 1,
                                        );
                                        if rec is Ok {
                                            let rest = rec->Ok_0;
                                            assert(old_entries.deep_view() + (seq![entry@] + rest)
                                                =~= entries.deep_view() + rest);
                                        }
                                    }
                                    k = k + 1;
                                },
                            }
                        },
                    }
                },
            }
        }
        proof {
            assert(build_entries(p.transitions, sts, alph, a as int, k as int)
                == build_entries(p.transitions, sts, alph, a as int + 1, 0));
        }
        a = a + 1;
    }
    proof {
        assert(build_entries(p.transitions, sts, alph, a as int, 0) == Ok::<
            Seq<TransitionView>,
            FsmErrorView,
        >(Seq::empty()));
        assert(entries.deep_view() + Seq::<TransitionView>::empty() =~= entries.deep_view());
    }
    let start_state = start_opt.unwrap();
    let machine = FSM { start_state, transitions: entries, input_alphabet: alphabet };
    proof {
        assert(spec_validate(p) == Ok::<FsmView, FsmErrorView>(machine@));
        lemma_validate_wf(p);
    }
    Ok(machine)
}

/// A lookup from index `k` succeeds as soon as some transition at or after
/// `k` matches the (symbol, state name) pair.
proof fn lemma_lookup_transition_finds(trs: Seq<TransitionView>, c: char, name: Seq<char>, k: int)
    requires
        0 <= k,
        exists|m: int| k <= m < trs.len() && entry_matches(trs[m], c, name),
    ensures
        lookup_transition(trs, c, name, k) is Some,
    decreases trs.len() - k,
{
    let m = choose|m: int| k <= m < trs.len() && entry_matches(trs[m], c, name);
    if k < trs.len() && !entry_matches(trs[k], c, name) {
        assert(k + 1 <= m);
        lemma_lookup_transition_finds(trs, c, name, k + 1);
    }
}

/// A search from `k` fails exactly when no declaration at or after `k`
/// matches the pair.
proof fn lemma_first_match_none(trs: Seq<TransitionDeclView>, c: char, name: Seq<char>, k: int)
    requires
        0 <= k,
    ensures
        (first_match_from(trs, c, name, k) is None) == (forall|m: int|
            k <= m < trs.len() ==> !decl_matches(trs[m], c, name)),
    decreases trs.len() - k,
{
    if k < trs.len() {
        lemma_first_match_none(trs, c, name, k + 1);
    }
}

/// A successful search from `k` returns the first matching index at or
/// after `k`.
proof fn lemma_first_match_some(trs: Seq<TransitionDeclView>, c: char, name: Seq<char>, k: int)
    requires
        0 <= k,
        first_match_from(trs, c, name, k) is Some,
    ensures
        first_match_from(trs, c, name, k) matches Some(m) && k <= m < trs.len() && decl_matches(
            trs[m],
            c,
            name,
        ) && (forall|j: int| k <= j < m ==> !decl_matches(trs[j], c, name)),
    decreases trs.len() - k,
{
    if k < trs.len() && !decl_matches(trs[k], c, name) {
        lemma_first_match_some(trs, c, name, k + 1);
    }
}

/// A state lookup from `k` succeeds exactly when some state at or after `k`
/// carries the name, and then returns such a state.
proof fn lemma_lookup_state_iff(states: Seq<StateView>, name: Seq<char>, k: int)
    requires
        0 <= k,
    ensures
        (lookup_state(states, name, k) is Some) == (exists|j: int|
            k <= j < states.len() && states[j].name == name),
        lookup_state(states, name, k) matches Some(v) ==> v.name == name && exists|j: int|
            k <= j < states.len() && states[j] == v,
    decreases states.len() - k,
{
    if k < states.len() {
        if states[k].name == name {
            assert(states[k] == lookup_state(states, name, k).unwrap());
        } else {
            lemma_lookup_state_iff(states, name, k + 1);
        }
    }
}

/// A successful transition lookup returns one of the transitions, and it
/// matches the pair.
proof fn lemma_lookup_transition_member(trs: Seq<TransitionView>, c: char, name: Seq<char>, k: int)
    requires
        0 <= k,
        lookup_transition(trs, c, name, k) is Some,
    ensures
        lookup_transition(trs, c, name, k) matches Some(t) && entry_matches(t, c, name) && exists|
            m: int,
        | k <= m < trs.len() && trs[m] == t,
    decreases trs.len() - k,
{
    if k < trs.len() && !entry_matches(trs[k], c, name) {
        lemma_lookup_transition_member(trs, c, name, k + 1);
    }
}

/// The start-state name resolves exactly when some declaration carries it,
/// and the resolved state then carries that very name.
proof fn lemma_resolve_start_iff(decls: Seq<StateView>, name: Seq<char>)
    ensures
        (resolve_start(decls, name) is Some) == contains_name(decls, name),
        resolve_start(decls, name) matches Some(v) ==> v.name == name,
    decreases decls.len(),
{
    if decls.len() == 0 {
    } else {
        let prefix = decls.drop_last();
        lemma_resolve_start_iff(prefix, name);
        if decls.last().name == name {
            assert(decls[decls.len() - 1].name == name);
            assert(contains_name(decls, name));
        } else {
            if contains_name(prefix, name) {
                let k = choose|k: int| 0 <= k < prefix.len() && prefix[k].name == name;
                assert(decls[k].name == name);
                assert(contains_name(decls, name));
            }
            if contains_name(decls, name) {
                let k = choose|k: int| 0 <= k < decls.len() && decls[k].name == name;
                assert(k < decls.len() - 1);
                assert(prefix[k].name == name);
                assert(contains_name(prefix, name));
            }
        }
    }
}

/// No two resolved states share a name.
proof fn lemma_resolve_states_distinct(decls: Seq<StateView>)
    ensures
        forall|x: int, y: int|
            0 <= x < y < resolve_states(decls).len() ==> resolve_states(decls)[x].name
                != resolve_states(decls)[y].name,
    decreases decls.len(),
{
    if decls.len() > 0 {
        let prefix = decls.drop_last();
        let last = decls.last();
        lemma_resolve_states_distinct(prefix);
        lemma_resolved_contains(prefix, last.name);
        let res = resolve_states(decls);
        let resp = resolve_states(prefix);
        if !contains_name(prefix, last.name) {
            assert forall|x: int, y: int| 0 <= x < y < res.len() implies res[x].name
                != res[y].name by {
                if y < res.len() - 1 {
                    assert(res[x] == resp[x] && res[y] == resp[y]);
                } else {
                    assert(res[y] == last);
                    assert(res[x] == resp[x]);
                    assert(resp[x].name == res[x].name);
                    if res[x].name == last.name {
                        assert(contains_name(resp, last.name));
                        lemma_resolved_contains(prefix, last.name);
                        assert(false);
                    }
                }
            }
        }
    }
}

/// A symbol is in the derived alphabet exactly when some declared transition
/// carries it.
proof fn lemma_derive_alphabet_contains(trs: Seq<TransitionDeclView>, c: char)
    ensures
        derive_alphabet(trs).contains(c) == (exists|m: int|
            0 <= m < trs.len() && trs[m].input == c),
    decreases trs.len(),
{
    if trs.len() > 0 {
        let prefix = trs.drop_last();
        let last = trs.last();
        lemma_derive_alphabet_contains(prefix, c);
        let al = derive_alphabet(trs);
        let alp = derive_alphabet(prefix);
        if exists|m: int| 0 <= m < prefix.len() && prefix[m].input == c {
            let m = choose|m: int| 0 <= m < prefix.len() && prefix[m].input == c;
            assert(trs[m].input == c);
            let j = choose|j: int| 0 <= j < alp.len() && alp[j] == c;
            assert(al[j] == c);
            assert(al.contains(c));
        } else if last.input == c {
            assert(trs[trs.len() - 1].input == c);
            if !alp.contains(last.input) {
                assert(al[al.len() - 1] == c);
                assert(al.contains(c));
            }
        } else {
            if al.contains(c) {
                let j = choose|j: int| 0 <= j < al.len() && al[j] == c;
                if alp.contains(last.input) {
                    assert(alp[j] == c);
                } else {
                    if j < al.len() - 1 {
                        assert(alp[j] == c);
                        assert(alp.contains(c));
                    } else {
                        assert(al[j] == last.input);
                    }
                }
                assert(false);
            }
            if exists|m: int| 0 <= m < trs.len() && trs[m].input == c {
                let m = choose|m: int| 0 <= m < trs.len() && trs[m].input == c;
                assert(m < trs.len() - 1);
                assert(prefix[m].input == c);
                assert(false);
            }
        }
    }
}

/// The derived alphabet holds no symbol twice.
proof fn lemma_derive_alphabet_distinct(trs: Seq<TransitionDeclView>)
    ensures
        forall|x: int, y: int|
            0 <= x < y < derive_alphabet(trs).len() ==> derive_alphabet(trs)[x]
                != derive_alphabet(trs)[y],
    decreases trs.len(),
{
    if trs.len() > 0 {
        let prefix = trs.drop_last();
        let last = trs.last();
        lemma_derive_alphabet_distinct(prefix);
        let al = derive_alphabet(trs);
        let alp = derive_alphabet(prefix);
        if !alp.contains(last.input) {
            assert forall|x: int, y: int| 0 <= x < y < al.len() implies al[x] != al[y] by {
                if y < al.len() - 1 {
                    assert(al[x] == alp[x] && al[y] == alp[y]);
                } else {
                    assert(al[y] == last.input);
                    assert(al[x] == alp[x]);
                    if al[x] == last.input {
                        assert(alp.contains(last.input));
                        assert(false);
                    }
                }
            }
        }
    }
}

/// What a successful cross-product walk from `(a, k)` guarantees about the
/// transitions it built:
///
/// - coverage: every remaining (symbol, state) pair has an entry;
/// - shape: every entry belongs to a remaining pair, its start and end are
///   resolved states, and no two entries share their (symbol, start name)
///   key;
/// - source exactness: every remaining pair has exactly one matching source
///   declaration, and its end-state name resolves.
#[verifier::rlimit(50)]
proof fn lemma_build_entries_ok(
    trs: Seq<TransitionDeclView>,
    states: Seq<StateView>,
    alphabet: Seq<char>,
    a: int,
    k: int,
)
    requires
        0 <= a <= alphabet.len(),
        0 <= k <= states.len(),
        build_entries(trs, states, alphabet, a, k) is Ok,
        forall|x: int, y: int| 0 <= x < y < alphabet.len() ==> alphabet[x] != alphabet[y],
        forall|x: int, y: int| 0 <= x < y < states.len() ==> states[x].name != states[y].name,
    ensures
        build_entries(trs, states, alphabet, a, k) matches Ok(entries) && {
            &&& (forall|a2: int, k2: int|
                a <= a2 < alphabet.len() && 0 <= k2 < states.len() && (a2 > a || k2 >= k)
                    ==> has_entry(entries, alphabet[a2], states[k2].name))
            &&& (forall|m: int|
                0 <= m < entries.len() ==> exists|a2: int, k2: int|
                    a <= a2 < alphabet.len() && 0 <= k2 < states.len() && (a2 > a || k2 >= k) && (
                    #[trigger] entries[m]).input == alphabet[a2] && entries[m].start == states[k2]
                        && (exists|k3: int| 0 <= k3 < states.len() && entries[m].end == states[k3]))
            &&& (forall|m1: int, m2: int|
                0 <= m1 < m2 < entries.len()
                    ==> !((#[trigger] entries[m1]).input == (#[trigger] entries[m2]).input
                    && entries[m1].start.name == entries[m2].start.name))
            &&& (forall|a2: int, k2: int|
                a <= a2 < alphabet.len() && 0 <= k2 < states.len() && (a2 > a || k2 >= k) ==> (
                #[trigger] first_match_from(trs, alphabet[a2], states[k2].name, 0)) is Some
                    && first_match_from(
                    trs,
                    alphabet[a2],
                    states[k2].name,
                    first_match_from(trs, alphabet[a2], states[k2].name, 0).unwrap() + 1,
                ) is None && lookup_state(
                    states,
                    trs[first_match_from(trs, alphabet[a2], states[k2].name, 0).unwrap()].end,
                    0,
                ) is Some)
        },
    decreases alphabet.len() - a, states.len() - k,
{
    let r = build_entries(trs, states, alphabet, a, k);
    if a >= alphabet.len() {
        // no pair is left and no entry was built
    } else if k >= states.len() {
        lemma_build_entries_ok(trs, states, alphabet, a + 1, 0);
    } else {
        let c = alphabet[a];
        let s = states[k];
        lemma_first_match_some(trs, c, s.name, 0);
        let m0 = first_match_from(trs, c, s.name, 0).unwrap();
        let end = lookup_state(states, trs[m0].end, 0).unwrap();
        let head = TransitionView { input: c, start: s, end };
        lemma_build_entries_ok(trs, states, alphabet, a, k + 1);
        let rest = build_entries(trs, states, alphabet, a, k + 1)->Ok_0;
        let entries = r->Ok_0;
        assert(entries == seq![head] + rest);
        assert(seq![head].len() == 1);
        assert((seq![head] + rest)[0] == head);
        assert(entries[0] == head);
        assert forall|m: int| 1 <= m < entries.len() implies entries[m] == rest[m - 1] by {}
        assert(entries.len() == rest.len() + 1);
        lemma_lookup_state_iff(states, trs[m0].end, 0);
        let j_end = choose|j: int| 0 <= j < states.len() && states[j] == end;

        // coverage
        assert forall|a2: int, k2: int|
            a <= a2 < alphabet.len() && 0 <= k2 < states.len() && (a2 > a || k2 >= k) implies has_entry(
            entries,
            alphabet[a2],
            states[k2].name,
        ) by {
            if a2 == a && k2 == k {
                assert(entry_matches(entries[0], alphabet[a2], states[k2].name));
            } else {
                assert(a2 > a || k2 >= k + 1);
                assert(has_entry(rest, alphabet[a2], states[k2].name));
                let m = choose|m: int|
                    0 <= m < rest.len() && entry_matches(rest[m], alphabet[a2], states[k2].name);
                assert(entries[m + 1] == rest[m]);
                assert(entry_matches(entries[m + 1], alphabet[a2], states[k2].name));
            }
        }

        // shape: every entry belongs to a remaining pair
        assert forall|m: int| 0 <= m < entries.len() implies exists|a2: int, k2: int|
            a <= a2 < alphabet.len() && 0 <= k2 < states.len() && (a2 > a || k2 >= k) && (
            #[trigger] entries[m]).input == alphabet[a2] && entries[m].start == states[k2] && (
        exists|k3: int| 0 <= k3 < states.len() && entries[m].end == states[k3]) by {
            if m == 0 {
                assert(entries[0].input == alphabet[a] && entries[0].start == states[k]);
                assert(entries[0].end == states[j_end]);
                assert(a <= a < alphabet.len() && 0 <= k < states.len() && (a > a || k >= k)
                    && entries[0].input == alphabet[a] && entries[0].start == states[k] && (exists|
                    k3: int,
                | 0 <= k3 < states.len() && entries[0].end == states[k3]));
            } else {
                assert(entries[m] == rest[m - 1]);
                let (a2, k2) = choose|a2: int, k2: int|
                    a <= a2 < alphabet.len() && 0 <= k2 < states.len() && (a2 > a || k2 >= k + 1)
                        && (#[trigger] rest[m - 1]).input == alphabet[a2] && rest[m - 1].start
                        == states[k2] && (exists|k3: int|
                        0 <= k3 < states.len() && rest[m - 1].end == states[k3]);
                assert(a <= a2 < alphabet.len() && 0 <= k2 < states.len() && (a2 > a || k2 >= k)
                    && entries[m].input == alphabet[a2] && entries[m].start == states[k2] && (
                exists|k3: int| 0 <= k3 < states.len() && entries[m].end == states[k3]));
            }
        }

        // no two entries share a key
        assert forall|m1: int, m2: int| 0 <= m1 < m2 < entries.len() implies !((
        #[trigger] entries[m1]).input == (#[trigger] entries[m2]).input && entries[m1].start.name
            == entries[m2].start.name) by {
            if m1 == 0 {
                let (a2, k2) = choose|a2: int, k2: int|
                    a <= a2 < alphabet.len() && 0 <= k2 < states.len() && (a2 > a || k2 >= k + 1)
                        && (#[trigger] rest[m2 - 1]).input == alphabet[a2] && rest[m2 - 1].start
                        == states[k2] && (exists|k3: int|
                        0 <= k3 < states.len() && rest[m2 - 1].end == states[k3]);
                assert(entries[m2] == rest[m2 - 1]);
                if a2 > a {
                    assert(alphabet[a] != alphabet[a2]);
                } else {
                    assert(k2 >= k + 1);
                    assert(states[k].name != states[k2].name);
                }
            } else {
                assert(entries[m1] == rest[m1 - 1] && entries[m2] == rest[m2 - 1]);
            }
        }
    }
}

/// Validation only ever yields a well-formed automaton.
///
/// In particular the transition relation of the result is total and
/// deterministic over the automaton's alphabet and every state it can stand
/// in, so a run can never get stuck.
#[verifier::rlimit(50)]
pub proof fn lemma_validate_wf(p: ParsedFsmView)
    requires
        spec_validate(p) is Ok,
    ensures
        spec_validate(p) matches Ok(fsm) && fsm.wf(),
{
    let start = resolve_start(p.states, p.start).unwrap();
    let states = resolve_states(p.states);
    let alphabet = derive_alphabet(p.transitions);
    lemma_resolve_states_distinct(p.states);
    lemma_derive_alphabet_distinct(p.transitions);
    lemma_build_entries_ok(p.transitions, states, alphabet, 0, 0);
    let entries = build_entries(p.transitions, states, alphabet, 0, 0)->Ok_0;
    let fsm = FsmView { start, transitions: entries, alphabet };
    assert(spec_validate(p) == Ok::<FsmView, FsmErrorView>(fsm));
    assert(fsm.transitions == entries);

    // every transition's symbol is in the alphabet
    assert forall|m: int| 0 <= m < fsm.transitions.len() implies fsm.alphabet.contains(
        #[trigger] fsm.transitions[m].input,
    ) by {
        let (a2, k2) = choose|a2: int, k2: int|
            0 <= a2 < alphabet.len() && 0 <= k2 < states.len() && (a2 > 0 || k2 >= 0) && (
            #[trigger] entries[m]).input == alphabet[a2] && entries[m].start == states[k2] && (
            exists|k3: int| 0 <= k3 < states.len() && entries[m].end == states[k3]);
        assert(fsm.alphabet[a2] == fsm.transitions[m].input);
    }

    // determinism
    assert forall|x: int, y: int|
        0 <= x < fsm.transitions.len() && 0 <= y < fsm.transitions.len() && x != y implies !((
    #[trigger] fsm.transitions[x]).input == (#[trigger] fsm.transitions[y]).input
        && fsm.transitions[x].start.name == fsm.transitions[y].start.name) by {
        if x < y {
            assert(!(entries[x].input == entries[y].input && entries[x].start.name
                == entries[y].start.name));
        } else {
            assert(!(entries[y].input == entries[x].input && entries[y].start.name
                == entries[x].start.name));
        }
    }

    // totality over every name the automaton can stand in
    assert forall|n: Seq<char>, c: char|
        #[trigger] state_names(fsm).contains(n) && #[trigger] fsm.alphabet.contains(c) implies has_entry(
        fsm.transitions,
        c,
        n,
    ) by {
        let a2 = choose|a2: int| 0 <= a2 < alphabet.len() && alphabet[a2] == c;
        if n == fsm.start.name {
            lemma_resolve_start_iff(p.states, p.start);
            assert(start.name == p.start);
            lemma_resolved_contains(p.states, p.start);
            assert(contains_name(states, n));
            let k2 = choose|k2: int| 0 <= k2 < states.len() && states[k2].name == n;
            assert(has_entry(entries, alphabet[a2], states[k2].name));
        } else {
            let m = choose|m: int|
                0 <= m < fsm.transitions.len() && (fsm.transitions[m].start.name == n
                    || fsm.transitions[m].end.name == n);
            let (a3, k3) = choose|a3: int, k3: int|
                0 <= a3 < alphabet.len() && 0 <= k3 < states.len() && (a3 > 0 || k3 >= 0) && (
                #[trigger] entries[m]).input == alphabet[a3] && entries[m].start == states[k3] && (
                exists|k4: int| 0 <= k4 < states.len() && entries[m].end == states[k4]);
            if fsm.transitions[m].start.name == n {
                assert(states[k3].name == n);
                assert(has_entry(entries, alphabet[a2], states[k3].name));
            } else {
                let k4 = choose|k4: int| 0 <= k4 < states.len() && entries[m].end == states[k4];
                assert(states[k4].name == n);
                assert(has_entry(entries, alphabet[a2], states[k4].name));
            }
        }
    }
}

/// Totality and determinism together: on a well-formed automaton, for every
/// state the machine can stand in and every symbol of its alphabet, exactly
/// one transition leaves that state on that symbol.
pub proof fn lemma_totality(fsm: FsmView, n: Seq<char>, c: char)
    requires
        fsm.wf(),
        state_names(fsm).contains(n),
        fsm.alphabet.contains(c),
    ensures
        exists|m: int|
            0 <= m < fsm.transitions.len() && entry_matches(#[trigger] fsm.transitions[m], c, n),
        forall|m1: int, m2: int|
            0 <= m1 < fsm.transitions.len() && 0 <= m2 < fsm.transitions.len() && entry_matches(
                #[trigger] fsm.transitions[m1],
                c,
                n,
            ) && entry_matches(#[trigger] fsm.transitions[m2], c, n) ==> m1 == m2,
{
    assert(has_entry(fsm.transitions, c, n));
    let w = choose|m: int|
        0 <= m < fsm.transitions.len() && entry_matches(fsm.transitions[m], c, n);
    assert(entry_matches(fsm.transitions[w], c, n));
    assert forall|m1: int, m2: int|
        0 <= m1 < fsm.transitions.len() && 0 <= m2 < fsm.transitions.len() && entry_matches(
            #[trigger] fsm.transitions[m1],
            c,
            n,
        ) && entry_matches(#[trigger] fsm.transitions[m2], c, n) implies m1 == m2 by {
        if m1 != m2 {
            assert(!(fsm.transitions[m1].input == fsm.transitions[m2].input
                && fsm.transitions[m1].start.name == fsm.transitions[m2].start.name));
        }
    }
}

/// Whether some declared transition carries this symbol.
pub open spec fn symbol_declared(p: ParsedFsmView, c: char) -> bool {
    exists|i: int| 0 <= i < p.transitions.len() && p.transitions[i].input == c
}

/// Whether some declared transition leaves the state named `name` on `c`.
pub open spec fn pair_covered(p: ParsedFsmView, c: char, name: Seq<char>) -> bool {
    exists|m: int| 0 <= m < p.transitions.len() && decl_matches(p.transitions[m], c, name)
}

/// Whether no two declared transitions share their (symbol, start name) pair.
pub open spec fn no_duplicate_pairs(p: ParsedFsmView) -> bool {
    forall|i: int, j: int|
        0 <= i < j < p.transitions.len() ==> !((#[trigger] p.transitions[i]).input == (
        #[trigger] p.transitions[j]).input && p.transitions[i].start == p.transitions[j].start)
}

/// Whether every declared (symbol, state) pair is covered by some declared
/// transition.
pub open spec fn all_pairs_covered(p: ParsedFsmView) -> bool {
    forall|c: char, name: Seq<char>|
        #[trigger] symbol_declared(p, c) && contains_name(p.states, name) ==> #[trigger] pair_covered(
            p,
            c,
            name,
        )
}

/// Whether every declared transition's end-state name is declared.
pub open spec fn all_targets_declared(p: ParsedFsmView) -> bool {
    forall|m: int|
        0 <= m < p.transitions.len() ==> contains_name(
            p.states,
            (#[trigger] p.transitions[m]).end,
        )
}

/// A failed cross-product walk failed for one of three reasons, and the
/// error it carries names real culprits: a missing transition names an
/// uncovered (alphabet symbol, resolved state) pair, an extra transition
/// carries two declarations sharing their key, and an unknown state carries
/// an end-state name that resolves to no state.
proof fn lemma_build_entries_err(
    trs: Seq<TransitionDeclView>,
    states: Seq<StateView>,
    alphabet: Seq<char>,
    a: int,
    k: int,
)
    requires
        0 <= a <= alphabet.len(),
        0 <= k <= states.len(),
        build_entries(trs, states, alphabet, a, k) is Err,
    ensures
        build_entries(trs, states, alphabet, a, k) matches Err(e) && {
            ||| (e matches FsmErrorView::MissingTransition(c, s) && exists|a2: int, k2: int|
                0 <= a2 < alphabet.len() && 0 <= k2 < states.len() && c == alphabet[a2] && s
                    == states[k2] && first_match_from(trs, alphabet[a2], states[k2].name, 0) is None)
            ||| (e matches FsmErrorView::ExtraTransition(d1, d2) && exists|i: int, j: int|
                0 <= i < j < trs.len() && trs[i] == d1 && trs[j] == d2 && d1.input == d2.input
                    && d1.start == d2.start)
            ||| (e matches FsmErrorView::UnknownState(nm) && exists|m: int|
                0 <= m < trs.len() && trs[m].end == nm && lookup_state(states, nm, 0) is None)
        },
    decreases alphabet.len() - a, states.len() - k,
{
    if a >= alphabet.len() {
        // a successful walk cannot have failed
    } else if k >= states.len() {
        lemma_build_entries_err(trs, states, alphabet, a + 1, 0);
    } else {
        let c = alphabet[a];
        let s = states[k];
        match first_match_from(trs, c, s.name, 0) {
            None => {
                assert(0 <= a < alphabet.len() && 0 <= k < states.len() && c == alphabet[a] && s
                    == states[k] && first_match_from(trs, alphabet[a], states[k].name, 0) is None);
            },
            Some(m0) => {
                lemma_first_match_some(trs, c, s.name, 0);
                match first_match_from(trs, c, s.name, m0 + 1) {
                    Some(m1) => {
                        lemma_first_match_some(trs, c, s.name, m0 + 1);
                        assert(0 <= m0 < m1 < trs.len() && trs[m0] == trs[m0] && trs[m1] == trs[m1]
                            && trs[m0].input == trs[m1].input && trs[m0].start == trs[m1].start);
                    },
                    None => {
                        match lookup_state(states, trs[m0].end, 0) {
                            None => {
                                assert(0 <= m0 < trs.len() && trs[m0].end == trs[m0].end
                                    && lookup_state(states, trs[m0].end, 0) is None);
                            },
                            Some(endv) => {
                                lemma_build_entries_err(trs, states, alphabet, a, k + 1);
                            },
                        }
                    },
                }
            },
        }
    }
}

/// Determinism: a specification in which two declared transitions share a
/// (symbol, start state) pair, with that start state declared, never
/// validates.
pub proof fn lemma_duplicate_never_validates(p: ParsedFsmView, i: int, j: int)
    requires
        0 <= i < j < p.transitions.len(),
        p.transitions[i].input == p.transitions[j].input,
        p.transitions[i].start == p.transitions[j].start,
        contains_name(p.states, p.transitions[i].start),
    ensures
        spec_validate(p) is Err,
{
    if spec_validate(p) is Ok {
        let states = resolve_states(p.states);
        let alphabet = derive_alphabet(p.transitions);
        lemma_resolve_states_distinct(p.states);
        lemma_derive_alphabet_distinct(p.transitions);
        lemma_build_entries_ok(p.transitions, states, alphabet, 0, 0);
        let c = p.transitions[i].input;
        let name = p.transitions[i].start;
        lemma_derive_alphabet_contains(p.transitions, c);
        assert(p.transitions[i].input == c);
        assert(alphabet.contains(c));
        let a2 = choose|a2: int| 0 <= a2 < alphabet.len() && alphabet[a2] == c;
        lemma_resolved_contains(p.states, name);
        assert(contains_name(states, name));
        let k2 = choose|k2: int| 0 <= k2 < states.len() && states[k2].name == name;
        assert(first_match_from(p.transitions, alphabet[a2], states[k2].name, 0) is Some);
        let m0 = first_match_from(p.transitions, alphabet[a2], states[k2].name, 0).unwrap();
        lemma_first_match_some(p.transitions, c, name, 0);
        lemma_first_match_none(p.transitions, c, name, m0 + 1);
        assert(decl_matches(p.transitions[i], c, name));
        assert(decl_matches(p.transitions[j], c, name));
        assert(m0 <= i);
        assert(false);
    }
}

/// Determinism, with the reported error pinned down: where the start state
/// resolves, every declared (symbol, state) pair is covered and every
/// end-state name is declared, a duplicated pair is reported as
/// `ExtraTransition`.
pub proof fn lemma_duplicate_reported(p: ParsedFsmView, i: int, j: int)
    requires
        0 <= i < j < p.transitions.len(),
        p.transitions[i].input == p.transitions[j].input,
        p.transitions[i].start == p.transitions[j].start,
        contains_name(p.states, p.transitions[i].start),
        contains_name(p.states, p.start),
        all_pairs_covered(p),
        all_targets_declared(p),
    ensures
        spec_validate(p) matches Err(e) && e is ExtraTransition,
{
    lemma_duplicate_never_validates(p, i, j);
    lemma_resolve_start_iff(p.states, p.start);
    let states = resolve_states(p.states);
    let alphabet = derive_alphabet(p.transitions);
    lemma_build_entries_err(p.transitions, states, alphabet, 0, 0);
    let e = build_entries(p.transitions, states, alphabet, 0, 0)->Err_0;
    if e is MissingTransition {
        let (a2, k2) = choose|a2: int, k2: int|
            0 <= a2 < alphabet.len() && 0 <= k2 < states.len() && e->MissingTransition_0
                == alphabet[a2] && e->MissingTransition_1 == states[k2] && first_match_from(
                p.transitions,
                alphabet[a2],
                states[k2].name,
                0,
            ) is None;
        lemma_derive_alphabet_contains(p.transitions, alphabet[a2]);
        assert(alphabet.contains(alphabet[a2]));
        assert(symbol_declared(p, alphabet[a2]));
        lemma_resolved_contains(p.states, states[k2].name);
        assert(contains_name(states, states[k2].name));
        assert(pair_covered(p, alphabet[a2], states[k2].name));
        lemma_first_match_none(p.transitions, alphabet[a2], states[k2].name, 0);
        let w = choose|m: int|
            0 <= m < p.transitions.len() && decl_matches(
                p.transitions[m],
                alphabet[a2],
                states[k2].name,
            );
        assert(false);
    }
    if e is UnknownState {
        let m = choose|m: int|
            0 <= m < p.transitions.len() && p.transitions[m].end == e->UnknownState_0
                && lookup_state(states, e->UnknownState_0, 0) is None;
        assert(contains_name(p.states, p.transitions[m].end));
        lemma_resolved_contains(p.states, p.transitions[m].end);
        lemma_lookup_state_iff(states, p.transitions[m].end, 0);
        assert(false);
    }
}

/// Fail-fast on missing coverage: a specification leaving some declared
/// (symbol, state) pair without a transition never validates — it can never
/// silently default.
pub proof fn lemma_missing_never_validates(p: ParsedFsmView, c: char, name: Seq<char>)
    requires
        symbol_declared(p, c),
        contains_name(p.states, name),
        !pair_covered(p, c, name),
    ensures
        spec_validate(p) is Err,
{
    if spec_validate(p) is Ok {
        let states = resolve_states(p.states);
        let alphabet = derive_alphabet(p.transitions);
        lemma_resolve_states_distinct(p.states);
        lemma_derive_alphabet_distinct(p.transitions);
        lemma_build_entries_ok(p.transitions, states, alphabet, 0, 0);
        lemma_derive_alphabet_contains(p.transitions, c);
        assert(alphabet.contains(c));
        let a2 = choose|a2: int| 0 <= a2 < alphabet.len() && alphabet[a2] == c;
        lemma_resolved_contains(p.states, name);
        let k2 = choose|k2: int| 0 <= k2 < states.len() && states[k2].name == name;
        assert(first_match_from(p.transitions, alphabet[a2], states[k2].name, 0) is Some);
        lemma_first_match_some(p.transitions, c, name, 0);
        let m0 = first_match_from(p.transitions, c, name, 0).unwrap();
        assert(decl_matches(p.transitions[m0], c, name));
        assert(pair_covered(p, c, name));
        assert(false);
    }
}

/// Fail-fast on missing coverage, with the reported error pinned down:
/// where the start state resolves, no pair is duplicated and every
/// end-state name is declared, an uncovered pair is reported as
/// `MissingTransition`.
pub proof fn lemma_missing_reported(p: ParsedFsmView, c: char, name: Seq<char>)
    requires
        symbol_declared(p, c),
        contains_name(p.states, name),
        !pair_covered(p, c, name),
        contains_name(p.states, p.start),
        no_duplicate_pairs(p),
        all_targets_declared(p),
    ensures
        spec_validate(p) matches Err(e) && e is MissingTransition,
{
    lemma_missing_never_validates(p, c, name);
    lemma_resolve_start_iff(p.states, p.start);
    let states = resolve_states(p.states);
    let alphabet = derive_alphabet(p.transitions);
    lemma_build_entries_err(p.transitions, states, alphabet, 0, 0);
    let e = build_entries(p.transitions, states, alphabet, 0, 0)->Err_0;
    if e is ExtraTransition {
        let (i, j) = choose|i: int, j: int|
            0 <= i < j < p.transitions.len() && p.transitions[i] == e->ExtraTransition_0
                && p.transitions[j] == e->ExtraTransition_1 && e->ExtraTransition_0.input
                == e->ExtraTransition_1.input && e->ExtraTransition_0.start
                == e->ExtraTransition_1.start;
        assert(false);
    }
    if e is UnknownState {
        let m = choose|m: int|
            0 <= m < p.transitions.len() && p.transitions[m].end == e->UnknownState_0
                && lookup_state(states, e->UnknownState_0, 0) is None;
        assert(contains_name(p.states, p.transitions[m].end));
        lemma_resolved_contains(p.states, p.transitions[m].end);
        lemma_lookup_state_iff(states, p.transitions[m].end, 0);
        assert(false);
    }
}

/// Unknown target: a declared transition whose start state is declared but
/// whose end-state name matches no declared state never validates.
pub proof fn lemma_unknown_target_never_validates(p: ParsedFsmView, i: int)
    requires
        0 <= i < p.transitions.len(),
        contains_name(p.states, p.transitions[i].start),
        !contains_name(p.states, p.transitions[i].end),
    ensures
        spec_validate(p) is Err,
{
    if spec_validate(p) is Ok {
        let states = resolve_states(p.states);
        let alphabet = derive_alphabet(p.transitions);
        lemma_resolve_states_distinct(p.states);
        lemma_derive_alphabet_distinct(p.transitions);
        lemma_build_entries_ok(p.transitions, states, alphabet, 0, 0);
        let c = p.transitions[i].input;
        let name = p.transitions[i].start;
        lemma_derive_alphabet_contains(p.transitions, c);
        assert(p.transitions[i].input == c);
        assert(alphabet.contains(c));
        let a2 = choose|a2: int| 0 <= a2 < alphabet.len() && alphabet[a2] == c;
        lemma_resolved_contains(p.states, name);
        let k2 = choose|k2: int| 0 <= k2 < states.len() && states[k2].name == name;
        assert(first_match_from(p.transitions, alphabet[a2], states[k2].name, 0) is Some);
        let m0 = first_match_from(p.transitions, alphabet[a2], states[k2].name, 0).unwrap();
        lemma_first_match_some(p.transitions, c, name, 0);
        lemma_first_match_none(p.transitions, c, name, m0 + 1);
        assert(decl_matches(p.transitions[i], c, name));
        assert(m0 <= i);
        assert(m0 == i);
        assert(lookup_state(states, p.transitions[i].end, 0) is Some);
        lemma_lookup_state_iff(states, p.transitions[i].end, 0);
        lemma_resolved_contains(p.states, p.transitions[i].end);
        assert(false);
    }
}

/// Unknown target, with the reported error pinned down: where the start
/// state resolves, no pair is duplicated and every pair is covered, a
/// transition to an undeclared state is reported as `UnknownState`.
pub proof fn lemma_unknown_target_reported(p: ParsedFsmView, i: int)
    requires
        0 <= i < p.transitions.len(),
        contains_name(p.states, p.transitions[i].start),
        !contains_name(p.states, p.transitions[i].end),
        contains_name(p.states, p.start),
        no_duplicate_pairs(p),
        all_pairs_covered(p),
    ensures
        spec_validate(p) matches Err(e) && e is UnknownState,
{
    lemma_unknown_target_never_validates(p, i);
    lemma_resolve_start_iff(p.states, p.start);
    let states = resolve_states(p.states);
    let alphabet = derive_alphabet(p.transitions);
    lemma_build_entries_err(p.transitions, states, alphabet, 0, 0);
    let e = build_entries(p.transitions, states, alphabet, 0, 0)->Err_0;
    if e is ExtraTransition {
        let (x, y) = choose|x: int, y: int|
            0 <= x < y < p.transitions.len() && p.transitions[x] == e->ExtraTransition_0
                && p.transitions[y] == e->ExtraTransition_1 && e->ExtraTransition_0.input
                == e->ExtraTransition_1.input && e->ExtraTransition_0.start
                == e->ExtraTransition_1.start;
        assert(false);
    }
    if e is MissingTransition {
        let (a2, k2) = choose|a2: int, k2: int|
            0 <= a2 < alphabet.len() && 0 <= k2 < states.len() && e->MissingTransition_0
                == alphabet[a2] && e->MissingTransition_1 == states[k2] && first_match_from(
                p.transitions,
                alphabet[a2],
                states[k2].name,
                0,
            ) is None;
        lemma_derive_alphabet_contains(p.transitions, alphabet[a2]);
        assert(alphabet.contains(alphabet[a2]));
        assert(symbol_declared(p, alphabet[a2]));
        lemma_resolved_contains(p.states, states[k2].name);
        assert(contains_name(states, states[k2].name));
        assert(pair_covered(p, alphabet[a2], states[k2].name));
        lemma_first_match_none(p.transitions, alphabet[a2], states[k2].name, 0);
        let w = choose|m: int|
            0 <= m < p.transitions.len() && decl_matches(
                p.transitions[m],
                alphabet[a2],
                states[k2].name,
            );
        assert(false);
    }
}

/// Unknown start: a specification whose start-state name matches no
/// declared state fails with `NoStartState`.
pub proof fn lemma_unknown_start(p: ParsedFsmView)
    requires
        forall|k: int| 0 <= k < p.states.len() ==> (#[trigger] p.states[k]).name != p.start,
    ensures
        spec_validate(p) == Err::<FsmView, FsmErrorView>(FsmErrorView::NoStartState),
{
    lemma_resolve_start_iff(p.states, p.start);
    assert(!contains_name(p.states, p.start));
}

/// Alphabet derivation: the alphabet of a validated automaton holds exactly
/// the symbols that appear across the declared transitions.
pub proof fn lemma_alphabet_derivation(p: ParsedFsmView)
    requires
        spec_validate(p) is Ok,
    ensures
        spec_validate(p) matches Ok(fsm) && (forall|c: char|
            #[trigger] fsm.alphabet.contains(c) == symbol_declared(p, c)),
{
    let fsm = spec_validate(p)->Ok_0;
    assert forall|c: char| #[trigger] fsm.alphabet.contains(c) == symbol_declared(p, c) by {
        lemma_derive_alphabet_contains(p.transitions, c);
    }
}

/// A character outside the alphabet fails the run the moment it is reached:
/// if every character before position `k` is in the alphabet and the one at
/// `k` is not, the run from any reachable state fails with
/// `CharNotInInputAlphabet` carrying exactly that character.
pub proof fn lemma_run_rejects_foreign_char(
    fsm: FsmView,
    current: StateView,
    input: Seq<char>,
    k: int,
)
    requires
        fsm.wf(),
        state_names(fsm).contains(current.name),
        0 <= k < input.len(),
        !fsm.alphabet.contains(input[k]),
        forall|j: int| 0 <= j < k ==> fsm.alphabet.contains(#[trigger] input[j]),
    ensures
        run_from(fsm, current, input) == Err::<bool, FsmErrorView>(
            FsmErrorView::CharNotInInputAlphabet(input[k]),
        ),
    decreases k,
{
    if k > 0 {
        assert(fsm.alphabet.contains(input[0]));
        assert(has_entry(fsm.transitions, input[0], current.name));
        lemma_lookup_transition_finds(fsm.transitions, input[0], current.name, 0);
        lemma_lookup_transition_member(fsm.transitions, input[0], current.name, 0);
        let t = lookup_transition(fsm.transitions, input[0], current.name, 0).unwrap();
        assert(state_names(fsm).contains(t.end.name));
        assert(input.drop_first()[k - 1] == input[k]);
        assert forall|j: int| 0 <= j < k - 1 implies fsm.alphabet.contains(
            #[trigger] input.drop_first()[j],
        ) by {
            assert(input.drop_first()[j] == input[j + 1]);
        }
        lemma_run_rejects_foreign_char(fsm, t.end, input.drop_first(), k - 1);
    }
}

/// A character outside the alphabet fails a whole run from the start state,
/// however the input continues after it.
pub proof fn lemma_run_foreign_char(fsm: FsmView, input: Seq<char>, k: int)
    requires
        fsm.wf(),
        0 <= k < input.len(),
        !fsm.alphabet.contains(input[k]),
        forall|j: int| 0 <= j < k ==> fsm.alphabet.contains(#[trigger] input[j]),
    ensures
        spec_run(fsm, input) == Err::<bool, FsmErrorView>(
            FsmErrorView::CharNotInInputAlphabet(input[k]),
        ),
{
    assert(state_names(fsm).contains(fsm.start.name));
    lemma_run_rejects_foreign_char(fsm, fsm.start, input, k);
}

/// Idempotence: running the same automaton twice over the same input yields
/// the same result. A run's outcome is a function of the automaton's view
/// and the input alone — [`FSM::run`] takes the automaton immutably and pins
/// its result to exactly that function — so no hidden state can change a
/// second run.
pub proof fn lemma_run_idempotent(
    fsm: FsmView,
    input: Seq<char>,
    r1: Result<bool, FsmErrorView>,
    r2: Result<bool, FsmErrorView>,
)
    requires
        r1 == spec_run(fsm, input),
        r2 == spec_run(fsm, input),
    ensures
        r1 == r2,
{
}


} // verus!
