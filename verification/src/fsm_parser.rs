//! Grammar parser: turns raw source text into an unresolved intermediate
//! representation of a finite state machine.
//!
//! The source text consists of three blocks that may appear in any relative
//! order:
//!
//! ```text
//! states:
//!     A
//!     final: C
//!
//! transitions:
//!     0: A -> C
//!     1: A -> A
//!     0: C -> A
//!     1: C -> C
//!
//! start: A
//! ```
//!
//! Every state line starts with a literal tab; `final:` marks an accepting
//! state. A transition line gives a single input symbol, a start-state name
//! and an end-state name. The parser performs no semantic checking: duplicate
//! names, dangling targets, non-determinism and missing totality are left for
//! the validator.

use vstd::prelude::*;
use vstd::string::StrSliceExecFns;
use vstd::string::StringExecFns;

verus! {

/// The view of one declared state: its name and whether the declaration
/// marked it as accepting.
#[verifier::ext_equal]
pub struct StateView {
    pub name: Seq<char>,
    pub accepting: bool,
}

/// The view of one declared transition: an input symbol and the (still
/// unresolved) names of its start and end states.
#[verifier::ext_equal]
pub struct TransitionDeclView {
    pub input: char,
    pub start: Seq<char>,
    pub end: Seq<char>,
}

/// The view of a whole parsed specification.
#[verifier::ext_equal]
pub struct ParsedFsmView {
    pub start: Seq<char>,
    pub states: Seq<StateView>,
    pub transitions: Seq<TransitionDeclView>,
}

/// A state declaration as it appears in the source text: a plain state or an
/// accepting (`final:`) state, each carrying its name.
#[derive(Debug)]
pub enum ParsedState {
    State(String),
    AcceptState(String),
}

impl View for ParsedState {
    type V = StateView;

    open spec fn view(&self) -> StateView {
        match self {
            ParsedState::State(name) => StateView { name: name@, accepting: false },
            ParsedState::AcceptState(name) => StateView { name: name@, accepting: true },
        }
    }
}

impl DeepView for ParsedState {
    type V = StateView;

    open spec fn deep_view(&self) -> StateView {
        self.view()
    }
}

/// A transition declaration as it appears in the source text.
#[derive(Debug)]
pub struct ParsedTransition {
    pub input: char,
    pub start_state: String,
    pub end_state: String,
}

impl View for ParsedTransition {
    type V = TransitionDeclView;

    open spec fn view(&self) -> TransitionDeclView {
        TransitionDeclView { input: self.input, start: self.start_state@, end: self.end_state@ }
    }
}

impl DeepView for ParsedTransition {
    type V = TransitionDeclView;

    open spec fn deep_view(&self) -> TransitionDeclView {
        self.view()
    }
}

/// The unresolved intermediate representation of a machine: the declared
/// start-state name, the declared states in source order, and the declared
/// transitions in source order.
#[derive(Debug)]
pub struct ParsedFSM {
    pub start_state: String,
    pub states: Vec<ParsedState>,
    pub transitions: Vec<ParsedTransition>,
}

impl View for ParsedFSM {
    type V = ParsedFsmView;

    open spec fn view(&self) -> ParsedFsmView {
        ParsedFsmView {
            start: self.start_state@,
            states: self.states.deep_view(),
            transitions: self.transitions.deep_view(),
        }
    }
}

impl DeepView for ParsedFSM {
    type V = ParsedFsmView;

    open spec fn deep_view(&self) -> ParsedFsmView {
        self.view()
    }
}

/// Characters that end a line: carriage return, line feed, and NUL, all
/// skipped between lines.
pub open spec fn is_line_char(c: char) -> bool {
    c == '\r' || c == '\n' || c == '\0'
}

/// Blank space inside a line: spaces and tabs.
pub open spec fn is_blank_char(c: char) -> bool {
    c == ' ' || c == '\t'
}

/// Characters allowed in a state name or as an input symbol: everything but
/// blank space, line endings and the colon.
pub open spec fn is_name_char(c: char) -> bool {
    !(c == ' ' || c == '\t' || c == '\r' || c == '\n' || c == ':')
}

/// The first position at or after `pos` that does not hold a line-ending
/// character: the position after a (possibly empty) run of line endings.
pub open spec fn skip_lines(s: Seq<char>, pos: int) -> int
    decreases s.len() - pos,
{
    if pos < s.len() && is_line_char(s[pos]) {
        skip_lines(s, pos + 1)
    } else {
        pos
    }
}

/// The first position at or after `pos` that does not hold blank space.
pub open spec fn skip_blanks(s: Seq<char>, pos: int) -> int
    decreases s.len() - pos,
{
    if pos < s.len() && is_blank_char(s[pos]) {
        skip_blanks(s, pos + 1)
    } else {
        pos
    }
}

/// The end of the maximal run of name characters starting at `pos`.
pub open spec fn name_end(s: Seq<char>, pos: int) -> int
    decreases s.len() - pos,
{
    if pos < s.len() && is_name_char(s[pos]) {
        name_end(s, pos + 1)
    } else {
        pos
    }
}

/// A name: a non-empty maximal run of name characters. Returns the position
/// after the name and the name itself, or nothing if no name starts at `pos`.
pub open spec fn spec_name(s: Seq<char>, pos: int) -> Option<(int, Seq<char>)> {
    let end = name_end(s, pos);
    if 0 <= pos && pos < end {
        Some((end, s.subrange(pos, end)))
    } else {
        None
    }
}

/// Whether the characters of `tag` stand verbatim at `pos`.
pub open spec fn tag_matches(s: Seq<char>, pos: int, tag: Seq<char>) -> bool {
    0 <= pos && pos + tag.len() <= s.len() && s.subrange(pos, pos + tag.len()) == tag
}

/// The keyword opening the block of state declarations.
pub open spec fn states_tag() -> Seq<char> {
    seq!['s', 't', 'a', 't', 'e', 's', ':']
}

/// The keyword opening the block of transition declarations.
pub open spec fn transitions_tag() -> Seq<char> {
    seq!['t', 'r', 'a', 'n', 's', 'i', 't', 'i', 'o', 'n', 's', ':']
}

/// The keyword opening the start-state block.
pub open spec fn start_tag() -> Seq<char> {
    seq!['s', 't', 'a', 'r', 't', ':']
}

/// The marker (a leading tab, then `final:`) of an accepting state line.
pub open spec fn final_tag() -> Seq<char> {
    seq!['\t', 'f', 'i', 'n', 'a', 'l', ':']
}

/// The arrow between a transition's start and end state names.
pub open spec fn arrow_tag() -> Seq<char> {
    seq!['-', '>']
}

/// One state line: either `TAB final:` followed by blanks and a name
/// (accepting), or `TAB` followed directly by a name (plain); in both shapes
/// trailing line endings are consumed. Once the `final:` marker has matched,
/// the line must carry a name: there is no fallback to the plain shape.
pub open spec fn spec_state(s: Seq<char>, pos: int) -> Option<(int, StateView)> {
    if tag_matches(s, pos, final_tag()) {
        let p = skip_blanks(s, pos + final_tag().len());
        match spec_name(s, p) {
            Some((p2, name)) => Some((skip_lines(s, p2), StateView { name, accepting: true })),
            None => None,
        }
    } else if 0 <= pos && pos < s.len() && s[pos] == '\t' {
        match spec_name(s, pos + 1) {
            Some((p2, name)) => Some((skip_lines(s, p2), StateView { name, accepting: false })),
            None => None,
        }
    } else {
        None
    }
}

/// As many state lines as stand at `pos`, in order; never fails.
pub open spec fn spec_states(s: Seq<char>, pos: int) -> (int, Seq<StateView>)
    decreases s.len() - pos,
{
    match spec_state(s, pos) {
        Some((p2, st)) => {
            if pos < p2 && p2 <= s.len() {
                let rest = spec_states(s, p2);
                (rest.0, seq![st] + rest.1)
            } else {
                (pos, Seq::empty())
            }
        },
        None => (pos, Seq::empty()),
    }
}

/// A transition's input symbol: blanks, one name character, a colon, blanks.
pub open spec fn spec_input_char(s: Seq<char>, pos: int) -> Option<(int, char)> {
    let p = skip_blanks(s, pos);
    if p < s.len() && is_name_char(s[p]) && p + 1 < s.len() && s[p + 1] == ':' {
        Some((skip_blanks(s, p + 2), s[p]))
    } else {
        None
    }
}

/// One transition line: an input symbol, a start-state name, an arrow, an
/// end-state name, then trailing line endings.
pub open spec fn spec_transition(s: Seq<char>, pos: int) -> Option<(int, TransitionDeclView)> {
    match spec_input_char(s, pos) {
        None => None,
        Some((p, c)) => match spec_name(s, p) {
            None => None,
            Some((p2, start)) => {
                let p3 = skip_blanks(s, p2);
                if tag_matches(s, p3, arrow_tag()) {
                    let p4 = skip_blanks(s, p3 + arrow_tag().len());
                    match spec_name(s, p4) {
                        None => None,
                        Some((p5, end)) => Some(
                            (skip_lines(s, p5), TransitionDeclView { input: c, start, end }),
                        ),
                    }
                } else {
                    None
                }
            },
        },
    }
}

/// As many transition lines as stand at `pos`, in order; never fails.
pub open spec fn spec_transitions(s: Seq<char>, pos: int) -> (int, Seq<TransitionDeclView>)
    decreases s.len() - pos,
{
    match spec_transition(s, pos) {
        Some((p2, t)) => {
            if pos < p2 && p2 <= s.len() {
                let rest = spec_transitions(s, p2);
                (rest.0, seq![t] + rest.1)
            } else {
                (pos, Seq::empty())
            }
        },
        None => (pos, Seq::empty()),
    }
}

/// The `states:` block: line endings, the keyword, line endings, then any
/// number (possibly zero) of state lines.
pub open spec fn spec_state_block(s: Seq<char>, pos: int) -> Option<(int, Seq<StateView>)> {
    let p = skip_lines(s, pos);
    if tag_matches(s, p, states_tag()) {
        let p2 = skip_lines(s, p + states_tag().len());
        Some(spec_states(s, p2))
    } else {
        None
    }
}

/// The `transitions:` block: line endings, the keyword, line endings, then at
/// least one transition line.
pub open spec fn spec_transitions_block(s: Seq<char>, pos: int) -> Option<
    (int, Seq<TransitionDeclView>),
> {
    let p = skip_lines(s, pos);
    if tag_matches(s, p, transitions_tag()) {
        let p2 = skip_lines(s, p + transitions_tag().len());
        let r = spec_transitions(s, p2);
        if r.1.len() >= 1 {
            Some(r)
        } else {
            None
        }
    } else {
        None
    }
}

/// The `start:` block: line endings, the keyword, blanks, then the
/// start-state name.
pub open spec fn spec_start_block(s: Seq<char>, pos: int) -> Option<(int, Seq<char>)> {
    let p = skip_lines(s, pos);
    if tag_matches(s, p, start_tag()) {
        let p2 = skip_blanks(s, p + start_tag().len());
        spec_name(s, p2)
    } else {
        None
    }
}

/// The view of a parse error: the position where no further block could be
/// read, and which of the three blocks were still missing there.
pub struct ParseErrorView {
    pub offset: int,
    pub missing_states: bool,
    pub missing_transitions: bool,
    pub missing_start: bool,
}

/// A parse failure: the offset (in characters) where no further top-level
/// block could be read, and which of the three blocks were still missing.
#[derive(Debug)]
pub struct ParseError {
    pub offset: usize,
    pub missing_states: bool,
    pub missing_transitions: bool,
    pub missing_start: bool,
}

impl View for ParseError {
    type V = ParseErrorView;

    open spec fn view(&self) -> ParseErrorView {
        ParseErrorView {
            offset: self.offset as int,
            missing_states: self.missing_states,
            missing_transitions: self.missing_transitions,
            missing_start: self.missing_start,
        }
    }
}

impl DeepView for ParseError {
    type V = ParseErrorView;

    open spec fn deep_view(&self) -> ParseErrorView {
        self.view()
    }
}

/// The whole definition: the three top-level blocks in any relative order.
/// Starting from what has already been read, the first block shape that
/// matches at `pos` — tried in the fixed order start, states, transitions
/// among those still missing — is taken, until all three have been read or
/// none matches.
pub open spec fn spec_parse_from(
    s: Seq<char>,
    pos: int,
    start: Option<Seq<char>>,
    states: Option<Seq<StateView>>,
    transitions: Option<Seq<TransitionDeclView>>,
) -> Result<(int, ParsedFsmView), ParseErrorView>
    decreases (if start is None {
        1int
    } else {
        0int
    }) + (if states is None {
        1int
    } else {
        0int
    }) + (if transitions is None {
        1int
    } else {
        0int
    }),
{
    match (start, states, transitions) {
        (Some(st), Some(sts), Some(trs)) => Ok(
            (pos, ParsedFsmView { start: st, states: sts, transitions: trs }),
        ),
        _ => {
            if start is None && spec_start_block(s, pos) is Some {
                let (p, v) = spec_start_block(s, pos).unwrap();
                spec_parse_from(s, p, Some(v), states, transitions)
            } else if states is None && spec_state_block(s, pos) is Some {
                let (p, v) = spec_state_block(s, pos).unwrap();
                spec_parse_from(s, p, start, Some(v), transitions)
            } else if transitions is None && spec_transitions_block(s, pos) is Some {
                let (p, v) = spec_transitions_block(s, pos).unwrap();
                spec_parse_from(s, p, start, states, Some(v))
            } else {
                Err(
                    ParseErrorView {
                        offset: pos,
                        missing_states: states is None,
                        missing_transitions: transitions is None,
                        missing_start: start is None,
                    },
                )
            }
        },
    }
}

/// What parsing a whole source text yields: the position after the three
/// blocks and the parsed specification, or a parse error. Trailing text after
/// the three blocks is left unread.
pub open spec fn spec_parse(s: Seq<char>) -> Result<(int, ParsedFsmView), ParseErrorView> {
    spec_parse_from(s, 0, None, None, None)
}

fn exec_is_name_char(c: char) -> (b: bool)
    ensures
        b == is_name_char(c),
{
    !(c == ' ' || c == '\t' || c == '\r' || c == '\n' || c == ':')
}

fn skip_lines_at(i: &str, len: usize, pos: usize) -> (r: usize)
    requires
        len as nat == i@.len(),
        pos <= len,
    ensures
        r as int == skip_lines(i@, pos as int),
        pos <= r <= len,
{
    let mut p: usize = pos;
    loop
        invariant
            len as nat == i@.len(),
            pos <= p <= len,
            skip_lines(i@, p as int) == skip_lines(i@, pos as int),
        decreases len - p,
    {
        if p < len {
            let c = i.get_char(p);
            if c == '\r' || c == '\n' || c == '\0' {
                p = p + 1;
            } else {
                return p;
            }
        } else {
            return p;
        }
    }
}

fn skip_blanks_at(i: &str, len: usize, pos: usize) -> (r: usize)
    requires
        len as nat == i@.len(),
        pos <= len,
    ensures
        r as int == skip_blanks(i@, pos as int),
        pos <= r <= len,
{
    let mut p: usize = pos;
    loop
        invariant
            len as nat == i@.len(),
            pos <= p <= len,
            skip_blanks(i@, p as int) == skip_blanks(i@, pos as int),
        decreases len - p,
    {
        if p < len {
            let c = i.get_char(p);
            if c == ' ' || c == '\t' {
                p = p + 1;
            } else {
                return p;
            }
        } else {
            return p;
        }
    }
}

fn name_end_at(i: &str, len: usize, pos: usize) -> (r: usize)
    requires
        len as nat == i@.len(),
        pos <= len,
    ensures
        r as int == name_end(i@, pos as int),
        pos <= r <= len,
{
    let mut p: usize = pos;
    loop
        invariant
            len as nat == i@.len(),
            pos <= p <= len,
            name_end(i@, p as int) == name_end(i@, pos as int),
        decreases len - p,
    {
        if p < len {
            let c = i.get_char(p);
            if exec_is_name_char(c) {
                p = p + 1;
            } else {
                return p;
            }
        } else {
            return p;
        }
    }
}

fn tag_at(i: &str, len: usize, pos: usize, tag: &str, tag_len: usize) -> (b: bool)
    requires
        len as nat == i@.len(),
        pos <= len,
        tag_len as nat == tag@.len(),
    ensures
        b == tag_matches(i@, pos as int, tag@),
{
    if tag_len > len - pos {
        return false;
    }
    let mut j: usize = 0;
    loop
        invariant
            len as nat == i@.len(),
            pos <= len,
            tag_len as nat == tag@.len(),
            pos + tag_len <= len,
            j <= tag_len,
            forall|k: int| 0 <= k < j ==> i@[pos + k] == tag@[k],
        decreases tag_len - j,
    {
        if j < tag_len {
            let c = i.get_char(pos + j);
            let t = tag.get_char(j);
            if c != t {
                proof {
                    assert(i@.subrange(pos as int, pos + tag@.len())[j as int] != tag@[j as int]);
                }
                return false;
            }
            j = j + 1;
        } else {
            proof {
                assert(i@.subrange(pos as int, pos + tag@.len()) =~= tag@);
            }
            return true;
        }
    }
}

fn parse_name_at(i: &str, len: usize, pos: usize) -> (r: Option<(usize, String)>)
    requires
        len as nat == i@.len(),
        pos <= len,
    ensures
        match r {
            Some((p2, name)) => spec_name(i@, pos as int) == Some((p2 as int, name@)) && pos < p2
                <= len,
            None => spec_name(i@, pos as int) is None,
        },
{
    let end = name_end_at(i, len, pos);
    if pos < end {
        let sub = i.substring_char(pos, end);
        let name = String::from_str(sub);
        Some((end, name))
    } else {
        None
    }
}

fn parse_state_at(i: &str, len: usize, pos: usize) -> (r: Option<(usize, ParsedState)>)
    requires
        len as nat == i@.len(),
        pos <= len,
    ensures
        match r {
            Some((p2, st)) => spec_state(i@, pos as int) == Some((p2 as int, st@)) && pos < p2
                <= len,
            None => spec_state(i@, pos as int) is None,
        },
{
    proof {
        reveal_strlit("\tfinal:");
        assert(("\tfinal:")@ =~= final_tag());
    }
    if tag_at(i, len, pos, "\tfinal:", 7) {
        let p = skip_blanks_at(i, len, pos + 7);
        match parse_name_at(i, len, p) {
            Some((p2, name)) => {
                let p3 = skip_lines_at(i, len, p2);
                Some((p3, ParsedState::AcceptState(name)))
            },
            None => None,
        }
    } else if pos < len {
        let c = i.get_char(pos);
        if c == '\t' {
            match parse_name_at(i, len, pos + 1) {
                Some((p2, name)) => {
                    let p3 = skip_lines_at(i, len, p2);
                    Some((p3, ParsedState::State(name)))
                },
                None => None,
            }
        } else {
            None
        }
    } else {
        None
    }
}

fn parse_input_char_at(i: &str, len: usize, pos: usize) -> (r: Option<(usize, char)>)
    requires
        len as nat == i@.len(),
        pos <= len,
    ensures
        match r {
            Some((p2, c)) => spec_input_char(i@, pos as int) == Some((p2 as int, c)) && pos < p2
                <= len,
            None => spec_input_char(i@, pos as int) is None,
        },
{
    let p = skip_blanks_at(i, len, pos);
    if p < len {
        let c = i.get_char(p);
        if exec_is_name_char(c) && p + 1 < len {
            let c2 = i.get_char(p + 1);
            if c2 == ':' {
                let p2 = skip_blanks_at(i, len, p + 2);
                return Some((p2, c));
            }
        }
    }
    None
}

fn parse_transition_at(i: &str, len: usize, pos: usize) -> (r: Option<(usize, ParsedTransition)>)
    requires
        len as nat == i@.len(),
        pos <= len,
    ensures
        match r {
            Some((p2, t)) => spec_transition(i@, pos as int) == Some((p2 as int, t@)) && pos < p2
                <= len,
            None => spec_transition(i@, pos as int) is None,
        },
{
    match parse_input_char_at(i, len, pos) {
        None => None,
        Some((p, input)) => match parse_name_at(i, len, p) {
            None => None,
            Some((p2, start_state)) => {
                let p3 = skip_blanks_at(i, len, p2);
                proof {
                    reveal_strlit("->");
                    assert(("->")@ =~= arrow_tag());
                }
                if tag_at(i, len, p3, "->", 2) {
                    let p4 = skip_blanks_at(i, len, p3 + 2);
                    match parse_name_at(i, len, p4) {
                        None => None,
                        Some((p5, end_state)) => {
                            let p6 = skip_lines_at(i, len, p5);
                            Some((p6, ParsedTransition { input, start_state, end_state }))
                        },
                    }
                } else {
                    None
                }
            },
        },
    }
}

fn parse_states_at(i: &str, len: usize, pos: usize) -> (r: (usize, Vec<ParsedState>))
    requires
        len as nat == i@.len(),
        pos <= len,
    ensures
        spec_states(i@, pos as int).0 == r.0 as int,
        spec_states(i@, pos as int).1 == r.1.deep_view(),
        pos <= r.0 <= len,
{
    let mut p: usize = pos;
    let mut acc: Vec<ParsedState> = Vec::new();
    proof {
        assert(acc.deep_view() =~= Seq::<StateView>::empty());
    }
    loop
        invariant
            len as nat == i@.len(),
            pos <= p <= len,
            spec_states(i@, pos as int).0 == spec_states(i@, p as int).0,
            spec_states(i@, pos as int).1 == acc.deep_view() + spec_states(i@, p as int).1,
        decreases len - p,
    {
        match parse_state_at(i, len, p) {
            Some((p2, st)) => {
                proof {
                    let ghost prev = acc.deep_view();
                    assert(spec_states(i@, p as int).1 == seq![st@] + spec_states(
                        i@,
                        p2 as int,
                    ).1);
                    assert(prev + (seq![st@] + spec_states(i@, p2 as int).1) =~= (prev.push(st@))
                        + spec_states(i@, p2 as int).1);
                }
                let ghost old_acc = acc;
                acc.push(st);
                proof {
                    assert(acc.deep_view() =~= old_acc.deep_view().push(st@));
                }
                p = p2;
            },
            None => {
                proof {
                    assert(spec_states(i@, p as int).1 =~= Seq::<StateView>::empty());
                    assert(acc.deep_view() + Seq::<StateView>::empty() =~= acc.deep_view());
                }
                return (p, acc);
            },
        }
    }
}

fn parse_transitions_at(i: &str, len: usize, pos: usize) -> (r: (usize, Vec<ParsedTransition>))
    requires
        len as nat == i@.len(),
        pos <= len,
    ensures
        spec_transitions(i@, pos as int).0 == r.0 as int,
        spec_transitions(i@, pos as int).1 == r.1.deep_view(),
        pos <= r.0 <= len,
{
    let mut p: usize = pos;
    let mut acc: Vec<ParsedTransition> = Vec::new();
    proof {
        assert(acc.deep_view() =~= Seq::<TransitionDeclView>::empty());
    }
    loop
        invariant
            len as nat == i@.len(),
            pos <= p <= len,
            spec_transitions(i@, pos as int).0 == spec_transitions(i@, p as int).0,
            spec_transitions(i@, pos as int).1 == acc.deep_view() + spec_transitions(
                i@,
                p as int,
            ).1,
        decreases len - p,
    {
        match parse_transition_at(i, len, p) {
            Some((p2, t)) => {
                proof {
                    let ghost prev = acc.deep_view();
                    assert(spec_transitions(i@, p as int).1 == seq![t@] + spec_transitions(
                        i@,
                        p2 as int,
                    ).1);
                    assert(prev + (seq![t@] + spec_transitions(i@, p2 as int).1) =~= (prev.push(
                        t@,
                    )) + spec_transitions(i@, p2 as int).1);
                }
                let ghost old_acc = acc;
                acc.push(t);
                proof {
                    assert(acc.deep_view() =~= old_acc.deep_view().push(t@));
                }
                p = p2;
            },
            None => {
                proof {
                    assert(spec_transitions(i@, p as int).1 =~= Seq::<TransitionDeclView>::empty());
                    assert(acc.deep_view() + Seq::<TransitionDeclView>::empty() =~= acc.deep_view());
                }
                return (p, acc);
            },
        }
    }
}

fn parse_state_block_at(i: &str, len: usize, pos: usize) -> (r: Option<(usize, Vec<ParsedState>)>)
    requires
        len as nat == i@.len(),
        pos <= len,
    ensures
        match r {
            Some((p2, sts)) => spec_state_block(i@, pos as int) == Some((p2 as int, sts.deep_view()))
                && pos <= p2 <= len,
            None => spec_state_block(i@, pos as int) is None,
        },
{
    let p = skip_lines_at(i, len, pos);
    proof {
        reveal_strlit("states:");
        assert(("states:")@ =~= states_tag());
    }
    if tag_at(i, len, p, "states:", 7) {
        let p2 = skip_lines_at(i, len, p + 7);
        let (p3, sts) = parse_states_at(i, len, p2);
        Some((p3, sts))
    } else {
        None
    }
}

fn parse_transitions_block_at(i: &str, len: usize, pos: usize) -> (r: Option<
    (usize, Vec<ParsedTransition>),
>)
    requires
        len as nat == i@.len(),
        pos <= len,
    ensures
        match r {
            Some((p2, trs)) => spec_transitions_block(i@, pos as int) == Some(
                (p2 as int, trs.deep_view()),
            ) && pos <= p2 <= len,
            None => spec_transitions_block(i@, pos as int) is None,
        },
{
    let p = skip_lines_at(i, len, pos);
    proof {
        reveal_strlit("transitions:");
        assert(("transitions:")@ =~= transitions_tag());
    }
    if tag_at(i, len, p, "transitions:", 12) {
        let p2 = skip_lines_at(i, len, p + 12);
        let (p3, trs) = parse_transitions_at(i, len, p2);
        if trs.len() >= 1 {
            Some((p3, trs))
        } else {
            None
        }
    } else {
        None
    }
}

fn parse_start_block_at(i: &str, len: usize, pos: usize) -> (r: Option<(usize, String)>)
    requires
        len as nat == i@.len(),
        pos <= len,
    ensures
        match r {
            Some((p2, name)) => spec_start_block(i@, pos as int) == Some((p2 as int, name@)) && pos
                <= p2 <= len,
            None => spec_start_block(i@, pos as int) is None,
        },
{
    let p = skip_lines_at(i, len, pos);
    proof {
        reveal_strlit("start:");
        assert(("start:")@ =~= start_tag());
    }
    if tag_at(i, len, p, "start:", 6) {
        let p2 = skip_blanks_at(i, len, p + 6);
        parse_name_at(i, len, p2)
    } else {
        None
    }
}

impl ParsedFSM {
    /// Parses a whole source text into the unresolved intermediate
    /// representation, or reports where no further top-level block could be
    /// read. Text after the three blocks is ignored.
    pub fn parse(i: &str) -> (r: Result<ParsedFSM, ParseError>)
        ensures
            match r {
                Ok(p) => spec_parse(i@) matches Ok(pair) && pair.1 == p@,
                Err(e) => spec_parse(i@) matches Err(ev) && ev == e@,
            },
    {
        let len = i.unicode_len();
        let mut pos: usize = 0;
        let mut start_name: Option<String> = None;
        let mut states: Option<Vec<ParsedState>> = None;
        let mut transitions: Option<Vec<ParsedTransition>> = None;
        loop
            invariant
                len as nat == i@.len(),
                pos <= len,
                spec_parse(i@) == spec_parse_from(
                    i@,
                    pos as int,
                    start_name.deep_view(),
                    states.deep_view(),
                    transitions.deep_view(),
                ),
            decreases (if start_name is None {
                1int
            } else {
                0int
            }) + (if states is None {
                1int
            } else {
                0int
            }) + (if transitions is None {
                1int
            } else {
                0int
            }),
        {
            if start_name.is_some() && states.is_some() && transitions.is_some() {
                let p = ParsedFSM {
                    start_state: start_name.unwrap(),
                    states: states.unwrap(),
                    transitions: transitions.unwrap(),
                };
                return Ok(p);
            }
            if start_name.is_none() {
                if let Some((p2, name)) = parse_start_block_at(i, len, pos) {
                    pos = p2;
                    start_name = Some(name);
                    continue ;
                }
            }
            if states.is_none() {
                if let Some((p2, sts)) = parse_state_block_at(i, len, pos) {
                    pos = p2;
                    states = Some(sts);
                    continue ;
                }
            }
            if transitions.is_none() {
                if let Some((p2, trs)) = parse_transitions_block_at(i, len, pos) {
                    pos = p2;
                    transitions = Some(trs);
                    continue ;
                }
            }
            return Err(
                ParseError {
                    offset: pos,
                    missing_states: states.is_none(),
                    missing_transitions: transitions.is_none(),
                    missing_start: start_name.is_none(),
                },
            );
        }
    }
}

/// A valid token: non-empty, and holding only name characters (no blank
/// space, no line ending, no colon).
pub open spec fn valid_name(n: Seq<char>) -> bool {
    n.len() > 0 && forall|i: int| 0 <= i < n.len() ==> is_name_char(#[trigger] n[i])
}

/// What the grammar guarantees of everything it hands to the validator:
/// every name is a valid token, every transition symbol is a single name
/// character, and at least one transition was declared.
pub open spec fn wf_parsed(p: ParsedFsmView) -> bool {
    &&& valid_name(p.start)
    &&& (forall|k: int| 0 <= k < p.states.len() ==> valid_name((#[trigger] p.states[k]).name))
    &&& p.transitions.len() >= 1
    &&& (forall|k: int|
        0 <= k < p.transitions.len() ==> {
            let t = #[trigger] p.transitions[k];
            is_name_char(t.input) && valid_name(t.start) && valid_name(t.end)
        })
}

/// Skipping line endings stays inside the text.
proof fn lemma_skip_lines_bounds(s: Seq<char>, pos: int)
    requires
        0 <= pos <= s.len(),
    ensures
        pos <= skip_lines(s, pos) <= s.len(),
    decreases s.len() - pos,
{
    if pos < s.len() && is_line_char(s[pos]) {
        lemma_skip_lines_bounds(s, pos + 1);
    }
}

/// Skipping blank space stays inside the text.
proof fn lemma_skip_blanks_bounds(s: Seq<char>, pos: int)
    requires
        0 <= pos <= s.len(),
    ensures
        pos <= skip_blanks(s, pos) <= s.len(),
    decreases s.len() - pos,
{
    if pos < s.len() && is_blank_char(s[pos]) {
        lemma_skip_blanks_bounds(s, pos + 1);
    }
}

/// A name run ends inside the text and holds only name characters.
proof fn lemma_name_end_chars(s: Seq<char>, pos: int)
    requires
        0 <= pos <= s.len(),
    ensures
        pos <= name_end(s, pos) <= s.len(),
        forall|i: int| pos <= i < name_end(s, pos) ==> is_name_char(#[trigger] s[i]),
    decreases s.len() - pos,
{
    if pos < s.len() && is_name_char(s[pos]) {
        lemma_name_end_chars(s, pos + 1);
    }
}

/// A parsed name is a valid token, and parsing it advances.
proof fn lemma_spec_name_valid(s: Seq<char>, pos: int)
    requires
        0 <= pos <= s.len(),
    ensures
        spec_name(s, pos) matches Some(r) ==> valid_name(r.1) && pos < r.0 <= s.len(),
{
    lemma_name_end_chars(s, pos);
    if spec_name(s, pos) is Some {
        let end = name_end(s, pos);
        assert forall|i: int| 0 <= i < s.subrange(pos, end).len() implies is_name_char(
            #[trigger] s.subrange(pos, end)[i],
        ) by {
            assert(s.subrange(pos, end)[i] == s[pos + i]);
        }
    }
}

/// A parsed state line carries a valid name, and parsing it advances.
proof fn lemma_spec_state_valid(s: Seq<char>, pos: int)
    requires
        0 <= pos <= s.len(),
    ensures
        spec_state(s, pos) matches Some(r) ==> valid_name(r.1.name) && pos < r.0 <= s.len(),
{
    if tag_matches(s, pos, final_tag()) {
        lemma_skip_blanks_bounds(s, pos + final_tag().len());
        let p = skip_blanks(s, pos + final_tag().len());
        lemma_spec_name_valid(s, p);
        match spec_name(s, p) {
            Some((p2, name)) => {
                lemma_skip_lines_bounds(s, p2);
            },
            None => {},
        }
    } else if 0 <= pos && pos < s.len() && s[pos] == '\t' {
        lemma_spec_name_valid(s, pos + 1);
        match spec_name(s, pos + 1) {
            Some((p2, name)) => {
                lemma_skip_lines_bounds(s, p2);
            },
            None => {},
        }
    }
}

/// Every state line of a run of state lines carries a valid name, and the
/// run ends inside the text.
proof fn lemma_spec_states_valid(s: Seq<char>, pos: int)
    requires
        0 <= pos <= s.len(),
    ensures
        pos <= spec_states(s, pos).0 <= s.len(),
        forall|k: int|
            0 <= k < spec_states(s, pos).1.len() ==> valid_name(
                (#[trigger] spec_states(s, pos).1[k]).name,
            ),
    decreases s.len() - pos,
{
    lemma_spec_state_valid(s, pos);
    match spec_state(s, pos) {
        Some((p2, st)) => {
            if pos < p2 && p2 <= s.len() {
                lemma_spec_states_valid(s, p2);
                let rest = spec_states(s, p2);
                assert forall|k: int| 0 <= k < spec_states(s, pos).1.len() implies valid_name(
                    (#[trigger] spec_states(s, pos).1[k]).name,
                ) by {
                    if k == 0 {
                        assert(spec_states(s, pos).1[0] == st);
                    } else {
                        assert(spec_states(s, pos).1[k] == rest.1[k - 1]);
                    }
                }
            }
        },
        None => {},
    }
}

/// A parsed input symbol is a name character, and parsing it advances.
proof fn lemma_spec_input_char_valid(s: Seq<char>, pos: int)
    requires
        0 <= pos <= s.len(),
    ensures
        spec_input_char(s, pos) matches Some(r) ==> is_name_char(r.1) && pos < r.0 <= s.len(),
{
    lemma_skip_blanks_bounds(s, pos);
    let p = skip_blanks(s, pos);
    if p < s.len() && is_name_char(s[p]) && p + 1 < s.len() && s[p + 1] == ':' {
        lemma_skip_blanks_bounds(s, p + 2);
    }
}

/// A parsed transition line carries a name-character symbol and two valid
/// names, and parsing it advances.
proof fn lemma_spec_transition_valid(s: Seq<char>, pos: int)
    requires
        0 <= pos <= s.len(),
    ensures
        spec_transition(s, pos) matches Some(r) ==> is_name_char(r.1.input) && valid_name(r.1.start)
            && valid_name(r.1.end) && pos < r.0 <= s.len(),
{
    lemma_spec_input_char_valid(s, pos);
    match spec_input_char(s, pos) {
        None => {},
        Some((p, c)) => {
            lemma_spec_name_valid(s, p);
            match spec_name(s, p) {
                None => {},
                Some((p2, start)) => {
                    lemma_skip_blanks_bounds(s, p2);
                    let p3 = skip_blanks(s, p2);
                    if tag_matches(s, p3, arrow_tag()) {
                        lemma_skip_blanks_bounds(s, p3 + arrow_tag().len());
                        let p4 = skip_blanks(s, p3 + arrow_tag().len());
                        lemma_spec_name_valid(s, p4);
                        match spec_name(s, p4) {
                            None => {},
                            Some((p5, end)) => {
                                lemma_skip_lines_bounds(s, p5);
                            },
                        }
                    }
                },
            }
        },
    }
}

/// Every transition line of a run of transition lines is valid, and the run
/// ends inside the text.
proof fn lemma_spec_transitions_valid(s: Seq<char>, pos: int)
    requires
        0 <= pos <= s.len(),
    ensures
        pos <= spec_transitions(s, pos).0 <= s.len(),
        forall|k: int|
            0 <= k < spec_transitions(s, pos).1.len() ==> {
                let t = #[trigger] spec_transitions(s, pos).1[k];
                is_name_char(t.input) && valid_name(t.start) && valid_name(t.end)
            },
    decreases s.len() - pos,
{
    lemma_spec_transition_valid(s, pos);
    match spec_transition(s, pos) {
        Some((p2, tr)) => {
            if pos < p2 && p2 <= s.len() {
                lemma_spec_transitions_valid(s, p2);
                let rest = spec_transitions(s, p2);
                assert forall|k: int| 0 <= k < spec_transitions(s, pos).1.len() implies {
                    let t = #[trigger] spec_transitions(s, pos).1[k];
                    is_name_char(t.input) && valid_name(t.start) && valid_name(t.end)
                } by {
                    if k == 0 {
                        assert(spec_transitions(s, pos).1[0] == tr);
                    } else {
                        assert(spec_transitions(s, pos).1[k] == rest.1[k - 1]);
                    }
                }
            }
        },
        None => {},
    }
}

/// Whatever blocks are still missing, a successful parse hands the validator
/// only valid tokens and at least one transition.
proof fn lemma_spec_parse_from_wf(
    s: Seq<char>,
    pos: int,
    start: Option<Seq<char>>,
    states: Option<Seq<StateView>>,
    transitions: Option<Seq<TransitionDeclView>>,
)
    requires
        0 <= pos <= s.len(),
        start matches Some(st) ==> valid_name(st),
        states matches Some(sts) ==> forall|k: int|
            0 <= k < sts.len() ==> valid_name((#[trigger] sts[k]).name),
        transitions matches Some(trs) ==> trs.len() >= 1 && forall|k: int|
            0 <= k < trs.len() ==> {
                let t = #[trigger] trs[k];
                is_name_char(t.input) && valid_name(t.start) && valid_name(t.end)
            },
    ensures
        spec_parse_from(s, pos, start, states, transitions) matches Ok(pair) ==> wf_parsed(pair.1),
    decreases (if start is None {
        1int
    } else {
        0int
    }) + (if states is None {
        1int
    } else {
        0int
    }) + (if transitions is None {
        1int
    } else {
        0int
    }),
{
    match (start, states, transitions) {
        (Some(st), Some(sts), Some(trs)) => {},
        _ => {
            lemma_skip_lines_bounds(s, pos);
            if start is None && spec_start_block(s, pos) is Some {
                let p = skip_lines(s, pos);
                lemma_skip_blanks_bounds(s, p + start_tag().len());
                lemma_spec_name_valid(s, skip_blanks(s, p + start_tag().len()));
                let (p2, v) = spec_start_block(s, pos).unwrap();
                lemma_spec_parse_from_wf(s, p2, Some(v), states, transitions);
            } else if states is None && spec_state_block(s, pos) is Some {
                let p = skip_lines(s, pos);
                lemma_skip_lines_bounds(s, p + states_tag().len());
                lemma_spec_states_valid(s, skip_lines(s, p + states_tag().len()));
                let (p2, v) = spec_state_block(s, pos).unwrap();
                lemma_spec_parse_from_wf(s, p2, start, Some(v), transitions);
            } else if transitions is None && spec_transitions_block(s, pos) is Some {
                let p = skip_lines(s, pos);
                lemma_skip_lines_bounds(s, p + transitions_tag().len());
                lemma_spec_transitions_valid(s, skip_lines(s, p + transitions_tag().len()));
                let (p2, v) = spec_transitions_block(s, pos).unwrap();
                lemma_spec_parse_from_wf(s, p2, start, states, Some(v));
            }
        },
    }
}

/// What a successful parse hands to the validator is well-shaped: every
/// state name, every transition's start and end name, and the start-state
/// name are non-empty tokens of name characters; every transition symbol is
/// a single name character; and at least one transition was declared —
/// zero transitions is a parse failure, never a validation failure.
pub proof fn lemma_parse_wf(s: Seq<char>)
    requires
        spec_parse(s) is Ok,
    ensures
        spec_parse(s) matches Ok(pair) && wf_parsed(pair.1),
{
    lemma_spec_parse_from_wf(s, 0, None, None, None);
}

} // verus!
