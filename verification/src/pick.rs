//! The picker: what it shows, and what each key does.

use vstd::prelude::*;

use crate::fuzzy;
use crate::path;
use crate::rank;
use crate::session::{self, Agent, Labels, Session};
use crate::text;

verus! {

/// What is printed of the session that was picked.
#[derive(Clone, Copy, Debug, PartialEq, Eq, Structural)]
pub enum Print {
    Id,
    Path,
    Cwd,
    Json,
}

/// What the picker remembers between two keys.
#[derive(Debug)]
pub struct State {
    pub query: String,
    /// The one agent shown, all where `None`.
    pub solo: Option<Agent>,
    /// Whether only sessions within the scope are shown.
    pub scoped: bool,
    /// The row that is selected.
    pub selected: usize,
}

/// The contents of a [`State`].
pub ghost struct StateView {
    pub query: Seq<char>,
    pub solo: Option<Agent>,
    pub scoped: bool,
    pub selected: int,
}

impl View for State {
    type V = StateView;

    open spec fn view(&self) -> StateView {
        StateView {
            query: self.query@,
            solo: self.solo,
            scoped: self.scoped,
            selected: self.selected as int,
        }
    }
}

/// A directory that the list can be limited to.
#[derive(Clone, Debug, PartialEq, Eq)]
pub struct Scope {
    /// The path as it reads.
    pub text: String,
    /// Whether the text is the path. It is not where the path is no valid text:
    /// then it only stands for the path.
    pub exact: bool,
}

/// The contents of a [`Scope`].
pub ghost struct ScopeView {
    pub text: Seq<char>,
    pub exact: bool,
}

impl View for Scope {
    type V = ScopeView;

    open spec fn view(&self) -> ScopeView {
        ScopeView { text: self.text@, exact: self.exact }
    }
}

impl Scope {
    /// The directory whose path is `text`.
    pub fn at(text: &str) -> (r: Scope)
        ensures
            r@ == (ScopeView { text: text@, exact: true }),
    {
        Scope { text: text.to_owned(), exact: true }
    }
}

/// Whether a session worked in `scope` or inside it. None did where the path is
/// no valid text, since the directory of a session is text.
pub open spec fn worked_in(session: Session, scope: ScopeView) -> bool {
    scope.exact && (session.cwd matches Some(cwd) && path::is_within(cwd@, scope.text))
}

/// Whether a session passes the filters on agent and directory.
pub open spec fn is_candidate(session: Session, scope: ScopeView, state: StateView) -> bool {
    &&& state.solo matches Some(solo) ==> session.agent == solo
    &&& state.scoped ==> worked_in(session, scope)
}

/// How a session scores: nothing where it is filtered out or does not match,
/// and all alike while nothing is typed.
pub open spec fn row_score(
    session: Session,
    scope: ScopeView,
    state: StateView,
    labels: Labels,
) -> Option<u32> {
    if !is_candidate(session, scope, state) {
        None
    } else if state.query.len() == 0 {
        Some(0)
    } else {
        fuzzy::fuzzy_score(state.query, session.search_text(labels))
    }
}

/// The scores of all sessions.
pub open spec fn row_scores(
    sessions: Seq<Session>,
    scope: ScopeView,
    state: StateView,
    labels: Labels,
) -> Seq<Option<u32>> {
    sessions.map_values(|session: Session| row_score(session, scope, state, labels))
}

/// Whether `rows` holds the positions that have a score, each once, better
/// scores first and equal scores in order of position.
pub open spec fn is_best_first(scores: Seq<Option<u32>>, rows: Seq<usize>) -> bool {
    &&& forall|i: int|
        0 <= i < rows.len() ==> (#[trigger] rows[i] as int) < scores.len() && scores[rows[i] as int] is Some
    &&& forall|k: usize| k < scores.len() && scores[k as int] is Some ==> #[trigger] rows.contains(k)
    &&& forall|i: int, j: int|
        0 <= i < j < rows.len() ==> {
            let a = #[trigger] rows[i] as int;
            let b = #[trigger] rows[j] as int;
            ||| scores[a]->0 > scores[b]->0
            ||| scores[a]->0 == scores[b]->0 && a < b
        }
}

/// The one order of the positions that have a score.
pub open spec fn best_order(scores: Seq<Option<u32>>) -> Seq<usize> {
    choose|rows: Seq<usize>| is_best_first(scores, rows)
}

/// The rows that the picker shows: the positions of the sessions that pass the
/// filters and match the query, best match first.
pub open spec fn shown(
    sessions: Seq<Session>,
    scope: ScopeView,
    state: StateView,
    labels: Labels,
) -> Seq<usize> {
    best_order(row_scores(sessions, scope, state, labels))
}

/// Whether every session that is to be matched can be scored: neither it nor the
/// query is too long, and their letters do not clash.
pub open spec fn all_scorable(
    sessions: Seq<Session>,
    scope: ScopeView,
    state: StateView,
    labels: Labels,
) -> bool {
    forall|i: int|
        0 <= i < sessions.len() && state.query.len() > 0 && is_candidate(
            #[trigger] sessions[i],
            scope,
            state,
        ) ==> fuzzy::scorable(state.query, sessions[i].search_text(labels))
}

/// Whether the session worked in `scope` or inside it.
pub fn in_scope(session: &Session, scope: &Scope) -> (r: bool)
    ensures
        r == worked_in(*session, scope@),
{
    match &session.cwd {
        Some(cwd) => scope.exact && path::starts_with(cwd.as_str(), scope.text.as_str()),
        None => false,
    }
}

/// Whether the session passes the filters on agent and directory.
fn passes(session: &Session, scope: &Scope, state: &State) -> (r: bool)
    ensures
        r == is_candidate(*session, scope@, state@),
{
    let agent_passes = match state.solo {
        Some(solo) => session.agent == solo,
        None => true,
    };
    agent_passes && (!state.scoped || in_scope(session, scope))
}

/// Whether every session that is to be matched can be scored: neither it nor the
/// query is too long, and their letters do not clash.
pub fn can_match(sessions: &[Session], scope: &Scope, state: &State, labels: &Labels) -> (r: bool)
    ensures
        r == all_scorable(sessions@, scope@, state@, *labels),
{
    if state.query.as_str().is_empty() {
        return true;
    }
    let mut i: usize = 0;
    while i < sessions.len()
        invariant
            i <= sessions.len(),
            state@.query.len() > 0,
            forall|j: int|
                0 <= j < i && is_candidate(#[trigger] sessions@[j], scope@, state@) ==> fuzzy::scorable(
                    state@.query,
                    sessions@[j].search_text(*labels),
                ),
        decreases sessions.len() - i,
    {
        let session = &sessions[i];
        if passes(session, scope, state) && !fuzzy::is_scorable(
            state.query.as_str(),
            session.haystack(labels).as_str(),
        ) {
            assert(is_candidate(sessions@[i as int], scope@, state@));
            return false;
        }
        i += 1;
    }
    true
}

/// The positions that have a score, better scores first.
pub fn best_first(scores: &Vec<Option<u32>>) -> (r: Vec<usize>)
    ensures
        is_best_first(scores@, r@),
        r@ == best_order(scores@),
{
    let mut keys: Vec<i128> = Vec::new();
    let mut positions: Vec<usize> = Vec::new();
    let mut i: usize = 0;
    while i < scores.len()
        invariant
            i <= scores.len(),
            keys.len() == positions.len(),
            forall|p: int|
                0 <= p < positions.len() ==> {
                    &&& #[trigger] positions@[p] < i
                    &&& scores@[positions@[p] as int] == Some(keys@[p] as u32)
                    &&& 0 <= keys@[p] <= u32::MAX
                },
            forall|p: int, q: int|
                0 <= p < q < positions.len() ==> #[trigger] positions@[p] < #[trigger] positions@[q],
            forall|k: usize| k < i && scores@[k as int] is Some ==> #[trigger] positions@.contains(k),
        decreases scores.len() - i,
    {
        let ghost before = positions@;
        if let Some(score) = scores[i] {
            keys.push(score as i128);
            positions.push(i);
            proof {
                assert forall|k: usize| k < i + 1 && scores@[k as int] is Some implies #[trigger] positions@.contains(
                    k,
                ) by {
                    if k == i {
                        assert(positions@[before.len() as int] == k);
                    } else {
                        assert(before.contains(k));
                        let p = choose|p: int| 0 <= p < before.len() && before[p] == k;
                        assert(positions@[p] == k);
                    }
                }
            }
        }
        i += 1;
    }
    let order = rank::rank(&keys);
    let mut out: Vec<usize> = Vec::new();
    let mut k: usize = 0;
    while k < order.len()
        invariant
            k <= order.len(),
            order.len() == positions.len(),
            forall|p: int| 0 <= p < order.len() ==> #[trigger] order@[p] < positions.len(),
            out.len() == k,
            forall|p: int| 0 <= p < k ==> #[trigger] out@[p] == positions@[order@[p] as int],
        decreases order.len() - k,
    {
        out.push(positions[order[k]]);
        k += 1;
    }
    proof {
        assert forall|s: usize| s < scores.len() && scores@[s as int] is Some implies #[trigger] out@.contains(
            s,
        ) by {
            assert(positions@.contains(s));
            let p = choose|p: int| 0 <= p < positions.len() && positions@[p] == s;
            assert(order@.contains(p as usize));
            let q = choose|q: int| 0 <= q < order.len() && order@[q] == p as usize;
            assert(out@[q] == s);
        }
        assert(is_best_first(scores@, out@));
        law_one_order_of_rows(scores@, out@, best_order(scores@));
    }
    out
}

/// The rows that the picker shows: the positions of the sessions that pass the
/// filters and match the query, best match first.
pub fn visible(sessions: &[Session], scope: &Scope, state: &State, labels: &Labels) -> (r: Vec<usize>)
    requires
        all_scorable(sessions@, scope@, state@, *labels),
    ensures
        is_best_first(row_scores(sessions@, scope@, state@, *labels), r@),
        r@ == shown(sessions@, scope@, state@, *labels),
{
    let mut scores: Vec<Option<u32>> = Vec::new();
    let mut i: usize = 0;
    while i < sessions.len()
        invariant
            i <= sessions.len(),
            scores.len() == i,
            all_scorable(sessions@, scope@, state@, *labels),
            forall|j: int| 0 <= j < i ==> scores@[j] == row_score(sessions@[j], scope@, state@, *labels),
        decreases sessions.len() - i,
    {
        let session = &sessions[i];
        if !passes(session, scope, state) {
            scores.push(None);
        } else if state.query.as_str().is_empty() {
            scores.push(Some(0));
        } else {
            scores.push(fuzzy::score(state.query.as_str(), session.haystack(labels).as_str()));
        }
        i += 1;
    }
    assert(scores@ =~= row_scores(sessions@, scope@, state@, *labels));
    best_first(&scores)
}

/// The agent to show alone after `solo`: each in turn, and all after the last.
pub open spec fn next_solo(solo: Option<Agent>) -> Option<Agent> {
    match solo {
        None => Some(session::variants()[0]),
        Some(agent) => {
            let next = session::variants().index_of(agent) + 1;
            if next < session::variants().len() {
                Some(session::variants()[next])
            } else {
                None
            }
        },
    }
}

/// The agent to show alone after `solo`.
pub fn cycle(solo: Option<Agent>) -> (r: Option<Agent>)
    ensures
        r == next_solo(solo),
{
    let all = Agent::value_variants();
    match solo {
        None => Some(all[0]),
        Some(agent) => {
            let mut i: usize = 0;
            while i < 4
                invariant
                    i <= 4,
                    solo == Some(agent),
                    all@ == session::variants(),
                    forall|j: int| 0 <= j < i ==> session::variants()[j] != agent,
                decreases 4 - i,
            {
                if all[i] == agent {
                    proof {
                        session::lemma_variant_position(i as int);
                    }
                    return if i < 3 {
                        Some(all[i + 1])
                    } else {
                        None
                    };
                }
                i += 1;
            }
            proof {
                lemma_every_agent_is_a_variant(agent);
            }
            None
        },
    }
}

proof fn lemma_every_agent_is_a_variant(agent: Agent)
    ensures
        exists|i: int| 0 <= i < 4 && session::variants()[i] == agent,
{
    match agent {
        Agent::ClaudeCode => assert(session::variants()[0] == agent),
        Agent::Codex => assert(session::variants()[1] == agent),
        Agent::Cursor => assert(session::variants()[2] == agent),
        Agent::Pi => assert(session::variants()[3] == agent),
    }
}

/// A key, as far as the picker tells keys apart.
#[derive(Clone, Copy, Debug, PartialEq, Eq, Structural)]
pub enum KeyCode {
    Esc,
    Enter,
    Up,
    Down,
    PageUp,
    PageDown,
    Tab,
    Backspace,
    Char(char),
    Other,
}

/// A key with what was held down along with it.
#[derive(Clone, Copy, Debug, PartialEq, Eq, Structural)]
pub struct KeyEvent {
    pub code: KeyCode,
    pub control: bool,
    pub alt: bool,
    /// Whether the key went down, rather than up or on repeating.
    pub press: bool,
}

/// What a terminal reports.
#[derive(Clone, Copy, Debug, PartialEq, Eq, Structural)]
pub enum Event {
    Key(KeyEvent),
    Other,
}

/// What a key asks for.
#[derive(Clone, Copy, Debug, PartialEq, Eq, Structural)]
pub enum Action {
    Quit,
    Accept,
    Move(isize),
    ToggleScope,
    CycleAgent,
    SoloAgent(Agent),
    Type(char),
    Erase,
    Nothing,
}

/// What a character asks for with the control key held down, if it is one of
/// the commands.
pub open spec fn control_command(c: char) -> Option<Action> {
    if c == 'c' {
        Some(Action::Quit)
    } else if c == 'p' {
        Some(Action::Move(-1isize))
    } else if c == 'n' {
        Some(Action::Move(1))
    } else if c == 'a' {
        Some(Action::CycleAgent)
    } else {
        None
    }
}

/// What a character asks for.
pub open spec fn char_action(c: char, control: bool, alt: bool) -> Action {
    if control && control_command(c) is Some {
        control_command(c)->0
    } else if alt && '1' <= c <= '4' {
        Action::SoloAgent(session::variants()[c as int - '1' as int])
    } else if !control && !alt {
        Action::Type(c)
    } else {
        Action::Nothing
    }
}

/// What a key asks for.
pub open spec fn key_action(key: KeyEvent) -> Action {
    match key.code {
        KeyCode::Esc => Action::Quit,
        KeyCode::Enter => Action::Accept,
        KeyCode::Up => Action::Move(-1isize),
        KeyCode::Down => Action::Move(1),
        KeyCode::PageUp => Action::Move(-10isize),
        KeyCode::PageDown => Action::Move(10),
        KeyCode::Tab => Action::ToggleScope,
        KeyCode::Backspace => Action::Erase,
        KeyCode::Char(c) => char_action(c, key.control, key.alt),
        KeyCode::Other => Action::Nothing,
    }
}

/// What a key asks for.
pub fn action(key: KeyEvent) -> (r: Action)
    ensures
        r == key_action(key),
{
    match key.code {
        KeyCode::Esc => Action::Quit,
        KeyCode::Char('c') if key.control => Action::Quit,
        KeyCode::Enter => Action::Accept,
        KeyCode::Up => Action::Move(-1),
        KeyCode::Down => Action::Move(1),
        KeyCode::Char('p') if key.control => Action::Move(-1),
        KeyCode::Char('n') if key.control => Action::Move(1),
        KeyCode::PageUp => Action::Move(-10),
        KeyCode::PageDown => Action::Move(10),
        KeyCode::Tab => Action::ToggleScope,
        KeyCode::Char('a') if key.control => Action::CycleAgent,
        KeyCode::Char(c) if key.alt && '1' <= c && c <= '4' => {
            let all = Agent::value_variants();
            Action::SoloAgent(all[c as usize - '1' as usize])
        },
        KeyCode::Backspace => Action::Erase,
        KeyCode::Char(c) if !key.control && !key.alt => Action::Type(c),
        _ => Action::Nothing,
    }
}

/// The last of so many rows, the first where there is none.
pub open spec fn last_row(rows: nat) -> int {
    if rows > 0 {
        rows - 1
    } else {
        0
    }
}

/// The row nearest to `row` among so many.
pub open spec fn nearest_row(row: int, rows: nat) -> int {
    if row < 0 {
        0
    } else if row > last_row(rows) {
        last_row(rows)
    } else {
        row
    }
}

/// The state once the selection is on a row again.
pub open spec fn settled(state: StateView, rows: nat) -> StateView {
    StateView { selected: nearest_row(state.selected, rows), ..state }
}

/// The state after an action, with so many rows shown.
pub open spec fn after(state: StateView, rows: nat, action: Action) -> StateView {
    match action {
        Action::Move(delta) => StateView {
            selected: nearest_row(state.selected + delta, rows),
            ..state
        },
        Action::ToggleScope => StateView { scoped: !state.scoped, ..state },
        Action::CycleAgent => StateView { solo: next_solo(state.solo), ..state },
        Action::SoloAgent(agent) => StateView {
            solo: if state.solo == Some(agent) {
                None
            } else {
                Some(agent)
            },
            ..state
        },
        Action::Type(c) => StateView { query: state.query.push(c), selected: 0, ..state },
        Action::Erase => StateView {
            query: if state.query.len() > 0 {
                state.query.drop_last()
            } else {
                state.query
            },
            selected: 0,
            ..state
        },
        Action::Quit | Action::Accept | Action::Nothing => state,
    }
}

/// Whether the picker goes on, or leaves with or without a session.
#[derive(Clone, Copy, Debug, PartialEq, Eq)]
pub enum Outcome {
    Stay,
    Leave(Option<usize>),
}

/// Whether the picker goes on after an action, with the given rows shown.
pub open spec fn outcome(state: StateView, rows: Seq<usize>, action: Action) -> Outcome {
    match action {
        Action::Quit => Outcome::Leave(None),
        Action::Accept => if state.selected < rows.len() {
            Outcome::Leave(Some(rows[state.selected]))
        } else {
            Outcome::Stay
        },
        _ => Outcome::Stay,
    }
}

/// What an event asks for: nothing, unless a key went down.
pub open spec fn event_action(event: Event) -> Action {
    match event {
        Event::Key(key) => if key.press {
            key_action(key)
        } else {
            Action::Nothing
        },
        Event::Other => Action::Nothing,
    }
}

/// The state the picker starts in.
pub open spec fn initial(scoped: bool) -> StateView {
    StateView { query: seq![], solo: None, scoped, selected: 0 }
}

impl State {
    /// The state the picker starts in.
    pub fn new(scoped: bool) -> (r: State)
        ensures
            r@ == (StateView { query: seq![], solo: None, scoped, selected: 0 }),
            r@ == initial(scoped),
    {
        State { query: String::new(), solo: None, scoped, selected: 0 }
    }

    /// Puts the selection back on a row, of which there are so many.
    pub fn settle(&mut self, rows: usize)
        ensures
            final(self)@ == settled(old(self)@, rows as nat),
    {
        let last: usize = if rows > 0 {
            rows - 1
        } else {
            0
        };
        if self.selected > last {
            self.selected = last;
        }
    }

    /// Moves the selection by `delta` among so many rows, and no further than
    /// the first and the last.
    fn shift(&mut self, delta: isize, rows: usize)
        ensures
            final(self)@ == after(old(self)@, rows as nat, Action::Move(delta)),
    {
        let last: usize = if rows > 0 {
            rows - 1
        } else {
            0
        };
        let row: i128 = self.selected as i128 + delta as i128;
        if row < 0 {
            self.selected = 0;
        } else if row > last as i128 {
            self.selected = last;
        } else {
            self.selected = row as usize;
        }
    }

    /// Does what an action asks for, with the given rows shown.
    pub fn perform(&mut self, rows: &Vec<usize>, action: Action) -> (r: Outcome)
        ensures
            r == outcome(old(self)@, rows@, action),
            final(self)@ == after(old(self)@, rows@.len(), action),
    {
        match action {
            Action::Quit => {
                return Outcome::Leave(None);
            },
            Action::Accept => {
                if self.selected < rows.len() {
                    return Outcome::Leave(Some(rows[self.selected]));
                }
            },
            Action::Move(delta) => {
                self.shift(delta, rows.len());
            },
            Action::ToggleScope => {
                self.scoped = !self.scoped;
            },
            Action::CycleAgent => {
                self.solo = cycle(self.solo);
            },
            Action::SoloAgent(agent) => {
                let already = match self.solo {
                    Some(solo) => solo == agent,
                    None => false,
                };
                self.solo = if already {
                    None
                } else {
                    Some(agent)
                };
            },
            Action::Type(c) => {
                self.query.push(c);
                self.selected = 0;
            },
            Action::Erase => {
                let erased = self.query.pop();
                self.selected = 0;
            },
            Action::Nothing => {},
        }
        Outcome::Stay
    }

    /// Answers an event, with the given rows shown: a key that went down does
    /// what it asks for, and anything else changes nothing.
    pub fn respond(&mut self, rows: &Vec<usize>, event: Event) -> (r: Outcome)
        ensures
            r == outcome(old(self)@, rows@, event_action(event)),
            final(self)@ == after(old(self)@, rows@.len(), event_action(event)),
    {
        match event {
            Event::Key(key) => {
                if key.press {
                    self.perform(rows, action(key))
                } else {
                    Outcome::Stay
                }
            },
            Event::Other => Outcome::Stay,
        }
    }
}

/// What is printed of a session, where `json` is the session written as JSON.
pub open spec fn printed(session: Session, print: Print, json: Option<String>) -> Seq<char> {
    match print {
        Print::Id => session.id@,
        Print::Path => text::text_or_empty(session.path),
        Print::Cwd => text::text_or_empty(session.cwd),
        Print::Json => text::text_or_empty(json),
    }
}

/// What is printed of the session that was picked. `json` is the session
/// written as JSON, where that was asked for and could be done.
pub fn output(session: &Session, print: Print, json: Option<String>) -> (r: String)
    ensures
        r@ == printed(*session, print, json),
{
    match print {
        Print::Id => session.id.clone(),
        Print::Path => text::or_empty(&session.path),
        Print::Cwd => text::or_empty(&session.cwd),
        Print::Json => text::or_empty(&json),
    }
}

/// Scores leave one order of rows only.
pub proof fn law_one_order_of_rows(scores: Seq<Option<u32>>, first: Seq<usize>, second: Seq<usize>)
    requires
        is_best_first(scores, first),
        is_best_first(scores, second),
    ensures
        first == second,
{
    if first.len() <= second.len() {
        lemma_rows_agree(scores, first, second, first.len() as int);
        lemma_no_rows_left(scores, first, second);
    } else {
        lemma_rows_agree(scores, second, first, second.len() as int);
        lemma_no_rows_left(scores, second, first);
    }
    assert(first =~= second);
}

proof fn lemma_no_rows_left(scores: Seq<Option<u32>>, first: Seq<usize>, second: Seq<usize>)
    requires
        is_best_first(scores, first),
        is_best_first(scores, second),
        first.len() <= second.len(),
        forall|j: int| 0 <= j < first.len() ==> first[j] == second[j],
    ensures
        first.len() == second.len(),
{
    if first.len() < second.len() {
        let n = first.len() as int;
        assert(first.contains(second[n]));
        let p = choose|p: int| 0 <= p < first.len() && first[p] == second[n];
        assert(second[p] == second[n]);
    }
}

proof fn lemma_rows_agree(scores: Seq<Option<u32>>, first: Seq<usize>, second: Seq<usize>, n: int)
    requires
        is_best_first(scores, first),
        is_best_first(scores, second),
        0 <= n <= first.len() <= second.len(),
    ensures
        forall|j: int| 0 <= j < n ==> first[j] == second[j],
    decreases n,
{
    if n > 0 {
        let i = n - 1;
        lemma_rows_agree(scores, first, second, i);
        assert(second.contains(first[i]));
        assert(first.contains(second[i]));
        let p = choose|p: int| 0 <= p < second.len() && second[p] == first[i];
        let q = choose|q: int| 0 <= q < first.len() && first[q] == second[i];
        if p < i {
            assert(first[p] == second[p]);
        }
        if q < i {
            assert(first[q] == second[q]);
        }
    }
}

/// While nothing is typed, the sessions that pass the filters are shown in the
/// order they stand in.
pub proof fn law_empty_query_keeps_the_order(
    sessions: Seq<Session>,
    scope: ScopeView,
    state: StateView,
    labels: Labels,
    rows: Seq<usize>,
)
    requires
        state.query.len() == 0,
        is_best_first(row_scores(sessions, scope, state, labels), rows),
    ensures
        forall|i: int, j: int| 0 <= i < j < rows.len() ==> #[trigger] rows[i] < #[trigger] rows[j],
        forall|k: usize|
            k < sessions.len() ==> (#[trigger] rows.contains(k) <==> is_candidate(
                sessions[k as int],
                scope,
                state,
            )),
{
    let scores = row_scores(sessions, scope, state, labels);
    assert forall|i: int, j: int| 0 <= i < j < rows.len() implies #[trigger] rows[i]
        < #[trigger] rows[j] by {
        assert(scores[rows[i] as int] is Some && scores[rows[j] as int] is Some);
    }
    assert forall|k: usize| k < sessions.len() implies (#[trigger] rows.contains(k)
        <==> is_candidate(sessions[k as int], scope, state)) by {
        if rows.contains(k) {
            let i = choose|i: int| 0 <= i < rows.len() && rows[i] == k;
            assert(scores[rows[i] as int] is Some);
        } else {
            assert(scores[k as int] is None);
        }
    }
}

/// Every row shown is a session that passes the filters, whatever is typed.
pub proof fn law_rows_pass_the_filters(
    sessions: Seq<Session>,
    scope: ScopeView,
    state: StateView,
    labels: Labels,
    rows: Seq<usize>,
    i: int,
)
    requires
        is_best_first(row_scores(sessions, scope, state, labels), rows),
        0 <= i < rows.len(),
    ensures
        rows[i] < sessions.len(),
        state.solo matches Some(solo) ==> sessions[rows[i] as int].agent == solo,
        state.scoped ==> worked_in(sessions[rows[i] as int], scope),
{
    assert(row_scores(sessions, scope, state, labels)[rows[i] as int] is Some);
}

/// Limiting the list, by directory or by agent, takes rows away and leaves the
/// others in their order: what is left is what passes the filters.
pub proof fn law_limits_only_take_away(
    sessions: Seq<Session>,
    scope: ScopeView,
    state: StateView,
    labels: Labels,
    limited: Seq<usize>,
    all: Seq<usize>,
)
    requires
        is_best_first(row_scores(sessions, scope, state, labels), limited),
        is_best_first(
            row_scores(sessions, scope, StateView { scoped: false, solo: None, ..state }, labels),
            all,
        ),
    ensures
        limited == all.filter(|k: usize| is_candidate(sessions[k as int], scope, state)),
{
    let keep = |k: usize| is_candidate(sessions[k as int], scope, state);
    let scores = row_scores(sessions, scope, state, labels);
    let unlimited = row_scores(
        sessions,
        scope,
        StateView { scoped: false, solo: None, ..state },
        labels,
    );
    let left = all.filter(keep);
    assert forall|i: int, j: int| 0 <= i < j < all.len() implies goes_before(
        unlimited,
        #[trigger] all[i],
        #[trigger] all[j],
    ) by {}
    lemma_filter_keeps_order(unlimited, all, keep);
    assert forall|i: int| 0 <= i < left.len() implies (#[trigger] left[i] as int) < scores.len()
        && scores[left[i] as int] is Some && scores[left[i] as int] == unlimited[left[i] as int] by {
        assert(all.contains(left[i]));
        let p = choose|p: int| 0 <= p < all.len() && all[p] == left[i];
        assert(unlimited[all[p] as int] is Some);
    }
    assert forall|k: usize| k < scores.len() && scores[k as int] is Some implies #[trigger] left.contains(
        k,
    ) by {
        assert(unlimited[k as int] is Some);
        assert(all.contains(k));
    }
    assert forall|i: int, j: int| 0 <= i < j < left.len() implies {
        let a = #[trigger] left[i] as int;
        let b = #[trigger] left[j] as int;
        ||| scores[a]->0 > scores[b]->0
        ||| scores[a]->0 == scores[b]->0 && a < b
    } by {
        assert(goes_before(unlimited, left[i], left[j]));
    }
    law_one_order_of_rows(scores, limited, left);
}

/// Whether a position with a score goes before another.
spec fn goes_before(scores: Seq<Option<u32>>, a: usize, b: usize) -> bool {
    ||| scores[a as int]->0 > scores[b as int]->0
    ||| scores[a as int]->0 == scores[b as int]->0 && a < b
}

proof fn lemma_filter_keeps_order(
    scores: Seq<Option<u32>>,
    rows: Seq<usize>,
    keep: spec_fn(usize) -> bool,
)
    requires
        forall|i: int, j: int|
            0 <= i < j < rows.len() ==> goes_before(scores, #[trigger] rows[i], #[trigger] rows[j]),
    ensures
        forall|i: int, j: int|
            0 <= i < j < rows.filter(keep).len() ==> goes_before(
                scores,
                #[trigger] rows.filter(keep)[i],
                #[trigger] rows.filter(keep)[j],
            ),
        forall|i: int|
            0 <= i < rows.filter(keep).len() ==> rows.contains(#[trigger] rows.filter(keep)[i]) && keep(
                rows.filter(keep)[i],
            ),
        forall|k: usize| rows.contains(k) && keep(k) ==> #[trigger] rows.filter(keep).contains(k),
    decreases rows.len(),
{
    reveal(Seq::filter);
    if rows.len() > 0 {
        let shorter = rows.drop_last();
        let earlier = shorter.filter(keep);
        let left = rows.filter(keep);
        assert forall|i: int, j: int| 0 <= i < j < shorter.len() implies goes_before(
            scores,
            #[trigger] shorter[i],
            #[trigger] shorter[j],
        ) by {
            assert(shorter[i] == rows[i] && shorter[j] == rows[j]);
        }
        lemma_filter_keeps_order(scores, shorter, keep);
        assert forall|i: int| 0 <= i < earlier.len() implies rows.contains(#[trigger] earlier[i])
            && keep(earlier[i]) && goes_before(scores, earlier[i], rows.last()) by {
            assert(shorter.contains(earlier[i]));
            let p = choose|p: int| 0 <= p < shorter.len() && shorter[p] == earlier[i];
            assert(rows[p] == earlier[i]);
            assert(goes_before(scores, rows[p], rows[rows.len() - 1]));
        }
        assert(rows[rows.len() - 1] == rows.last());
        assert forall|i: int, j: int| 0 <= i < j < left.len() implies goes_before(
            scores,
            #[trigger] left[i],
            #[trigger] left[j],
        ) by {
            assert(left[i] == earlier[i]);
            if j < earlier.len() {
                assert(left[j] == earlier[j]);
            }
        }
        assert forall|k: usize| rows.contains(k) && keep(k) implies #[trigger] left.contains(k) by {
            let p = choose|p: int| 0 <= p < rows.len() && rows[p] == k;
            if p < shorter.len() {
                assert(shorter[p] == k);
                assert(earlier.contains(k));
                let q = choose|q: int| 0 <= q < earlier.len() && earlier[q] == k;
                assert(left[q] == k);
            } else {
                assert(left[left.len() - 1] == k);
            }
        }
    }
}

/// Whether two optional texts read the same.
pub open spec fn same_text(a: Option<String>, b: Option<String>) -> bool {
    (a is Some <==> b is Some) && text::text_or_empty(a) == text::text_or_empty(b)
}

/// Whether two sessions are alike in all that a search looks at.
pub open spec fn are_alike(a: Session, b: Session) -> bool {
    &&& a.agent == b.agent
    &&& same_text(a.title, b.title)
    &&& same_text(a.cwd, b.cwd)
    &&& same_text(a.branch, b.branch)
}

/// The rows shown depend on nothing but what is typed, the filters, and the
/// agent, title, directory and branch of each session, and on the scope only
/// where it limits the list.
pub proof fn law_rows_depend_on_what_is_searched(
    first: Seq<Session>,
    second: Seq<Session>,
    here: ScopeView,
    there: ScopeView,
    a: StateView,
    b: StateView,
    labels: Labels,
)
    requires
        first.len() == second.len(),
        forall|i: int| 0 <= i < first.len() ==> are_alike(#[trigger] first[i], second[i]),
        a.query == b.query,
        a.solo == b.solo,
        a.scoped == b.scoped,
        a.scoped ==> here == there,
    ensures
        row_scores(first, here, a, labels) == row_scores(second, there, b, labels),
        shown(first, here, a, labels) == shown(second, there, b, labels),
{
    assert forall|i: int| 0 <= i < first.len() implies row_scores(first, here, a, labels)[i]
        == row_scores(second, there, b, labels)[i] by {
        assert(are_alike(first[i], second[i]));
    }
    assert(row_scores(first, here, a, labels) =~= row_scores(second, there, b, labels));
}

/// However the sessions score, there is an order to show them in.
pub proof fn law_rows_are_in_order(scores: Seq<Option<u32>>)
    ensures
        is_best_first(scores, best_order(scores)),
{
    let rows = lemma_an_order_exists(scores);
}

/// Where in a falling list of scores a new one goes: behind those that are no less.
proof fn lemma_place_for(scores: Seq<Option<u32>>, rows: Seq<usize>, score: u32) -> (p: int)
    requires
        forall|i: int, j: int|
            0 <= i < j < rows.len() ==> scores[#[trigger] rows[i] as int]->0
                >= scores[#[trigger] rows[j] as int]->0,
    ensures
        0 <= p <= rows.len(),
        forall|i: int| 0 <= i < p ==> scores[#[trigger] rows[i] as int]->0 >= score,
        forall|i: int| p <= i < rows.len() ==> scores[#[trigger] rows[i] as int]->0 < score,
    decreases rows.len(),
{
    if rows.len() == 0 || scores[rows.last() as int]->0 >= score {
        assert(rows.len() > 0 ==> rows[rows.len() - 1] == rows.last());
        rows.len() as int
    } else {
        let shorter = rows.drop_last();
        assert forall|i: int, j: int| 0 <= i < j < shorter.len() implies scores[#[trigger] shorter[i] as int]->0
            >= scores[#[trigger] shorter[j] as int]->0 by {
            assert(shorter[i] == rows[i] && shorter[j] == rows[j]);
        }
        let p = lemma_place_for(scores, shorter, score);
        assert forall|i: int| 0 <= i < p implies scores[#[trigger] rows[i] as int]->0 >= score by {
            assert(shorter[i] == rows[i]);
        }
        assert forall|i: int| p <= i < rows.len() implies scores[#[trigger] rows[i] as int]->0 < score by {
            if i < shorter.len() {
                assert(shorter[i] == rows[i]);
            }
        }
        p
    }
}

/// The order of the positions up to the last, with the last put in its place.
proof fn lemma_last_in_its_place(scores: Seq<Option<u32>>, rows: Seq<usize>, new: usize, p: int) -> (longer:
    Seq<usize>)
    requires
        scores.len() == new + 1,
        scores[new as int] is Some,
        is_best_first(scores.drop_last(), rows),
        0 <= p <= rows.len(),
        forall|i: int| 0 <= i < p ==> scores[#[trigger] rows[i] as int]->0 >= scores[new as int]->0,
        forall|i: int|
            p <= i < rows.len() ==> scores[#[trigger] rows[i] as int]->0 < scores[new as int]->0,
    ensures
        is_best_first(scores, longer),
{
    let fewer = scores.drop_last();
    let longer = Seq::new(
        rows.len() + 1,
        |i: int|
            if i < p {
                rows[i]
            } else if i == p {
                new
            } else {
                rows[i - 1]
            },
    );
    assert forall|i: int| 0 <= i < rows.len() implies (#[trigger] rows[i] as int) < new
        && scores[rows[i] as int] is Some && scores[rows[i] as int] == fewer[rows[i] as int] by {}
    assert forall|k: usize| k < scores.len() && scores[k as int] is Some implies #[trigger] longer.contains(
        k,
    ) by {
        if k == new {
            assert(longer[p] == k);
        } else {
            assert(fewer[k as int] is Some);
            assert(rows.contains(k));
            let q = choose|q: int| 0 <= q < rows.len() && rows[q] == k;
            assert(longer[if q < p {
                q
            } else {
                q + 1
            }] == k);
        }
    }
    assert forall|i: int, j: int| 0 <= i < j < longer.len() implies goes_before(
        scores,
        #[trigger] longer[i],
        #[trigger] longer[j],
    ) by {
        if i != p && j != p {
            let a = if i < p {
                i
            } else {
                i - 1
            };
            let b = if j < p {
                j
            } else {
                j - 1
            };
            assert(longer[i] == rows[a] && longer[j] == rows[b]);
        } else if i == p {
            assert(longer[j] == rows[j - 1]);
        } else {
            assert(longer[i] == rows[i]);
        }
    }
    longer
}

proof fn lemma_an_order_exists(scores: Seq<Option<u32>>) -> (rows: Seq<usize>)
    ensures
        is_best_first(scores, rows),
    decreases scores.len(),
{
    if scores.len() == 0 {
        Seq::empty()
    } else {
        let fewer = scores.drop_last();
        let rows = lemma_an_order_exists(fewer);
        let m = fewer.len();
        assert forall|i: int| 0 <= i < rows.len() implies (#[trigger] rows[i] as int) < m
            && scores[rows[i] as int] is Some && scores[rows[i] as int] == fewer[rows[i] as int] by {}
        if m > usize::MAX || scores[m as int] is None {
            assert forall|k: usize| k < scores.len() && scores[k as int] is Some implies #[trigger] rows.contains(
                k,
            ) by {
                assert(fewer[k as int] is Some);
            }
            rows
        } else {
            let p = lemma_place_for(fewer, rows, scores[m as int]->0);
            lemma_last_in_its_place(scores, rows, m as usize, p)
        }
    }
}

/// Walking through the agents shows each alone, in their order, and then all
/// again.
pub proof fn law_cycle_shows_each_agent_and_then_all(i: int)
    requires
        0 <= i < session::variants().len(),
    ensures
        next_solo(None) == Some(session::variants()[0]),
        next_solo(Some(session::variants()[i])) == if i + 1 < session::variants().len() {
            Some(session::variants()[i + 1])
        } else {
            None
        },
{
    session::lemma_variant_position(i);
}

/// One round through the agents ends where it began.
pub proof fn law_cycle_comes_round(solo: Option<Agent>)
    ensures
        next_solo(next_solo(next_solo(next_solo(next_solo(solo))))) == solo,
{
    session::lemma_variant_position(0);
    session::lemma_variant_position(1);
    session::lemma_variant_position(2);
    session::lemma_variant_position(3);
}

/// Once settled, the selection is on a row wherever there is one, and a move
/// leaves it on a row.
pub proof fn law_selection_stays_on_the_rows(state: StateView, rows: nat, delta: isize)
    requires
        rows > 0,
    ensures
        0 <= settled(state, rows).selected < rows,
        0 <= after(state, rows, Action::Move(delta)).selected < rows,
{
}

/// A settled selection stays where it is on settling again.
pub proof fn law_settling_is_final(state: StateView, rows: nat)
    ensures
        settled(settled(state, rows), rows) == settled(state, rows),
{
}

/// Whoever leaves with a session leaves with one of those shown.
pub proof fn law_accepts_what_is_shown(
    sessions: Seq<Session>,
    scope: ScopeView,
    state: StateView,
    labels: Labels,
    rows: Seq<usize>,
    action: Action,
)
    requires
        state.selected >= 0,
        is_best_first(row_scores(sessions, scope, state, labels), rows),
    ensures
        outcome(state, rows, action) matches Outcome::Leave(Some(picked)) ==> {
            &&& picked < sessions.len()
            &&& is_candidate(sessions[picked as int], scope, state)
            &&& rows.contains(picked)
        },
{
    if state.selected < rows.len() {
        assert(row_scores(sessions, scope, state, labels)[rows[state.selected] as int] is Some);
    }
}

/// Erasing undoes typing.
pub proof fn law_erasing_undoes_typing(state: StateView, rows: nat, c: char)
    ensures
        after(after(state, rows, Action::Type(c)), rows, Action::Erase) == (StateView {
            selected: 0,
            ..state
        }),
{
    assert(state.query.push(c).drop_last() =~= state.query);
}

/// Switching the scope twice changes nothing.
pub proof fn law_scope_switches_back(state: StateView, rows: nat)
    ensures
        after(after(state, rows, Action::ToggleScope), rows, Action::ToggleScope) == state,
{
}

/// Asking for one agent twice changes nothing, unless another agent was shown alone.
pub proof fn law_solo_switches_back(state: StateView, rows: nat, agent: Agent)
    requires
        state.solo matches Some(solo) ==> solo == agent,
    ensures
        after(after(state, rows, Action::SoloAgent(agent)), rows, Action::SoloAgent(agent)) == state,
{
}

/// Only a key that goes down changes anything or leaves the picker.
pub proof fn law_only_presses_count(state: StateView, rows: Seq<usize>, event: Event)
    requires
        !(event matches Event::Key(key) && key.press),
    ensures
        after(state, rows.len(), event_action(event)) == state,
        outcome(state, rows, event_action(event)) == Outcome::Stay,
{
}

/// Whether a session worked in a scope goes by its directory alone, and by whole
/// names: it did where its directory is the scope, or what follows the scope and
/// a slash, and it did not where it has no directory.
pub proof fn law_scope_goes_by_the_directory(
    session: Session,
    other: Session,
    scope: ScopeView,
    more: Seq<char>,
)
    ensures
        session.cwd matches Some(cwd) && scope.exact && cwd@ == scope.text ==> worked_in(session, scope),
        session.cwd matches Some(cwd) && scope.exact && cwd@ == scope.text.push('/') + more ==> worked_in(
            session,
            scope,
        ),
        scope.exact ==> (session.cwd matches Some(cwd) ==> (worked_in(session, scope)
            <==> path::is_within(cwd@, scope.text))),
        session.cwd is None || !scope.exact ==> !worked_in(session, scope),
        same_text(session.cwd, other.cwd) ==> worked_in(session, scope) == worked_in(other, scope),
{
    path::law_within_itself(scope.text);
    path::law_what_follows_a_slash_lies_within(scope.text, more);
}

/// A session that worked in a directory down some names from the root worked in the
/// scope down some names exactly where its names begin with those of the scope.
pub proof fn law_scope_goes_by_whole_names(
    session: Session,
    scope: ScopeView,
    inner: Seq<Seq<char>>,
    outer: Seq<Seq<char>>,
)
    requires
        path::are_names(inner),
        path::are_names(outer),
        session.cwd is Some,
        session.cwd->0@ == path::from_root(inner),
        scope.exact,
        scope.text == path::from_root(outer),
    ensures
        worked_in(session, scope) <==> outer.is_prefix_of(inner),
{
    path::law_within_goes_by_whole_names(inner, outer);
}

/// Each filter works by itself: the one on agents asks for the agent alone, the one
/// on directories for the directory alone, both together for both, and neither
/// for anything. What is typed and what is selected does not matter.
pub proof fn law_each_filter_works_by_itself(
    session: Session,
    scope: ScopeView,
    state: StateView,
    other: StateView,
    agent: Agent,
)
    ensures
        is_candidate(session, scope, StateView { solo: None, scoped: false, ..state }),
        is_candidate(session, scope, StateView { solo: Some(agent), scoped: false, ..state })
            <==> session.agent == agent,
        is_candidate(session, scope, StateView { solo: None, scoped: true, ..state }) <==> worked_in(
            session,
            scope,
        ),
        is_candidate(session, scope, state) <==> is_candidate(
            session,
            scope,
            StateView { scoped: false, ..state },
        ) && is_candidate(session, scope, StateView { solo: None, ..state }),
        state.solo == other.solo && state.scoped == other.scoped ==> is_candidate(session, scope, state)
            == is_candidate(session, scope, other),
{
}

/// Every session has its score at its place.
pub proof fn law_scores_stand_in_place(
    sessions: Seq<Session>,
    scope: ScopeView,
    state: StateView,
    labels: Labels,
)
    ensures
        row_scores(sessions, scope, state, labels).len() == sessions.len(),
        forall|i: int|
            0 <= i < sessions.len() ==> #[trigger] row_scores(sessions, scope, state, labels)[i]
                == row_score(sessions[i], scope, state, labels),
{
}

/// Once something is typed, the rows are the sessions that pass the filters and
/// that the matcher scores, a better score before a lesser one, and of equal ones
/// the session that stands first.
pub proof fn law_rows_are_the_matches_best_first(
    sessions: Seq<Session>,
    scope: ScopeView,
    state: StateView,
    labels: Labels,
    rows: Seq<usize>,
    k: usize,
    i: int,
    j: int,
)
    requires
        state.query.len() > 0,
        is_best_first(row_scores(sessions, scope, state, labels), rows),
        k < sessions.len(),
        0 <= i < j < rows.len(),
    ensures
        rows.contains(k) <==> is_candidate(sessions[k as int], scope, state) && fuzzy::fuzzy_score(
            state.query,
            sessions[k as int].search_text(labels),
        ) is Some,
        ({
            let a = fuzzy::fuzzy_score(state.query, sessions[rows[i] as int].search_text(labels));
            let b = fuzzy::fuzzy_score(state.query, sessions[rows[j] as int].search_text(labels));
            &&& rows[i] < sessions.len()
            &&& rows[j] < sessions.len()
            &&& rows[i] != rows[j]
            &&& a is Some
            &&& b is Some
            &&& a->0 >= b->0
            &&& a->0 == b->0 ==> rows[i] < rows[j]
        }),
{
    let scores = row_scores(sessions, scope, state, labels);
    assert(scores[rows[i] as int] is Some && scores[rows[j] as int] is Some);
    if rows.contains(k) {
        let p = choose|p: int| 0 <= p < rows.len() && rows[p] == k;
        assert(scores[rows[p] as int] is Some);
    } else {
        assert(scores[k as int] is None);
    }
}

/// Which sessions match does not depend on how many do: it is told row by row, also
/// where there is one row or none.
pub proof fn law_each_match_has_a_row(
    sessions: Seq<Session>,
    scope: ScopeView,
    state: StateView,
    labels: Labels,
    rows: Seq<usize>,
    k: usize,
)
    requires
        state.query.len() > 0,
        is_best_first(row_scores(sessions, scope, state, labels), rows),
    ensures
        rows.contains(k) <==> k < sessions.len() && is_candidate(sessions[k as int], scope, state)
            && fuzzy::fuzzy_score(state.query, sessions[k as int].search_text(labels)) is Some,
{
    let scores = row_scores(sessions, scope, state, labels);
    if rows.contains(k) {
        let p = choose|p: int| 0 <= p < rows.len() && rows[p] == k;
        assert(scores[rows[p] as int] is Some);
    } else if k < sessions.len() {
        assert(scores[k as int] is None);
    }
}

/// Positions are ordered by falling score, and by position where scores are equal;
/// each that has a score is there once, and no other.
pub proof fn law_better_scores_come_first(scores: Seq<Option<u32>>, rows: Seq<usize>, k: usize)
    requires
        is_best_first(scores, rows),
    ensures
        rows.contains(k) <==> k < scores.len() && scores[k as int] is Some,
        rows.no_duplicates(),
        forall|i: int, j: int|
            0 <= i < j < rows.len() ==> scores[#[trigger] rows[i] as int]->0
                >= scores[#[trigger] rows[j] as int]->0,
        forall|i: int, j: int|
            0 <= i < j < rows.len() && scores[#[trigger] rows[i] as int] == scores[#[trigger] rows[j] as int]
                ==> rows[i] < rows[j],
{
    if rows.contains(k) {
        let p = choose|p: int| 0 <= p < rows.len() && rows[p] == k;
        assert(scores[rows[p] as int] is Some);
    }
}

/// Sessions can be matched exactly where each that passes the filters can be scored,
/// and always while nothing is typed.
pub proof fn law_only_candidates_have_to_be_scored(
    sessions: Seq<Session>,
    scope: ScopeView,
    state: StateView,
    labels: Labels,
)
    ensures
        state.query.len() == 0 ==> all_scorable(sessions, scope, state, labels),
        (forall|i: int|
            0 <= i < sessions.len() ==> fuzzy::scorable(
                state.query,
                (#[trigger] sessions[i]).search_text(labels),
            )) ==> all_scorable(sessions, scope, state, labels),
        all_scorable(sessions, scope, state, labels) && state.query.len() > 0 ==> forall|i: int|
            0 <= i < sessions.len() && is_candidate(#[trigger] sessions[i], scope, state) ==> fuzzy::scorable(
                state.query,
                sessions[i].search_text(labels),
            ),
{
}

/// A character with neither control nor alt held down is typed as it is.
pub proof fn law_plain_characters_are_typed(c: char, press: bool)
    ensures
        key_action(KeyEvent { code: KeyCode::Char(c), control: false, alt: false, press })
            == Action::Type(c),
{
}

/// With control or alt held down nothing is typed: control has four commands, alt
/// asks for the agent at the place of its digit, and all else asks for nothing.
pub proof fn law_held_down_keys_never_type(c: char, control: bool, alt: bool, press: bool)
    requires
        control || alt,
    ensures
        ({
            let asked = key_action(KeyEvent { code: KeyCode::Char(c), control, alt, press });
            &&& control && c == 'c' ==> asked == Action::Quit
            &&& control && c == 'p' ==> asked == Action::Move(-1isize)
            &&& control && c == 'n' ==> asked == Action::Move(1isize)
            &&& control && c == 'a' ==> asked == Action::CycleAgent
            &&& alt && '1' <= c <= '4' ==> asked == Action::SoloAgent(
                session::variants()[c as int - '1' as int],
            )
            &&& !(control && (c == 'c' || c == 'p' || c == 'n' || c == 'a')) && !(alt && '1' <= c <= '4')
                ==> asked == Action::Nothing
        }),
{
}

/// A key that is no character asks for the same whatever is held down with it.
pub proof fn law_other_keys_go_by_themselves(key: KeyEvent)
    ensures
        key.code == KeyCode::Esc ==> key_action(key) == Action::Quit,
        key.code == KeyCode::Enter ==> key_action(key) == Action::Accept,
        key.code == KeyCode::Up ==> key_action(key) == Action::Move(-1isize),
        key.code == KeyCode::Down ==> key_action(key) == Action::Move(1isize),
        key.code == KeyCode::PageUp ==> key_action(key) == Action::Move(-10isize),
        key.code == KeyCode::PageDown ==> key_action(key) == Action::Move(10isize),
        key.code == KeyCode::Tab ==> key_action(key) == Action::ToggleScope,
        key.code == KeyCode::Backspace ==> key_action(key) == Action::Erase,
        key.code == KeyCode::Other ==> key_action(key) == Action::Nothing,
{
}

/// A key that goes down asks for what the key asks for.
pub proof fn law_a_press_asks_for_what_the_key_does(key: KeyEvent)
    requires
        key.press,
    ensures
        event_action(Event::Key(key)) == key_action(key),
{
}

/// A move goes exactly as far as asked while that is on the rows, and otherwise to
/// the row at the end it went beyond. It changes nothing but the selection.
pub proof fn law_moves_go_as_far_as_asked(state: StateView, rows: nat, delta: isize)
    ensures
        0 <= state.selected + delta < rows ==> after(state, rows, Action::Move(delta)).selected
            == state.selected + delta,
        state.selected + delta < 0 ==> after(state, rows, Action::Move(delta)).selected == 0,
        state.selected + delta >= rows > 0 ==> after(state, rows, Action::Move(delta)).selected == rows - 1,
        rows == 0 ==> after(state, rows, Action::Move(delta)).selected == 0,
        after(state, rows, Action::Move(delta)).query == state.query,
        after(state, rows, Action::Move(delta)).solo == state.solo,
        after(state, rows, Action::Move(delta)).scoped == state.scoped,
{
}

/// A move and the same move the other way change nothing, where neither goes beyond
/// an end.
pub proof fn law_moves_come_back(state: StateView, rows: nat, there: isize, back: isize)
    requires
        there + back == 0,
        0 <= state.selected < rows,
        0 <= state.selected + there < rows,
    ensures
        after(after(state, rows, Action::Move(there)), rows, Action::Move(back)) == state,
{
}

/// Two moves one way go as far as one move of both, ends included.
pub proof fn law_moves_add_up(state: StateView, rows: nat, first: isize, second: isize, both: isize)
    requires
        first + second == both,
        (first >= 0 && second >= 0) || (first <= 0 && second <= 0),
        0 <= state.selected < rows,
    ensures
        after(after(state, rows, Action::Move(first)), rows, Action::Move(second)) == after(
            state,
            rows,
            Action::Move(both),
        ),
{
}

/// Settling leaves a selection on the rows where it is, moves one beyond them to the
/// last row, and changes nothing else.
pub proof fn law_settling_moves_only_what_is_beyond(state: StateView, rows: nat)
    ensures
        0 <= state.selected < rows ==> settled(state, rows) == state,
        state.selected >= rows > 0 ==> settled(state, rows).selected == rows - 1,
        rows == 0 ==> settled(state, rows).selected == 0,
        settled(state, rows).query == state.query,
        settled(state, rows).solo == state.solo,
        settled(state, rows).scoped == state.scoped,
{
}

/// Typing puts the character behind what is typed, erasing takes the last one away
/// if there is one, and both go back to the first row and change nothing else.
pub proof fn law_typing_and_erasing_work_at_the_end(state: StateView, rows: nat, c: char)
    ensures
        ({
            let typed = after(state, rows, Action::Type(c));
            let erased = after(state, rows, Action::Erase);
            &&& typed.query.len() == state.query.len() + 1
            &&& typed.query.take(state.query.len() as int) == state.query
            &&& typed.query[state.query.len() as int] == c
            &&& state.query.len() > 0 ==> erased.query == state.query.take(state.query.len() - 1)
            &&& state.query.len() == 0 ==> erased.query.len() == 0
            &&& typed.selected == 0
            &&& erased.selected == 0
            &&& typed.solo == state.solo
            &&& erased.solo == state.solo
            &&& typed.scoped == state.scoped
            &&& erased.scoped == state.scoped
        }),
{
    assert(after(state, rows, Action::Type(c)).query.take(state.query.len() as int) =~= state.query);
}

/// Switching the scope switches it and nothing else.
pub proof fn law_switching_the_scope_switches_it(state: StateView, rows: nat)
    ensures
        after(state, rows, Action::ToggleScope).scoped != state.scoped,
        after(state, rows, Action::ToggleScope).query == state.query,
        after(state, rows, Action::ToggleScope).solo == state.solo,
        after(state, rows, Action::ToggleScope).selected == state.selected,
{
}

/// Asking for an agent shows it alone, unless it was: then all are shown again.
/// Walking on shows the next in turn. Neither changes anything else.
pub proof fn law_asking_for_an_agent_shows_it_alone(state: StateView, rows: nat, agent: Agent)
    ensures
        state.solo != Some(agent) ==> after(state, rows, Action::SoloAgent(agent)).solo == Some(agent),
        state.solo == Some(agent) ==> after(state, rows, Action::SoloAgent(agent)).solo is None,
        after(state, rows, Action::SoloAgent(agent)).query == state.query,
        after(state, rows, Action::SoloAgent(agent)).scoped == state.scoped,
        after(state, rows, Action::SoloAgent(agent)).selected == state.selected,
        after(state, rows, Action::CycleAgent).solo == next_solo(state.solo),
        after(state, rows, Action::CycleAgent).query == state.query,
        after(state, rows, Action::CycleAgent).scoped == state.scoped,
        after(state, rows, Action::CycleAgent).selected == state.selected,
{
}

/// Quitting, accepting, and what asks for nothing leave the state as it is.
pub proof fn law_the_rest_changes_nothing(state: StateView, rows: nat)
    ensures
        after(state, rows, Action::Quit) == state,
        after(state, rows, Action::Accept) == state,
        after(state, rows, Action::Nothing) == state,
{
}

/// The picker leaves without a session exactly on quitting, and with one exactly on
/// accepting where a row is selected: with the one on that row.
pub proof fn law_leaving_goes_by_the_selected_row(
    state: StateView,
    rows: Seq<usize>,
    action: Action,
    picked: usize,
)
    requires
        state.selected >= 0,
    ensures
        outcome(state, rows, action) == Outcome::Leave(None) <==> action == Action::Quit,
        outcome(state, rows, action) == Outcome::Leave(Some(picked)) <==> action == Action::Accept
            && state.selected < rows.len() && rows[state.selected] == picked,
        outcome(state, rows, action) == Outcome::Stay <==> action != Action::Quit && !(action
            == Action::Accept && state.selected < rows.len()),
{
}

/// What is printed is the field asked for, as it is, and nothing where it is
/// absent.
pub proof fn law_the_field_asked_for_is_printed(session: Session, json: Option<String>)
    ensures
        printed(session, Print::Id, json) == session.id@,
        session.path matches Some(path) ==> printed(session, Print::Path, json) == path@,
        session.path is None ==> printed(session, Print::Path, json).len() == 0,
        session.cwd matches Some(cwd) ==> printed(session, Print::Cwd, json) == cwd@,
        session.cwd is None ==> printed(session, Print::Cwd, json).len() == 0,
        json matches Some(json) ==> printed(session, Print::Json, Some(json)) == json@,
        json is None ==> printed(session, Print::Json, json).len() == 0,
{
}

/// Sessions print alike exactly where the field asked for is alike, whatever their
/// other fields are: two ids that differ are told apart.
pub proof fn law_printing_tells_sessions_apart(
    a: Session,
    b: Session,
    json: Option<String>,
    other: Option<String>,
)
    ensures
        printed(a, Print::Id, json) == printed(b, Print::Id, other) <==> a.id@ == b.id@,
        same_text(a.path, b.path) ==> printed(a, Print::Path, json) == printed(b, Print::Path, other),
        same_text(a.cwd, b.cwd) ==> printed(a, Print::Cwd, json) == printed(b, Print::Cwd, other),
        same_text(json, other) ==> printed(a, Print::Json, json) == printed(b, Print::Json, other),
{
}

/// The picker starts with nothing typed, all agents shown, and the first row
/// selected. Then all sessions are shown in order, or those within the scope.
pub proof fn law_the_picker_starts_with_all_of_the_scope(
    sessions: Seq<Session>,
    scope: ScopeView,
    labels: Labels,
    scoped: bool,
    k: usize,
)
    requires
        k < sessions.len(),
    ensures
        initial(scoped).query.len() == 0,
        initial(scoped).solo is None,
        initial(scoped).scoped == scoped,
        initial(scoped).selected == 0,
        all_scorable(sessions, scope, initial(scoped), labels),
        shown(sessions, scope, initial(scoped), labels).contains(k) <==> !scoped || worked_in(
            sessions[k as int],
            scope,
        ),
{
    let state = initial(scoped);
    law_rows_are_in_order(row_scores(sessions, scope, state, labels));
    law_empty_query_keeps_the_order(
        sessions,
        scope,
        state,
        labels,
        shown(sessions, scope, state, labels),
    );
}

/// The contents of a state, and of a scope, are those of its fields.
pub proof fn law_a_state_is_what_it_holds(state: State, scope: Scope)
    ensures
        state@.query == state.query@,
        state@.solo == state.solo,
        state@.scoped == state.scoped,
        state@.selected == state.selected,
        scope@.text == scope.text@,
        scope@.exact == scope.exact,
{
}

} // verus!
