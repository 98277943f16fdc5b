//! What the picker puts on the screen, line by line.

use vstd::prelude::*;

use crate::pick::{self, Scope, ScopeView, State, StateView};
use crate::session::{Labels, Session};
use crate::text;
use crate::time::{self, Timestamp};

verus! {

/// One row of the list.
#[derive(Debug, PartialEq, Eq)]
pub struct Row {
    pub agent: String,
    pub age: String,
    pub title: String,
    pub branch: String,
}

/// The contents of a [`Row`].
pub ghost struct RowView {
    pub agent: Seq<char>,
    pub age: Seq<char>,
    pub title: Seq<char>,
    pub branch: Seq<char>,
}

impl View for Row {
    type V = RowView;

    open spec fn view(&self) -> RowView {
        RowView {
            agent: self.agent@,
            age: self.age@,
            title: self.title@,
            branch: self.branch@,
        }
    }
}

/// All that the picker shows at a time.
#[derive(Debug, PartialEq, Eq)]
pub struct Screen {
    /// The line that is typed into.
    pub prompt: String,
    /// What the list is limited to.
    pub status: String,
    pub rows: Vec<Row>,
    /// The row that is marked.
    pub selected: usize,
    /// The directory of the selected session.
    pub detail: String,
    /// How much of the whole is shown, and the keys.
    pub hints: String,
}

/// The line that is typed into.
pub open spec fn prompt_text(query: Seq<char>) -> Seq<char> {
    "> "@ + query
}

/// What the list is limited to by directory.
pub open spec fn scope_label(scoped: bool, scope: ScopeView) -> Seq<char> {
    if scoped {
        "cwd ("@ + scope.text + ")"@
    } else {
        "all directories"@
    }
}

/// What the list is limited to by agent.
pub open spec fn agent_label(state: StateView, labels: Labels) -> Seq<char> {
    match state.solo {
        Some(solo) => labels.label(solo),
        None => "all"@,
    }
}

/// What the list is limited to.
pub open spec fn status_text(state: StateView, scope: ScopeView, labels: Labels) -> Seq<char> {
    "scope: "@ + scope_label(state.scoped, scope) + " · agent: "@ + agent_label(state, labels)
}

/// How a session reads in the list at `now`.
pub open spec fn row_text(session: Session, now: int, labels: Labels) -> RowView {
    RowView {
        agent: labels.label(session.agent),
        age: time::age_text(time::elapsed(now, session.updated_at@)),
        title: text::text_or_empty(session.title),
        branch: text::text_or_empty(session.branch),
    }
}

/// The directory of the selected session, nothing where no row is selected or
/// the session has none.
pub open spec fn detail_text(sessions: Seq<Session>, rows: Seq<usize>, selected: int) -> Seq<char> {
    if 0 <= selected < rows.len() {
        text::text_or_empty(sessions[rows[selected] as int].cwd)
    } else {
        seq![]
    }
}

/// How much of the whole is shown, and the keys.
pub open spec fn hints_text(shown: nat, all: nat) -> Seq<char> {
    text::decimal(shown) + "/"@ + text::decimal(all)
        + " · ↑↓ move · enter select · tab cwd/all · ctrl-a agent · alt-1..4 solo · esc quit"@
}

/// Whether `screen` shows the sessions at the positions `rows`, as they read at `now`.
pub open spec fn shows(
    screen: Screen,
    sessions: Seq<Session>,
    scope: ScopeView,
    state: StateView,
    rows: Seq<usize>,
    now: int,
    labels: Labels,
) -> bool {
    &&& screen.prompt@ == prompt_text(state.query)
    &&& screen.status@ == status_text(state, scope, labels)
    &&& screen.rows@.len() == rows.len()
    &&& forall|i: int|
        0 <= i < rows.len() ==> (#[trigger] screen.rows@[i])@ == row_text(sessions[rows[i] as int], now, labels)
    &&& screen.selected == state.selected
    &&& screen.detail@ == detail_text(sessions, rows, state.selected)
    &&& screen.hints@ == hints_text(rows.len(), sessions.len())
}

/// What the list is limited to.
fn status(state: &State, scope: &Scope, labels: &Labels) -> (r: String)
    ensures
        r@ == status_text(state@, scope@, *labels),
{
    let mut out = "scope: ".to_owned();
    if state.scoped {
        out.append("cwd (");
        out.append(scope.text.as_str());
        out.append(")");
    } else {
        out.append("all directories");
    }
    out.append(" · agent: ");
    match state.solo {
        Some(solo) => out.append(labels.name(solo)),
        None => out.append("all"),
    }
    assert(out@ =~= status_text(state@, scope@, *labels));
    out
}

/// How the session reads in the list at `now`.
fn row(session: &Session, now: &Timestamp, labels: &Labels) -> (r: Row)
    ensures
        r@ == row_text(*session, now@, *labels),
{
    Row {
        agent: labels.name(session.agent).to_owned(),
        age: time::relative(now, &session.updated_at),
        title: text::or_empty(&session.title),
        branch: text::or_empty(&session.branch),
    }
}

/// How much of the whole is shown, and the keys.
fn hints(shown: usize, all: usize) -> (r: String)
    ensures
        r@ == hints_text(shown as nat, all as nat),
{
    let mut out = String::new();
    text::push_decimal(&mut out, shown as u64);
    out.append("/");
    text::push_decimal(&mut out, all as u64);
    out.append(" · ↑↓ move · enter select · tab cwd/all · ctrl-a agent · alt-1..4 solo · esc quit");
    assert(out@ =~= hints_text(shown as nat, all as nat));
    out
}

/// What the picker shows at `now`, where `rows` are the positions of the
/// sessions that are listed.
pub fn draw(
    sessions: &[Session],
    scope: &Scope,
    state: &State,
    rows: &Vec<usize>,
    now: &Timestamp,
    labels: &Labels,
) -> (r: Screen)
    requires
        forall|i: int| 0 <= i < rows@.len() ==> #[trigger] rows@[i] < sessions@.len(),
    ensures
        shows(r, sessions@, scope@, state@, rows@, now@, *labels),
{
    let mut lines: Vec<Row> = Vec::new();
    let mut i: usize = 0;
    while i < rows.len()
        invariant
            i <= rows.len(),
            lines.len() == i,
            forall|j: int| 0 <= j < rows@.len() ==> #[trigger] rows@[j] < sessions@.len(),
            forall|j: int|
                0 <= j < i ==> (#[trigger] lines@[j])@ == row_text(sessions@[rows@[j] as int], now@, *labels),
        decreases rows.len() - i,
    {
        lines.push(row(&sessions[rows[i]], now, labels));
        i += 1;
    }
    let mut prompt = "> ".to_owned();
    prompt.append(state.query.as_str());
    let detail = if state.selected < rows.len() {
        text::or_empty(&sessions[rows[state.selected]].cwd)
    } else {
        String::new()
    };
    Screen {
        prompt,
        status: status(state, scope, labels),
        rows: lines,
        selected: state.selected,
        detail,
        hints: hints(rows.len(), sessions.len()),
    }
}

/// One turn of the picker up to the next event: finds the rows, puts the
/// selection on one of them, and says what to show. `None`, with nothing
/// changed, where a session cannot be matched against the query.
pub fn refresh(
    sessions: &[Session],
    scope: &Scope,
    state: &mut State,
    now: &Timestamp,
    labels: &Labels,
) -> (r: Option<(Vec<usize>, Screen)>)
    ensures
        r is Some <==> pick::all_scorable(sessions@, scope@, old(state)@, *labels),
        r is None ==> final(state)@ == old(state)@,
        r matches Some((rows, screen)) ==> {
            &&& pick::is_best_first(pick::row_scores(sessions@, scope@, old(state)@, *labels), rows@)
            &&& rows@ == pick::shown(sessions@, scope@, old(state)@, *labels)
            &&& final(state)@ == pick::settled(old(state)@, rows@.len())
            &&& shows(screen, sessions@, scope@, final(state)@, rows@, now@, *labels)
        },
{
    if !pick::can_match(sessions, scope, state, labels) {
        return None;
    }
    let rows = pick::visible(sessions, scope, state, labels);
    state.settle(rows.len());
    let screen = draw(sessions, scope, state, &rows, now, labels);
    Some((rows, screen))
}

/// The column of the cursor: after the prompt and the query, which starts at
/// column `x`. `None` where that is no 16-bit column; of a query longer than
/// 16 bits count, only what is left over is counted.
pub fn cursor_column(x: u16, query: &str) -> (r: Option<u16>)
    ensures
        r is Some <==> x + 2 + query@.len() % 65_536 <= u16::MAX,
        r matches Some(column) ==> column == x + 2 + query@.len() % 65_536,
        query@.len() < 65_536 ==> (r matches Some(column) ==> column == x + prompt_text(query@).len()),
{
    proof {
        law_the_prompt_ends_in_what_is_typed(query@);
    }
    let typed: u32 = (query.unicode_len() % 65_536) as u32;
    let column: u32 = x as u32 + 2 + typed;
    if column <= 65_535 {
        Some(column as u16)
    } else {
        None
    }
}

/// The session that is picked on accepting is the one whose row is marked and
/// whose directory is shown.
pub proof fn law_accepting_picks_what_is_marked(
    screen: Screen,
    sessions: Seq<Session>,
    scope: ScopeView,
    state: StateView,
    rows: Seq<usize>,
    now: int,
    labels: Labels,
)
    requires
        shows(screen, sessions, scope, state, rows, now, labels),
    ensures
        pick::outcome(state, rows, pick::Action::Accept) matches pick::Outcome::Leave(Some(picked)) ==> {
            &&& screen.rows@[screen.selected as int]@ == row_text(sessions[picked as int], now, labels)
            &&& screen.detail@ == text::text_or_empty(sessions[picked as int].cwd)
        },
{
}

/// The prompt is an arrow, a space, and what is typed.
pub proof fn law_the_prompt_ends_in_what_is_typed(query: Seq<char>)
    ensures
        prompt_text(query).len() == query.len() + 2,
        prompt_text(query)[0] == '>',
        prompt_text(query)[1] == ' ',
        prompt_text(query).skip(2) == query,
{
    reveal_strlit("> ");
    assert(prompt_text(query).skip(2) =~= query);
}

/// The status names the directory that limits the list where one does, and the one
/// agent shown or that all are.
pub proof fn law_the_status_names_the_limits(
    state: StateView,
    scope: ScopeView,
    labels: Labels,
    limit: Seq<char>,
    agents: Seq<char>,
)
    requires
        state.scoped ==> limit == "cwd ("@ + scope.text + ")"@,
        !state.scoped ==> limit == "all directories"@,
        state.solo matches Some(solo) ==> agents == labels.label(solo),
        state.solo is None ==> agents == "all"@,
    ensures
        ({
            let text = status_text(state, scope, labels);
            let n = limit.len() as int;
            &&& text.len() == 7 + n + 10 + agents.len()
            &&& text.take(7) == "scope: "@
            &&& text.subrange(7, 7 + n) == limit
            &&& text.subrange(7 + n, 17 + n) == " · agent: "@
            &&& text.skip(17 + n) == agents
        }),
{
    reveal_strlit("scope: ");
    reveal_strlit(" · agent: ");
    let text = status_text(state, scope, labels);
    let n = limit.len() as int;
    assert(text.take(7) =~= "scope: "@);
    assert(text.subrange(7, 7 + n) =~= limit);
    assert(text.subrange(7 + n, 17 + n) =~= " · agent: "@);
    assert(text.skip(17 + n) =~= agents);
}

/// A row shows the agent by name, how long ago the session was touched, and its
/// title and branch as they are, or nothing for what is absent.
pub proof fn law_a_row_shows_its_session(session: Session, now: int, labels: Labels)
    ensures
        row_text(session, now, labels).agent == labels.label(session.agent),
        row_text(session, now, labels).age == time::age_text(time::elapsed(now, session.updated_at@)),
        session.title matches Some(title) ==> row_text(session, now, labels).title == title@,
        session.title is None ==> row_text(session, now, labels).title.len() == 0,
        session.branch matches Some(branch) ==> row_text(session, now, labels).branch == branch@,
        session.branch is None ==> row_text(session, now, labels).branch.len() == 0,
{
}

/// The detail is the directory of the session on the selected row, and nothing
/// where it has none or no row is selected.
pub proof fn law_the_detail_is_the_selected_directory(sessions: Seq<Session>, rows: Seq<usize>, selected: int)
    ensures
        0 <= selected < rows.len() && sessions[rows[selected] as int].cwd is Some ==> detail_text(
            sessions,
            rows,
            selected,
        ) == sessions[rows[selected] as int].cwd->0@,
        0 <= selected < rows.len() && sessions[rows[selected] as int].cwd is None ==> detail_text(
            sessions,
            rows,
            selected,
        ).len() == 0,
        selected >= rows.len() ==> detail_text(sessions, rows, selected).len() == 0,
{
}

/// The hints start with how many rows there are, a slash, and how many sessions, and
/// go on with the keys.
pub proof fn law_the_hints_count_rows_and_sessions(shown: nat, all: nat)
    ensures
        ({
            let text = hints_text(shown, all);
            let a = text::decimal(shown).len() as int;
            let b = a + 1 + text::decimal(all).len();
            &&& text.len() > b
            &&& text::number(text.take(a)) == shown
            &&& text[a] == '/'
            &&& text::number(text.subrange(a + 1, b)) == all
            &&& text.skip(b)
                == " · ↑↓ move · enter select · tab cwd/all · ctrl-a agent · alt-1..4 solo · esc quit"@
        }),
{
    reveal_strlit("/");
    reveal_strlit(" · ↑↓ move · enter select · tab cwd/all · ctrl-a agent · alt-1..4 solo · esc quit");
    let text = hints_text(shown, all);
    let a = text::decimal(shown).len() as int;
    let b = a + 1 + text::decimal(all).len();
    text::law_decimal_reads_back(shown);
    text::law_decimal_reads_back(all);
    assert(text.take(a) =~= text::decimal(shown));
    assert(text.subrange(a + 1, b) =~= text::decimal(all));
    assert(text.skip(b)
        =~= " · ↑↓ move · enter select · tab cwd/all · ctrl-a agent · alt-1..4 solo · esc quit"@);
}

/// A screen shows a line for each row, in order, each with the session on that row:
/// its title and branch as they are, and nothing for what is absent.
pub proof fn law_a_screen_has_a_line_for_each_row(
    screen: Screen,
    sessions: Seq<Session>,
    scope: ScopeView,
    state: StateView,
    rows: Seq<usize>,
    now: int,
    labels: Labels,
    i: int,
)
    requires
        shows(screen, sessions, scope, state, rows, now, labels),
        0 <= i < rows.len(),
    ensures
        screen.rows@[i].agent@ == labels.label(sessions[rows[i] as int].agent),
        sessions[rows[i] as int].title matches Some(title) ==> screen.rows@[i].title@ == title@,
        sessions[rows[i] as int].title is None ==> screen.rows@[i].title@.len() == 0,
        sessions[rows[i] as int].branch matches Some(branch) ==> screen.rows@[i].branch@ == branch@,
        sessions[rows[i] as int].branch is None ==> screen.rows@[i].branch@.len() == 0,
        screen.rows@[i].age@ == time::age_text(
            time::elapsed(now, sessions[rows[i] as int].updated_at@),
        ),
{
    assert(screen.rows@[i]@ == row_text(sessions[rows[i] as int], now, labels));
}

/// A screen shows what is typed, the limits, the detail and the hints, whether there
/// are rows or not, marks the row that is selected, and has no other lines than
/// those of the rows.
pub proof fn law_a_screen_shows_the_state(
    screen: Screen,
    sessions: Seq<Session>,
    scope: ScopeView,
    state: StateView,
    rows: Seq<usize>,
    now: int,
    labels: Labels,
)
    requires
        shows(screen, sessions, scope, state, rows, now, labels),
    ensures
        screen.rows@.len() == rows.len(),
        screen.selected == state.selected,
        screen.prompt@.len() == state.query.len() + 2,
        screen.prompt@.skip(2) == state.query,
        screen.status@ == status_text(state, scope, labels),
        screen.detail@ == detail_text(sessions, rows, state.selected),
        screen.hints@ == hints_text(rows.len(), sessions.len()),
{
    law_the_prompt_ends_in_what_is_typed(state.query);
}

/// The contents of a row are those of its fields.
pub proof fn law_a_row_is_what_it_holds(row: Row)
    ensures
        row@.agent == row.agent@,
        row@.age == row.age@,
        row@.title == row.title@,
        row@.branch == row.branch@,
{
}

} // verus!
