//! A run of the picker from its first event to its last: how it ends, and what
//! it ends with.

use vstd::prelude::*;

use crate::pick::{self, Action, Event, Outcome, ScopeView, StateView};
use crate::session::{Labels, Session};

verus! {

/// What the picker works on: the sessions to pick from, the directory that
/// limits them, and the names of the agents. None of it changes during a run.
pub ghost struct Setting {
    pub sessions: Seq<Session>,
    pub scope: ScopeView,
    pub labels: Labels,
}

/// How far a run has come.
pub ghost enum Progress {
    /// It waits for the next event.
    Waiting(StateView),
    /// It ended, with the position of a session or without one.
    Ended(Option<usize>),
}

impl Setting {
    /// The rows shown in a state.
    pub open spec fn rows(self, state: StateView) -> Seq<usize> {
        pick::shown(self.sessions, self.scope, state, self.labels)
    }

    /// The state once the selection is on one of the rows shown.
    pub open spec fn settled(self, state: StateView) -> StateView {
        pick::settled(state, self.rows(state).len())
    }

    /// The state in which the picker waits for what follows an event that came
    /// in `state` and did not end the run.
    pub open spec fn next(self, state: StateView, event: Event) -> StateView {
        self.settled(pick::after(state, self.rows(state).len(), pick::event_action(event)))
    }

    /// How far a run has come after some events. Each turn finds the rows, puts
    /// the selection on one of them, and answers one event.
    pub open spec fn run(self, state: StateView, events: Seq<Event>) -> Progress
        decreases events.len(),
    {
        let rows = self.rows(state);
        let waiting = pick::settled(state, rows.len());
        if events.len() == 0 {
            Progress::Waiting(waiting)
        } else {
            let action = pick::event_action(events[0]);
            match pick::outcome(waiting, rows, action) {
                Outcome::Leave(picked) => Progress::Ended(picked),
                Outcome::Stay => self.run(
                    pick::after(waiting, rows.len(), action),
                    events.drop_first(),
                ),
            }
        }
    }

    /// The state in which the event at `k` finds the picker, if none before it
    /// ended the run.
    pub open spec fn state_at(self, state: StateView, events: Seq<Event>, k: nat) -> StateView
        decreases k,
    {
        if k == 0 {
            self.settled(state)
        } else {
            self.next(self.state_at(state, events, (k - 1) as nat), events[k - 1])
        }
    }

    /// Whether an event that finds the picker in `state` ends the run: it asks to
    /// quit, or to accept where a row is shown.
    pub open spec fn ends(self, state: StateView, event: Event) -> bool {
        let action = pick::event_action(event);
        ||| action == Action::Quit
        ||| action == Action::Accept && self.rows(state).len() > 0
    }
}

/// Whether a key went down.
pub open spec fn is_press(event: Event) -> bool {
    event matches Event::Key(key) && key.press
}

/// The events in which a key went down.
pub open spec fn presses(events: Seq<Event>) -> Seq<Event> {
    events.filter(|event: Event| is_press(event))
}

/// A run ends at the first event that asks to quit, or to accept where a row is
/// shown: on quitting without a session, and on accepting with the one on the
/// selected row, which is one of the sessions and passes the filters.
pub proof fn law_run_ends_at_the_first_choice(
    setting: Setting,
    state: StateView,
    events: Seq<Event>,
    k: nat,
)
    requires
        k < events.len(),
        forall|j: nat| j < k ==> !setting.ends(#[trigger] setting.state_at(state, events, j), events[j as int]),
        setting.ends(setting.state_at(state, events, k), events[k as int]),
    ensures
        pick::event_action(events[k as int]) == Action::Quit ==> setting.run(state, events)
            == Progress::Ended(None),
        pick::event_action(events[k as int]) == Action::Accept ==> {
            let last = setting.state_at(state, events, k);
            let rows = setting.rows(last);
            &&& 0 <= last.selected < rows.len()
            &&& setting.run(state, events) == Progress::Ended(Some(rows[last.selected]))
            &&& rows[last.selected] < setting.sessions.len()
            &&& pick::is_candidate(
                setting.sessions[rows[last.selected] as int],
                setting.scope,
                last,
            )
        },
{
    let last = setting.state_at(state, events, k);
    let rows = setting.rows(last);
    lemma_run_from(setting, state, events, k);
    lemma_state_at_is_settled(setting, state, events, k);
    assert(events.skip(k as int)[0] == events[k as int]);
    if pick::event_action(events[k as int]) == Action::Accept {
        pick::law_rows_are_in_order(
            pick::row_scores(setting.sessions, setting.scope, last, setting.labels),
        );
        pick::law_rows_pass_the_filters(
            setting.sessions,
            setting.scope,
            last,
            setting.labels,
            rows,
            last.selected,
        );
    }
}

/// A run goes on while no event asks to quit, or to accept where a row is shown.
pub proof fn law_run_goes_on_without_a_choice(
    setting: Setting,
    state: StateView,
    events: Seq<Event>,
)
    requires
        forall|j: nat|
            j < events.len() ==> !setting.ends(
                #[trigger] setting.state_at(state, events, j),
                events[j as int],
            ),
    ensures
        setting.run(state, events) == Progress::Waiting(setting.state_at(state, events, events.len())),
{
    lemma_run_from(setting, state, events, events.len());
    lemma_state_at_is_settled(setting, state, events, events.len());
}

/// What comes after the event that ended a run changes nothing.
pub proof fn law_run_is_over_once_it_ended(
    setting: Setting,
    state: StateView,
    events: Seq<Event>,
    later: Seq<Event>,
)
    requires
        setting.run(state, events) is Ended,
    ensures
        setting.run(state, events + later) == setting.run(state, events),
    decreases events.len(),
{
    let rows = setting.rows(state);
    let waiting = pick::settled(state, rows.len());
    let action = pick::event_action(events[0]);
    assert((events + later)[0] == events[0]);
    if pick::outcome(waiting, rows, action) == Outcome::Stay {
        assert((events + later).drop_first() =~= events.drop_first() + later);
        law_run_is_over_once_it_ended(
            setting,
            pick::after(waiting, rows.len(), action),
            events.drop_first(),
            later,
        );
    }
}

/// A run depends on nothing but the keys that went down: whatever else a terminal
/// reports, as often as it likes and wherever it comes, changes neither the end
/// of the run nor the state it waits in.
pub proof fn law_only_presses_shape_a_run(
    setting: Setting,
    state: StateView,
    first: Seq<Event>,
    second: Seq<Event>,
)
    requires
        presses(first) == presses(second),
    ensures
        setting.run(state, first) == setting.run(state, second),
{
    lemma_run_of_presses(setting, state, first);
    lemma_run_of_presses(setting, state, second);
}

/// Events in which no key went down can be put in anywhere, or left out.
pub proof fn law_idle_events_change_no_run(
    setting: Setting,
    state: StateView,
    before: Seq<Event>,
    idle: Seq<Event>,
    later: Seq<Event>,
)
    requires
        forall|i: int| 0 <= i < idle.len() ==> !is_press(#[trigger] idle[i]),
    ensures
        setting.run(state, before + idle + later) == setting.run(state, before + later),
{
    let keep = |event: Event| is_press(event);
    lemma_no_presses(idle);
    Seq::filter_distributes_over_add(before + idle, later, keep);
    Seq::filter_distributes_over_add(before, idle, keep);
    Seq::filter_distributes_over_add(before, later, keep);
    assert(presses(before + idle + later) =~= presses(before + later));
    law_only_presses_shape_a_run(setting, state, before + idle + later, before + later);
}

proof fn lemma_no_presses(idle: Seq<Event>)
    requires
        forall|i: int| 0 <= i < idle.len() ==> !is_press(#[trigger] idle[i]),
    ensures
        presses(idle) == Seq::<Event>::empty(),
    decreases idle.len(),
{
    reveal(Seq::filter);
    if idle.len() > 0 {
        assert(idle[idle.len() - 1] == idle.last());
        assert forall|i: int| 0 <= i < idle.drop_last().len() implies !is_press(
            #[trigger] idle.drop_last()[i],
        ) by {
            assert(idle.drop_last()[i] == idle[i]);
        }
        lemma_no_presses(idle.drop_last());
    }
}

/// The rows do not depend on the selection.
proof fn lemma_same_rows(setting: Setting, a: StateView, b: StateView)
    requires
        a.query == b.query,
        a.solo == b.solo,
        a.scoped == b.scoped,
    ensures
        setting.rows(a) == setting.rows(b),
{
    pick::law_rows_depend_on_what_is_searched(
        setting.sessions,
        setting.sessions,
        setting.scope,
        setting.scope,
        a,
        b,
        setting.labels,
    );
}

/// Settling first changes no run.
proof fn lemma_run_settled(setting: Setting, state: StateView, events: Seq<Event>)
    ensures
        setting.run(setting.settled(state), events) == setting.run(state, events),
        setting.settled(setting.settled(state)) == setting.settled(state),
{
    lemma_same_rows(setting, setting.settled(state), state);
}

proof fn lemma_state_at_is_settled(
    setting: Setting,
    state: StateView,
    events: Seq<Event>,
    k: nat,
)
    ensures
        setting.settled(setting.state_at(state, events, k)) == setting.state_at(state, events, k),
{
    if k == 0 {
        lemma_run_settled(setting, state, events);
    } else {
        let before = setting.state_at(state, events, (k - 1) as nat);
        lemma_run_settled(
            setting,
            pick::after(before, setting.rows(before).len(), pick::event_action(events[k - 1])),
            events,
        );
    }
}

/// While no event ends it, a run can be taken up where it stands.
proof fn lemma_run_from(setting: Setting, state: StateView, events: Seq<Event>, k: nat)
    requires
        k <= events.len(),
        forall|j: nat| j < k ==> !setting.ends(#[trigger] setting.state_at(state, events, j), events[j as int]),
    ensures
        setting.run(state, events) == setting.run(
            setting.state_at(state, events, k),
            events.skip(k as int),
        ),
    decreases k,
{
    if k == 0 {
        assert(events.skip(0) =~= events);
        lemma_run_settled(setting, state, events);
    } else {
        let j = (k - 1) as nat;
        let before = setting.state_at(state, events, j);
        let rows = setting.rows(before);
        let rest = events.skip(j as int);
        let action = pick::event_action(events[j as int]);
        lemma_run_from(setting, state, events, j);
        lemma_state_at_is_settled(setting, state, events, j);
        assert(rest[0] == events[j as int]);
        assert(rest.drop_first() =~= events.skip(k as int));
        assert(!setting.ends(before, events[j as int]));
        assert(pick::outcome(before, rows, action) == Outcome::Stay);
        lemma_run_settled(setting, pick::after(before, rows.len(), action), events.skip(k as int));
    }
}

proof fn lemma_run_of_presses(setting: Setting, state: StateView, events: Seq<Event>)
    ensures
        setting.run(state, events) == setting.run(state, presses(events)),
    decreases events.len(),
{
    reveal(Seq::filter);
    if events.len() == 0 {
        assert(presses(events) =~= events);
    } else {
        let keep = |event: Event| is_press(event);
        let head = seq![events[0]];
        let rest = events.drop_first();
        let rows = setting.rows(state);
        let waiting = pick::settled(state, rows.len());
        let next = pick::after(waiting, rows.len(), pick::event_action(events[0]));
        assert(events =~= head + rest);
        Seq::filter_distributes_over_add(head, rest, keep);
        assert(head.drop_last() =~= Seq::<Event>::empty());
        lemma_run_of_presses(setting, next, rest);
        if is_press(events[0]) {
            assert(presses(events) =~= head + presses(rest));
            assert(presses(events)[0] == events[0]);
            assert(presses(events).drop_first() =~= presses(rest));
        } else {
            lemma_no_presses(head);
            assert(presses(events) =~= presses(rest));
            assert(next == setting.settled(state));
            lemma_run_settled(setting, state, rest);
            lemma_run_settled(setting, state, presses(rest));
        }
    }
}

} // verus!
