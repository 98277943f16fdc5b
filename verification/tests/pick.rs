use casp::fuzzy::is_scorable;
use casp::pick::{
    action, best_first, can_match, cycle, in_scope, output, visible, Action, Event, KeyCode,
    KeyEvent, Outcome, Print, Scope, State,
};
use casp::screen::{cursor_column, draw, refresh};
use casp::session::{Agent, Labels, Session};
use casp::time::Timestamp;

fn at(text: &str) -> Timestamp {
    let parsed: jiff::Timestamp = text.parse().unwrap();
    Timestamp::from_nanosecond(parsed.as_nanosecond()).unwrap()
}

fn labels() -> Labels {
    Labels {
        names: ["ccode".to_owned(), "codex".to_owned(), "cursor".to_owned(), "pi".to_owned()],
    }
}

fn session(agent: Agent, title: &str, cwd: &str) -> Session {
    Session {
        agent,
        id: format!("{}-{}", labels().name(agent), title),
        title: Some(title.to_owned()),
        cwd: Some(cwd.to_owned()),
        branch: None,
        created_at: at("2026-06-01T00:00:00Z"),
        updated_at: at("2026-07-01T00:00:00Z"),
        path: None,
    }
}

fn fixtures() -> Vec<Session> {
    vec![
        session(Agent::Codex, "revamp sidebar", "/w/one"),
        session(Agent::ClaudeCode, "fix login", "/w/one/sub"),
        session(Agent::Pi, "sidebar colors", "/w/two"),
    ]
}

fn indices(state: &State, scope: &str) -> Vec<usize> {
    assert!(can_match(&fixtures(), &Scope::at(scope), state, &labels()));
    visible(&fixtures(), &Scope::at(scope), state, &labels())
}

fn state() -> State {
    State {
        query: String::new(),
        solo: None,
        scoped: false,
        selected: 0,
    }
}

fn key(code: KeyCode) -> KeyEvent {
    KeyEvent {
        code,
        control: false,
        alt: false,
        press: true,
    }
}

fn control(c: char) -> KeyEvent {
    KeyEvent {
        control: true,
        ..key(KeyCode::Char(c))
    }
}

fn alt(c: char) -> KeyEvent {
    KeyEvent {
        alt: true,
        ..key(KeyCode::Char(c))
    }
}

#[test]
fn scope_limits_to_cwd_and_descendants() {
    let mut s = state();
    s.scoped = true;
    assert_eq!(indices(&s, "/w/one"), [0, 1]);
    s.scoped = false;
    assert_eq!(indices(&s, "/w/one"), [0, 1, 2]);
}

#[test]
fn solo_filters_one_agent() {
    let mut s = state();
    s.solo = Some(Agent::Pi);
    assert_eq!(indices(&s, "/"), [2]);
}

#[test]
fn fuzzy_query_ranks_matches() {
    let mut s = state();
    s.query = "sidebar".to_owned();
    assert_eq!(indices(&s, "/"), [0, 2]);
    s.query = "nomatch".to_owned();
    assert!(indices(&s, "/").is_empty());
}

#[test]
fn cycle_walks_all_agents_then_clears() {
    let mut solo = None;
    let mut seen = Vec::new();
    for _ in 0..5 {
        solo = cycle(solo);
        seen.push(solo);
    }
    assert_eq!(
        seen,
        [
            Some(Agent::ClaudeCode),
            Some(Agent::Codex),
            Some(Agent::Cursor),
            Some(Agent::Pi),
            None,
        ]
    );
}

#[test]
fn cycle_comes_round_from_every_agent() {
    for start in [
        None,
        Some(Agent::ClaudeCode),
        Some(Agent::Codex),
        Some(Agent::Cursor),
        Some(Agent::Pi),
    ] {
        let mut solo = start;
        for _ in 0..5 {
            solo = cycle(solo);
        }
        assert_eq!(solo, start);
    }
}

#[test]
fn better_matches_come_first() {
    let sessions = vec![
        session(Agent::Codex, "l-o-n-g o-g i-n", "/w"),
        session(Agent::Codex, "nothing of the kind", "/w"),
        session(Agent::Codex, "login", "/w"),
    ];
    let mut s = state();
    s.query = "login".to_owned();
    assert_eq!(visible(&sessions, &Scope::at("/"), &s, &labels()), [2, 0]);
}

#[test]
fn queries_ignore_case_and_search_branch_directory_and_agent() {
    let mut sessions = fixtures();
    sessions[1].branch = Some("feature/Kiwi".to_owned());
    let mut s = state();
    s.query = "KIWI".to_owned();
    assert_eq!(visible(&sessions, &Scope::at("/"), &s, &labels()), [1]);
    s.query = "'/w/two".to_owned();
    assert_eq!(visible(&sessions, &Scope::at("/"), &s, &labels()), [2]);
    s.query = "^revamp codex$".to_owned();
    assert_eq!(visible(&sessions, &Scope::at("/"), &s, &labels()), [0]);
}

#[test]
fn query_and_filters_work_together() {
    let mut s = state();
    s.query = "sidebar".to_owned();
    s.solo = Some(Agent::Pi);
    assert_eq!(indices(&s, "/"), [2]);
    s.scoped = true;
    assert!(indices(&s, "/w/one").is_empty());
}

#[test]
fn scores_rank_rows_and_equal_scores_keep_their_order() {
    let scores = vec![Some(3), None, Some(7), Some(3), Some(0), Some(7)];
    assert_eq!(best_first(&scores), [2, 5, 0, 3, 4]);
    assert!(best_first(&vec![None, None]).is_empty());
    assert!(best_first(&Vec::new()).is_empty());
}

#[test]
fn overlong_queries_are_told_apart() {
    let mut s = state();
    s.query = "x".repeat(3_000);
    assert!(can_match(&fixtures(), &Scope::at("/"), &s, &labels()));
    assert!(visible(&fixtures(), &Scope::at("/"), &s, &labels()).is_empty());
    let mut sessions = fixtures();
    sessions[0].title = Some("x".repeat(3_000));
    assert!(!can_match(&sessions, &Scope::at("/"), &s, &labels()));
    s.solo = Some(Agent::Pi);
    assert!(can_match(&sessions, &Scope::at("/"), &s, &labels()));
    s.solo = None;
    s.query = "x".repeat(2_520);
    assert!(can_match(&sessions, &Scope::at("/"), &s, &labels()));
    assert_eq!(visible(&sessions, &Scope::at("/"), &s, &labels()), [0]);
}

#[test]
fn sessions_without_a_directory_are_in_no_scope() {
    let mut one = session(Agent::Pi, "t", "/w");
    assert!(in_scope(&one, &Scope::at("/w")));
    assert!(in_scope(&one, &Scope::at("")));
    assert!(!in_scope(&one, &Scope::at("/w/x")));
    one.cwd = None;
    assert!(!in_scope(&one, &Scope::at("/w")));
    assert!(!in_scope(&one, &Scope::at("")));
}

#[test]
fn keys_mean_what_the_hints_say() {
    assert_eq!(action(key(KeyCode::Esc)), Action::Quit);
    assert_eq!(action(control('c')), Action::Quit);
    assert_eq!(action(key(KeyCode::Enter)), Action::Accept);
    assert_eq!(action(key(KeyCode::Up)), Action::Move(-1));
    assert_eq!(action(key(KeyCode::Down)), Action::Move(1));
    assert_eq!(action(control('p')), Action::Move(-1));
    assert_eq!(action(control('n')), Action::Move(1));
    assert_eq!(action(key(KeyCode::PageUp)), Action::Move(-10));
    assert_eq!(action(key(KeyCode::PageDown)), Action::Move(10));
    assert_eq!(action(key(KeyCode::Tab)), Action::ToggleScope);
    assert_eq!(action(control('a')), Action::CycleAgent);
    assert_eq!(action(alt('1')), Action::SoloAgent(Agent::ClaudeCode));
    assert_eq!(action(alt('2')), Action::SoloAgent(Agent::Codex));
    assert_eq!(action(alt('3')), Action::SoloAgent(Agent::Cursor));
    assert_eq!(action(alt('4')), Action::SoloAgent(Agent::Pi));
    assert_eq!(action(key(KeyCode::Backspace)), Action::Erase);
}

#[test]
fn other_keys_type_or_do_nothing() {
    for c in ['c', 'p', 'n', 'a', '1', '4', '5', ' ', 'é'] {
        assert_eq!(action(key(KeyCode::Char(c))), Action::Type(c));
    }
    assert_eq!(action(alt('5')), Action::Nothing);
    assert_eq!(action(alt('0')), Action::Nothing);
    assert_eq!(action(alt('c')), Action::Nothing);
    assert_eq!(action(control('x')), Action::Nothing);
    assert_eq!(action(control('1')), Action::Nothing);
    assert_eq!(action(key(KeyCode::Other)), Action::Nothing);
    let both = KeyEvent {
        control: true,
        ..alt('3')
    };
    assert_eq!(action(both), Action::SoloAgent(Agent::Cursor));
    let both = KeyEvent {
        control: true,
        ..alt('c')
    };
    assert_eq!(action(both), Action::Quit);
}

#[test]
fn moves_stop_at_the_ends() {
    let rows = vec![4, 2, 9];
    let mut s = state();
    assert_eq!(s.perform(&rows, Action::Move(1)), Outcome::Stay);
    assert_eq!(s.selected, 1);
    s.perform(&rows, Action::Move(10));
    assert_eq!(s.selected, 2);
    s.perform(&rows, Action::Move(-1));
    assert_eq!(s.selected, 1);
    s.perform(&rows, Action::Move(-10));
    assert_eq!(s.selected, 0);
    s.perform(&rows, Action::Move(isize::MAX));
    assert_eq!(s.selected, 2);
    s.perform(&rows, Action::Move(isize::MIN));
    assert_eq!(s.selected, 0);
    s.perform(&Vec::new(), Action::Move(1));
    assert_eq!(s.selected, 0);
}

#[test]
fn settling_brings_the_selection_back() {
    let mut s = state();
    s.selected = 7;
    s.settle(10);
    assert_eq!(s.selected, 7);
    s.settle(3);
    assert_eq!(s.selected, 2);
    s.settle(3);
    assert_eq!(s.selected, 2);
    s.settle(0);
    assert_eq!(s.selected, 0);
}

#[test]
fn accepting_leaves_with_the_selected_row() {
    let rows = vec![4, 2, 9];
    let mut s = state();
    s.selected = 2;
    assert_eq!(s.perform(&rows, Action::Accept), Outcome::Leave(Some(9)));
    assert_eq!(s.perform(&Vec::new(), Action::Accept), Outcome::Stay);
    assert_eq!(s.perform(&rows, Action::Quit), Outcome::Leave(None));
}

#[test]
fn erasing_undoes_typing() {
    let rows = vec![0, 1, 2];
    let mut s = state();
    s.query = "sid".to_owned();
    s.selected = 2;
    s.perform(&rows, Action::Type('é'));
    assert_eq!(s.query, "sidé");
    assert_eq!(s.selected, 0);
    s.selected = 1;
    s.perform(&rows, Action::Erase);
    assert_eq!(s.query, "sid");
    assert_eq!(s.selected, 0);
    for _ in 0..4 {
        s.perform(&rows, Action::Erase);
    }
    assert_eq!(s.query, "");
}

#[test]
fn switches_switch_back() {
    let rows = vec![0];
    let mut s = state();
    s.perform(&rows, Action::ToggleScope);
    assert!(s.scoped);
    s.perform(&rows, Action::ToggleScope);
    assert!(!s.scoped);
    s.perform(&rows, Action::SoloAgent(Agent::Pi));
    assert_eq!(s.solo, Some(Agent::Pi));
    s.perform(&rows, Action::SoloAgent(Agent::Codex));
    assert_eq!(s.solo, Some(Agent::Codex));
    s.perform(&rows, Action::SoloAgent(Agent::Codex));
    assert_eq!(s.solo, None);
    s.perform(&rows, Action::CycleAgent);
    assert_eq!(s.solo, Some(Agent::ClaudeCode));
}

#[test]
fn only_presses_count() {
    let rows = vec![0, 1];
    let mut s = State::new(true);
    assert!(s.scoped);
    let release = KeyEvent {
        press: false,
        ..key(KeyCode::Esc)
    };
    assert_eq!(s.respond(&rows, Event::Key(release)), Outcome::Stay);
    assert_eq!(s.respond(&rows, Event::Other), Outcome::Stay);
    assert_eq!(s.respond(&rows, Event::Key(key(KeyCode::Down))), Outcome::Stay);
    assert_eq!(s.selected, 1);
    assert_eq!(
        s.respond(&rows, Event::Key(key(KeyCode::Enter))),
        Outcome::Leave(Some(1))
    );
    assert_eq!(s.respond(&rows, Event::Key(key(KeyCode::Esc))), Outcome::Leave(None));
}

#[test]
fn output_prints_the_field_asked_for() {
    let mut one = session(Agent::Pi, "t", "/w");
    assert_eq!(output(&one, Print::Id, None), "pi-t");
    assert_eq!(output(&one, Print::Path, None), "");
    assert_eq!(output(&one, Print::Cwd, None), "/w");
    assert_eq!(output(&one, Print::Json, None), "");
    assert_eq!(output(&one, Print::Json, Some("{}".to_owned())), "{}");
    assert_eq!(output(&one, Print::Id, Some("{}".to_owned())), "pi-t");
    one.path = Some("/s.jsonl".to_owned());
    one.cwd = None;
    assert_eq!(output(&one, Print::Path, None), "/s.jsonl");
    assert_eq!(output(&one, Print::Cwd, None), "");
}

#[test]
fn screen_reads_line_by_line() {
    let mut sessions = fixtures();
    sessions[2].branch = Some("main".to_owned());
    let mut s = state();
    s.query = "side".to_owned();
    s.selected = 1;
    let screen = draw(&sessions, &Scope::at("/w"), &s, &vec![0, 2], &at("2026-07-01T00:45:00Z"), &labels());
    assert_eq!(screen.prompt, "> side");
    assert_eq!(screen.status, "scope: all directories · agent: all");
    assert_eq!(screen.rows.len(), 2);
    assert_eq!(screen.rows[0].agent, "codex");
    assert_eq!(screen.rows[0].age, "45m ago");
    assert_eq!(screen.rows[0].title, "revamp sidebar");
    assert_eq!(screen.rows[0].branch, "");
    assert_eq!(screen.rows[1].agent, "pi");
    assert_eq!(screen.rows[1].branch, "main");
    assert_eq!(screen.selected, 1);
    assert_eq!(screen.detail, "/w/two");
    assert_eq!(
        screen.hints,
        "2/3 · ↑↓ move · enter select · tab cwd/all · ctrl-a agent · alt-1..4 solo · esc quit"
    );
    s.scoped = true;
    s.solo = Some(Agent::Cursor);
    let screen = draw(&sessions, &Scope::at("/w"), &s, &Vec::new(), &at("2026-07-01T00:45:00Z"), &labels());
    assert_eq!(screen.status, "scope: cwd (/w) · agent: cursor");
    assert_eq!(screen.detail, "");
    assert!(screen.hints.starts_with("0/3 · "));
}

#[test]
fn refreshing_keeps_the_selection_on_a_row() {
    let sessions = fixtures();
    let mut s = state();
    s.selected = 2;
    let now = at("2026-07-01T00:00:30Z");
    let (rows, screen) = refresh(&sessions, &Scope::at("/"), &mut s, &now, &labels()).unwrap();
    assert_eq!(rows, [0, 1, 2]);
    assert_eq!(s.selected, 2);
    assert_eq!(screen.detail, "/w/two");
    s.solo = Some(Agent::ClaudeCode);
    let (rows, screen) = refresh(&sessions, &Scope::at("/"), &mut s, &now, &labels()).unwrap();
    assert_eq!(rows, [1]);
    assert_eq!(s.selected, 0);
    assert_eq!(screen.selected, 0);
    assert_eq!(screen.detail, "/w/one/sub");
    assert_eq!(screen.rows[0].age, "now");
    assert_eq!(s.perform(&rows, Action::Accept), Outcome::Leave(Some(1)));
}

#[test]
fn cursor_stands_after_the_query() {
    assert_eq!(cursor_column(0, ""), Some(2));
    assert_eq!(cursor_column(3, "héé"), Some(8));
    assert_eq!(cursor_column(u16::MAX - 2, ""), Some(u16::MAX));
    assert_eq!(cursor_column(u16::MAX - 2, "x"), None);
    assert_eq!(cursor_column(0, &"x".repeat(65_536)), Some(2));
}

#[test]
fn contradicting_letters_are_told_apart() {
    for (query, text) in [
        ("σé", "ς σ é"),
        ("Σé", "ς σ é"),
        ("σé", "ς Σ é"),
        ("sé", "ſ s é"),
        ("é ſé", "ſ s é"),
        ("sé\\$", "ſ s é$"),
        ("ṡé", "ẛ ṡ é"),
        ("\u{13a0}é", "\u{ab70} \u{13a0} é"),
        ("вé", "\u{1c80} в é"),
    ] {
        assert!(!is_scorable(query, text), "{query} {text}");
    }
    let mut sessions = fixtures();
    sessions[0].title = Some("ς σ é".to_owned());
    let mut s = state();
    s.query = "σé".to_owned();
    assert!(!can_match(&sessions, &Scope::at("/"), &s, &labels()));
    s.solo = Some(Agent::Pi);
    assert!(can_match(&sessions, &Scope::at("/"), &s, &labels()));
}

#[test]
fn variants_are_no_obstacle_where_nothing_clashes() {
    for (query, title, found) in [
        ("sé", "ſ", false),
        ("sé", "ſé", true),
        ("sé", "ſ é", false),
        ("sé", "é ſ", false),
        ("sé", "é s ſ", false),
        ("sé", "s ſ é", true),
        ("zz sé", "ſ s é", false),
        ("'zz sé", "ſ s é", false),
        ("é", "ſ s é", true),
        ("s", "ſ s é", true),
        ("σ é", "ς σ é", true),
        ("éσ", "ς é σ", true),
        ("sé$", "ſ sé", false),
        ("'sé", "ſ sé", true),
        ("^sé", "ſ sé", false),
        ("!sé", "ſ s é", true),
        ("\\sé", "ſ s é", false),
        ("ιé", "α\u{345} ι é", true),
        ("café", "5 µs in the café", true),
    ] {
        let mut sessions = fixtures();
        sessions[0].title = Some(title.to_owned());
        let mut s = state();
        s.query = query.to_owned();
        assert!(can_match(&sessions, &Scope::at("/"), &s, &labels()), "{query} {title}");
        let rows = visible(&sessions, &Scope::at("/"), &s, &labels());
        assert_eq!(rows.contains(&0), found, "{query} {title}");
    }
}

#[test]
fn long_texts_are_matched_without_a_table() {
    let title = |n: usize| Some(format!("ſs{}", "é".repeat(n)));
    let mut sessions = fixtures();
    let mut s = state();
    s.query = "sé".to_owned();
    sessions[0].title = title(8_872);
    assert!(!can_match(&sessions, &Scope::at("/"), &s, &labels()));
    sessions[0].title = title(8_873);
    assert!(can_match(&sessions, &Scope::at("/"), &s, &labels()));
    assert_eq!(visible(&sessions, &Scope::at("/"), &s, &labels()), [0]);
}

#[test]
fn overlong_words_are_no_obstacle_where_they_do_not_match() {
    let mut sessions = fixtures();
    sessions[0].title = Some("xy".repeat(3_000));
    let mut s = state();
    for query in [
        "z".repeat(3_000),
        "x".repeat(3_002),
        format!("'{}", "x".repeat(3_000)),
        format!("zz {}", "x".repeat(3_000)),
    ] {
        s.query = query;
        assert!(can_match(&sessions, &Scope::at("/"), &s, &labels()));
        assert!(visible(&sessions, &Scope::at("/"), &s, &labels()).is_empty());
    }
    sessions[0].title = Some("x".repeat(3_000));
    s.query = "x".repeat(3_000);
    assert!(!can_match(&sessions, &Scope::at("/"), &s, &labels()));
}

#[test]
fn backslashes_may_count_twice() {
    let mut sessions = fixtures();
    sessions[0].title = Some(format!("日{}", "\\".repeat(2_521)));
    let mut s = state();
    s.query = format!("日{}", "\\".repeat(1_261));
    assert!(!can_match(&sessions, &Scope::at("/"), &s, &labels()));
    s.query = format!("日{}", "\\".repeat(1_260));
    assert!(can_match(&sessions, &Scope::at("/"), &s, &labels()));
    assert_eq!(visible(&sessions, &Scope::at("/"), &s, &labels()), [0]);
    s.query = "\\".repeat(2_520);
    assert!(can_match(&sessions, &Scope::at("/"), &s, &labels()));
    assert_eq!(visible(&sessions, &Scope::at("/"), &s, &labels()), [0]);
    s.query = "\\".repeat(2_521);
    assert!(!can_match(&sessions, &Scope::at("/"), &s, &labels()));
}

#[test]
fn long_queries_of_short_words_can_be_matched() {
    let mut sessions = fixtures();
    sessions[0].title = Some("side bar ".repeat(400));
    let mut s = state();
    s.query = "side bar ".repeat(400);
    assert!(can_match(&sessions, &Scope::at("/"), &s, &labels()));
    assert_eq!(visible(&sessions, &Scope::at("/"), &s, &labels()), [0, 2]);
    s.query = "side\\ bar\\ ".repeat(400);
    assert!(!can_match(&sessions, &Scope::at("/"), &s, &labels()));
}

#[test]
fn refreshing_reports_what_cannot_be_matched() {
    let mut sessions = fixtures();
    sessions[0].title = Some("x".repeat(3_000));
    let mut s = state();
    s.query = "x".repeat(3_000);
    s.selected = 7;
    let now = at("2026-07-01T00:00:30Z");
    assert!(refresh(&sessions, &Scope::at("/"), &mut s, &now, &labels()).is_none());
    assert_eq!(s.selected, 7);
    assert_eq!(s.query.len(), 3_000);
    s.solo = Some(Agent::Pi);
    let (rows, _) = refresh(&sessions, &Scope::at("/"), &mut s, &now, &labels()).unwrap();
    assert!(rows.is_empty());
    assert_eq!(s.selected, 0);
}

#[test]
fn limits_leave_the_order_as_it_is() {
    let mut sessions = fixtures();
    sessions.push(session(Agent::Codex, "sidebar", "/w/two"));
    sessions.push(session(Agent::Codex, "side of the bar", "/w/two/deep"));
    let mut s = state();
    s.query = "sidebar".to_owned();
    let all = visible(&sessions, &Scope::at("/w/two"), &s, &labels());
    assert_eq!(all.len(), 4);
    s.scoped = true;
    s.solo = Some(Agent::Codex);
    let limited = visible(&sessions, &Scope::at("/w/two"), &s, &labels());
    let left: Vec<usize> = all.into_iter().filter(|&row| row == 3 || row == 4).collect();
    assert_eq!(limited, left);
    assert_eq!(limited, [3, 4]);
}

#[test]
fn rows_depend_on_what_is_searched() {
    let mut others = fixtures();
    for other in &mut others {
        other.id = "another".to_owned();
        other.path = Some("/elsewhere".to_owned());
        other.updated_at = at("2020-01-01T00:00:00Z");
    }
    let mut s = state();
    s.query = "sidebar".to_owned();
    let rows = visible(&fixtures(), &Scope::at("/here"), &s, &labels());
    s.selected = 1;
    assert_eq!(visible(&others, &Scope::at("/there"), &s, &labels()), rows);
    assert_eq!(rows.len(), 2);
}

fn run(events: &[Event]) -> Option<Option<usize>> {
    let sessions = fixtures();
    let mut s = State::new(false);
    for &event in events {
        let now = at("2026-07-01T00:00:30Z");
        let (rows, _) = refresh(&sessions, &Scope::at("/w"), &mut s, &now, &labels()).unwrap();
        if let Outcome::Leave(picked) = s.respond(&rows, event) {
            return Some(picked);
        }
    }
    None
}

fn typed(text: &str) -> Vec<Event> {
    text.chars().map(|c| Event::Key(key(KeyCode::Char(c)))).collect()
}

#[test]
fn runs_end_at_the_first_choice() {
    let enter = Event::Key(key(KeyCode::Enter));
    let down = Event::Key(key(KeyCode::Down));
    let quit = Event::Key(key(KeyCode::Esc));
    assert_eq!(run(&[]), None);
    assert_eq!(run(&[down, down]), None);
    assert_eq!(run(&[down, enter, quit]), Some(Some(1)));
    assert_eq!(run(&[down, quit, enter]), Some(None));
    assert_eq!(run(&[down, down, down, enter]), Some(Some(2)));
    let mut events = typed("login");
    events.push(enter);
    assert_eq!(run(&events), Some(Some(1)));
    let mut events = typed("nothing like it");
    events.push(enter);
    assert_eq!(run(&events), None);
    events.push(quit);
    events.push(enter);
    assert_eq!(run(&events), Some(None));
}

#[test]
fn idle_events_change_no_run() {
    let enter = Event::Key(key(KeyCode::Enter));
    let released = Event::Key(KeyEvent {
        press: false,
        ..key(KeyCode::Enter)
    });
    let mut events = typed("colors");
    events.push(enter);
    assert_eq!(run(&events), Some(Some(2)));
    let mut noisy = Vec::new();
    for &event in &events {
        noisy.push(Event::Other);
        noisy.push(released);
        noisy.push(event);
    }
    assert_eq!(run(&noisy), Some(Some(2)));
    assert_eq!(run(&[Event::Other, released]), None);
}
