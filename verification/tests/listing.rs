use casp::listing::{
    exit, gather, is_broken_pipe, is_wanted, latest, listing_exit, mode, picking_exit, scope_of,
    start_dir, within, Cause, ErrorKind, Exit, Format, Mode, Picking,
};
use casp::pick::Scope;
use casp::rank::rank;
use casp::session::{sort_desc, Agent, Labels, Session};
use casp::text::push_decimal;
use casp::time::Timestamp;

fn session(id: &str, second: i128) -> Session {
    let at = Timestamp::from_nanosecond(second * 1_000_000_000).unwrap();
    Session {
        agent: Agent::Codex,
        id: id.to_owned(),
        title: None,
        cwd: Some(format!("/w/{id}")),
        branch: None,
        created_at: at,
        updated_at: at,
        path: None,
    }
}

fn ids(sessions: &[Session]) -> Vec<&str> {
    sessions.iter().map(|session| session.id.as_str()).collect()
}

#[test]
fn all_agents_are_wanted_where_none_is_named() {
    assert!(is_wanted(&Vec::new(), Agent::Pi));
    assert!(is_wanted(&vec![Agent::Codex, Agent::Pi], Agent::Pi));
    assert!(!is_wanted(&vec![Agent::Codex, Agent::Cursor], Agent::Pi));
}

#[test]
fn failing_providers_take_nothing_away() {
    let (sessions, failed) = gather(vec![
        (Agent::ClaudeCode, Ok(vec![session("a", 1), session("b", 2)])),
        (Agent::Codex, Err("no store".to_owned())),
        (Agent::Pi, Ok(vec![session("c", 3)])),
    ]);
    assert_eq!(ids(&sessions), ["a", "b", "c"]);
    assert_eq!(failed, [(Agent::Codex, "no store".to_owned())]);
    let (sessions, failed) = gather(Vec::new());
    assert!(sessions.is_empty());
    assert!(failed.is_empty());
}

#[test]
fn sessions_sort_by_last_touch() {
    let mut sessions = vec![session("a", 1), session("b", 3), session("c", 3), session("d", -2), session("e", 2)];
    sort_desc(&mut sessions);
    assert_eq!(ids(&sessions), ["b", "c", "e", "a", "d"]);
}

#[test]
fn the_limit_comes_after_sorting() {
    let all = || vec![session("a", 1), session("b", 3), session("c", 2)];
    assert_eq!(ids(&latest(all(), Some(2))), ["b", "c"]);
    assert_eq!(ids(&latest(all(), Some(0))), [] as [&str; 0]);
    assert_eq!(ids(&latest(all(), Some(9))), ["b", "c", "a"]);
    assert_eq!(ids(&latest(all(), None)), ["b", "c", "a"]);
}

#[test]
fn only_sessions_within_the_directory_stay() {
    let sessions = vec![session("a", 1), session("ab", 2), session("a/b", 3)];
    assert_eq!(ids(&within(&sessions, &Scope::at("/w/a"))), ["a", "a/b"]);
    assert_eq!(ids(&within(&sessions, &Scope::at("/w"))), ["a", "ab", "a/b"]);
    assert!(within(&sessions, &Scope::at("/x")).is_empty());
    let unspelled = Scope {
        text: "/w".to_owned(),
        exact: false,
    };
    assert!(within(&sessions, &unspelled).is_empty());
}

#[test]
fn the_picker_is_for_terminals_without_a_format() {
    assert_eq!(mode(None, true), Mode::Pick);
    assert_eq!(mode(None, false), Mode::List(Format::Json));
    assert_eq!(mode(Some(Format::Table), true), Mode::List(Format::Table));
    assert_eq!(mode(Some(Format::Ndjson), false), Mode::List(Format::Ndjson));
}

#[test]
fn the_scope_falls_back() {
    let text = |s: &str| Some(s.to_owned());
    assert_eq!(start_dir(text("a"), text("b")), text("a"));
    assert_eq!(start_dir(None, text("b")), text("b"));
    assert_eq!(start_dir::<String>(None, None), None);
    let scope = |s: &str| Some(Scope::at(s));
    assert_eq!(scope_of(scope("a"), scope("/a")), Scope::at("/a"));
    assert_eq!(scope_of(scope("a"), None), Scope::at("a"));
    assert_eq!(scope_of(None, None), Scope::at(""));
}

#[test]
fn endings_tell_failures_apart() {
    assert_eq!(exit(false), Exit::Success);
    assert_eq!(exit(true), Exit::Failure);
    assert_eq!(picking_exit(Picking::Picked, false), Exit::Success);
    assert_eq!(picking_exit(Picking::Picked, true), Exit::Failure);
    assert_eq!(picking_exit(Picking::Cancelled, true), Exit::Code(130));
    assert_eq!(picking_exit(Picking::Broke, false), Exit::Failure);
}

#[test]
fn a_closed_output_is_no_failure() {
    assert!(is_broken_pipe(Cause::Io(ErrorKind::BrokenPipe)));
    assert!(is_broken_pipe(Cause::Json(Some(ErrorKind::BrokenPipe))));
    assert!(!is_broken_pipe(Cause::Io(ErrorKind::Other)));
    assert!(!is_broken_pipe(Cause::Json(Some(ErrorKind::Other))));
    assert!(!is_broken_pipe(Cause::Json(None)));
    assert!(!is_broken_pipe(Cause::Other));
    assert_eq!(listing_exit(None, false), Exit::Success);
    assert_eq!(listing_exit(None, true), Exit::Failure);
    assert_eq!(listing_exit(Some(Cause::Io(ErrorKind::BrokenPipe)), false), Exit::Success);
    assert_eq!(listing_exit(Some(Cause::Io(ErrorKind::BrokenPipe)), true), Exit::Failure);
    assert_eq!(listing_exit(Some(Cause::Other), false), Exit::Failure);
}

#[test]
fn ranking_goes_by_key_and_position() {
    assert_eq!(rank(&vec![1, 5, 5, -3, 9]), [4, 1, 2, 0, 3]);
    assert!(rank(&Vec::new()).is_empty());
}

#[test]
fn numbers_are_written_in_decimal() {
    for n in [0, 7, 10, 305, 18_446_744_073_709_551_615] {
        let mut out = "n=".to_owned();
        push_decimal(&mut out, n);
        assert_eq!(out, format!("n={n}"));
    }
}

#[test]
fn agents_are_offered_in_order() {
    let labels = Labels {
        names: ["first".to_owned(), "second".to_owned(), "third".to_owned(), "fourth".to_owned()],
    };
    let names: Vec<&str> = Agent::value_variants().iter().map(|agent| labels.name(*agent)).collect();
    assert_eq!(names, ["first", "second", "third", "fourth"]);
    assert_eq!(labels.name(Agent::Cursor), "third");
}
