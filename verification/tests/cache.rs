use std::cell::Cell;

use casp::cache::{Cache, Stamped, Store};
use casp::session::{Agent, Session};
use casp::table::{Entry, Table};
use casp::time::Timestamp;

fn at(text: &str) -> Timestamp {
    let parsed: jiff::Timestamp = text.parse().unwrap();
    Timestamp::from_nanosecond(parsed.as_nanosecond()).unwrap()
}

fn session(id: &str) -> Session {
    Session {
        agent: Agent::ClaudeCode,
        id: id.to_owned(),
        title: Some("t".to_owned()),
        cwd: None,
        branch: None,
        created_at: at("2026-06-01T00:00:00Z"),
        updated_at: at("2026-07-01T00:00:00Z"),
        path: None,
    }
}

fn file(path: &str, contents: &str) -> Stamped {
    Stamped {
        path: path.to_owned(),
        len: contents.len() as u64,
        modified_ms: 1,
    }
}

fn at_path(path: &str) -> Cache {
    Cache::load(Some(path.to_owned()), None)
}

fn reload(cache: &Cache) -> Cache {
    let mut sessions = Vec::new();
    for (path, entry) in cache.store().sessions.entries().iter().rev() {
        sessions.push((
            path.clone(),
            Entry {
                len: entry.len,
                modified_ms: entry.modified_ms,
                value: entry.value.clone(),
            },
        ));
    }
    let mut titles = Vec::new();
    for (path, entry) in cache.store().titles.entries().iter().rev() {
        titles.push((
            path.clone(),
            Entry {
                len: entry.len,
                modified_ms: entry.modified_ms,
                value: entry.value.clone(),
            },
        ));
    }
    let store = Store {
        sessions: Table::from_entries(sessions),
        titles: Table::from_entries(titles),
    };
    Cache::load(Some("/c/sessions.json".to_owned()), Some(store))
}

fn known(cache: &Cache) -> Vec<String> {
    let mut paths: Vec<String> = cache
        .store()
        .sessions
        .entries()
        .iter()
        .map(|row| row.0.clone())
        .collect();
    paths.sort();
    paths
}

#[test]
fn default_path_uses_temporary_directory() {
    assert_eq!(Cache::default_path("/tmp"), "/tmp/ap/sessions.json");
    assert_eq!(Cache::default_path("/tmp/"), "/tmp/ap/sessions.json");
}

#[test]
fn hits_persist_across_loads_and_size_change_reparses() {
    let parses = Cell::new(0);
    let parse = |_: &String| {
        parses.set(parses.get() + 1);
        Some(session("a"))
    };

    let mut cache = at_path("cache/sessions.json");
    assert_eq!(cache.sessions(&vec![file("s.jsonl", "one")], parse).len(), 1);
    assert!(cache.save(&Vec::new()));
    cache.saved();
    assert_eq!(parses.get(), 1);

    let mut cache = reload(&cache);
    let hits = cache.sessions(&vec![file("s.jsonl", "one")], parse);
    assert_eq!(hits[0].id, "a");
    assert_eq!(parses.get(), 1);

    assert_eq!(cache.sessions(&vec![file("s.jsonl", "grown")], parse).len(), 1);
    assert_eq!(parses.get(), 2);
}

#[test]
fn files_yielding_no_session_are_not_reparsed() {
    let parses = Cell::new(0);
    let parse = |_: &String| {
        parses.set(parses.get() + 1);
        None
    };
    let mut cache = at_path("sessions.json");
    let files = vec![file("sidechain.jsonl", "x")];
    assert!(cache.sessions(&files, parse).is_empty());
    assert!(cache.sessions(&files, parse).is_empty());
    assert_eq!(parses.get(), 1);
}

#[test]
fn save_prunes_deleted_files_but_keeps_unvisited_existing_ones() {
    let mut cache = at_path("sessions.json");
    let files = vec![file("kept.jsonl", "x"), file("gone.jsonl", "x")];
    cache.sessions(&files, |_: &String| Some(session("a")));
    assert!(cache.save(&Vec::new()));
    cache.saved();

    let mut cache = reload(&cache);
    cache.title(&"kept.jsonl".to_owned(), Some((1, 1)), |_: &String| Some("t".to_owned()));
    assert_eq!(cache.unvisited(), ["gone.jsonl"]);
    assert!(cache.save(&vec!["gone.jsonl".to_owned()]));
    cache.saved();

    assert_eq!(known(&reload(&cache)), ["kept.jsonl"]);
}

#[test]
fn titles_cache_by_content_stamp() {
    let parses = Cell::new(0);
    let parse = |_: &String| {
        parses.set(parses.get() + 1);
        Some("first prompt".to_owned())
    };
    let mut cache = at_path("sessions.json");
    let path = "rollout.jsonl".to_owned();
    assert_eq!(cache.title(&path, Some((1, 5)), parse).as_deref(), Some("first prompt"));
    assert_eq!(cache.title(&path, Some((1, 5)), parse).as_deref(), Some("first prompt"));
    assert_eq!(parses.get(), 1);
    assert_eq!(cache.title(&"missing.jsonl".to_owned(), None, parse), None);
    assert_eq!(parses.get(), 1);
    cache.title(&path, Some((1, 6)), parse);
    assert_eq!(parses.get(), 2);
}

#[test]
fn titles_outlast_saving_and_loading() {
    let mut cache = at_path("/c/sessions.json");
    for name in ["a", "b", "c"] {
        let path = format!("/s/{name}.jsonl");
        cache.title(&path, Some((1, 5)), |path| Some(format!("title of {path}")));
    }
    assert!(cache.save(&Vec::new()));
    let mut again = reload(&cache);
    for name in ["c", "a", "b"] {
        let path = format!("/s/{name}.jsonl");
        let title = again.title(&path, Some((1, 5)), |_| panic!("read again"));
        assert_eq!(title, Some(format!("title of {path}")));
    }
    let gone = vec!["/s/b.jsonl".to_owned()];
    let mut unvisited = reload(&cache);
    assert!(unvisited.save(&gone));
    let mut left = reload(&unvisited);
    let title = left.title(&"/s/b.jsonl".to_owned(), Some((1, 5)), |_| None);
    assert_eq!(title, None);
}

#[test]
fn remembered_sessions_come_before_those_read() {
    let mut cache = at_path("c");
    cache.sessions(&vec![file("b", "x")], |_: &String| Some(session("b")));
    let files = vec![file("a", "x"), file("b", "x"), file("c", "x"), file("d", "x")];
    let (hits, misses) = cache.lookup_sessions(&files);
    assert_eq!(hits, [session("b")]);
    assert_eq!(misses, [0, 2, 3]);
    let all = cache.sessions(&files, |path: &String| match path.as_str() {
        "c" => None,
        _ => Some(session(path)),
    });
    assert_eq!(all, [session("b"), session("a"), session("d")]);
    let again = cache.sessions(&files, |_: &String| unreachable!());
    assert_eq!(again, [session("a"), session("b"), session("d")]);
}

#[test]
fn another_time_of_change_reparses() {
    let mut cache = at_path("c");
    let mut one = file("a", "x");
    cache.sessions(&vec![one.clone()], |_: &String| Some(session("old")));
    one.modified_ms = 2;
    let (hits, misses) = cache.lookup_sessions(&vec![one.clone()]);
    assert!(hits.is_empty());
    assert_eq!(misses, [0]);
    let read = cache.store_sessions(vec![(one.clone(), Some(session("new")))], hits);
    assert_eq!(read, [session("new")]);
    assert_eq!(cache.lookup_sessions(&vec![one]).0, [session("new")]);
    assert_eq!(known(&cache), ["a"]);
}

#[test]
fn what_was_asked_for_is_kept_though_it_is_gone() {
    let mut cache = at_path("c");
    cache.sessions(&vec![file("a", "x"), file("b", "x")], |_: &String| None);
    let gone = vec!["a".to_owned()];
    assert!(cache.unvisited().is_empty());
    assert!(cache.save(&gone));
    assert_eq!(known(&cache), ["a", "b"]);
    cache.saved();
    assert_eq!(cache.unvisited(), ["a", "b"]);
    assert!(cache.save(&gone));
    assert_eq!(known(&cache), ["b"]);
}

#[test]
fn nothing_new_is_nothing_to_write() {
    let mut cache = at_path("c");
    assert!(!cache.save(&Vec::new()));
    cache.sessions(&vec![file("a", "x")], |_: &String| None);
    assert!(cache.save(&Vec::new()));
    assert!(cache.save(&Vec::new()));
    cache.saved();
    assert!(!cache.save(&Vec::new()));
    assert!(!cache.save(&vec!["b".to_owned()]));
    assert!(cache.save(&vec!["a".to_owned()]));
}

#[test]
fn a_cache_without_a_path_is_never_written() {
    let mut cache = Cache::load(None, None);
    cache.sessions(&vec![file("a", "x")], |_: &String| None);
    assert!(!cache.save(&vec!["a".to_owned()]));
    assert_eq!(known(&cache), ["a"]);
}

#[test]
fn titles_and_sessions_of_a_file_are_kept_apart() {
    let mut cache = at_path("c");
    cache.sessions(&vec![file("a", "x")], |_: &String| Some(session("a")));
    let one = file("a", "x");
    assert_eq!(cache.lookup_title(&one), None);
    assert_eq!(cache.store_title(one.clone(), None), None);
    assert_eq!(cache.lookup_title(&one), Some(None));
    assert_eq!(cache.lookup_sessions(&vec![one]).0, [session("a")]);
}

#[test]
fn later_rows_override_earlier_ones() {
    let row = |path: &str, value: u8| {
        (
            path.to_owned(),
            Entry {
                len: 1,
                modified_ms: 1,
                value,
            },
        )
    };
    let table = Table::from_entries(vec![row("a", 1), row("b", 2), row("a", 3)]);
    assert_eq!(table.entries().len(), 2);
    assert_eq!(table.get("a").unwrap().value, 3);
    assert_eq!(table.get("b").unwrap().value, 2);
    assert!(table.get("c").is_none());
}
