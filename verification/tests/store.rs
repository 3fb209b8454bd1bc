use hindsight::store::{Database, HistoryEvent};
use hindsight::Mode;

fn event(command: &str, session: &str, cwd: &str, ts: i64, duration: i64) -> HistoryEvent {
    HistoryEvent {
        command: command.to_string(),
        exit_code: Some(0),
        cwd: Some(cwd.to_string()),
        hostname: Some("host".to_string()),
        session: Some(session.to_string()),
        start_ts: ts,
        duration,
    }
}

fn tags(names: &[&str]) -> Vec<String> {
    names.iter().map(|s| s.to_string()).collect()
}

#[test]
fn insert_event_rejects_duplicate_key() {
    let mut db = Database::new();
    assert!(db.insert_event(event("ls", "s1", "/a", 10, 0)));
    assert!(!db.insert_event(event("ls", "s2", "/b", 10, 7)));
    assert!(db.insert_event(event("ls", "s1", "/a", 11, 0)));
}

#[test]
fn search_dedups_and_orders() {
    let mut db = Database::new();
    db.insert_event(event("ls", "s1", "/a", 10, 3));
    db.insert_event(event("ls", "s1", "/a", 30, 1));
    db.insert_event(event("cat x", "s1", "/a", 20, 9));
    db.insert_event(event("ls", "s2", "/b", 25, 2));

    let rows = db.search(Mode::Global, 10, "", "");
    assert_eq!(rows.len(), 2);
    // each distinct command once, newest first, with its maxima
    assert_eq!(rows[0].command, "ls");
    assert_eq!(rows[0].timestamp, 30);
    assert_eq!(rows[0].duration, 3);
    assert_eq!(rows[1].command, "cat x");
    assert_eq!(rows[1].timestamp, 20);
    assert_eq!(rows[1].duration, 9);
}

#[test]
fn search_limit_keeps_newest() {
    let mut db = Database::new();
    db.insert_event(event("a", "s", "/", 10, 0));
    db.insert_event(event("b", "s", "/", 20, 0));
    db.insert_event(event("c", "s", "/", 30, 0));
    let rows = db.search(Mode::Global, 2, "", "");
    assert_eq!(rows.len(), 2);
    assert_eq!(rows[0].command, "c");
    assert_eq!(rows[1].command, "b");

    let none = db.search(Mode::Global, 0, "", "");
    assert_eq!(none.len(), 0);
}

#[test]
fn search_session_and_cwd_filter() {
    let mut db = Database::new();
    db.insert_event(event("ls", "s1", "/a", 10, 0));
    db.insert_event(event("pwd", "s2", "/b", 20, 0));
    db.insert_event(event("top", "s1", "/b", 30, 0));

    let by_session = db.search(Mode::Session, 10, "s1", "ignored");
    assert_eq!(by_session.len(), 2);
    assert_eq!(by_session[0].command, "top");
    assert_eq!(by_session[1].command, "ls");

    let by_cwd = db.search(Mode::Cwd, 10, "ignored", "/b");
    assert_eq!(by_cwd.len(), 2);
    assert_eq!(by_cwd[0].command, "top");
    assert_eq!(by_cwd[1].command, "pwd");

    let empty = db.search(Mode::Session, 10, "nope", "");
    assert_eq!(empty.len(), 0);
}

#[test]
fn save_assigns_fresh_ids_and_upserts() {
    let mut db = Database::new();
    let a = db.save_command_at("deploy", Some("ship"), tags(&["ops"]), 10);
    let b = db.save_command_at("status", None, tags(&[]), 20);
    assert_ne!(a, b);
    // same text: updated in place under the same id
    let a2 = db.save_command_at("deploy", Some("ship again"), tags(&["ops", "prod"]), 30);
    assert_eq!(a, a2);

    let all = db.get_saved_commands(None);
    assert_eq!(all.len(), 2);
    // ordered by descending creation time
    assert_eq!(all[0].command, "deploy");
    assert_eq!(all[0].created_at, 30);
    assert_eq!(all[0].description.as_deref(), Some("ship again"));
    assert_eq!(all[1].command, "status");
}

#[test]
fn save_twice_replaces_tag_set() {
    let mut db = Database::new();
    db.save_command_at("deploy", None, tags(&["a", "b"]), 10);
    db.save_command_at("deploy", None, tags(&["c"]), 20);
    let all = db.get_saved_commands(None);
    assert_eq!(all.len(), 1);
    // exactly the second set is attached: replaced, not merged
    assert_eq!(all[0].tags, vec!["c".to_string()]);
}

#[test]
fn delete_saved_reports_found() {
    let mut db = Database::new();
    let id = db.save_command_at("deploy", None, tags(&[]), 10);
    assert!(db.delete_saved_command(id));
    assert!(!db.delete_saved_command(id));
    assert_eq!(db.get_saved_commands(None).len(), 0);
}

#[test]
fn list_saved_tag_filter_is_disjunctive() {
    let mut db = Database::new();
    db.save_command_at("one", None, tags(&["a"]), 10);
    db.save_command_at("two", None, tags(&["b"]), 20);
    db.save_command_at("three", None, tags(&["c"]), 30);

    let picked = db.get_saved_commands(Some(tags(&["a", "c"])));
    assert_eq!(picked.len(), 2);
    assert_eq!(picked[0].command, "three");
    assert_eq!(picked[1].command, "one");

    // an empty filter set degrades to the empty result
    let none_matching = db.get_saved_commands(Some(tags(&[])));
    assert_eq!(none_matching.len(), 0);

    let none = db.get_saved_commands(Some(tags(&["zzz"])));
    assert_eq!(none.len(), 0);
}

#[test]
fn listed_saved_commands_carry_full_tag_lists() {
    let mut db = Database::new();
    db.save_command_at("one", None, tags(&["a", "b"]), 10);
    let picked = db.get_saved_commands(Some(tags(&["a"])));
    assert_eq!(picked.len(), 1);
    assert_eq!(picked[0].tags, tags(&["a", "b"]));
}

#[test]
fn saved_mode_searches_no_history() {
    let mut db = Database::new();
    db.insert_event(event("ls", "s", "/", 10, 0));
    assert_eq!(db.search(Mode::Saved, 10, "", "").len(), 0);
}

#[test]
fn events_accessor_sees_insertions() {
    let mut db = Database::new();
    db.insert_event(event("ls", "s", "/", 10, 0));
    db.insert_event(event("pwd", "s", "/", 20, 0));
    let events: &Vec<HistoryEvent> = db.events();
    assert_eq!(events.len(), 2);
    assert_eq!(events[0].command, "ls");
    assert_eq!(events[1].command, "pwd");
}
