use hindsight::import::import_lines;
use hindsight::store::{Database, HistoryRecord, SavedCommand};
use hindsight::stream::{
    publish_history, publish_saved, render_selection, session_step, Candidate, CandidateSink,
    LoopStep, Selection, SelectorEvent,
};
use hindsight::{Config, Mode};

fn record(command: &str, ts: i64) -> HistoryRecord {
    HistoryRecord { command: command.to_string(), timestamp: ts, duration: 0 }
}

#[test]
fn mode_cycle_order() {
    assert_eq!(Mode::Global.next_in_cycle(), Mode::Session);
    assert_eq!(Mode::Session.next_in_cycle(), Mode::Cwd);
    assert_eq!(Mode::Cwd.next_in_cycle(), Mode::Saved);
    assert_eq!(Mode::Saved.next_in_cycle(), Mode::Global);
}

#[test]
fn mode_names_round_trip() {
    for mode in [Mode::Global, Mode::Session, Mode::Cwd, Mode::Saved] {
        assert_eq!(Mode::from_name(mode.name()), Some(mode));
    }
    assert_eq!(Mode::from_name("everything"), None);
    assert_eq!(Mode::from_name(""), None);
}

#[test]
fn config_resolution() {
    let cfg = Config {
        default_mode: Some("cwd".to_string()),
        default_limit: Some(50),
        height: None,
    };
    assert_eq!(cfg.effective_mode(Some(Mode::Saved)), Mode::Saved);
    assert_eq!(cfg.effective_mode(None), Mode::Cwd);
    assert_eq!(cfg.effective_limit(Some(7)), 7);
    assert_eq!(cfg.effective_limit(None), 50);

    let empty = Config { default_mode: None, default_limit: None, height: None };
    assert_eq!(empty.effective_mode(None), Mode::Global);
    assert_eq!(empty.effective_limit(None), 1000);

    let broken = Config {
        default_mode: Some("everything".to_string()),
        default_limit: None,
        height: None,
    };
    assert_eq!(broken.effective_mode(None), Mode::Global);
}

#[test]
fn session_steps() {
    match session_step(Mode::Global, SelectorEvent::Accept(Some("ls".to_string()))) {
        LoopStep::Finish(Some(s)) => {
            assert_eq!(s.command, "ls");
            assert!(!s.edit);
        },
        _ => panic!("expected a finished selection"),
    }
    match session_step(Mode::Global, SelectorEvent::AcceptEdit(Some("ls".to_string()))) {
        LoopStep::Finish(Some(s)) => {
            assert_eq!(s.command, "ls");
            assert!(s.edit);
        },
        _ => panic!("expected a finished selection"),
    }
    assert!(matches!(
        session_step(Mode::Cwd, SelectorEvent::CycleMode),
        LoopStep::Restart(Mode::Saved)
    ));
    assert!(matches!(
        session_step(Mode::Global, SelectorEvent::Abort),
        LoopStep::Finish(None)
    ));
    assert!(matches!(
        session_step(Mode::Global, SelectorEvent::Accept(None)),
        LoopStep::Finish(None)
    ));
}

#[test]
fn rendered_selection_markers() {
    let plain = Selection { command: "ls -la".to_string(), edit: false };
    assert_eq!(
        render_selection(Mode::Session, &plain),
        "__HINDSIGHT_MODE__session__ls -la"
    );
    let edit = Selection { command: "vim x".to_string(), edit: true };
    assert_eq!(
        render_selection(Mode::Global, &edit),
        "__HINDSIGHT_MODE__global____HINDSIGHT_EDIT__vim x"
    );
}

#[test]
fn publisher_stops_on_closed_receiver() {
    let (tx, rx) = crossbeam_channel::bounded::<Candidate>(2);
    drop(rx);
    let mut sink = CandidateSink::new(tx);
    let records: Vec<HistoryRecord> = (0..10).map(|i| record(&format!("c{}", i), i)).collect();
    // more rows than the channel holds, and nobody draining: the worker
    // must observe the closed receiver and give up instead of blocking
    let sent = publish_history(&mut sink, records);
    assert_eq!(sent, 0);
}

#[test]
fn publisher_delivers_in_order() {
    let (tx, rx) = crossbeam_channel::bounded::<Candidate>(100);
    let mut sink = CandidateSink::new(tx);
    let records = vec![record("first", 3), record("second", 2), record("third", 1)];
    let sent = publish_history(&mut sink, records);
    assert_eq!(sent, 3);
    drop(sink);
    let got: Vec<String> = rx.iter().map(|c| c.text()).collect();
    assert_eq!(got, vec!["first", "second", "third"]);
}

#[test]
fn publisher_handles_saved_entries() {
    let (tx, rx) = crossbeam_channel::bounded::<Candidate>(10);
    let saved = vec![SavedCommand {
        id: 1,
        command: "deploy".to_string(),
        description: None,
        created_at: 10,
        tags: vec!["ops".to_string()],
    }];
    let mut sink = CandidateSink::new(tx);
    let sent = publish_saved(&mut sink, saved);
    assert_eq!(sent, 1);
    drop(sink);
    let got: Vec<Candidate> = rx.iter().collect();
    assert_eq!(got.len(), 1);
    assert_eq!(got[0].text(), "deploy");
    assert_eq!(got[0].label(0), "[ops] deploy");
}

#[test]
fn duplicate_key_publishes_single_row() {
    let mut db = Database::new();
    let lines = vec![": 100:0;echo x".to_string(), ": 100:0;echo x".to_string()];
    let counts = import_lines(&mut db, &lines, 500, "host", "import-1");
    assert_eq!((counts.imported, counts.skipped), (1, 1));

    let rows = db.search(Mode::Global, 10, "", "");
    assert_eq!(rows.len(), 1);
    assert_eq!(rows[0].command, "echo x");
    assert_eq!(rows[0].timestamp, 100);

    let (tx, rx) = crossbeam_channel::bounded::<Candidate>(10);
    let mut sink = CandidateSink::new(tx);
    let sent = publish_history(&mut sink, rows);
    assert_eq!(sent, 1);
    drop(sink);
    let got: Vec<Candidate> = rx.iter().collect();
    assert_eq!(got.len(), 1);
    assert_eq!(got[0].text(), "echo x");
}
