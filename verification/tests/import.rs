use hindsight::import::{import_lines, parse_extended_line};
use hindsight::store::Database;
use hindsight::text::{is_continuation_line, trim_str};
use hindsight::Mode;

fn lines(raw: &[&str]) -> Vec<String> {
    raw.iter().map(|s| s.to_string()).collect()
}

#[test]
fn continuation_parity() {
    assert!(!is_continuation_line("echo hi"));
    assert!(is_continuation_line("echo hi \\"));
    assert!(!is_continuation_line("echo hi \\\\"));
    assert!(is_continuation_line("echo hi \\\\\\"));
    assert!(!is_continuation_line("echo hi \\\\\\\\"));
    assert!(!is_continuation_line(""));
    assert!(is_continuation_line("\\"));
}

#[test]
fn extended_line_recognition() {
    let e = parse_extended_line(": 1706384400:0;echo hi").unwrap();
    assert_eq!(e.start_ts, 1706384400);
    assert_eq!(e.duration, 0);
    assert_eq!(e.payload, "echo hi");

    let e = parse_extended_line(": 5:7;a;b").unwrap();
    assert_eq!(e.start_ts, 5);
    assert_eq!(e.duration, 7);
    assert_eq!(e.payload, "a;b");

    // command text that merely starts like a header is not metadata
    assert!(parse_extended_line(": this is a comment; not history").is_none());
    assert!(parse_extended_line(": 12:ab;x").is_none());
    assert!(parse_extended_line(": 12;x").is_none());
    assert!(parse_extended_line(": 1:2:3;x").is_none());
    assert!(parse_extended_line(":1:2;x").is_none());
    assert!(parse_extended_line("echo : 1:2;x sort of").is_none());
    assert!(parse_extended_line(": 1:2").is_none());
    // a number beyond i64 is command text, not a header
    assert!(parse_extended_line(": 99999999999999999999:0;x").is_none());
}

#[test]
fn trimming() {
    assert_eq!(trim_str("  a b  "), "a b");
    assert_eq!(trim_str("\t x \n"), "x");
    assert_eq!(trim_str("   "), "");
    assert_eq!(trim_str("plain"), "plain");
}

#[test]
fn import_dedup_skips_second() {
    let mut db = Database::new();
    let input = lines(&[": 100:0;echo x", ": 100:0;echo x"]);
    let counts = import_lines(&mut db, &input, 500, "host", "import-1");
    assert_eq!(counts.imported, 1);
    assert_eq!(counts.skipped, 1);
    let rows = db.search(Mode::Global, 10, "", "");
    assert_eq!(rows.len(), 1);
    assert_eq!(rows[0].command, "echo x");
    assert_eq!(rows[0].timestamp, 100);
    assert!(db.contains_event("echo x", 100));
    assert!(!db.contains_event("echo x", 101));
}

#[test]
fn import_dedup_against_earlier_run() {
    let mut db = Database::new();
    let first = lines(&[": 100:0;echo x"]);
    let counts = import_lines(&mut db, &first, 500, "host", "import-1");
    assert_eq!((counts.imported, counts.skipped), (1, 0));
    let second = lines(&[": 100:0;echo x", ": 101:0;echo x"]);
    let counts = import_lines(&mut db, &second, 500, "host", "import-2");
    assert_eq!((counts.imported, counts.skipped), (1, 1));
}

#[test]
fn end_to_end_import_and_search() {
    let mut db = Database::new();
    let input = lines(&[": 1706384400:0;echo hi", ": 1706384401:0;sleep 5", "ls -la"]);
    let now: i64 = 1800000000;
    let counts = import_lines(&mut db, &input, now, "host", "import-1");
    assert_eq!(counts.imported, 3);
    assert_eq!(counts.skipped, 0);

    let rows = db.search(Mode::Global, 10, "", "");
    assert_eq!(rows.len(), 3);
    let pos =
        |cmd: &str| rows.iter().position(|r| r.command == cmd).expect("command missing");
    // the two timestamped rows keep their relative recency order
    assert!(pos("sleep 5") < pos("echo hi"));
    assert_eq!(rows[pos("echo hi")].timestamp, 1706384400);
    assert_eq!(rows[pos("sleep 5")].timestamp, 1706384401);
    assert_eq!(rows[pos("ls -la")].timestamp, now);
}

#[test]
fn plain_line_gets_import_time() {
    let mut db = Database::new();
    let input = lines(&["ls -la"]);
    let counts = import_lines(&mut db, &input, 777, "host", "import-1");
    assert_eq!((counts.imported, counts.skipped), (1, 0));
    assert!(db.contains_event("ls -la", 777));
}

#[test]
fn continuation_joins_lines() {
    let mut db = Database::new();
    let input = lines(&[": 100:0;echo a \\", "b"]);
    let counts = import_lines(&mut db, &input, 500, "host", "import-1");
    assert_eq!((counts.imported, counts.skipped), (1, 0));
    assert!(db.contains_event("echo a \\\nb", 100));
}

#[test]
fn continuation_flushes_at_end_of_input() {
    let mut db = Database::new();
    let input = lines(&[": 100:0;echo a \\"]);
    let counts = import_lines(&mut db, &input, 500, "host", "import-1");
    assert_eq!((counts.imported, counts.skipped), (1, 0));
    // the trailing newline of the open continuation is trimmed away
    assert!(db.contains_event("echo a \\", 100));
}

#[test]
fn extended_line_flushes_prior_accumulation() {
    let mut db = Database::new();
    let input = lines(&[": 100:0;echo a \\", ": 200:0;echo b"]);
    let counts = import_lines(&mut db, &input, 500, "host", "import-1");
    assert_eq!((counts.imported, counts.skipped), (2, 0));
    assert!(db.contains_event("echo a \\", 100));
    assert!(db.contains_event("echo b", 200));
}

#[test]
fn accumulating_non_continuation_finalizes() {
    let mut db = Database::new();
    let input = lines(&[": 100:0;first \\", "middle \\", "last", "plain"]);
    let now: i64 = 900;
    let counts = import_lines(&mut db, &input, now, "host", "import-1");
    assert_eq!((counts.imported, counts.skipped), (2, 0));
    assert!(db.contains_event("first \\\nmiddle \\\nlast", 100));
    assert!(db.contains_event("plain", now));
}

#[test]
fn even_backslashes_do_not_join() {
    let mut db = Database::new();
    // two trailing backslashes: an escaped pair, no continuation
    let input = lines(&[": 100:0;echo a \\\\", "next"]);
    let counts = import_lines(&mut db, &input, 500, "host", "import-1");
    assert_eq!((counts.imported, counts.skipped), (2, 0));
    assert!(db.contains_event("echo a \\\\", 100));
    assert!(db.contains_event("next", 500));
}

#[test]
fn three_backslashes_join() {
    let mut db = Database::new();
    let input = lines(&[": 100:0;echo a \\\\\\", "next"]);
    let counts = import_lines(&mut db, &input, 500, "host", "import-1");
    assert_eq!((counts.imported, counts.skipped), (1, 0));
    assert!(db.contains_event("echo a \\\\\\\nnext", 100));
}

#[test]
fn four_backslashes_do_not_join() {
    let mut db = Database::new();
    let input = lines(&[": 100:0;echo a \\\\\\\\", "next"]);
    let counts = import_lines(&mut db, &input, 500, "host", "import-1");
    assert_eq!((counts.imported, counts.skipped), (2, 0));
    assert!(db.contains_event("echo a \\\\\\\\", 100));
    assert!(db.contains_event("next", 500));
}
