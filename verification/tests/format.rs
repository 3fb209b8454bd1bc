use hindsight::format::{format_age, format_duration, join_tags, pad_right, u64_to_string};
use hindsight::format::{HistoryItem, SavedCommandItem};
use hindsight::store::{HistoryRecord, SavedCommand};

#[test]
fn duration_boundaries() {
    assert_eq!(format_duration(0), "0s");
    assert_eq!(format_duration(59), "59s");
    assert_eq!(format_duration(60), "1m");
    assert_eq!(format_duration(3599), "59m");
    assert_eq!(format_duration(3600), "1h");
    assert_eq!(format_duration(86399), "23h");
    assert_eq!(format_duration(86400), "1d");
    assert_eq!(format_duration(-5), "0s");
    assert_eq!(format_duration(172800), "2d");
}

#[test]
fn age_boundaries() {
    assert_eq!(format_age(1706384400, 0), "unknown");
    assert_eq!(format_age(100, 200), "just now");
    assert_eq!(format_age(200, 100), "1m ago");
    assert_eq!(format_age(159, 100), "59s ago");
    assert_eq!(format_age(100, 100), "0s ago");
    assert_eq!(format_age(86500, 100), "1d ago");
}

#[test]
fn decimal_rendering() {
    assert_eq!(u64_to_string(0), "0");
    assert_eq!(u64_to_string(7), "7");
    assert_eq!(u64_to_string(10), "10");
    assert_eq!(u64_to_string(90210), "90210");
    assert_eq!(u64_to_string(u64::MAX), "18446744073709551615");
}

#[test]
fn padding() {
    assert_eq!(pad_right("ab".to_string(), 5), "ab   ");
    assert_eq!(pad_right("abcdef".to_string(), 5), "abcdef");
    assert_eq!(pad_right("".to_string(), 2), "  ");
}

#[test]
fn tag_joining() {
    assert_eq!(join_tags(&vec![]), "");
    assert_eq!(join_tags(&vec!["a".to_string()]), "a");
    assert_eq!(join_tags(&vec!["a".to_string(), "b".to_string(), "c".to_string()]), "a, b, c");
}

#[test]
fn history_label_layout() {
    let item = HistoryItem {
        record: HistoryRecord { command: "echo hi".to_string(), timestamp: 940, duration: 5 },
    };
    assert_eq!(item.text(), "echo hi");
    assert_eq!(item.display(1000), "5s     1m ago    \techo hi");
}

#[test]
fn history_preview_text() {
    let ts: i64 = 1706384400;
    let item = HistoryItem {
        record: HistoryRecord { command: "echo hi".to_string(), timestamp: ts, duration: 65 },
    };
    let executed = chrono::DateTime::from_timestamp(ts, 0)
        .unwrap()
        .format("%Y-%m-%d %H:%M:%S")
        .to_string();
    let expected = format!("Command: echo hi\nExecuted: {}\nDuration: 1m", executed);
    assert_eq!(item.preview(), expected);
}

#[test]
fn saved_label_layout() {
    let with_all = SavedCommandItem {
        command: SavedCommand {
            id: 1,
            command: "deploy".to_string(),
            description: Some("ship it".to_string()),
            created_at: 10,
            tags: vec!["ops".to_string(), "prod".to_string()],
        },
    };
    assert_eq!(with_all.text(), "deploy");
    assert_eq!(with_all.display(), "[ops, prod] deploy - ship it");

    let bare = SavedCommandItem {
        command: SavedCommand {
            id: 2,
            command: "ls".to_string(),
            description: None,
            created_at: 10,
            tags: vec![],
        },
    };
    assert_eq!(bare.display(), "ls");
}

#[test]
fn saved_preview_text() {
    let ts: i64 = 1706384400;
    let item = SavedCommandItem {
        command: SavedCommand {
            id: 1,
            command: "deploy".to_string(),
            description: None,
            created_at: ts,
            tags: vec![],
        },
    };
    let created = chrono::DateTime::from_timestamp(ts, 0)
        .unwrap()
        .format("%Y-%m-%d %H:%M:%S")
        .to_string();
    let expected = format!(
        "Command: deploy\nTags: None\nDescription: None\nCreated: {}",
        created
    );
    assert_eq!(item.preview(), expected);
}
