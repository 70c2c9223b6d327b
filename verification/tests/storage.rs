//! What is written to the database and read from it.
use rootkitty::db::{
    actor_step, entry_from_row, entry_values, keep, keep_stats, scan_from_row, ActorMessage,
    ActorStep, EntryRow, ScanRow,
};
use rootkitty::scanner::{FileEntry, ScanStats};
use rootkitty::time::{parse_instant, Timestamp};

fn entry(size: u64, modified_at: Option<Timestamp>) -> FileEntry {
    FileEntry {
        path: "/test/file1.txt".to_string(),
        name: "file1.txt".to_string(),
        parent_path: Some("/test".to_string()),
        size,
        is_dir: false,
        modified_at,
        depth: 1,
    }
}

fn row(started_at: &str, completed_at: Option<&str>) -> ScanRow {
    ScanRow {
        id: 4,
        root_path: "/test/path".to_string(),
        started_at: started_at.to_string(),
        completed_at: completed_at.map(|t| t.to_string()),
        total_size: 1000,
        total_files: 10,
        total_dirs: 5,
        status: "running".to_string(),
        entries_table: None,
    }
}

#[test]
fn instants_are_read() {
    assert_eq!(
        parse_instant("2023-11-14T22:13:20+00:00"),
        Some(Timestamp { secs: 1_700_000_000, nanos: 0 })
    );
    assert_eq!(
        parse_instant("2023-11-15T00:13:20.25+02:00"),
        Some(Timestamp { secs: 1_700_000_000, nanos: 250_000_000 })
    );
    assert_eq!(parse_instant("yesterday"), None);
}

#[test]
fn scans_are_read() {
    let scan = scan_from_row(row("2023-11-14T22:13:20+00:00", None)).unwrap();
    assert_eq!(scan.id, 4);
    assert_eq!(scan.root_path, "/test/path");
    assert_eq!(scan.status, "running");
    assert_eq!(scan.started_at.secs, 1_700_000_000);
    assert!(scan.completed_at.is_none());
    let scan =
        scan_from_row(row("2023-11-14T22:13:20Z", Some("2023-11-14T22:13:21Z"))).unwrap();
    assert_eq!(scan.completed_at.unwrap().secs, 1_700_000_001);
    let scan = scan_from_row(row("2023-11-14T22:13:20Z", Some("never"))).unwrap();
    assert!(scan.completed_at.is_none());
    assert!(scan_from_row(row("long ago", None)).is_none());
}

#[test]
fn entries_read_back_as_written() {
    let when = Timestamp { secs: 1_700_000_000, nanos: 123_456_789 };
    let values = entry_values(&entry(100, Some(when)));
    assert_eq!(values.modified_at.as_deref(), Some("2023-11-14T22:13:20.123456789+00:00"));
    let back = entry_from_row(EntryRow {
        id: 9,
        scan_id: 4,
        path: values.path,
        name: values.name,
        parent_path: values.parent_path,
        size: values.size,
        is_dir: values.is_dir,
        modified_at: values.modified_at,
        depth: values.depth,
    });
    assert_eq!((back.id, back.scan_id, back.size, back.depth), (9, 4, 100, 1));
    assert_eq!(back.path, "/test/file1.txt");
    assert_eq!(back.name, "file1.txt");
    assert_eq!(back.parent_path.as_deref(), Some("/test"));
    assert_eq!(back.modified_at, Some(when));
    assert!(!back.is_dir);
}

#[test]
fn entries_without_a_time() {
    assert_eq!(entry_values(&entry(1, None)).modified_at, None);
    let never = Timestamp { secs: i64::MAX, nanos: 0 };
    assert_eq!(entry_values(&entry(1, Some(never))).modified_at, None);
}

#[test]
fn times_at_the_ends_of_the_calendar_read_back() {
    let first = -62_167_219_200i64;
    let last = 253_402_300_799i64;
    for secs in [first, -60_000_000_000, -86_401, -1, 0, 1, 951_782_400, last] {
        for nanos in [0u32, 1, 500_000_000, 999_999_999] {
            let when = Timestamp { secs, nanos };
            let text = entry_values(&entry(1, Some(when))).modified_at.unwrap();
            assert_eq!(parse_instant(&text), Some(when));
        }
    }
    // Leap seconds follow the last second of a minute.
    for secs in [first + 59, -1, 59, 1_483_228_799, last] {
        for nanos in [1_000_000_000u32, 1_000_000_001, 1_999_999_999] {
            let when = Timestamp { secs, nanos };
            let text = entry_values(&entry(1, Some(when))).modified_at.unwrap();
            assert_eq!(parse_instant(&text), Some(when));
        }
    }
    // Years that take a sign do not read back.
    for secs in [first - 1, last + 1] {
        let when = Timestamp { secs, nanos: 0 };
        let text = entry_values(&entry(1, Some(when))).modified_at.unwrap();
        assert_eq!(parse_instant(&text), None);
    }
}

#[test]
fn numbers_as_they_are_kept() {
    for n in [0u64, 1, i64::MAX as u64, i64::MAX as u64 + 1, u64::MAX] {
        assert_eq!(keep(n), n as i64);
    }
    let stats = ScanStats { total_size: u64::MAX, total_files: 2, total_dirs: 3 };
    assert_eq!(keep_stats(&stats), (-1, 2, 3));
}

#[test]
fn messages_to_the_writer() {
    match actor_step(ActorMessage::InsertBatch(vec![entry(100, None), entry(200, None)])) {
        ActorStep::Write(entries) => assert_eq!(entries.len(), 2),
        _ => panic!("entries were to be written"),
    }
    assert!(matches!(actor_step(ActorMessage::InsertBatch(vec![])), ActorStep::Skip));
    assert!(matches!(actor_step(ActorMessage::Shutdown), ActorStep::Stop));
}
