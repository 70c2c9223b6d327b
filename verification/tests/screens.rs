//! What the browser shows and the commands print.
use rootkitty::db::{Scan, StoredFileEntry};
use rootkitty::report::{
    compare, date_line, largest_row, list_header, list_row, list_rule, more_line, progress_line,
    signed_text, size_line, Trend,
};
use rootkitty::settings::Settings;
use rootkitty::time::Timestamp;
use rootkitty::ui::scan_list::scan_order;
use rootkitty::ui::screens::{
    cleanup_row, cleanup_title, dir_row, file_row, help_lines, scan_row, unsigned_size,
    Line, Tone,
};
use rootkitty::ui::state::Key;
use rootkitty::ui::types::ScanProgress;
use rootkitty::ui::{App, SortMode, View};

// 2023-11-14 22:13:20 UTC
const NOW: Timestamp = Timestamp { secs: 1_700_000_000, nanos: 0 };

const NEVER: Timestamp = Timestamp { secs: i64::MAX, nanos: 0 };

fn scan(id: i64, path: &str, status: &str, size: i64) -> Scan {
    Scan {
        id,
        root_path: path.to_string(),
        started_at: NOW,
        completed_at: None,
        total_size: size,
        total_files: 10,
        total_dirs: 5,
        status: status.to_string(),
        entries_table: None,
    }
}

fn entry(path: &str, depth: i64, is_dir: bool, size: i64) -> StoredFileEntry {
    StoredFileEntry {
        id: 1,
        scan_id: 1,
        path: path.to_string(),
        name: path.rsplit('/').next().unwrap().to_string(),
        parent_path: None,
        size,
        is_dir,
        modified_at: None,
        depth,
    }
}

fn texts(lines: &[Line]) -> Vec<String> {
    lines.iter().map(|l| format!("{}{}", l.head, l.text)).collect()
}

fn app() -> App {
    App::new(Settings::default(), "/c.toml".to_string(), "/d.db".to_string())
}

#[test]
fn scans_as_lines() {
    for (status, sign) in
        [("completed", "✓"), ("running", "⟳"), ("paused", "⏸"), ("failed", "✗")]
    {
        assert_eq!(
            scan_row(&scan(1, "/r", status, 1_572_864)).unwrap(),
            format!("{} /r | 10 files | 1.50 MB | 2023-11-14 22:13", sign)
        );
    }
    let mut odd = scan(1, "/r", "paused", 0);
    odd.started_at = NEVER;
    assert!(scan_row(&odd).is_none());
}

#[test]
fn scans_in_order() {
    let scans = vec![
        scan(1, "/b", "completed", 5),
        scan(2, "/a", "completed", 9),
        scan(3, "/c", "completed", 5),
    ];
    assert_eq!(scan_order(&scans, SortMode::BySize), vec![1, 0, 2]);
    assert_eq!(scan_order(&scans, SortMode::ByPath), vec![1, 0, 2]);
    let scans = vec![scan(1, "/b", "", 1), scan(2, "/B", "", 2), scan(3, "/b", "", 3)];
    assert_eq!(scan_order(&scans, SortMode::ByPath), vec![1, 0, 2]);
    assert_eq!(scan_order(&scans, SortMode::BySize), vec![2, 1, 0]);
}

#[test]
fn files_as_lines() {
    assert_eq!(file_row(&entry("/r/a", 1, true, 2048), true), "  ▶ 📁 a (2.00 KB)");
    assert_eq!(file_row(&entry("/r/a", 0, true, 2048), false), "▼ 📁 a (2.00 KB)");
    assert_eq!(file_row(&entry("/r/a/f", 2, false, 7), false), "      📄 f (7 B)");
}

#[test]
fn stored_sizes_are_unsigned() {
    for n in [0i64, 1, i64::MAX, -1, i64::MIN] {
        assert_eq!(unsigned_size(n), n as u64);
    }
}

#[test]
fn marked_items_as_lines() {
    let items = vec![entry("/r/a", 1, true, 1024), entry("/r/f", 1, false, 1024)];
    assert_eq!(cleanup_row(&items[0]), "📁 /r/a (1.00 KB)");
    assert_eq!(cleanup_row(&items[1]), "📄 /r/f (1.00 KB)");
    assert_eq!(
        cleanup_title(&items).unwrap(),
        "Cleanup List (3) | 2 items | 2.00 KB total | 'g' to generate script | Space to remove"
    );
    let items = vec![entry("/a", 0, false, i64::MAX), entry("/b", 0, false, 1)];
    assert!(cleanup_title(&items).is_none());
}

#[test]
fn selected_file_is_described() {
    let mut app = app();
    assert_eq!(app.files_title(), "Files (2)");
    assert_eq!(texts(&app.file_info_lines()), vec!["No file selected"]);
    app.scans_loaded(vec![scan(1, "/r", "completed", 5)]);
    app.handle_key(Key::Enter);
    app.entries_loaded(Ok(vec![entry("/r", 0, true, 1536)]));
    assert_eq!(
        app.files_title(),
        "Files (2) | Scan: /r | z: fold/unfold | Z: unfold all | Space: mark"
    );
    let lines = app.file_info_lines();
    assert_eq!(
        texts(&lines),
        vec!["Type: Directory", "Name: r", "Path: /r", "Size: 1.50 KB"]
    );
    assert_eq!(lines[0].head_tone, Tone::Topic);
}

#[test]
fn help_is_complete() {
    let lines = help_lines();
    assert_eq!(lines.len(), 36);
    assert_eq!(lines[0].text, "Rootkitty - Keyboard Shortcuts");
    assert_eq!(lines[0].tone, Tone::Heading);
    assert_eq!(lines[35].text, "Press any key to close");
}

#[test]
fn keys_below_each_view() {
    let mut app = app();
    assert!(app.keys_line().starts_with("q: quit | n: new"));
    app.handle_key(Key::Char('?'));
    assert_eq!(app.keys_line(), "Press any key to close help");
    app.handle_key(Key::Enter);
    app.handle_key(Key::Char('S'));
    assert!(app.keys_line().starts_with("q/Esc: close"));
    app.handle_key(Key::Char('e'));
    assert!(app.keys_line().starts_with("Enter: save"));
}

#[test]
fn questions_before_a_scan_is_deleted() {
    let mut app = app();
    assert_eq!(app.confirm_delete_lines().len(), 1);
    app.scans_loaded(vec![scan(7, "/r", "completed", 5)]);
    app.handle_key(Key::Char('x'));
    let lines = texts(&app.confirm_delete_lines());
    assert_eq!(lines[1], "Delete Scan?");
    assert_eq!(lines[3], "Scan ID: 7");
    assert_eq!(lines[4], "Path: /r");
    app.handle_key(Key::Char('y'));
    app.tick();
    let lines = texts(&app.deleting_lines());
    assert_eq!(lines[1], "⠙ Deleting scan...");
    assert_eq!(lines[4], "Path: /r");
    app.scans_listed(vec![]);
    assert_eq!(texts(&app.deleting_lines())[4], "Path: unknown");
}

#[test]
fn preparing_to_resume() {
    let mut app = app();
    app.scans_loaded(vec![scan(7, "/r", "paused", 5)]);
    assert_eq!(app.preparing_lines().len(), 3);
    app.handle_key(Key::Char('r'));
    let lines = texts(&app.preparing_lines());
    assert_eq!(lines[1], "⠋ Preparing to resume scan...");
    assert_eq!(lines[3], "Scan ID: 7");
    assert_eq!(lines[4], "Path: /r");
}

#[test]
fn new_scan_dialog() {
    let mut app = app();
    app.handle_key(Key::Char('n'));
    app.handle_key(Key::Char('/'));
    let lines = app.scan_dialog_lines();
    assert_eq!(lines[1].text, "Enter path to scan:");
    assert_eq!(lines[3].text, "/");
    assert_eq!(lines[3].tone, Tone::Typed);
}

#[test]
fn settings_as_lines() {
    let mut app = app();
    app.handle_key(Key::Char('S'));
    assert!(app.can_show_cursor());
    assert_eq!(
        texts(&app.settings_lines("0.1.0")),
        vec![
            "[e/r] Config File Path: /c.toml",
            "[e/r] Database Path: /d.db",
            "",
            "[t] File Tree Sort: Alphabetical (by path)",
            "[t] Scan List Sort: By Size (Descending)",
            "    Auto-fold Depth: 1 level",
            "",
            "    About: Rootkitty - Disk Usage Analyzer",
            "    Version: 0.1.0",
        ]
    );
    app.handle_key(Key::Char('e'));
    app.handle_key(Key::Left);
    assert_eq!(
        texts(&app.settings_lines("0.1.0"))[0],
        "[editing...] Config File Path: /c.tom█l"
    );
    app.handle_key(Key::Char('é'));
    assert!(!app.can_show_cursor());
}

#[test]
fn questions_before_a_path_is_changed() {
    let mut app = app();
    assert_eq!(app.confirm_path_lines().len(), 1);
    app.handle_key(Key::Char('S'));
    app.handle_key(Key::Char('e'));
    app.path_typed("/new.toml".to_string(), false);
    let lines = texts(&app.confirm_path_lines());
    assert_eq!(lines[1], "Change Config Path?");
    assert_eq!(lines[3], "Old path: /c.toml");
    assert_eq!(lines[4], "New path: /new.toml");
    assert_eq!(lines[6], "⚠ File does not exist at new path");
    assert_eq!(lines[8], "A new config file will be created with current settings.");
    app.handle_key(Key::Char('n'));
    app.handle_key(Key::Char('j'));
    app.handle_key(Key::Char('e'));
    app.path_typed("/new.db".to_string(), true);
    let lines = texts(&app.confirm_path_lines());
    assert_eq!(lines[1], "Change Database Path?");
    assert_eq!(lines[6], "✓ File exists at new path");
    assert_eq!(
        lines[8],
        "Note: Changing database path requires restarting the application."
    );
}

#[test]
fn directories_being_scanned() {
    assert_eq!(dir_row("/r", 3, 9, 33, 60), "  [3/9]  33% /r");
    let mut app = app();
    app.view = View::Scanning;
    assert_eq!(app.scanning_lines(&vec![]).len(), 5);
    app.scan_progress = Some(ScanProgress {
        entries_scanned: 120,
        active_dirs: (0..7).map(|i| (format!("/r/{}", i), i, 10)).collect(),
        active_workers: 2,
    });
    assert!(!app.can_show_progress(&vec![0, 10]));
    let percents = vec![0, 10, 20, 30, 40, 50, 60];
    assert!(app.can_show_progress(&percents));
    assert_eq!(
        texts(&app.scanning_lines(&percents)),
        vec![
            "",
            "Scanning in progress...",
            "",
            "Entries scanned: 120",
            "Parallel workers: 2",
            "",
            "Active directories:",
            "  [0/10]   0% /r/0",
            "  [1/10]  10% /r/1",
            "  [2/10]  20% /r/2",
            "  [3/10]  30% /r/3",
            "  [4/10]  40% /r/4",
            "  ... and 2 more directories",
            "",
            "Press q or Esc to cancel scan",
        ]
    );
    let long = format!("/r/{}", "é".repeat(40));
    app.scan_progress = Some(ScanProgress {
        entries_scanned: 1,
        active_dirs: vec![(long, 0, 1)],
        active_workers: 0,
    });
    assert!(!app.can_show_progress(&vec![0]));
}

#[test]
fn printed_list_of_scans() {
    assert_eq!(
        list_header(),
        format!("{:<5} {:<40} {:<12} {:<12} {:<20}", "ID", "Path", "Files", "Size (MB)", "Date")
    );
    assert_eq!(list_rule(), "-".repeat(90));
    assert_eq!(
        list_row(&scan(3, "/r", "completed", 1_572_864)).unwrap(),
        format!("{:<5} {:<40} {:<12} {:<12} {:<20}", 3, "/r", 10, "1.50", "2023-11-14 22:13:20")
    );
    let mut odd = scan(1, "/r", "paused", 0);
    odd.started_at = NEVER;
    assert!(list_row(&odd).is_none());
}

#[test]
fn printed_differences() {
    let small = scan(1, "/r", "completed", 1_048_576);
    let mut large = scan(2, "/r", "completed", 2_621_440);
    large.total_files = 7;
    let diff = compare(&small, &large).unwrap();
    assert_eq!(diff.trend, Trend::Increased);
    let (files, size, verdict) = diff.lines();
    assert_eq!(files, "  Files: -3");
    assert_eq!(size, "  Size: +1.50 MB");
    assert_eq!(verdict, "  ⚠️  Disk usage increased!");
    let (files, size, verdict) = compare(&large, &small).unwrap().lines();
    assert_eq!(files, "  Files: +3");
    assert_eq!(size, "  Size: -1.50 MB");
    assert_eq!(verdict, "  ✓ Disk usage decreased!");
    let (files, size, verdict) = compare(&small, &small).unwrap().lines();
    assert_eq!(files, "  Files: +0");
    assert_eq!(size, "  Size: +0.00 MB");
    assert_eq!(verdict, "  No change in disk usage");
    let lowest = scan(3, "/r", "completed", i64::MIN);
    assert!(compare(&lowest, &small).is_none());
    assert_eq!(signed_text(0), "+0");
}

#[test]
fn printed_lines() {
    assert_eq!(date_line(NOW).unwrap(), "2023-11-14 22:13:20");
    assert!(date_line(NEVER).is_none());
    assert_eq!(
        date_line(Timestamp { secs: 59, nanos: 1_999_999_999 }).unwrap(),
        "1970-01-01 00:00:60"
    );
    assert!(date_line(Timestamp { secs: 58, nanos: 1_000_000_000 }).is_none());
    assert!(date_line(Timestamp { secs: 59, nanos: 2_000_000_000 }).is_none());
    assert!(date_line(Timestamp { secs: -1, nanos: 1_000_000_000 }).is_some());
    assert_eq!(size_line(1_572_864), "1.50 MB");
    assert_eq!(largest_row(&entry("/r/f", 1, false, 1024)), "  📄 /r/f (1.00 KB)");
    assert_eq!(progress_line(100, 0), "Progress: 100 entries scanned");
    assert_eq!(progress_line(100, 3), "Progress: 100 entries scanned | 3 parallel workers");
    assert_eq!(more_line(4), None);
    assert_eq!(more_line(6).unwrap(), "  ... and 2 more directories");
}
