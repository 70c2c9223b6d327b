//! Keys typed into the browser, and what it makes of what was done for it.
use rootkitty::db::{Scan, StoredFileEntry};
use rootkitty::scanner::{ProgressUpdate, ScanStats};
use rootkitty::settings::Settings;
use rootkitty::time::Timestamp;
use rootkitty::ui::events::{mark_change, Closing, DeleteOutcome, MarkChange, ScanOutcome};
use rootkitty::ui::nav::{
    move_selection, next_sibling, previous_sibling, settings_next, settings_previous, Move,
};
use rootkitty::ui::state::{Command, Key};
use rootkitty::ui::{App, SortMode, View};

const NOW: Timestamp = Timestamp { secs: 1_700_000_000, nanos: 0 };

fn scan(id: i64, path: &str, status: &str) -> Scan {
    Scan {
        id,
        root_path: path.to_string(),
        started_at: NOW,
        completed_at: if status == "completed" { Some(NOW) } else { None },
        total_size: 9000 - 1000 * id,
        total_files: 10,
        total_dirs: 5,
        status: status.to_string(),
        entries_table: None,
    }
}

fn entry(id: i64, path: &str, depth: i64, is_dir: bool, size: i64) -> StoredFileEntry {
    StoredFileEntry {
        id,
        scan_id: 1,
        path: path.to_string(),
        name: path.rsplit('/').next().unwrap().to_string(),
        parent_path: if depth > 0 {
            path.rsplit_once('/').map(|(parent, _)| parent.to_string())
        } else {
            None
        },
        size,
        is_dir,
        modified_at: None,
        depth,
    }
}

fn tree() -> Vec<StoredFileEntry> {
    vec![
        entry(1, "/r", 0, true, 100),
        entry(2, "/r/a", 1, true, 70),
        entry(3, "/r/a/b", 2, true, 50),
        entry(4, "/r/a/b/c.txt", 3, false, 50),
        entry(5, "/r/a/d.txt", 2, false, 20),
        entry(6, "/r/e.txt", 1, false, 30),
    ]
}

fn app() -> App {
    let mut app = App::new(
        Settings::default(),
        "/home/me/settings.toml".to_string(),
        "/home/me/scans.db".to_string(),
    );
    app.scans_loaded(vec![
        scan(1, "/r", "completed"),
        scan(2, "/s", "paused"),
        scan(3, "/t", "running"),
    ]);
    app
}

fn press(app: &mut App, key: Key) -> Command {
    assert!(app.accepts(key));
    app.handle_key(key)
}

fn type_in(app: &mut App, text: &str) {
    for c in text.chars() {
        press(app, Key::Char(c));
    }
}

fn open_tree() -> App {
    let mut app = app();
    assert!(matches!(press(&mut app, Key::Enter), Command::LoadEntries { scan_id: 1 }));
    app.entries_loaded(Ok(tree()));
    app
}

fn shown(app: &App) -> Vec<String> {
    app.get_visible_entries().iter().map(|e| e.path.clone()).collect()
}

#[test]
fn browser_starts_with_the_scans() {
    let app = app();
    assert_eq!(app.view, View::ScanList);
    assert_eq!(app.status_message, "Press 'n' to scan | '?' for help");
    assert_eq!(app.scan_selected, Some(0));
    assert_eq!(app.file_tree_sort, SortMode::ByPath);
    assert_eq!(app.scan_list_sort, SortMode::BySize);
    assert_eq!(app.orphaned_scans(), vec![3]);
}

#[test]
fn moves_in_a_list() {
    assert_eq!(move_selection(Some(2), 3, Move::Next), Some(0));
    assert_eq!(move_selection(Some(0), 3, Move::Previous), Some(2));
    assert_eq!(move_selection(None, 3, Move::Next), Some(0));
    assert_eq!(move_selection(None, 3, Move::Bottom), Some(2));
    assert_eq!(move_selection(Some(5), 30, Move::PageDown), Some(15));
    assert_eq!(move_selection(Some(25), 30, Move::PageDown), Some(29));
    assert_eq!(move_selection(Some(5), 30, Move::PageUp), Some(0));
    assert_eq!(move_selection(Some(25), 30, Move::PageUp), Some(15));
    assert_eq!(move_selection(Some(7), 0, Move::Top), Some(7));
    for i in 0..5 {
        let there = move_selection(Some(i), 5, Move::Next);
        assert_eq!(move_selection(there, 5, Move::Previous), Some(i));
    }
}

#[test]
fn keys_move_in_the_list_of_scans() {
    let mut app = app();
    press(&mut app, Key::Char('j'));
    assert_eq!(app.scan_selected, Some(1));
    press(&mut app, Key::Up);
    assert_eq!(app.scan_selected, Some(0));
    press(&mut app, Key::Char('G'));
    assert_eq!(app.scan_selected, Some(2));
    press(&mut app, Key::Char('g'));
    assert!(app.g_pressed);
    press(&mut app, Key::Char('g'));
    assert_eq!(app.scan_selected, Some(0));
    assert!(!app.g_pressed);
    press(&mut app, Key::Char('d'));
    assert_eq!(app.scan_selected, Some(2));
    press(&mut app, Key::Char('u'));
    assert_eq!(app.scan_selected, Some(0));
}

/// Scans that are shown in another order than they are stored.
fn mixed_scans() -> App {
    let mut app = app();
    let mut small = scan(7, "/b", "paused");
    small.total_size = 10;
    let mut large = scan(8, "/c", "completed");
    large.total_size = 1_000;
    let mut middle = scan(9, "/a", "paused");
    middle.total_size = 100;
    app.scans_loaded(vec![small, large, middle]);
    app
}

#[test]
fn keys_act_on_the_highlighted_scan() {
    let mut app = mixed_scans();
    // By size: 8, 9, 7.
    assert!(matches!(press(&mut app, Key::Enter), Command::LoadEntries { scan_id: 8 }));
    press(&mut app, Key::Char('j'));
    assert!(matches!(press(&mut app, Key::Char('o')), Command::LoadEntries { scan_id: 9 }));
    assert!(matches!(
        press(&mut app, Key::Char('r')),
        Command::LoadScannedPaths { scan_id: 9 }
    ));
    assert_eq!(app.resume_ready(0, None), Some((9, "/a".to_string())));

    // By path: 9, 7, 8.
    let mut app = mixed_scans();
    press(&mut app, Key::Char('t'));
    assert_eq!(app.scan_list_sort, SortMode::ByPath);
    for id in [9, 7, 8] {
        match press(&mut app, Key::Enter) {
            Command::LoadEntries { scan_id } => assert_eq!(scan_id, id),
            other => panic!("{:?}", other),
        }
        press(&mut app, Key::Char('j'));
    }
    press(&mut app, Key::Char('G'));
    press(&mut app, Key::Char('x'));
    assert!(matches!(press(&mut app, Key::Char('y')), Command::DeleteScan { scan_id: 8 }));
}

#[test]
fn home_directory_of_a_new_scan() {
    let mut app = app();
    press(&mut app, Key::Char('n'));
    assert_eq!(app.start_scan("~/work", Some("/home/me")), "/home/me/work");
}

#[test]
fn quitting() {
    let mut app = app();
    assert!(matches!(press(&mut app, Key::Char('q')), Command::Quit));
    let mut app = open_tree();
    assert!(matches!(press(&mut app, Key::Char('q')), Command::Quit));
}

#[test]
fn help_leads_back() {
    let mut app = open_tree();
    press(&mut app, Key::Char('?'));
    assert_eq!(app.view, View::Help);
    assert!(matches!(press(&mut app, Key::Char('q')), Command::Wait));
    assert_eq!(app.view, View::FileTree);
}

#[test]
fn entries_are_folded_at_first() {
    let app = open_tree();
    assert_eq!(app.view, View::FileTree);
    assert_eq!(app.status_message, "Loaded 6 entries");
    assert_eq!(app.file_selected, Some(0));
    assert_eq!(shown(&app), vec!["/r", "/r/a", "/r/e.txt"]);
}

#[test]
fn entries_that_cannot_be_read() {
    let mut app = app();
    press(&mut app, Key::Char('o'));
    app.entries_loaded(Err("gone".to_string()));
    assert_eq!(app.status_message, "Error: gone");
    assert_eq!(app.view, View::ScanList);
}

#[test]
fn folding_and_unfolding() {
    let mut app = open_tree();
    press(&mut app, Key::Char('j'));
    assert_eq!(app.selected_file().unwrap().path, "/r/a");
    press(&mut app, Key::Char('z'));
    assert_eq!(app.status_message, "Unfolded 'a'");
    assert_eq!(shown(&app), vec!["/r", "/r/a", "/r/a/b", "/r/a/d.txt", "/r/e.txt"]);
    press(&mut app, Key::Char('o'));
    assert_eq!(app.status_message, "Folded 'a'");
    assert_eq!(shown(&app), vec!["/r", "/r/a", "/r/e.txt"]);
    press(&mut app, Key::Char('Z'));
    assert_eq!(app.status_message, "Unfolded 'a' and all subdirectories");
    assert_eq!(shown(&app).len(), 6);
    press(&mut app, Key::Char('G'));
    press(&mut app, Key::Char('z'));
    assert_eq!(app.status_message, "Not a directory");
}

#[test]
fn unfolding_all_never_folds() {
    let mut app = open_tree();
    // The root is unfolded already.
    assert!(!app.folded_dirs.contains("/r"));
    for key in ['Z', 'O'] {
        press(&mut app, Key::Char(key));
        assert_eq!(app.status_message, "Unfolded 'r' and all subdirectories");
        assert_eq!(shown(&app).len(), 6);
        assert_eq!(app.folded_dirs.len(), 0);
    }
    press(&mut app, Key::Char('z'));
    assert_eq!(app.status_message, "Folded 'r'");
    assert_eq!(shown(&app), vec!["/r"]);
    press(&mut app, Key::Char('O'));
    assert_eq!(shown(&app).len(), 6);
}

#[test]
fn folding_the_root_directory() {
    let mut app = app();
    press(&mut app, Key::Enter);
    app.entries_loaded(Ok(vec![
        entry(1, "/", 0, true, 30),
        entry(2, "/home", 1, true, 20),
        entry(3, "/home/me", 2, true, 20),
        entry(4, "/tmp", 1, false, 10),
    ]));
    assert_eq!(shown(&app), vec!["/", "/home", "/tmp"]);
    press(&mut app, Key::Char('z'));
    assert_eq!(shown(&app), vec!["/"]);
    press(&mut app, Key::Char('z'));
    assert_eq!(shown(&app), vec!["/", "/home", "/tmp"]);
    assert!(app.folded_dirs.contains("/home"));
    press(&mut app, Key::Char('Z'));
    assert_eq!(shown(&app).len(), 4);
    // Nothing below the root directory has a slash of its own before its name, so what is right
    // inside stays as it was.
    press(&mut app, Key::Char('z'));
    press(&mut app, Key::Char('z'));
    assert!(!app.folded_dirs.contains("/home"));
    assert_eq!(shown(&app).len(), 4);
}

#[test]
fn what_is_taken_for_right_inside_is_folded() {
    let mut app = app();
    press(&mut app, Key::Enter);
    app.entries_loaded(Ok(vec![
        entry(1, "/r", 0, true, 100),
        entry(2, "/r/a", 1, true, 40),
        entry(3, "/r/a/b", 2, true, 40),
        entry(4, "/r/ab", 1, true, 60),
        entry(5, "/r/ab/c", 2, true, 60),
        entry(6, "/r/b", 1, true, 10),
        entry(7, "/r/b/d", 2, true, 10),
    ]));
    press(&mut app, Key::Char('Z'));
    press(&mut app, Key::Char('j'));
    assert_eq!(app.selected_file().unwrap().path, "/r/a");
    press(&mut app, Key::Char('z'));
    press(&mut app, Key::Char('z'));
    assert!(app.folded_dirs.contains("/r/a/b"));
    // One level deeper and with one slash behind "/r/a".
    assert!(app.folded_dirs.contains("/r/ab/c"));
    assert!(!app.folded_dirs.contains("/r/b/d"));
    assert_eq!(app.folded_dirs.len(), 2);
}

#[test]
fn unfolding_folds_what_is_right_inside() {
    let mut app = open_tree();
    press(&mut app, Key::Char('j'));
    press(&mut app, Key::Char('Z'));
    press(&mut app, Key::Char('z'));
    press(&mut app, Key::Char('z'));
    assert!(app.folded_dirs.contains("/r/a/b"));
    assert!(!app.folded_dirs.contains("/r/a"));
}

#[test]
fn siblings() {
    let mut app = open_tree();
    press(&mut app, Key::Char('j'));
    press(&mut app, Key::Char('Z'));
    press(&mut app, Key::Char('J'));
    assert_eq!(app.selected_file().unwrap().path, "/r/e.txt");
    assert_eq!(app.status_message, "Next sibling: e.txt");
    press(&mut app, Key::Char('J'));
    assert_eq!(app.status_message, "No next sibling at this level");
    press(&mut app, Key::Char('K'));
    assert_eq!(app.selected_file().unwrap().path, "/r/a");
    assert_eq!(app.status_message, "Previous sibling: a");
    press(&mut app, Key::Char('K'));
    assert_eq!(app.status_message, "No previous sibling at this level");
    let entries = tree();
    let all: Vec<&StoredFileEntry> = entries.iter().collect();
    assert_eq!(next_sibling(&all, 1), Some(5));
    assert_eq!(previous_sibling(&all, 5), Some(1));
    assert_eq!(next_sibling(&all, 2), Some(4));
    assert_eq!(next_sibling(&all, 4), None);
    assert_eq!(next_sibling(&all, 3), None);
}

#[test]
fn sorting_the_other_way() {
    let mut app = open_tree();
    press(&mut app, Key::Char('t'));
    assert_eq!(app.file_tree_sort, SortMode::BySize);
    assert_eq!(app.status_message, "File tree sort: By Size (Descending)");
    press(&mut app, Key::Char('1'));
    press(&mut app, Key::Char('t'));
    assert_eq!(app.scan_list_sort, SortMode::ByPath);
    assert_eq!(app.status_message, "Scan list sort: Alphabetical (by path)");
}

#[test]
fn marking() {
    let mut app = open_tree();
    press(&mut app, Key::Char('j'));
    match press(&mut app, Key::Char(' ')) {
        Command::LookUpMark { scan_id, entry_id, name } => {
            assert_eq!((scan_id, entry_id), (1, 2));
            assert_eq!(name, "a");
        }
        other => panic!("{:?}", other),
    }
    assert_eq!(mark_change(&vec![], 2), MarkChange::Mark);
    assert_eq!(mark_change(&tree(), 2), MarkChange::Unmark);
    app.mark_changed(Ok(true), "a");
    assert_eq!(app.status_message, "Marked 'a' for cleanup");
    app.mark_changed(Ok(false), "a");
    assert_eq!(app.status_message, "Removed 'a' from cleanup");
    app.mark_changed(Err("locked".to_string()), "a");
    assert_eq!(app.status_message, "Error: locked");
}

/// The marked entries after a press of the space bar on the entry with this number.
fn pressed(entries: &[StoredFileEntry], items: &[StoredFileEntry], id: i64) -> Vec<StoredFileEntry> {
    let mut after = items.to_vec();
    match mark_change(&after, id) {
        MarkChange::Mark => after.push(entries.iter().find(|e| e.id == id).unwrap().clone()),
        MarkChange::Unmark => after.retain(|e| e.id != id),
    }
    after
}

#[test]
fn marking_twice_changes_nothing() {
    let entries = tree();
    for marked in [vec![], vec![2, 6], vec![1, 2, 3]] {
        let items: Vec<StoredFileEntry> =
            entries.iter().filter(|e| marked.contains(&e.id)).cloned().collect();
        for id in 1..=6 {
            let once = pressed(&entries, &items, id);
            assert_ne!(once.iter().any(|e| e.id == id), items.iter().any(|e| e.id == id));
            let mut twice: Vec<i64> = pressed(&entries, &once, id).iter().map(|e| e.id).collect();
            twice.sort();
            assert_eq!(twice, marked);
        }
    }
}

fn open_cleanup() -> App {
    let mut app = open_tree();
    assert!(matches!(press(&mut app, Key::Char('3')), Command::LoadCleanup { scan_id: 1 }));
    app.cleanup_loaded(Ok(vec![tree().remove(3), tree().remove(5)]));
    app
}

#[test]
fn list_of_what_is_marked() {
    let mut app = open_cleanup();
    assert_eq!(app.view, View::CleanupList);
    assert_eq!(app.status_message, "Loaded 2 cleanup items");
    assert_eq!(app.cleanup_selected, Some(0));
    press(&mut app, Key::Char('j'));
    match press(&mut app, Key::Char(' ')) {
        Command::RemoveCleanup { scan_id, entry_id, name, selected } => {
            assert_eq!((scan_id, entry_id, selected), (1, 6, 1));
            assert_eq!(name, "e.txt");
        }
        other => panic!("{:?}", other),
    }
    app.cleanup_removed(Ok(vec![tree().remove(3)]), "e.txt", 1);
    assert_eq!(app.cleanup_selected, Some(0));
    assert_eq!(app.status_message, "Removed 'e.txt' from cleanup");
    app.cleanup_removed(Err("busy".to_string()), "c.txt", 0);
    assert_eq!(app.status_message, "Error: busy");
    press(&mut app, Key::Esc);
    assert_eq!(app.view, View::ScanList);
}

#[test]
fn script_is_written() {
    for key in ['s', 'g'] {
        let mut app = open_cleanup();
        match press(&mut app, Key::Char(key)) {
            Command::WriteScript { script } => {
                assert!(script.ends_with("rm '/r/a/b/c.txt'\nrm '/r/e.txt'\n"));
            }
            other => panic!("{:?}", other),
        }
        app.script_written(Ok(()));
        assert_eq!(app.status_message, "Generated cleanup.sh - Review before running!");
        app.script_written(Err("full".to_string()));
        assert_eq!(app.status_message, "Error writing script: full");
    }
}

#[test]
fn a_second_g_goes_to_the_top() {
    let mut app = open_cleanup();
    press(&mut app, Key::Char('G'));
    assert_eq!(app.cleanup_selected, Some(1));
    assert!(matches!(press(&mut app, Key::Char('g')), Command::WriteScript { .. }));
    assert!(matches!(press(&mut app, Key::Char('g')), Command::Wait));
    assert_eq!(app.cleanup_selected, Some(0));
    press(&mut app, Key::Char('g'));
    assert!(matches!(press(&mut app, Key::Char('G')), Command::WriteScript { .. }));
}

#[test]
fn new_scan() {
    let mut app = app();
    press(&mut app, Key::Char('n'));
    assert_eq!(app.view, View::ScanDialog);
    assert!(matches!(press(&mut app, Key::Enter), Command::Wait));
    type_in(&mut app, "/tmpx");
    press(&mut app, Key::Backspace);
    match press(&mut app, Key::Enter) {
        Command::StartScan { input } => assert_eq!(input, "/tmp"),
        other => panic!("{:?}", other),
    }
    assert_eq!(app.start_scan("/tmp", None), "/tmp");
    assert_eq!(app.view, View::Scanning);
    app.scan_started(Ok(()));
    assert!(app.scanning);
    app.scan_progressed(ProgressUpdate {
        files_scanned: 100,
        dirs_scanned: 0,
        total_size: 0,
        current_path: "/tmp/x".to_string(),
        active_dirs: vec![("/tmp".to_string(), 3, 9)],
        active_workers: 2,
    });
    assert_eq!(app.scan_progress.as_ref().unwrap().entries_scanned, 100);
    let stats = ScanStats { total_size: 5, total_files: 2, total_dirs: 1 };
    let closing = app.scan_finished(ScanOutcome::Finished { stats, stored: true });
    assert_eq!(closing, Closing::Complete(stats));
    assert_eq!(app.status_message, "Scan complete! 2 files, 1 dirs, 5 bytes");
    assert_eq!(app.view, View::ScanList);
    assert!(!app.scanning);
}

#[test]
fn new_scan_given_up() {
    let mut app = app();
    press(&mut app, Key::Char('n'));
    type_in(&mut app, "/x");
    press(&mut app, Key::Esc);
    assert_eq!(app.view, View::ScanList);
    assert_eq!(app.scan_input, "");
}

#[test]
fn new_scan_that_cannot_start() {
    let mut app = app();
    press(&mut app, Key::Char('n'));
    app.start_scan("/x", None);
    app.scan_started(Err("no such place".to_string()));
    assert_eq!(app.status_message, "Scan error: no such place");
    assert_eq!(app.view, View::ScanList);
    assert!(!app.scanning);
}

#[test]
fn stopped_scan_is_paused() {
    let mut app = app();
    app.start_scan("/x", None);
    app.scan_started(Ok(()));
    assert!(matches!(press(&mut app, Key::Char('x')), Command::Wait));
    assert!(matches!(press(&mut app, Key::Esc), Command::CancelScan));
    assert!(app.cancelled);
    assert_eq!(app.status_message, "Cancelling scan...");
    let stats = ScanStats { total_size: 5, total_files: 2, total_dirs: 1 };
    let closing = app.scan_finished(ScanOutcome::Finished { stats, stored: true });
    assert_eq!(closing, Closing::Pause(stats));
    assert_eq!(
        app.status_message,
        "Scan paused. Progress saved: 2 files, 1 dirs. Press 'r' to resume."
    );
}

#[test]
fn failed_scans() {
    let mut app = app();
    app.start_scan("/x", None);
    app.scan_started(Ok(()));
    let closing = app.scan_finished(ScanOutcome::Failed { error: "io".to_string() });
    assert_eq!(closing, Closing::Nothing);
    assert_eq!(app.status_message, "Scan error: io");
    let closing = app.scan_finished(ScanOutcome::Lost { error: "gone".to_string() });
    assert_eq!(closing, Closing::Nothing);
    assert_eq!(app.status_message, "Scan join error: gone");
    let stats = ScanStats { total_size: 5, total_files: 2, total_dirs: 1 };
    let closing = app.scan_finished(ScanOutcome::Finished { stats, stored: false });
    assert_eq!(closing, Closing::Nothing);
}

#[test]
fn only_paused_scans_are_resumed() {
    let mut app = app();
    assert!(matches!(press(&mut app, Key::Char('r')), Command::Wait));
    assert_eq!(app.status_message, "Selected scan is not paused");
    press(&mut app, Key::Char('j'));
    assert!(matches!(
        press(&mut app, Key::Char('r')),
        Command::LoadScannedPaths { scan_id: 2 }
    ));
    assert_eq!(app.view, View::PreparingResume);
    assert!(matches!(press(&mut app, Key::Char('q')), Command::Wait));
    assert_eq!(app.resume_ready(12, None), Some((2, "/s".to_string())));
    assert_eq!(app.status_message, "Resuming scan, skipping 12 already-scanned paths...");
    assert_eq!(app.view, View::Scanning);
    assert!(app.scanning);
    assert_eq!(app.resume_ready(12, None), None);
}

#[test]
fn resuming_that_fails() {
    let mut app = app();
    press(&mut app, Key::Char('j'));
    press(&mut app, Key::Char('r'));
    app.resume_failed("bad", false);
    assert_eq!(app.status_message, "Error loading scan paths: bad");
    assert_eq!(app.view, View::ScanList);
    app.resume_failed("bad", true);
    assert_eq!(app.status_message, "Resume preparation task error: bad");
}

#[test]
fn deleting_a_scan() {
    let mut app = app();
    press(&mut app, Key::Char('x'));
    assert_eq!(app.view, View::ConfirmDelete);
    assert!(matches!(press(&mut app, Key::Char('z')), Command::Wait));
    press(&mut app, Key::Char('n'));
    assert_eq!(app.view, View::ScanList);
    assert_eq!(app.delete_scan_id, None);
    press(&mut app, Key::Char('x'));
    assert!(matches!(press(&mut app, Key::Char('Y')), Command::DeleteScan { scan_id: 1 }));
    assert_eq!(app.view, View::Deleting);
    for i in 1..10usize {
        app.tick();
        assert_eq!(app.throbber, i % 8);
    }
    assert!(matches!(press(&mut app, Key::Char('q')), Command::Wait));
    app.delete_finished(DeleteOutcome::Deleted { scan_id: 1 });
    assert_eq!(app.status_message, "Deleted scan 1");
    assert_eq!(app.view, View::ScanList);
    app.tick();
    assert_eq!(app.throbber, 1);
    app.delete_finished(DeleteOutcome::Failed { error: "e".to_string() });
    assert_eq!(app.status_message, "Delete error: e");
    app.delete_finished(DeleteOutcome::Lost { error: "e".to_string() });
    assert_eq!(app.status_message, "Delete task error: e");
}

#[test]
fn moves_in_the_settings() {
    let mut at = None;
    let mut way = Vec::new();
    for _ in 0..8 {
        let next = settings_next(at);
        way.push(next);
        at = Some(next);
    }
    assert_eq!(way, vec![0, 1, 3, 4, 5, 7, 8, 0]);
    assert_eq!(settings_previous(Some(0)), 8);
    assert_eq!(settings_previous(Some(3)), 1);
    assert_eq!(settings_previous(Some(7)), 5);
}

fn open_settings() -> App {
    let mut app = app();
    press(&mut app, Key::Char('S'));
    assert_eq!(app.view, View::Settings);
    assert_eq!(app.setting_selected, Some(0));
    app
}

#[test]
fn settings_are_toggled_and_saved() {
    let mut app = open_settings();
    press(&mut app, Key::Char('j'));
    press(&mut app, Key::Char('j'));
    assert!(matches!(press(&mut app, Key::Char('t')), Command::SaveSettings));
    assert_eq!(app.current_settings().ui.file_tree_sort, SortMode::BySize);
    press(&mut app, Key::Down);
    assert!(matches!(press(&mut app, Key::Char('t')), Command::SaveSettings));
    assert_eq!(app.current_settings().ui.scan_list_sort, SortMode::ByPath);
    assert_eq!(app.current_settings().ui.auto_fold_depth, 1);
    app.settings_saved(Err("full".to_string()));
    assert_eq!(app.status_message, "Error saving settings: full");
    app.settings_saved(Ok(()));
    assert_eq!(app.status_message, "Error saving settings: full");
    press(&mut app, Key::Char('q'));
    assert_eq!(app.view, View::ScanList);
}

#[test]
fn path_edited() {
    let mut app = open_settings();
    press(&mut app, Key::Char('e'));
    assert_eq!(app.status_message, "Editing config path...");
    assert_eq!(app.cursor, "/home/me/settings.toml".len());
    press(&mut app, Key::Home);
    type_in(&mut app, "/x");
    assert_eq!(app.path_input, "/x/home/me/settings.toml");
    press(&mut app, Key::Backspace);
    press(&mut app, Key::Delete);
    assert_eq!(app.path_input, "/home/me/settings.toml");
    press(&mut app, Key::Right);
    press(&mut app, Key::Left);
    assert_eq!(app.cursor, 1);
    press(&mut app, Key::End);
    assert_eq!(app.cursor, app.path_input.len());
    press(&mut app, Key::Right);
    assert_eq!(app.cursor, app.path_input.len());
    press(&mut app, Key::Esc);
    assert_eq!(app.status_message, "Path edit cancelled");
    assert_eq!(app.editing, None);
    assert_eq!(app.settings_path, "/home/me/settings.toml");
}

#[test]
fn keys_inside_a_character_are_not_accepted() {
    let mut app = open_settings();
    press(&mut app, Key::Char('e'));
    type_in(&mut app, "é");
    assert!(!app.accepts(Key::Char('x')));
    assert!(!app.accepts(Key::Delete));
    assert!(app.accepts(Key::Backspace));
    press(&mut app, Key::Backspace);
    assert!(app.accepts(Key::Char('x')));
    assert_eq!(app.path_input, "/home/me/settings.toml");
}

#[test]
fn path_unchanged() {
    let mut app = open_settings();
    press(&mut app, Key::Char('e'));
    type_in(&mut app, "/");
    assert!(matches!(press(&mut app, Key::Enter), Command::CheckPath));
    let typed = app.typed_path(None);
    assert_eq!(typed, "/home/me/settings.toml/");
    app.path_typed(typed, true);
    assert_eq!(app.status_message, "Path unchanged");
    assert_eq!(app.view, View::Settings);
    assert_eq!(app.editing, None);
}

fn change_config_path() -> App {
    let mut app = open_settings();
    press(&mut app, Key::Char('e'));
    type_in(&mut app, "2");
    press(&mut app, Key::Enter);
    let typed = app.typed_path(None);
    app.path_typed(typed, false);
    assert_eq!(app.view, View::ConfirmPathChange);
    app
}

#[test]
fn config_path_changed() {
    let mut app = change_config_path();
    match press(&mut app, Key::Char('y')) {
        Command::SaveConfigTo { path } => assert_eq!(path, "/home/me/settings.toml2"),
        other => panic!("{:?}", other),
    }
    assert_eq!(app.view, View::Settings);
    let mut settings = Settings::default();
    settings.ui.file_tree_sort = SortMode::BySize;
    app.config_moved("/new".to_string(), Ok(Ok(settings)));
    assert_eq!(app.settings_path, "/new");
    assert_eq!(app.file_tree_sort, SortMode::BySize);
    assert_eq!(app.status_message, "Config path updated and loaded: /new");
    app.config_moved("/newer".to_string(), Ok(Err("odd".to_string())));
    assert_eq!(app.settings_path, "/newer");
    assert_eq!(app.status_message, "Path updated but error loading: odd");
    app.config_moved("/newest".to_string(), Err("no".to_string()));
    assert_eq!(app.settings_path, "/newer");
    assert_eq!(app.status_message, "Error saving to new path: no");
}

#[test]
fn config_path_kept() {
    let mut app = change_config_path();
    assert!(matches!(press(&mut app, Key::Esc), Command::Wait));
    assert_eq!(app.status_message, "Path change cancelled");
    assert_eq!(app.settings_path, "/home/me/settings.toml");
    assert_eq!(app.view, View::Settings);
}

#[test]
fn database_path_changed() {
    let mut app = open_settings();
    press(&mut app, Key::Char('j'));
    press(&mut app, Key::Char('e'));
    assert_eq!(app.status_message, "Editing database path (restart required)...");
    type_in(&mut app, "2");
    press(&mut app, Key::Enter);
    let typed = app.typed_path(None);
    app.path_typed(typed, true);
    assert!(matches!(press(&mut app, Key::Char('y')), Command::Wait));
    assert_eq!(app.db_path, "/home/me/scans.db2");
    assert_eq!(
        app.status_message,
        "Database path updated: /home/me/scans.db2 (restart required to take effect)"
    );
}

#[test]
fn default_path_restored() {
    let mut app = open_settings();
    assert!(matches!(press(&mut app, Key::Char('r')), Command::RestoreDefaultPath));
    app.default_restored("/d".to_string(), Ok(()));
    assert_eq!(app.settings_path, "/d");
    assert_eq!(app.status_message, "Config path restored to default: /d");
    app.default_restored("/e".to_string(), Err("no".to_string()));
    assert_eq!(app.settings_path, "/d");
    assert_eq!(app.status_message, "Error restoring to default: no");
    press(&mut app, Key::Char('j'));
    assert!(matches!(press(&mut app, Key::Char('r')), Command::Wait));
    assert_eq!(app.status_message, "Database path cannot be restored (set via --db flag)");
}
