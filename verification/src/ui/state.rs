//! What the browser is and does, as far as it can be said without a terminal and a database: its
//! state, and what a key changes in it.
use vstd::prelude::*;

use crate::bytes::{byte_len, byte_place, inserted_at, removed_at, starts_char};
use crate::cleanup::script_for;
use crate::db::{Scan, StoredFileEntry};
use crate::paths::at_or_below;
use crate::text::occurrences;
use crate::ui::nav::{
    moved, next_setting, previous_setting, sibling_before, sibling_from, Move,
};
use crate::ui::scan_list::is_scan_order;
use crate::ui::tree::{is_sorted_listing, visible};
use crate::ui::types;
use crate::ui::types::SortMode;

verus! {

/// So many entries of a scan are shown.
pub const ENTRY_LIMIT: i64 = 1000;

/// A key.
#[derive(Debug, Clone, Copy, PartialEq, Eq, Structural)]
pub enum Key {
    Char(char),
    Enter,
    Esc,
    Backspace,
    Delete,
    Left,
    Right,
    Home,
    End,
    Up,
    Down,
    Other,
}

/// What is left to be done after a key.
#[derive(Debug)]
pub enum Command {
    /// Nothing.
    Wait,
    /// Leave the browser.
    Quit,
    /// Read which paths of the scan are stored.
    LoadScannedPaths { scan_id: i64 },
    /// Read the largest entries of the scan.
    LoadEntries { scan_id: i64 },
    /// Read what is marked in the scan.
    LoadCleanup { scan_id: i64 },
    /// Find out whether the entry is marked.
    LookUpMark { scan_id: i64, entry_id: i64, name: String },
    /// Take the mark from the entry and read what is marked.
    RemoveCleanup { scan_id: i64, entry_id: i64, name: String, selected: usize },
    /// Write the cleanup script.
    WriteScript { script: String },
    /// Start a scan of what was typed.
    StartScan { input: String },
    /// Tell the scan under way to stop.
    CancelScan,
    /// Delete the scan.
    DeleteScan { scan_id: i64 },
    /// Save the settings to this file and read them from there.
    SaveConfigTo { path: String },
    /// Find out about the path that was typed.
    CheckPath,
    /// Save the settings.
    SaveSettings,
    /// Save the settings to the file where they are kept by default.
    RestoreDefaultPath,
}

/// What is left to be done, with texts as sequences.
pub ghost enum Cmd {
    Wait,
    Quit,
    LoadScannedPaths { scan_id: i64 },
    LoadEntries { scan_id: i64 },
    LoadCleanup { scan_id: i64 },
    LookUpMark { scan_id: i64, entry_id: i64, name: Seq<char> },
    RemoveCleanup { scan_id: i64, entry_id: i64, name: Seq<char>, selected: usize },
    WriteScript { script: Seq<char> },
    StartScan { input: Seq<char> },
    CancelScan,
    DeleteScan { scan_id: i64 },
    SaveConfigTo { path: Seq<char> },
    CheckPath,
    SaveSettings,
    RestoreDefaultPath,
}

impl View for Command {
    type V = Cmd;

    open spec fn view(&self) -> Cmd {
        match self {
            Command::Wait => Cmd::Wait,
            Command::Quit => Cmd::Quit,
            Command::LoadScannedPaths { scan_id } => Cmd::LoadScannedPaths { scan_id: *scan_id },
            Command::LoadEntries { scan_id } => Cmd::LoadEntries { scan_id: *scan_id },
            Command::LoadCleanup { scan_id } => Cmd::LoadCleanup { scan_id: *scan_id },
            Command::LookUpMark { scan_id, entry_id, name } => Cmd::LookUpMark {
                scan_id: *scan_id,
                entry_id: *entry_id,
                name: name@,
            },
            Command::RemoveCleanup { scan_id, entry_id, name, selected } => Cmd::RemoveCleanup {
                scan_id: *scan_id,
                entry_id: *entry_id,
                name: name@,
                selected: *selected,
            },
            Command::WriteScript { script } => Cmd::WriteScript { script: script@ },
            Command::StartScan { input } => Cmd::StartScan { input: input@ },
            Command::CancelScan => Cmd::CancelScan,
            Command::DeleteScan { scan_id } => Cmd::DeleteScan { scan_id: *scan_id },
            Command::SaveConfigTo { path } => Cmd::SaveConfigTo { path: path@ },
            Command::CheckPath => Cmd::CheckPath,
            Command::SaveSettings => Cmd::SaveSettings,
            Command::RestoreDefaultPath => Cmd::RestoreDefaultPath,
        }
    }
}

/// How far a scan has come.
pub ghost struct Progress {
    pub entries_scanned: u64,
    pub active_dirs: Seq<(String, usize, usize)>,
    pub active_workers: usize,
}

/// The state of the browser.
pub ghost struct AppState {
    pub view: types::View,
    pub previous_view: types::View,
    pub scans: Seq<Scan>,
    pub scan_selected: Option<usize>,
    pub current_scan: Option<Scan>,
    pub files: Seq<StoredFileEntry>,
    pub file_selected: Option<usize>,
    pub cleanup: Seq<StoredFileEntry>,
    pub cleanup_selected: Option<usize>,
    pub status: Seq<char>,
    pub scan_input: Seq<char>,
    pub progress: Option<Progress>,
    /// Whether a scan is under way.
    pub scanning: bool,
    /// Whether that scan was told to stop.
    pub cancelled: bool,
    /// Whether a first `g` was typed.
    pub g_pressed: bool,
    pub folded: Set<Seq<char>>,
    pub delete_scan_id: Option<i64>,
    /// Whether a scan is being deleted.
    pub deleting: bool,
    pub throbber: usize,
    /// The scan that is being prepared to go on, with its path.
    pub resuming: Option<(i64, Seq<char>)>,
    pub setting_selected: Option<usize>,
    pub file_tree_sort: SortMode,
    pub scan_list_sort: SortMode,
    pub settings_path: Seq<char>,
    pub db_path: Seq<char>,
    pub path_input: Seq<char>,
    /// Where the cursor stands in the path that is typed, in bytes.
    pub cursor: usize,
    /// Which path is being edited: the settings' or the database's.
    pub editing: Option<usize>,
    /// Which path is to be changed, to what, and from what.
    pub pending: Option<(usize, Seq<char>, Seq<char>)>,
    pub pending_exists: bool,
}

/// Whether the entry is taken for a directory right inside the one at `path`: it is one level
/// deeper, and its path starts with that path and goes on with a single slash in the rest.
pub open spec fn directly_inside(e: StoredFileEntry, path: Seq<char>, depth: i64) -> bool {
    &&& e.is_dir
    &&& e.depth == depth + 1
    &&& path.is_prefix_of(e.path@)
    &&& occurrences(e.path@.skip(path.len() as int), '/') == 1
}

/// What is folded after the directory at `path` was unfolded by one level: what is taken for
/// directories right inside it is folded.
pub open spec fn folded_inside(
    files: Seq<StoredFileEntry>,
    folded: Set<Seq<char>>,
    path: Seq<char>,
    depth: i64,
) -> Set<Seq<char>> {
    folded.remove(path).union(
        Set::new(
            |s: Seq<char>|
                exists|i: int|
                    0 <= i < files.len() && (#[trigger] files[i]).path@ == s && directly_inside(
                        files[i],
                        path,
                        depth,
                    ),
        ),
    )
}

/// The directories below the first level.
pub open spec fn deep_directories(files: Seq<StoredFileEntry>) -> Set<Seq<char>> {
    Set::new(
        |s: Seq<char>|
            exists|i: int|
                0 <= i < files.len() && (#[trigger] files[i]).path@ == s && files[i].is_dir
                    && files[i].depth > 0,
    )
}

impl AppState {
    /// The files as they are listed.
    #[verifier::opaque]
    pub open spec fn listing(self) -> Seq<StoredFileEntry> {
        choose|l: Seq<StoredFileEntry>|
            is_sorted_listing(visible(self.files, self.folded, None), self.file_tree_sort, l)
    }

    /// The file that is selected.
    #[verifier::opaque]
    pub open spec fn file(self) -> Option<StoredFileEntry> {
        match self.file_selected {
            Some(i) => if i < self.listing().len() {
                Some(self.listing()[i as int])
            } else {
                None
            },
            None => None,
        }
    }

    /// The order in which the scans are shown.
    pub open spec fn scan_order(self) -> Seq<usize> {
        choose|order: Seq<usize>| is_scan_order(self.scans, self.scan_list_sort, order)
    }

    /// The scan that is selected: selections count the lines that are shown.
    #[verifier::opaque]
    pub open spec fn scan(self) -> Option<Scan> {
        match self.scan_selected {
            Some(i) => if i < self.scans.len() {
                Some(self.scans[self.scan_order()[i as int] as int])
            } else {
                None
            },
            None => None,
        }
    }

    /// The state with another message.
    pub open spec fn saying(self, status: Seq<char>) -> AppState {
        AppState { status, ..self }
    }

    /// The state with no `g` typed.
    pub open spec fn calm(self) -> AppState {
        AppState { g_pressed: false, ..self }
    }

    /// The state with another view, and no `g` typed.
    pub open spec fn showing(self, view: types::View) -> AppState {
        AppState { view, g_pressed: false, ..self }
    }

    /// The state with another view, from which one gets back here, and no `g` typed.
    pub open spec fn opening(self, view: types::View) -> AppState {
        AppState { view, previous_view: self.view, g_pressed: false, ..self }
    }

    /// Moving the selection in the list of scans.
    #[verifier::opaque]
    pub open spec fn scan_moved(self, m: Move) -> AppState {
        AppState {
            scan_selected: moved(self.scan_selected, self.scans.len(), m),
            g_pressed: false,
            ..self
        }
    }

    /// Moving the selection in the file tree.
    #[verifier::opaque]
    pub open spec fn file_moved(self, m: Move) -> AppState {
        AppState {
            file_selected: moved(self.file_selected, self.listing().len(), m),
            g_pressed: false,
            ..self
        }
    }

    /// Moving the selection in the list of what is marked.
    #[verifier::opaque]
    pub open spec fn cleanup_moved(self, m: Move) -> AppState {
        AppState {
            cleanup_selected: moved(self.cleanup_selected, self.cleanup.len(), m),
            g_pressed: false,
            ..self
        }
    }

    /// Going to the next or the previous sibling of the selected file.
    #[verifier::opaque]
    pub open spec fn to_sibling(self, forward: bool) -> AppState {
        let l = self.listing();
        if l.len() == 0 {
            self.calm()
        } else {
            match self.file_selected {
                None => AppState { file_selected: Some(0), g_pressed: false, ..self },
                Some(i) => if i >= l.len() {
                    self.calm()
                } else {
                    let depth = l[i as int].depth;
                    let found = if forward {
                        sibling_from(l, depth, (i + 1) as nat)
                    } else {
                        sibling_before(l, depth, i as nat)
                    };
                    match found {
                        Some(k) => AppState {
                            file_selected: Some(k as usize),
                            g_pressed: false,
                            ..self
                        }.saying(
                            (if forward {
                                "Next sibling: "@
                            } else {
                                "Previous sibling: "@
                            }) + l[k as int].name@,
                        ),
                        None => self.calm().saying(
                            if forward {
                                "No next sibling at this level"@
                            } else {
                                "No previous sibling at this level"@
                            },
                        ),
                    }
                },
            }
        }
    }

    /// Folding or unfolding the selected directory; with `recursive`, unfolding it and all below.
    #[verifier::opaque]
    pub open spec fn fold_toggled(self, recursive: bool) -> AppState {
        match self.file() {
            None => self.calm(),
            Some(e) => if !e.is_dir {
                self.calm().saying("Not a directory"@)
            } else if recursive {
                AppState {
                    folded: self.folded.filter(|s: Seq<char>| !at_or_below(s, e.path@)),
                    ..self
                }.calm().saying("Unfolded '"@ + e.name@ + "' and all subdirectories"@)
            } else if self.folded.contains(e.path@) {
                AppState {
                    folded: folded_inside(self.files, self.folded, e.path@, e.depth),
                    ..self
                }.calm().saying("Unfolded '"@ + e.name@ + "'"@)
            } else {
                AppState { folded: self.folded.insert(e.path@), ..self }.calm().saying(
                    "Folded '"@ + e.name@ + "'"@,
                )
            },
        }
    }

    /// The script that removes what is marked.
    pub open spec fn script(self) -> Cmd {
        Cmd::WriteScript { script: script_for(self.cleanup, self.cleanup.len()) }
    }
}

/// The state with the list of scans sorted the other way.
#[verifier::opaque]
pub open spec fn scan_sort_toggled(s: AppState) -> AppState {
    let mode = s.scan_list_sort.toggled();
    AppState { scan_list_sort: mode, ..s.calm() }.saying("Scan list sort: "@ + mode.title())
}

/// The state with the file tree sorted the other way.
#[verifier::opaque]
pub open spec fn file_sort_toggled(s: AppState) -> AppState {
    let mode = s.file_tree_sort.toggled();
    AppState { file_tree_sort: mode, ..s.calm() }.saying("File tree sort: "@ + mode.title())
}

/// The move that a key makes in a list.
pub open spec fn list_move(key: Key) -> Option<Move> {
    match key {
        Key::Char(c) => if c == 'G' {
            Some(Move::Bottom)
        } else if c == 'j' {
            Some(Move::Next)
        } else if c == 'k' {
            Some(Move::Previous)
        } else if c == 'd' {
            Some(Move::PageDown)
        } else if c == 'u' {
            Some(Move::PageUp)
        } else {
            None
        },
        Key::Down => Some(Move::Next),
        Key::Up => Some(Move::Previous),
        _ => None,
    }
}

/// What a key does in the list of scans.
pub open spec fn on_scan_list(s: AppState, key: Key) -> (AppState, Cmd) {
    match list_move(key) {
        Some(m) => (s.scan_moved(m), Cmd::Wait),
        None => match key {
            Key::Char(c) => on_scan_list_char(s, c),
            Key::Enter => selecting(s),
            _ => (s.calm(), Cmd::Wait),
        },
    }
}

/// What a character does in the list of scans.
pub open spec fn on_scan_list_char(s: AppState, c: char) -> (AppState, Cmd) {
    if c == 'q' {
        (s, Cmd::Quit)
    } else if c == '?' {
        (s.opening(types::View::Help), Cmd::Wait)
    } else if c == 'S' {
        (
            AppState {
                setting_selected: match s.setting_selected {
                    Some(i) => Some(i),
                    None => Some(0),
                },
                ..s.opening(types::View::Settings)
            },
            Cmd::Wait,
        )
    } else if c == 'n' {
        (
            AppState { scan_input: Seq::empty(), ..s.opening(types::View::ScanDialog) },
            Cmd::Wait,
        )
    } else if c == 'g' {
        if s.g_pressed {
            (s.scan_moved(Move::Top), Cmd::Wait)
        } else {
            (AppState { g_pressed: true, ..s }, Cmd::Wait)
        }
    } else {
        on_scan_list_act(s, c)
    }
}

/// What a character does to the selected scan, or to what is shown of the current one.
pub open spec fn on_scan_list_act(s: AppState, c: char) -> (AppState, Cmd) {
    if c == 'r' {
        match s.scan() {
            None => (s.calm(), Cmd::Wait),
            Some(scan) => if scan.status@ == "paused"@ {
                (
                    AppState {
                        resuming: Some((scan.id, scan.root_path@)),
                        ..s.showing(types::View::PreparingResume)
                    }.saying("Loading already-scanned paths from database..."@),
                    Cmd::LoadScannedPaths { scan_id: scan.id },
                )
            } else {
                (s.calm().saying("Selected scan is not paused"@), Cmd::Wait)
            },
        }
    } else if c == 'x' {
        match s.scan() {
            None => (s.calm(), Cmd::Wait),
            Some(scan) => (
                AppState {
                    delete_scan_id: Some(scan.id),
                    ..s.opening(types::View::ConfirmDelete)
                },
                Cmd::Wait,
            ),
        }
    } else if c == 'o' {
        selecting(s)
    } else if c == '1' {
        (s.showing(types::View::ScanList), Cmd::Wait)
    } else if c == '2' {
        if s.current_scan is Some {
            (s.showing(types::View::FileTree), Cmd::Wait)
        } else {
            (s.calm(), Cmd::Wait)
        }
    } else if c == '3' {
        match s.current_scan {
            Some(scan) => (s.calm(), Cmd::LoadCleanup { scan_id: scan.id }),
            None => (s.calm(), Cmd::Wait),
        }
    } else if c == 't' {
        (scan_sort_toggled(s), Cmd::Wait)
    } else {
        (s.calm(), Cmd::Wait)
    }
}

/// Opening the selected scan: its entries have to be read first.
pub open spec fn selecting(s: AppState) -> (AppState, Cmd) {
    match s.scan() {
        None => (s.calm(), Cmd::Wait),
        Some(scan) => (
            AppState { current_scan: Some(scan), ..s.calm() },
            Cmd::LoadEntries { scan_id: scan.id },
        ),
    }
}

/// What a key does in the file tree.
pub open spec fn on_file_tree(s: AppState, key: Key) -> (AppState, Cmd) {
    match list_move(key) {
        Some(m) => (s.file_moved(m), Cmd::Wait),
        None => match key {
            Key::Char(c) => on_file_tree_char(s, c),
            Key::Esc => (s.showing(types::View::ScanList), Cmd::Wait),
            _ => (s.calm(), Cmd::Wait),
        },
    }
}

/// What a character does in the file tree.
pub open spec fn on_file_tree_char(s: AppState, c: char) -> (AppState, Cmd) {
    if c == 'q' {
        (s, Cmd::Quit)
    } else if c == '?' {
        (s.opening(types::View::Help), Cmd::Wait)
    } else if c == 'g' {
        if s.g_pressed {
            (s.file_moved(Move::Top), Cmd::Wait)
        } else {
            (AppState { g_pressed: true, ..s }, Cmd::Wait)
        }
    } else if c == '1' {
        (s.showing(types::View::ScanList), Cmd::Wait)
    } else if c == '2' {
        (s.showing(types::View::FileTree), Cmd::Wait)
    } else if c == '3' {
        match s.current_scan {
            Some(scan) => (s.calm(), Cmd::LoadCleanup { scan_id: scan.id }),
            None => (s.showing(types::View::CleanupList), Cmd::Wait),
        }
    } else if c == 'S' {
        (s.opening(types::View::Settings), Cmd::Wait)
    } else {
        on_file_tree_act(s, c)
    }
}

/// What a character does to the selected file, or to the order of the files.
pub open spec fn on_file_tree_act(s: AppState, c: char) -> (AppState, Cmd) {
    if c == 'J' {
        (s.to_sibling(true), Cmd::Wait)
    } else if c == 'K' {
        (s.to_sibling(false), Cmd::Wait)
    } else if c == ' ' {
        match (s.current_scan, s.file()) {
            (Some(scan), Some(e)) => (
                s.calm(),
                Cmd::LookUpMark { scan_id: scan.id, entry_id: e.id, name: e.name@ },
            ),
            _ => (s.calm(), Cmd::Wait),
        }
    } else if c == 'z' || c == 'o' {
        (s.fold_toggled(false), Cmd::Wait)
    } else if c == 'Z' || c == 'O' {
        (s.fold_toggled(true), Cmd::Wait)
    } else if c == 't' {
        (file_sort_toggled(s), Cmd::Wait)
    } else {
        (s.calm(), Cmd::Wait)
    }
}

/// What a key does in the list of what is marked.
pub open spec fn on_cleanup_list(s: AppState, key: Key) -> (AppState, Cmd) {
    if key == Key::Char('G') && s.g_pressed {
        (s.calm(), s.script())
    } else {
        match list_move(key) {
            Some(m) => (s.cleanup_moved(m), Cmd::Wait),
            None => match key {
                Key::Char(c) => on_cleanup_list_char(s, c),
                Key::Esc => (s.showing(types::View::ScanList), Cmd::Wait),
                _ => (s.calm(), Cmd::Wait),
            },
        }
    }
}

/// What a character does in the list of what is marked. A first `g` writes the script, a second
/// one goes to the top.
pub open spec fn on_cleanup_list_char(s: AppState, c: char) -> (AppState, Cmd) {
    if c == 'q' {
        (s, Cmd::Quit)
    } else if c == '?' {
        (s.opening(types::View::Help), Cmd::Wait)
    } else if c == 'g' {
        if s.g_pressed {
            (s.cleanup_moved(Move::Top), Cmd::Wait)
        } else {
            (AppState { g_pressed: true, ..s }, s.script())
        }
    } else if c == 's' {
        (s.calm(), s.script())
    } else if c == ' ' {
        match (s.current_scan, s.cleanup_selected) {
            (Some(scan), Some(i)) => if i < s.cleanup.len() {
                let e = s.cleanup[i as int];
                (
                    s.calm(),
                    Cmd::RemoveCleanup {
                        scan_id: scan.id,
                        entry_id: e.id,
                        name: e.name@,
                        selected: i,
                    },
                )
            } else {
                (s.calm(), Cmd::Wait)
            },
            _ => (s.calm(), Cmd::Wait),
        }
    } else if c == '1' {
        (s.showing(types::View::ScanList), Cmd::Wait)
    } else if c == '2' {
        (s.showing(types::View::FileTree), Cmd::Wait)
    } else if c == '3' {
        (s.showing(types::View::CleanupList), Cmd::Wait)
    } else if c == 'S' {
        (s.opening(types::View::Settings), Cmd::Wait)
    } else {
        (s.calm(), Cmd::Wait)
    }
}

/// What a key does while the path of a new scan is typed.
pub open spec fn on_scan_dialog(s: AppState, key: Key) -> (AppState, Cmd) {
    match key {
        Key::Esc => (
            AppState { view: s.previous_view, scan_input: Seq::empty(), ..s },
            Cmd::Wait,
        ),
        Key::Enter => if s.scan_input.len() > 0 {
            (s, Cmd::StartScan { input: s.scan_input })
        } else {
            (s, Cmd::Wait)
        },
        Key::Backspace => (
            AppState {
                scan_input: if s.scan_input.len() > 0 {
                    s.scan_input.drop_last()
                } else {
                    s.scan_input
                },
                ..s
            },
            Cmd::Wait,
        ),
        Key::Char(c) => (AppState { scan_input: s.scan_input.push(c), ..s }, Cmd::Wait),
        _ => (s, Cmd::Wait),
    }
}

/// What a key does during a scan: it can only be stopped.
pub open spec fn on_scanning(s: AppState, key: Key) -> (AppState, Cmd) {
    if (key == Key::Char('q') || key == Key::Esc) && s.scanning {
        (AppState { cancelled: true, ..s }.saying("Cancelling scan..."@), Cmd::CancelScan)
    } else {
        (s, Cmd::Wait)
    }
}

/// Whether the key says no.
pub open spec fn declines(key: Key) -> bool {
    key == Key::Char('n') || key == Key::Char('N') || key == Key::Esc || key == Key::Char('q')
}

/// Whether the key says yes.
pub open spec fn confirms(key: Key) -> bool {
    key == Key::Char('y') || key == Key::Char('Y')
}

/// What a key does when a scan is about to be deleted.
pub open spec fn on_confirm_delete(s: AppState, key: Key) -> (AppState, Cmd) {
    if confirms(key) {
        match s.delete_scan_id {
            Some(id) => (
                AppState { deleting: true, view: types::View::Deleting, throbber: 0, ..s },
                Cmd::DeleteScan { scan_id: id },
            ),
            None => (s, Cmd::Wait),
        }
    } else if declines(key) {
        (AppState { delete_scan_id: None, view: types::View::ScanList, ..s }, Cmd::Wait)
    } else {
        (s, Cmd::Wait)
    }
}

/// What a key does when a path is about to be changed.
pub open spec fn on_confirm_path_change(s: AppState, key: Key) -> (AppState, Cmd) {
    if confirms(key) {
        let back = AppState { pending: None, view: types::View::Settings, ..s };
        match s.pending {
            Some((idx, new_path, old_path)) => if idx == 0 {
                (back, Cmd::SaveConfigTo { path: new_path })
            } else if idx == 1 {
                (
                    AppState { db_path: new_path, ..back }.saying(
                        "Database path updated: "@ + new_path
                            + " (restart required to take effect)"@,
                    ),
                    Cmd::Wait,
                )
            } else {
                (back, Cmd::Wait)
            },
            None => (back, Cmd::Wait),
        }
    } else if declines(key) {
        (
            AppState { pending: None, view: types::View::Settings, ..s }.saying(
                "Path change cancelled"@,
            ),
            Cmd::Wait,
        )
    } else {
        (s, Cmd::Wait)
    }
}

/// The state with no path being edited.
pub open spec fn edited(s: AppState) -> AppState {
    AppState { editing: None, path_input: Seq::empty(), cursor: 0, ..s }
}

/// What a key does while a path is edited.
pub open spec fn on_editing(s: AppState, key: Key) -> (AppState, Cmd) {
    match key {
        Key::Enter => (s, Cmd::CheckPath),
        Key::Esc => (edited(s).saying("Path edit cancelled"@), Cmd::Wait),
        Key::Left => (
            AppState {
                cursor: if s.cursor > 0 {
                    (s.cursor - 1) as usize
                } else {
                    s.cursor
                },
                ..s
            },
            Cmd::Wait,
        ),
        Key::Right => (
            AppState {
                cursor: if s.cursor < byte_len(s.path_input) {
                    (s.cursor + 1) as usize
                } else {
                    s.cursor
                },
                ..s
            },
            Cmd::Wait,
        ),
        Key::Home => (AppState { cursor: 0, ..s }, Cmd::Wait),
        Key::End => (AppState { cursor: byte_len(s.path_input) as usize, ..s }, Cmd::Wait),
        Key::Backspace => (
            if s.cursor > 0 {
                AppState {
                    path_input: removed_at(s.path_input, (s.cursor - 1) as nat),
                    cursor: (s.cursor - 1) as usize,
                    ..s
                }
            } else {
                s
            },
            Cmd::Wait,
        ),
        Key::Delete => (
            if s.cursor < byte_len(s.path_input) {
                AppState { path_input: removed_at(s.path_input, s.cursor as nat), ..s }
            } else {
                s
            },
            Cmd::Wait,
        ),
        Key::Char(c) => (
            AppState {
                path_input: inserted_at(s.path_input, s.cursor as nat, c),
                cursor: (s.cursor + 1) as usize,
                ..s
            },
            Cmd::Wait,
        ),
        _ => (s, Cmd::Wait),
    }
}

/// The state in which a path is edited, with the cursor at its end.
pub open spec fn start_editing(
    s: AppState,
    idx: usize,
    path: Seq<char>,
    status: Seq<char>,
) -> AppState {
    AppState {
        editing: Some(idx),
        path_input: path,
        cursor: byte_len(path) as usize,
        ..s.calm()
    }.saying(status)
}

/// What a key does in the settings.
pub open spec fn on_settings(s: AppState, key: Key) -> (AppState, Cmd) {
    if s.editing is Some {
        on_editing(s, key)
    } else if key == Key::Char('q') || key == Key::Esc {
        (s.showing(s.previous_view), Cmd::Wait)
    } else if key == Key::Char('j') || key == Key::Down {
        (
            AppState { setting_selected: Some(next_setting(s.setting_selected)), ..s.calm() },
            Cmd::Wait,
        )
    } else if key == Key::Char('k') || key == Key::Up {
        (
            AppState { setting_selected: Some(previous_setting(s.setting_selected)), ..s.calm() },
            Cmd::Wait,
        )
    } else {
        match key {
            Key::Char(c) => on_settings_char(s, c),
            _ => (s.calm(), Cmd::Wait),
        }
    }
}

/// What a character does to the selected setting.
pub open spec fn on_settings_char(s: AppState, c: char) -> (AppState, Cmd) {
    if c == 'e' {
        if s.setting_selected == Some(0usize) {
            (start_editing(s, 0, s.settings_path, "Editing config path..."@), Cmd::Wait)
        } else if s.setting_selected == Some(1usize) {
            (
                start_editing(s, 1, s.db_path, "Editing database path (restart required)..."@),
                Cmd::Wait,
            )
        } else {
            (s.calm(), Cmd::Wait)
        }
    } else if c == 'r' {
        if s.setting_selected == Some(0usize) {
            (s.calm(), Cmd::RestoreDefaultPath)
        } else if s.setting_selected == Some(1usize) {
            (s.calm().saying("Database path cannot be restored (set via --db flag)"@), Cmd::Wait)
        } else {
            (s.calm(), Cmd::Wait)
        }
    } else if c == 't' {
        if s.setting_selected == Some(3usize) {
            (file_sort_toggled(s), Cmd::SaveSettings)
        } else if s.setting_selected == Some(4usize) {
            (scan_sort_toggled(s), Cmd::SaveSettings)
        } else {
            (s.calm(), Cmd::Wait)
        }
    } else {
        (s.calm(), Cmd::Wait)
    }
}

/// What a key does.
pub open spec fn on_key(s: AppState, key: Key) -> (AppState, Cmd) {
    match s.view {
        types::View::ScanList => on_scan_list(s, key),
        types::View::FileTree => on_file_tree(s, key),
        types::View::CleanupList => on_cleanup_list(s, key),
        types::View::ScanDialog => on_scan_dialog(s, key),
        types::View::Scanning => on_scanning(s, key),
        types::View::Help => (AppState { view: s.previous_view, ..s }, Cmd::Wait),
        types::View::ConfirmDelete => on_confirm_delete(s, key),
        types::View::Deleting => (s, Cmd::Wait),
        types::View::PreparingResume => (s, Cmd::Wait),
        types::View::ConfirmPathChange => on_confirm_path_change(s, key),
        types::View::Settings => on_settings(s, key),
    }
}

/// Whether the key can be taken: while a path is edited, what it changes has to start where a
/// character does.
pub open spec fn takes(s: AppState, key: Key) -> bool {
    s.view == types::View::Settings && s.editing is Some ==> match key {
        Key::Char(_) => byte_place(s.path_input, s.cursor as nat) is Some && s.cursor < usize::MAX,
        Key::Backspace => s.cursor > 0 ==> starts_char(s.path_input, (s.cursor - 1) as nat),
        Key::Delete => s.cursor < byte_len(s.path_input) ==> starts_char(
            s.path_input,
            s.cursor as nat,
        ),
        _ => true,
    }
}

} // verus!
