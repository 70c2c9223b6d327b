//! The browser.
use vstd::prelude::*;

use crate::bytes::{insert_char, is_char_start, is_place, remove_char, text_bytes};
use crate::cleanup::cleanup_script;
use crate::db::{Scan, StoredFileEntry};
use crate::paths::PathSet;
use crate::settings::Settings;
use crate::text::{begins_with, count_char, piece, text_eq, to_chars};
use crate::ui::nav::{
    move_selection, next_sibling, previous_sibling, settings_next, settings_previous, Move,
};
use crate::ui::scan_list::{law_scan_order_determined, scan_order};
use crate::ui::state::{
    confirms, declines, directly_inside, edited, file_sort_toggled, folded_inside, list_move,
    on_cleanup_list, on_cleanup_list_char, on_confirm_delete, on_confirm_path_change, on_editing,
    on_file_tree, on_file_tree_act, on_file_tree_char, on_key, on_scan_dialog, on_scan_list,
    on_scan_list_act, on_scan_list_char, on_scanning, on_settings, on_settings_char,
    scan_sort_toggled, selecting, start_editing, takes, AppState, Command, Key, Progress,
};
use crate::ui::tree::{compute_visible_entries, entries_of, visible};
use crate::ui::tree_laws::law_listing_determined;
use crate::ui::types;
use crate::ui::types::{ScanProgress, SortMode};

verus! {

/// The browser.
pub struct App {
    pub view: types::View,
    pub previous_view: types::View,
    pub scans: Vec<Scan>,
    pub scan_selected: Option<usize>,
    pub current_scan: Option<Scan>,
    pub file_entries: Vec<StoredFileEntry>,
    pub file_selected: Option<usize>,
    pub cleanup_items: Vec<StoredFileEntry>,
    pub cleanup_selected: Option<usize>,
    pub status_message: String,
    pub scan_input: String,
    pub scan_progress: Option<ScanProgress>,
    pub scanning: bool,
    pub cancelled: bool,
    pub g_pressed: bool,
    pub folded_dirs: PathSet,
    pub delete_scan_id: Option<i64>,
    pub deleting: bool,
    pub throbber: usize,
    pub resuming: Option<(i64, String)>,
    pub setting_selected: Option<usize>,
    pub file_tree_sort: SortMode,
    pub scan_list_sort: SortMode,
    pub settings_path: String,
    pub db_path: String,
    pub path_input: String,
    pub cursor: usize,
    pub editing: Option<usize>,
    pub pending: Option<(usize, String, String)>,
    pub pending_exists: bool,
}

/// A scan's progress with its list as a sequence.
pub open spec fn progress_of(progress: Option<ScanProgress>) -> Option<Progress> {
    match progress {
        Some(p) => Some(
            Progress {
                entries_scanned: p.entries_scanned,
                active_dirs: p.active_dirs@,
                active_workers: p.active_workers,
            },
        ),
        None => None,
    }
}

impl View for App {
    type V = AppState;

    open spec fn view(&self) -> AppState {
        AppState {
            view: self.view,
            previous_view: self.previous_view,
            scans: self.scans@,
            scan_selected: self.scan_selected,
            current_scan: self.current_scan,
            files: self.file_entries@,
            file_selected: self.file_selected,
            cleanup: self.cleanup_items@,
            cleanup_selected: self.cleanup_selected,
            status: self.status_message@,
            scan_input: self.scan_input@,
            progress: progress_of(self.scan_progress),
            scanning: self.scanning,
            cancelled: self.cancelled,
            g_pressed: self.g_pressed,
            folded: self.folded_dirs@,
            delete_scan_id: self.delete_scan_id,
            deleting: self.deleting,
            throbber: self.throbber,
            resuming: match self.resuming {
                Some((id, path)) => Some((id, path@)),
                None => None,
            },
            setting_selected: self.setting_selected,
            file_tree_sort: self.file_tree_sort,
            scan_list_sort: self.scan_list_sort,
            settings_path: self.settings_path@,
            db_path: self.db_path@,
            path_input: self.path_input@,
            cursor: self.cursor,
            editing: self.editing,
            pending: match self.pending {
                Some((idx, new_path, old_path)) => Some((idx, new_path@, old_path@)),
                None => None,
            },
            pending_exists: self.pending_exists,
        }
    }
}

/// Three texts one after the other.
pub fn phrase(before: &str, middle: &str, after: &str) -> (s: String)
    ensures
        s@ == before@ + middle@ + after@,
{
    let mut s = before.to_owned();
    s.append(middle);
    s.append(after);
    s
}

fn label(before: &str, after: &str) -> (s: String)
    ensures
        s@ == before@ + after@,
{
    let mut s = before.to_owned();
    s.append(after);
    s
}

impl App {
    /// What is folded can be walked.
    pub open spec fn well_formed(&self) -> bool {
        self.folded_dirs.well_formed()
    }

    /// A browser that shows the list of scans, with nothing loaded yet.
    pub fn new(settings: Settings, settings_path: String, db_path: String) -> (app: App)
        ensures
            app.well_formed(),
            app@ == (AppState {
                view: types::View::ScanList,
                previous_view: types::View::ScanList,
                scans: Seq::empty(),
                scan_selected: Some(0),
                current_scan: None,
                files: Seq::empty(),
                file_selected: None,
                cleanup: Seq::empty(),
                cleanup_selected: None,
                status: "Press 'n' to scan | '?' for help"@,
                scan_input: Seq::empty(),
                progress: None,
                scanning: false,
                cancelled: false,
                g_pressed: false,
                folded: Set::empty(),
                delete_scan_id: None,
                deleting: false,
                throbber: 0,
                resuming: None,
                setting_selected: None,
                file_tree_sort: settings.ui.file_tree_sort,
                scan_list_sort: settings.ui.scan_list_sort,
                settings_path: settings_path@,
                db_path: db_path@,
                path_input: Seq::empty(),
                cursor: 0,
                editing: None,
                pending: None,
                pending_exists: false,
            }),
    {
        let app = App {
            view: types::View::ScanList,
            previous_view: types::View::ScanList,
            scans: Vec::new(),
            scan_selected: Some(0),
            current_scan: None,
            file_entries: Vec::new(),
            file_selected: None,
            cleanup_items: Vec::new(),
            cleanup_selected: None,
            status_message: "Press 'n' to scan | '?' for help".to_owned(),
            scan_input: String::new(),
            scan_progress: None,
            scanning: false,
            cancelled: false,
            g_pressed: false,
            folded_dirs: PathSet::new(),
            delete_scan_id: None,
            deleting: false,
            throbber: 0,
            resuming: None,
            setting_selected: None,
            file_tree_sort: settings.ui.file_tree_sort,
            scan_list_sort: settings.ui.scan_list_sort,
            settings_path,
            db_path,
            path_input: String::new(),
            cursor: 0,
            editing: None,
            pending: None,
            pending_exists: false,
        };
        assert(app@.scans =~= Seq::empty());
        assert(app@.files =~= Seq::empty());
        assert(app@.cleanup =~= Seq::empty());
        assert(app@.scan_input =~= Seq::empty());
        assert(app@.path_input =~= Seq::empty());
        app
    }

    /// The files as they are listed.
    pub fn get_visible_entries(&self) -> (shown: Vec<&StoredFileEntry>)
        ensures
            entries_of(shown@) == self@.listing(),
    {
        proof {
            reveal(AppState::listing);
        }
        let shown = compute_visible_entries(
            self.file_entries.as_slice(),
            &self.folded_dirs,
            self.file_tree_sort,
            None,
        );
        proof {
            law_listing_determined(
                visible(self.file_entries@, self.folded_dirs@, None),
                self.file_tree_sort,
                entries_of(shown@),
                self@.listing(),
            );
        }
        shown
    }

    fn visible_count(&self) -> (n: usize)
        ensures
            n == self@.listing().len(),
    {
        let shown = self.get_visible_entries();
        assert(entries_of(shown@).len() == shown@.len());
        shown.len()
    }

    fn move_file(&mut self, m: Move)
        requires
            old(self).well_formed(),
        ensures
            final(self).well_formed(),
            final(self)@ == old(self)@.file_moved(m),
    {
        proof {
            reveal(AppState::file_moved);
        }
        let count: usize = self.visible_count();
        self.file_selected = move_selection(self.file_selected, count, m);
        self.g_pressed = false;
    }

    fn move_scan(&mut self, m: Move)
        requires
            old(self).well_formed(),
        ensures
            final(self).well_formed(),
            final(self)@ == old(self)@.scan_moved(m),
    {
        proof {
            reveal(AppState::scan_moved);
        }
        self.scan_selected = move_selection(self.scan_selected, self.scans.len(), m);
        self.g_pressed = false;
    }

    fn move_cleanup(&mut self, m: Move)
        requires
            old(self).well_formed(),
        ensures
            final(self).well_formed(),
            final(self)@ == old(self)@.cleanup_moved(m),
    {
        proof {
            reveal(AppState::cleanup_moved);
        }
        self.cleanup_selected = move_selection(self.cleanup_selected, self.cleanup_items.len(), m);
        self.g_pressed = false;
    }

    fn go_to_sibling(&mut self, forward: bool)
        requires
            old(self).well_formed(),
        ensures
            final(self).well_formed(),
            final(self)@ == old(self)@.to_sibling(forward),
    {
        proof {
            reveal(AppState::to_sibling);
        }
        let ghost before = self@;
        let ghost listing = self@.listing();
        let mut target: Option<(usize, String)> = None;
        let mut looked = false;
        let mut start = false;
        {
            let shown = self.get_visible_entries();
            assert(entries_of(shown@).len() == shown@.len());
            if shown.len() > 0 {
                match self.file_selected {
                    None => {
                        start = true;
                    },
                    Some(i) => {
                        if i < shown.len() {
                            looked = true;
                            let found = if forward {
                                next_sibling(&shown, i)
                            } else {
                                previous_sibling(&shown, i)
                            };
                            match found {
                                Some(k) => {
                                    target = Some((k, shown[k].name.clone()));
                                },
                                None => {},
                            }
                        }
                    },
                }
            }
        }
        self.g_pressed = false;
        if start {
            self.file_selected = Some(0);
        } else if looked {
            match target {
                Some((k, name)) => {
                    self.file_selected = Some(k);
                    self.status_message =
                    label(
                        if forward {
                            "Next sibling: "
                        } else {
                            "Previous sibling: "
                        },
                        name.as_str(),
                    );
                },
                None => {
                    self.status_message =
                    (if forward {
                        "No next sibling at this level"
                    } else {
                        "No previous sibling at this level"
                    }).to_owned();
                },
            }
        }
    }

    /// The file that is selected.
    pub fn selected_file(&self) -> (e: Option<&StoredFileEntry>)
        ensures
            match e {
                Some(e) => self@.file() == Some(*e),
                None => self@.file() is None,
            },
    {
        proof {
            reveal(AppState::file);
        }
        match self.file_selected {
            Some(i) => {
                let shown = self.get_visible_entries();
                assert(entries_of(shown@).len() == shown@.len());
                if i < shown.len() {
                    Some(shown[i])
                } else {
                    None
                }
            },
            None => None,
        }
    }
}

fn move_of(key: Key) -> (m: Option<Move>)
    ensures
        m == list_move(key),
{
    match key {
        Key::Char(c) => if c == 'G' {
            Some(Move::Bottom)
        } else if c == 'j' {
            Some(Move::Next)
        } else if c == 'k' {
            Some(Move::Previous)
        } else if c == 'd' {
            Some(Move::PageDown)
        } else if c == 'u' {
            Some(Move::PageUp)
        } else {
            None
        },
        Key::Down => Some(Move::Next),
        Key::Up => Some(Move::Previous),
        _ => None,
    }
}

fn is_directly_inside(e: &StoredFileEntry, path: &str, depth: i64) -> (b: bool)
    ensures
        b == directly_inside(*e, path@, depth),
{
    if !e.is_dir || depth == i64::MAX || e.depth != depth + 1 {
        return false;
    }
    if !begins_with(e.path.as_str(), path) {
        return false;
    }
    let chars = to_chars(e.path.as_str());
    let n: usize = to_chars(path).len();
    let rest = piece(&chars, n, chars.len());
    assert(rest@ =~= e.path@.skip(n as int));
    count_char(rest.as_str(), '/') == 1
}

impl App {
    fn unfold_one_level(&mut self, path: &str, depth: i64)
        requires
            old(self).well_formed(),
        ensures
            final(self).well_formed(),
            final(self)@ == (AppState {
                folded: folded_inside(old(self)@.files, old(self)@.folded, path@, depth),
                ..old(self)@
            }),
    {
        let ghost files = self.file_entries@;
        let ghost start = self.folded_dirs@;
        self.folded_dirs.remove(path);
        let mut i: usize = 0;
        while i < self.file_entries.len()
            invariant
                i <= self.file_entries@.len(),
                self.well_formed(),
                files == self.file_entries@,
                self@ == (AppState { folded: self.folded_dirs@, ..old(self)@ }),
                forall|s: Seq<char>| #[trigger]
                    self.folded_dirs@.contains(s) <==> start.remove(path@).contains(s) || exists|
                        k: int,
                    |
                        0 <= k < i && (#[trigger] files[k]).path@ == s && directly_inside(
                            files[k],
                            path@,
                            depth,
                        ),
            decreases self.file_entries@.len() - i,
        {
            let ghost before = self.folded_dirs@;
            if is_directly_inside(&self.file_entries[i], path, depth) {
                let inner = self.file_entries[i].path.clone();
                self.folded_dirs.insert(inner);
            }
            assert forall|s: Seq<char>| #[trigger]
                self.folded_dirs@.contains(s) <==> start.remove(path@).contains(s) || exists|k: int|
                    0 <= k < i + 1 && (#[trigger] files[k]).path@ == s && directly_inside(
                        files[k],
                        path@,
                        depth,
                    ) by {
                if before.contains(s) && !start.remove(path@).contains(s) {
                    let k = choose|k: int|
                        0 <= k < i && (#[trigger] files[k]).path@ == s && directly_inside(
                            files[k],
                            path@,
                            depth,
                        );
                    assert(files[k].path@ == s);
                }
                if s == files[i as int].path@ {
                    assert(files[i as int].path@ == s);
                }
            }
            i = i + 1;
        }
        assert(self.folded_dirs@ =~= folded_inside(files, start, path@, depth));
    }

    fn toggle_fold_directory(&mut self, recursive: bool)
        requires
            old(self).well_formed(),
        ensures
            final(self).well_formed(),
            final(self)@ == old(self)@.fold_toggled(recursive),
    {
        proof {
            reveal(AppState::fold_toggled);
        }
        let chosen: Option<(bool, String, String, i64)> = match self.selected_file() {
            Some(e) => Some((e.is_dir, e.path.clone(), e.name.clone(), e.depth)),
            None => None,
        };
        self.g_pressed = false;
        match chosen {
            None => {},
            Some((is_dir, path, name, depth)) => {
                if !is_dir {
                    self.status_message = "Not a directory".to_owned();
                } else if recursive {
                    self.folded_dirs.remove_subtree(path.as_str());
                    self.status_message =
                    phrase("Unfolded '", name.as_str(), "' and all subdirectories");
                } else if self.folded_dirs.contains(path.as_str()) {
                    self.unfold_one_level(path.as_str(), depth);
                    self.status_message = phrase("Unfolded '", name.as_str(), "'");
                } else {
                    self.folded_dirs.insert(path);
                    self.status_message = phrase("Folded '", name.as_str(), "'");
                }
            },
        }
    }

    fn open_view(&mut self, view: types::View)
        requires
            old(self).well_formed(),
        ensures
            final(self).well_formed(),
            final(self)@ == old(self)@.opening(view),
    {
        self.previous_view = self.view;
        self.view = view;
        self.g_pressed = false;
    }

    fn show_view(&mut self, view: types::View)
        requires
            old(self).well_formed(),
        ensures
            final(self).well_formed(),
            final(self)@ == old(self)@.showing(view),
    {
        self.view = view;
        self.g_pressed = false;
    }

    fn selected_scan(&self) -> (scan: Option<&Scan>)
        ensures
            match scan {
                Some(scan) => self@.scan() == Some(*scan),
                None => self@.scan() is None,
            },
    {
        proof {
            reveal(AppState::scan);
        }
        match self.scan_selected {
            Some(i) => if i < self.scans.len() {
                let order = scan_order(&self.scans, self.scan_list_sort);
                proof {
                    law_scan_order_determined(
                        self@.scans,
                        self@.scan_list_sort,
                        order@,
                        self@.scan_order(),
                    );
                }
                Some(&self.scans[order[i]])
            } else {
                None
            },
            None => None,
        }
    }

    fn select_scan(&mut self) -> (cmd: Command)
        requires
            old(self).well_formed(),
        ensures
            final(self).well_formed(),
            (final(self)@, cmd@) == selecting(old(self)@),
    {
        let scan: Option<Scan> = match self.selected_scan() {
            Some(scan) => Some(scan.clone()),
            None => None,
        };
        self.g_pressed = false;
        match scan {
            Some(scan) => {
                let scan_id: i64 = scan.id;
                self.current_scan = Some(scan);
                Command::LoadEntries { scan_id }
            },
            None => Command::Wait,
        }
    }

    fn scan_list_key(&mut self, key: Key) -> (cmd: Command)
        requires
            old(self).well_formed(),
        ensures
            final(self).well_formed(),
            (final(self)@, cmd@) == on_scan_list(old(self)@, key),
    {
        match move_of(key) {
            Some(m) => {
                self.move_scan(m);
                Command::Wait
            },
            None => match key {
                Key::Char(c) => self.scan_list_char(c),
                Key::Enter => self.select_scan(),
                _ => {
                    self.g_pressed = false;
                    Command::Wait
                },
            },
        }
    }

    fn scan_list_char(&mut self, c: char) -> (cmd: Command)
        requires
            old(self).well_formed(),
        ensures
            final(self).well_formed(),
            (final(self)@, cmd@) == on_scan_list_char(old(self)@, c),
    {
        if c == 'q' {
            Command::Quit
        } else if c == '?' {
            self.open_view(types::View::Help);
            Command::Wait
        } else if c == 'S' {
            self.open_view(types::View::Settings);
            if self.setting_selected.is_none() {
                self.setting_selected = Some(0);
            }
            Command::Wait
        } else if c == 'n' {
            self.open_view(types::View::ScanDialog);
            self.scan_input = String::new();
            assert(self@.scan_input =~= Seq::empty());
            Command::Wait
        } else if c == 'g' {
            if self.g_pressed {
                self.move_scan(Move::Top);
            } else {
                self.g_pressed = true;
            }
            Command::Wait
        } else {
            self.scan_list_act(c)
        }
    }

    fn resume_selected(&mut self) -> (cmd: Command)
        requires
            old(self).well_formed(),
        ensures
            final(self).well_formed(),
            (final(self)@, cmd@) == on_scan_list_act(old(self)@, 'r'),
    {
        let chosen: Option<(bool, i64, String)> = match self.selected_scan() {
            Some(scan) => Some(
                (text_eq(scan.status.as_str(), "paused"), scan.id, scan.root_path.clone()),
            ),
            None => None,
        };
        self.g_pressed = false;
        match chosen {
            Some((paused, scan_id, path)) => {
                if paused {
                    self.status_message =
                    "Loading already-scanned paths from database...".to_owned();
                    self.view = types::View::PreparingResume;
                    self.resuming = Some((scan_id, path));
                    Command::LoadScannedPaths { scan_id }
                } else {
                    self.status_message = "Selected scan is not paused".to_owned();
                    Command::Wait
                }
            },
            None => Command::Wait,
        }
    }

    fn confirm_delete_of_selected(&mut self) -> (cmd: Command)
        requires
            old(self).well_formed(),
        ensures
            final(self).well_formed(),
            (final(self)@, cmd@) == on_scan_list_act(old(self)@, 'x'),
    {
        let id: Option<i64> = match self.selected_scan() {
            Some(scan) => Some(scan.id),
            None => None,
        };
        match id {
            Some(id) => {
                self.open_view(types::View::ConfirmDelete);
                self.delete_scan_id = Some(id);
            },
            None => {
                self.g_pressed = false;
            },
        }
        Command::Wait
    }

    fn toggle_scan_list_sort(&mut self)
        requires
            old(self).well_formed(),
        ensures
            final(self).well_formed(),
            final(self)@ == scan_sort_toggled(old(self)@),
    {
        proof {
            reveal(scan_sort_toggled);
        }
        self.g_pressed = false;
        self.scan_list_sort = self.scan_list_sort.toggle();
        self.status_message = label("Scan list sort: ", self.scan_list_sort.display_name());
    }

    fn toggle_file_tree_sort(&mut self)
        requires
            old(self).well_formed(),
        ensures
            final(self).well_formed(),
            final(self)@ == file_sort_toggled(old(self)@),
    {
        proof {
            reveal(file_sort_toggled);
        }
        self.g_pressed = false;
        self.file_tree_sort = self.file_tree_sort.toggle();
        self.status_message = label("File tree sort: ", self.file_tree_sort.display_name());
    }

    fn scan_list_act(&mut self, c: char) -> (cmd: Command)
        requires
            old(self).well_formed(),
        ensures
            final(self).well_formed(),
            (final(self)@, cmd@) == on_scan_list_act(old(self)@, c),
    {
        if c == 'r' {
            self.resume_selected()
        } else if c == 'x' {
            self.confirm_delete_of_selected()
        } else if c == 'o' {
            self.select_scan()
        } else if c == '1' {
            self.show_view(types::View::ScanList);
            Command::Wait
        } else if c == '2' {
            if self.current_scan.is_some() {
                self.show_view(types::View::FileTree);
            } else {
                self.g_pressed = false;
            }
            Command::Wait
        } else if c == '3' {
            self.g_pressed = false;
            match &self.current_scan {
                Some(scan) => Command::LoadCleanup { scan_id: scan.id },
                None => Command::Wait,
            }
        } else if c == 't' {
            self.toggle_scan_list_sort();
            Command::Wait
        } else {
            self.g_pressed = false;
            Command::Wait
        }
    }

    fn file_tree_key(&mut self, key: Key) -> (cmd: Command)
        requires
            old(self).well_formed(),
        ensures
            final(self).well_formed(),
            (final(self)@, cmd@) == on_file_tree(old(self)@, key),
    {
        match move_of(key) {
            Some(m) => {
                self.move_file(m);
                Command::Wait
            },
            None => match key {
                Key::Char(c) => self.file_tree_char(c),
                Key::Esc => {
                    self.show_view(types::View::ScanList);
                    Command::Wait
                },
                _ => {
                    self.g_pressed = false;
                    Command::Wait
                },
            },
        }
    }

    fn file_tree_char(&mut self, c: char) -> (cmd: Command)
        requires
            old(self).well_formed(),
        ensures
            final(self).well_formed(),
            (final(self)@, cmd@) == on_file_tree_char(old(self)@, c),
    {
        if c == 'q' {
            Command::Quit
        } else if c == '?' {
            self.open_view(types::View::Help);
            Command::Wait
        } else if c == 'g' {
            if self.g_pressed {
                self.move_file(Move::Top);
            } else {
                self.g_pressed = true;
            }
            Command::Wait
        } else if c == '1' {
            self.show_view(types::View::ScanList);
            Command::Wait
        } else if c == '2' {
            self.show_view(types::View::FileTree);
            Command::Wait
        } else if c == '3' {
            let id: Option<i64> = match &self.current_scan {
                Some(scan) => Some(scan.id),
                None => None,
            };
            match id {
                Some(scan_id) => {
                    self.g_pressed = false;
                    Command::LoadCleanup { scan_id }
                },
                None => {
                    self.show_view(types::View::CleanupList);
                    Command::Wait
                },
            }
        } else if c == 'S' {
            self.open_view(types::View::Settings);
            Command::Wait
        } else {
            self.file_tree_act(c)
        }
    }

    fn mark_selected(&mut self) -> (cmd: Command)
        requires
            old(self).well_formed(),
        ensures
            final(self).well_formed(),
            (final(self)@, cmd@) == on_file_tree_act(old(self)@, ' '),
    {
        let chosen: Option<(i64, String)> = match self.selected_file() {
            Some(e) => Some((e.id, e.name.clone())),
            None => None,
        };
        self.g_pressed = false;
        match (&self.current_scan, chosen) {
            (Some(scan), Some((entry_id, name))) => Command::LookUpMark {
                scan_id: scan.id,
                entry_id,
                name,
            },
            _ => Command::Wait,
        }
    }

    fn file_tree_act(&mut self, c: char) -> (cmd: Command)
        requires
            old(self).well_formed(),
        ensures
            final(self).well_formed(),
            (final(self)@, cmd@) == on_file_tree_act(old(self)@, c),
    {
        if c == 'J' {
            self.go_to_sibling(true);
            Command::Wait
        } else if c == 'K' {
            self.go_to_sibling(false);
            Command::Wait
        } else if c == ' ' {
            self.mark_selected()
        } else if c == 'z' || c == 'o' {
            self.toggle_fold_directory(false);
            Command::Wait
        } else if c == 'Z' || c == 'O' {
            self.toggle_fold_directory(true);
            Command::Wait
        } else if c == 't' {
            self.toggle_file_tree_sort();
            Command::Wait
        } else {
            self.g_pressed = false;
            Command::Wait
        }
    }

    fn write_script(&self) -> (cmd: Command)
        ensures
            cmd@ == self@.script(),
    {
        Command::WriteScript { script: cleanup_script(&self.cleanup_items) }
    }

    fn cleanup_list_key(&mut self, key: Key) -> (cmd: Command)
        requires
            old(self).well_formed(),
        ensures
            final(self).well_formed(),
            (final(self)@, cmd@) == on_cleanup_list(old(self)@, key),
    {
        if key == Key::Char('G') && self.g_pressed {
            self.g_pressed = false;
            return self.write_script();
        }
        match move_of(key) {
            Some(m) => {
                self.move_cleanup(m);
                Command::Wait
            },
            None => match key {
                Key::Char(c) => self.cleanup_list_char(c),
                Key::Esc => {
                    self.show_view(types::View::ScanList);
                    Command::Wait
                },
                _ => {
                    self.g_pressed = false;
                    Command::Wait
                },
            },
        }
    }

    fn cleanup_list_char(&mut self, c: char) -> (cmd: Command)
        requires
            old(self).well_formed(),
        ensures
            final(self).well_formed(),
            (final(self)@, cmd@) == on_cleanup_list_char(old(self)@, c),
    {
        if c == 'q' {
            Command::Quit
        } else if c == '?' {
            self.open_view(types::View::Help);
            Command::Wait
        } else if c == 'g' {
            if self.g_pressed {
                self.move_cleanup(Move::Top);
                Command::Wait
            } else {
                self.g_pressed = true;
                self.write_script()
            }
        } else if c == 's' {
            self.g_pressed = false;
            self.write_script()
        } else if c == ' ' {
            self.g_pressed = false;
            match (&self.current_scan, self.cleanup_selected) {
                (Some(scan), Some(i)) => {
                    if i < self.cleanup_items.len() {
                        let e = &self.cleanup_items[i];
                        Command::RemoveCleanup {
                            scan_id: scan.id,
                            entry_id: e.id,
                            name: e.name.clone(),
                            selected: i,
                        }
                    } else {
                        Command::Wait
                    }
                },
                _ => Command::Wait,
            }
        } else if c == '1' {
            self.show_view(types::View::ScanList);
            Command::Wait
        } else if c == '2' {
            self.show_view(types::View::FileTree);
            Command::Wait
        } else if c == '3' {
            self.show_view(types::View::CleanupList);
            Command::Wait
        } else if c == 'S' {
            self.open_view(types::View::Settings);
            Command::Wait
        } else {
            self.g_pressed = false;
            Command::Wait
        }
    }
}

fn without_last(s: &str) -> (r: String)
    ensures
        r@ == if s@.len() > 0 {
            s@.drop_last()
        } else {
            s@
        },
{
    let chars = to_chars(s);
    let n: usize = if chars.len() > 0 {
        chars.len() - 1
    } else {
        0
    };
    let r = piece(&chars, 0, n);
    assert(s@.len() > 0 ==> r@ =~= s@.drop_last());
    assert(s@.len() == 0 ==> r@ =~= s@);
    r
}

fn says_yes(key: Key) -> (b: bool)
    ensures
        b == confirms(key),
{
    key == Key::Char('y') || key == Key::Char('Y')
}

fn says_no(key: Key) -> (b: bool)
    ensures
        b == declines(key),
{
    key == Key::Char('n') || key == Key::Char('N') || key == Key::Esc || key == Key::Char('q')
}

impl App {
    fn scan_dialog_key(&mut self, key: Key) -> (cmd: Command)
        requires
            old(self).well_formed(),
        ensures
            final(self).well_formed(),
            (final(self)@, cmd@) == on_scan_dialog(old(self)@, key),
    {
        match key {
            Key::Esc => {
                self.view = self.previous_view;
                self.scan_input = String::new();
                assert(self@.scan_input =~= Seq::empty());
                Command::Wait
            },
            Key::Enter => {
                if !self.scan_input.as_str().is_empty() {
                    Command::StartScan { input: self.scan_input.clone() }
                } else {
                    Command::Wait
                }
            },
            Key::Backspace => {
                self.scan_input = without_last(self.scan_input.as_str());
                Command::Wait
            },
            Key::Char(c) => {
                self.scan_input.push(c);
                Command::Wait
            },
            _ => Command::Wait,
        }
    }

    fn scanning_key(&mut self, key: Key) -> (cmd: Command)
        requires
            old(self).well_formed(),
        ensures
            final(self).well_formed(),
            (final(self)@, cmd@) == on_scanning(old(self)@, key),
    {
        if (key == Key::Char('q') || key == Key::Esc) && self.scanning {
            self.cancelled = true;
            self.status_message = "Cancelling scan...".to_owned();
            Command::CancelScan
        } else {
            Command::Wait
        }
    }

    fn confirm_delete_key(&mut self, key: Key) -> (cmd: Command)
        requires
            old(self).well_formed(),
        ensures
            final(self).well_formed(),
            (final(self)@, cmd@) == on_confirm_delete(old(self)@, key),
    {
        if says_yes(key) {
            match self.delete_scan_id {
                Some(scan_id) => {
                    self.deleting = true;
                    self.view = types::View::Deleting;
                    self.throbber = 0;
                    Command::DeleteScan { scan_id }
                },
                None => Command::Wait,
            }
        } else if says_no(key) {
            self.delete_scan_id = None;
            self.view = types::View::ScanList;
            Command::Wait
        } else {
            Command::Wait
        }
    }

    fn confirm_path_change_key(&mut self, key: Key) -> (cmd: Command)
        requires
            old(self).well_formed(),
        ensures
            final(self).well_formed(),
            (final(self)@, cmd@) == on_confirm_path_change(old(self)@, key),
    {
        if says_yes(key) {
            let mut pending: Option<(usize, String, String)> = None;
            std::mem::swap(&mut pending, &mut self.pending);
            self.view = types::View::Settings;
            match pending {
                Some((idx, new_path, _)) => {
                    if idx == 0 {
                        Command::SaveConfigTo { path: new_path }
                    } else if idx == 1 {
                        self.status_message =
                        phrase(
                            "Database path updated: ",
                            new_path.as_str(),
                            " (restart required to take effect)",
                        );
                        self.db_path = new_path;
                        Command::Wait
                    } else {
                        Command::Wait
                    }
                },
                None => Command::Wait,
            }
        } else if says_no(key) {
            self.pending = None;
            self.status_message = "Path change cancelled".to_owned();
            self.view = types::View::Settings;
            Command::Wait
        } else {
            Command::Wait
        }
    }

    fn end_editing(&mut self)
        requires
            old(self).well_formed(),
        ensures
            final(self).well_formed(),
            final(self)@ == edited(old(self)@),
    {
        self.editing = None;
        self.path_input = String::new();
        self.cursor = 0;
        assert(self@.path_input =~= Seq::empty());
    }

    fn editing_key(&mut self, key: Key) -> (cmd: Command)
        requires
            old(self).well_formed(),
            old(self).view == types::View::Settings,
            old(self).editing is Some,
            takes(old(self)@, key),
        ensures
            final(self).well_formed(),
            (final(self)@, cmd@) == on_editing(old(self)@, key),
    {
        match key {
            Key::Enter => Command::CheckPath,
            Key::Esc => {
                self.end_editing();
                self.status_message = "Path edit cancelled".to_owned();
                Command::Wait
            },
            Key::Left => {
                if self.cursor > 0 {
                    self.cursor = self.cursor - 1;
                }
                Command::Wait
            },
            Key::Right => {
                if self.cursor < text_bytes(self.path_input.as_str()) {
                    self.cursor = self.cursor + 1;
                }
                Command::Wait
            },
            Key::Home => {
                self.cursor = 0;
                Command::Wait
            },
            Key::End => {
                self.cursor = text_bytes(self.path_input.as_str());
                Command::Wait
            },
            Key::Backspace => {
                if self.cursor > 0 {
                    self.path_input = remove_char(self.path_input.as_str(), self.cursor - 1);
                    self.cursor = self.cursor - 1;
                }
                Command::Wait
            },
            Key::Delete => {
                if self.cursor < text_bytes(self.path_input.as_str()) {
                    self.path_input = remove_char(self.path_input.as_str(), self.cursor);
                }
                Command::Wait
            },
            Key::Char(c) => {
                self.path_input = insert_char(self.path_input.as_str(), self.cursor, c);
                self.cursor = self.cursor + 1;
                Command::Wait
            },
            _ => Command::Wait,
        }
    }

    fn edit_path(&mut self, idx: usize)
        requires
            old(self).well_formed(),
            idx <= 1,
        ensures
            final(self).well_formed(),
            final(self)@ == start_editing(
                old(self)@,
                idx,
                if idx == 0 {
                    old(self)@.settings_path
                } else {
                    old(self)@.db_path
                },
                if idx == 0 {
                    "Editing config path..."@
                } else {
                    "Editing database path (restart required)..."@
                },
            ),
    {
        self.g_pressed = false;
        self.editing = Some(idx);
        if idx == 0 {
            self.path_input = self.settings_path.clone();
            self.status_message = "Editing config path...".to_owned();
        } else {
            self.path_input = self.db_path.clone();
            self.status_message = "Editing database path (restart required)...".to_owned();
        }
        self.cursor = text_bytes(self.path_input.as_str());
    }

    fn settings_char(&mut self, c: char) -> (cmd: Command)
        requires
            old(self).well_formed(),
        ensures
            final(self).well_formed(),
            (final(self)@, cmd@) == on_settings_char(old(self)@, c),
    {
        let selected: usize = match self.setting_selected {
            Some(i) => i,
            None => 9,
        };
        if c == 'e' {
            if selected == 0 || selected == 1 {
                self.edit_path(selected);
            } else {
                self.g_pressed = false;
            }
            Command::Wait
        } else if c == 'r' {
            self.g_pressed = false;
            if selected == 0 {
                Command::RestoreDefaultPath
            } else {
                if selected == 1 {
                    self.status_message =
                    "Database path cannot be restored (set via --db flag)".to_owned();
                }
                Command::Wait
            }
        } else if c == 't' {
            if selected == 3 {
                self.toggle_file_tree_sort();
                Command::SaveSettings
            } else if selected == 4 {
                self.toggle_scan_list_sort();
                Command::SaveSettings
            } else {
                self.g_pressed = false;
                Command::Wait
            }
        } else {
            self.g_pressed = false;
            Command::Wait
        }
    }

    fn settings_key(&mut self, key: Key) -> (cmd: Command)
        requires
            old(self).well_formed(),
            old(self).view == types::View::Settings,
            takes(old(self)@, key),
        ensures
            final(self).well_formed(),
            (final(self)@, cmd@) == on_settings(old(self)@, key),
    {
        if self.editing.is_some() {
            return self.editing_key(key);
        }
        if key == Key::Char('q') || key == Key::Esc {
            self.show_view(self.previous_view);
            Command::Wait
        } else if key == Key::Char('j') || key == Key::Down {
            self.g_pressed = false;
            self.setting_selected = Some(settings_next(self.setting_selected));
            Command::Wait
        } else if key == Key::Char('k') || key == Key::Up {
            self.g_pressed = false;
            self.setting_selected = Some(settings_previous(self.setting_selected));
            Command::Wait
        } else {
            match key {
                Key::Char(c) => self.settings_char(c),
                _ => {
                    self.g_pressed = false;
                    Command::Wait
                },
            }
        }
    }

    /// Whether the key can be taken now.
    pub fn accepts(&self, key: Key) -> (b: bool)
        ensures
            b == takes(self@, key),
    {
        if self.view != types::View::Settings || self.editing.is_none() {
            return true;
        }
        match key {
            Key::Char(_) => is_place(self.path_input.as_str(), self.cursor) && self.cursor
                < usize::MAX,
            Key::Backspace => self.cursor == 0 || is_char_start(
                self.path_input.as_str(),
                self.cursor - 1,
            ),
            Key::Delete => self.cursor >= text_bytes(self.path_input.as_str()) || is_char_start(
                self.path_input.as_str(),
                self.cursor,
            ),
            _ => true,
        }
    }

    /// Takes a key in: what it changes, and what is left to be done.
    pub fn handle_key(&mut self, key: Key) -> (cmd: Command)
        requires
            old(self).well_formed(),
            takes(old(self)@, key),
        ensures
            final(self).well_formed(),
            (final(self)@, cmd@) == on_key(old(self)@, key),
    {
        match self.view {
            types::View::ScanList => self.scan_list_key(key),
            types::View::FileTree => self.file_tree_key(key),
            types::View::CleanupList => self.cleanup_list_key(key),
            types::View::ScanDialog => self.scan_dialog_key(key),
            types::View::Scanning => self.scanning_key(key),
            types::View::Help => {
                self.view = self.previous_view;
                Command::Wait
            },
            types::View::ConfirmDelete => self.confirm_delete_key(key),
            types::View::Deleting => Command::Wait,
            types::View::PreparingResume => Command::Wait,
            types::View::ConfirmPathChange => self.confirm_path_change_key(key),
            types::View::Settings => self.settings_key(key),
        }
    }
}

} // verus!
