//! What the browser makes of what was found out or done for it.
use vstd::prelude::*;

use crate::cleanup::{is_marked, marked, SCRIPT_NAME};
use crate::db::{Scan, StoredFileEntry};
use crate::paths::{expand_home, is_expansion, same_path, same_place};
use crate::scanner::{ProgressUpdate, ScanStats};
use crate::settings::{Settings, UiSettings};
use crate::text::{decimal, i64_text, seen, signed_decimal, text_eq, u64_text, usize_text};
use crate::ui::app::{phrase, progress_of, App};
use crate::ui::state::{deep_directories, edited, AppState, Progress};
use crate::ui::types;
use crate::ui::types::ScanProgress;

verus! {

/// How a scan ended.
pub enum ScanOutcome {
    /// It came to its end, or to where it was stopped; whether its entries were stored.
    Finished { stats: ScanStats, stored: bool },
    /// It failed.
    Failed { error: String },
    /// Nothing was heard of it any more.
    Lost { error: String },
}

/// What is left to be stored of a scan that ended.
#[derive(Debug, Clone, Copy, PartialEq, Eq, Structural)]
pub enum Closing {
    Nothing,
    /// The scan can go on later.
    Pause(ScanStats),
    /// The scan is complete.
    Complete(ScanStats),
}

/// How the deletion of a scan ended.
pub enum DeleteOutcome {
    Deleted { scan_id: i64 },
    Failed { error: String },
    Lost { error: String },
}

/// A message with an error in it.
fn with_error(before: &str, error: &str) -> (s: String)
    ensures
        s@ == before@ + error@,
{
    let mut s = before.to_owned();
    s.append(error);
    s
}

/// The stored scans that say they are running although nothing runs them.
pub open spec fn is_orphaned(scan: Scan) -> bool {
    scan.status@ == "running"@ && scan.completed_at is None
}

/// The numbers of the orphaned ones among the first `n` scans.
pub open spec fn orphans(scans: Seq<Scan>, n: nat) -> Seq<i64>
    decreases n,
{
    if n == 0 {
        Seq::empty()
    } else {
        let before = orphans(scans, (n - 1) as nat);
        if is_orphaned(scans[n - 1]) {
            before.push(scans[n - 1].id)
        } else {
            before
        }
    }
}

/// A progress of nothing.
pub open spec fn no_progress() -> Option<Progress> {
    Some(Progress { entries_scanned: 0, active_dirs: Seq::empty(), active_workers: 0 })
}

fn fresh_progress() -> (p: Option<ScanProgress>)
    ensures
        progress_of(p) == no_progress(),
{
    let p = ScanProgress { entries_scanned: 0, active_dirs: Vec::new(), active_workers: 0 };
    assert(p.active_dirs@ =~= Seq::empty());
    Some(p)
}

impl App {
    /// Takes in the scans that are stored.
    pub fn scans_listed(&mut self, scans: Vec<Scan>)
        requires
            old(self).well_formed(),
        ensures
            final(self).well_formed(),
            final(self)@ == (AppState { scans: scans@, ..old(self)@ }),
    {
        self.scans = scans;
    }

    /// The scans that say they are running although nothing runs them: they count as paused.
    pub fn orphaned_scans(&self) -> (ids: Vec<i64>)
        ensures
            ids@ == orphans(self@.scans, self@.scans.len()),
    {
        let mut ids: Vec<i64> = Vec::new();
        let mut n: usize = 0;
        assert(ids@ =~= Seq::empty());
        while n < self.scans.len()
            invariant
                n <= self.scans@.len(),
                ids@ == orphans(self.scans@, n as nat),
            decreases self.scans@.len() - n,
        {
            let scan = &self.scans[n];
            if text_eq(scan.status.as_str(), "running") && scan.completed_at.is_none() {
                ids.push(scan.id);
            }
            n = n + 1;
        }
        ids
    }

    /// Takes in the scans that are stored, and selects the first where none is selected.
    pub fn scans_loaded(&mut self, scans: Vec<Scan>)
        requires
            old(self).well_formed(),
        ensures
            final(self).well_formed(),
            final(self)@ == (AppState {
                scans: scans@,
                scan_selected: if scans@.len() > 0 && old(self)@.scan_selected is None {
                    Some(0)
                } else {
                    old(self)@.scan_selected
                },
                ..old(self)@
            }),
    {
        self.scans = scans;
        if self.scans.len() > 0 && self.scan_selected.is_none() {
            self.scan_selected = Some(0);
        }
    }

    fn fold_deep_directories(&mut self)
        requires
            old(self).well_formed(),
        ensures
            final(self).well_formed(),
            final(self)@ == (AppState { folded: deep_directories(old(self)@.files), ..old(self)@ }),
    {
        let ghost files = self.file_entries@;
        self.folded_dirs.clear();
        let mut i: usize = 0;
        while i < self.file_entries.len()
            invariant
                i <= self.file_entries@.len(),
                self.well_formed(),
                files == self.file_entries@,
                self@ == (AppState { folded: self.folded_dirs@, ..old(self)@ }),
                forall|s: Seq<char>| #[trigger]
                    self.folded_dirs@.contains(s) <==> exists|k: int|
                        0 <= k < i && (#[trigger] files[k]).path@ == s && files[k].is_dir
                            && files[k].depth > 0,
            decreases self.file_entries@.len() - i,
        {
            let ghost before = self.folded_dirs@;
            if self.file_entries[i].is_dir && self.file_entries[i].depth > 0 {
                let path = self.file_entries[i].path.clone();
                self.folded_dirs.insert(path);
            }
            assert forall|s: Seq<char>| #[trigger]
                self.folded_dirs@.contains(s) <==> exists|k: int|
                    0 <= k < i + 1 && (#[trigger] files[k]).path@ == s && files[k].is_dir
                        && files[k].depth > 0 by {
                if before.contains(s) {
                    let k = choose|k: int|
                        0 <= k < i && (#[trigger] files[k]).path@ == s && files[k].is_dir
                            && files[k].depth > 0;
                    assert(files[k].path@ == s);
                }
                if s == files[i as int].path@ {
                    assert(files[i as int].path@ == s);
                }
            }
            i = i + 1;
        }
        assert(self.folded_dirs@ =~= deep_directories(files));
    }

    /// Takes in the entries of the scan that was opened: they are shown, with every directory but
    /// the root folded. Where they could not be read, the message says so.
    pub fn entries_loaded(&mut self, entries: Result<Vec<StoredFileEntry>, String>)
        requires
            old(self).well_formed(),
        ensures
            final(self).well_formed(),
            match entries {
                Ok(list) => final(self)@ == (AppState {
                    files: list@,
                    file_selected: Some(0),
                    view: types::View::FileTree,
                    folded: deep_directories(list@),
                    status: "Loaded "@ + decimal(list@.len()) + " entries"@,
                    ..old(self)@
                }),
                Err(e) => final(self)@ == old(self)@.saying("Error: "@ + e@),
            },
    {
        match entries {
            Ok(list) => {
                let count: usize = list.len();
                self.file_entries = list;
                self.file_selected = Some(0);
                self.view = types::View::FileTree;
                self.fold_deep_directories();
                self.status_message = phrase("Loaded ", usize_text(count).as_str(), " entries");
            },
            Err(e) => {
                self.status_message = with_error("Error: ", e.as_str());
            },
        }
    }

    /// Takes in what is marked, which is then shown.
    pub fn cleanup_loaded(&mut self, items: Result<Vec<StoredFileEntry>, String>)
        requires
            old(self).well_formed(),
        ensures
            final(self).well_formed(),
            match items {
                Ok(list) => final(self)@ == (AppState {
                    cleanup: list@,
                    cleanup_selected: if list@.len() > 0 {
                        Some(0)
                    } else {
                        old(self)@.cleanup_selected
                    },
                    view: types::View::CleanupList,
                    status: "Loaded "@ + decimal(list@.len()) + " cleanup items"@,
                    ..old(self)@
                }),
                Err(e) => final(self)@ == old(self)@.saying("Error: "@ + e@),
            },
    {
        match items {
            Ok(list) => {
                let count: usize = list.len();
                self.cleanup_items = list;
                if count > 0 {
                    self.cleanup_selected = Some(0);
                }
                self.view = types::View::CleanupList;
                self.status_message =
                phrase("Loaded ", usize_text(count).as_str(), " cleanup items");
            },
            Err(e) => {
                self.status_message = with_error("Error: ", e.as_str());
            },
        }
    }

    /// Takes in what is marked after the mark was taken from the entry called `name`, which stood
    /// at `selected`.
    pub fn cleanup_removed(
        &mut self,
        items: Result<Vec<StoredFileEntry>, String>,
        name: &str,
        selected: usize,
    )
        requires
            old(self).well_formed(),
        ensures
            final(self).well_formed(),
            match items {
                Ok(list) => final(self)@ == (AppState {
                    cleanup: list@,
                    cleanup_selected: if list@.len() == 0 {
                        old(self)@.cleanup_selected
                    } else if selected < list@.len() {
                        Some(selected)
                    } else {
                        Some((list@.len() - 1) as usize)
                    },
                    status: "Removed '"@ + name@ + "' from cleanup"@,
                    ..old(self)@
                }),
                Err(e) => final(self)@ == old(self)@.saying("Error: "@ + e@),
            },
    {
        match items {
            Ok(list) => {
                let count: usize = list.len();
                self.cleanup_items = list;
                if count > 0 {
                    self.cleanup_selected =
                    Some(
                        if selected < count {
                            selected
                        } else {
                            count - 1
                        },
                    );
                }
                self.status_message = phrase("Removed '", name, "' from cleanup");
            },
            Err(e) => {
                self.status_message = with_error("Error: ", e.as_str());
            },
        }
    }

    /// Takes in that the entry called `name` was marked, or that its mark was taken away.
    pub fn mark_changed(&mut self, outcome: Result<bool, String>, name: &str)
        requires
            old(self).well_formed(),
        ensures
            final(self).well_formed(),
            final(self)@ == old(self)@.saying(
                match outcome {
                    Ok(now_marked) => if now_marked {
                        "Marked '"@ + name@ + "' for cleanup"@
                    } else {
                        "Removed '"@ + name@ + "' from cleanup"@
                    },
                    Err(e) => "Error: "@ + e@,
                },
            ),
    {
        self.status_message =
        match outcome {
            Ok(now_marked) => if now_marked {
                phrase("Marked '", name, "' for cleanup")
            } else {
                phrase("Removed '", name, "' from cleanup")
            },
            Err(e) => with_error("Error: ", e.as_str()),
        };
    }

    /// Takes in that the script was written.
    pub fn script_written(&mut self, outcome: Result<(), String>)
        requires
            old(self).well_formed(),
        ensures
            final(self).well_formed(),
            final(self)@ == old(self)@.saying(
                match outcome {
                    Ok(_) => "Generated "@ + SCRIPT_NAME@ + " - Review before running!"@,
                    Err(e) => "Error writing script: "@ + e@,
                },
            ),
    {
        self.status_message =
        match outcome {
            Ok(_) => phrase("Generated ", SCRIPT_NAME, " - Review before running!"),
            Err(e) => with_error("Error writing script: ", e.as_str()),
        };
    }

    /// Gets ready to scan what was typed, and says which directory that is.
    pub fn start_scan(&mut self, input: &str, home: Option<&str>) -> (path: String)
        requires
            old(self).well_formed(),
        ensures
            final(self).well_formed(),
            is_expansion(input@, seen(home), path@),
            final(self)@ == (AppState {
                view: types::View::Scanning,
                progress: no_progress(),
                ..old(self)@
            }),
    {
        self.view = types::View::Scanning;
        self.scan_progress = fresh_progress();
        expand_home(input, home)
    }

    /// Takes in that the scan runs now, or that it could not be started.
    pub fn scan_started(&mut self, outcome: Result<(), String>)
        requires
            old(self).well_formed(),
        ensures
            final(self).well_formed(),
            match outcome {
                Ok(_) => final(self)@ == (AppState {
                    scanning: true,
                    cancelled: false,
                    ..old(self)@
                }),
                Err(e) => final(self)@ == (AppState {
                    view: old(self)@.previous_view,
                    ..old(self)@
                }).saying("Scan error: "@ + e@),
            },
    {
        match outcome {
            Ok(_) => {
                self.scanning = true;
                self.cancelled = false;
            },
            Err(e) => {
                self.status_message = with_error("Scan error: ", e.as_str());
                self.view = self.previous_view;
            },
        }
    }

    /// Takes in how far the scan has come.
    pub fn scan_progressed(&mut self, update: ProgressUpdate)
        requires
            old(self).well_formed(),
        ensures
            final(self).well_formed(),
            final(self)@ == (AppState {
                progress: if old(self)@.scanning {
                    Some(
                        Progress {
                            entries_scanned: update.files_scanned,
                            active_dirs: update.active_dirs@,
                            active_workers: update.active_workers,
                        },
                    )
                } else {
                    old(self)@.progress
                },
                ..old(self)@
            }),
    {
        if self.scanning {
            self.scan_progress =
            Some(
                ScanProgress {
                    entries_scanned: update.files_scanned,
                    active_dirs: update.active_dirs,
                    active_workers: update.active_workers,
                },
            );
        }
    }
}

/// The message that a scan leaves.
pub open spec fn ending(stats: ScanStats, cancelled: bool) -> Seq<char> {
    if cancelled {
        "Scan paused. Progress saved: "@ + decimal(stats.total_files as nat) + " files, "@
            + decimal(stats.total_dirs as nat) + " dirs. Press 'r' to resume."@
    } else {
        "Scan complete! "@ + decimal(stats.total_files as nat) + " files, "@ + decimal(
            stats.total_dirs as nat,
        ) + " dirs, "@ + decimal(stats.total_size as nat) + " bytes"@
    }
}

/// The state after a scan ended.
pub open spec fn scan_over(s: AppState, outcome: ScanOutcome) -> AppState {
    let idle = AppState { scanning: false, cancelled: false, ..s };
    let back = AppState { view: types::View::ScanList, progress: None, ..idle };
    match outcome {
        ScanOutcome::Finished { stats, stored } => if stored {
            back.saying(ending(stats, s.cancelled))
        } else {
            idle
        },
        ScanOutcome::Failed { error } => back.saying("Scan error: "@ + error@),
        ScanOutcome::Lost { error } => back.saying("Scan join error: "@ + error@),
    }
}

fn ending_text(stats: ScanStats, cancelled: bool) -> (s: String)
    ensures
        s@ == ending(stats, cancelled),
{
    if cancelled {
        let mut s = "Scan paused. Progress saved: ".to_owned();
        s.append(u64_text(stats.total_files).as_str());
        s.append(" files, ");
        s.append(u64_text(stats.total_dirs).as_str());
        s.append(" dirs. Press 'r' to resume.");
        s
    } else {
        let mut s = "Scan complete! ".to_owned();
        s.append(u64_text(stats.total_files).as_str());
        s.append(" files, ");
        s.append(u64_text(stats.total_dirs).as_str());
        s.append(" dirs, ");
        s.append(u64_text(stats.total_size).as_str());
        s.append(" bytes");
        s
    }
}

impl App {
    /// Takes in how the scan ended: what is left to be stored of it. One that was stopped is
    /// paused, any other is complete.
    pub fn scan_finished(&mut self, outcome: ScanOutcome) -> (closing: Closing)
        requires
            old(self).well_formed(),
        ensures
            final(self).well_formed(),
            final(self)@ == scan_over(old(self)@, outcome),
            closing == match outcome {
                ScanOutcome::Finished { stats, stored } => if !stored {
                    Closing::Nothing
                } else if old(self)@.cancelled {
                    Closing::Pause(stats)
                } else {
                    Closing::Complete(stats)
                },
                _ => Closing::Nothing,
            },
    {
        let stopped = self.cancelled;
        self.scanning = false;
        self.cancelled = false;
        match outcome {
            ScanOutcome::Finished { stats, stored } => {
                if stored {
                    self.status_message = ending_text(stats, stopped);
                    self.view = types::View::ScanList;
                    self.scan_progress = None;
                    if stopped {
                        Closing::Pause(stats)
                    } else {
                        Closing::Complete(stats)
                    }
                } else {
                    Closing::Nothing
                }
            },
            ScanOutcome::Failed { error } => {
                self.status_message = with_error("Scan error: ", error.as_str());
                self.view = types::View::ScanList;
                self.scan_progress = None;
                Closing::Nothing
            },
            ScanOutcome::Lost { error } => {
                self.status_message = with_error("Scan join error: ", error.as_str());
                self.view = types::View::ScanList;
                self.scan_progress = None;
                Closing::Nothing
            },
        }
    }

    /// Lets time pass: the sign for a deletion under way turns.
    pub fn tick(&mut self)
        requires
            old(self).well_formed(),
        ensures
            final(self).well_formed(),
            final(self)@ == (AppState {
                throbber: if old(self)@.deleting {
                    ((old(self)@.throbber + 1) % 8) as usize
                } else {
                    old(self)@.throbber
                },
                ..old(self)@
            }),
    {
        if self.deleting {
            self.throbber = (self.throbber % 8 + 1) % 8;
        }
    }

    /// Takes in how the deletion ended.
    pub fn delete_finished(&mut self, outcome: DeleteOutcome)
        requires
            old(self).well_formed(),
        ensures
            final(self).well_formed(),
            final(self)@ == (AppState {
                deleting: false,
                delete_scan_id: None,
                view: types::View::ScanList,
                ..old(self)@
            }).saying(
                match outcome {
                    DeleteOutcome::Deleted { scan_id } => "Deleted scan "@ + signed_decimal(
                        scan_id as int,
                    ),
                    DeleteOutcome::Failed { error } => "Delete error: "@ + error@,
                    DeleteOutcome::Lost { error } => "Delete task error: "@ + error@,
                },
            ),
    {
        self.status_message =
        match outcome {
            DeleteOutcome::Deleted { scan_id } => with_error(
                "Deleted scan ",
                i64_text(scan_id).as_str(),
            ),
            DeleteOutcome::Failed { error } => with_error("Delete error: ", error.as_str()),
            DeleteOutcome::Lost { error } => with_error("Delete task error: ", error.as_str()),
        };
        self.deleting = false;
        self.delete_scan_id = None;
        self.view = types::View::ScanList;
    }

    /// Takes in that `known` paths of the scan are stored: the scan that goes on, with the
    /// directory to scan. There is none where none was being prepared.
    pub fn resume_ready(&mut self, known: usize, home: Option<&str>) -> (go: Option<(i64, String)>)
        requires
            old(self).well_formed(),
        ensures
            final(self).well_formed(),
            match old(self)@.resuming {
                Some((scan_id, path)) => {
                    &&& go is Some
                    &&& (go->0).0 == scan_id
                    &&& is_expansion(path, seen(home), (go->0).1@)
                    &&& final(self)@ == (AppState {
                        resuming: None,
                        view: types::View::Scanning,
                        progress: no_progress(),
                        scanning: true,
                        cancelled: false,
                        ..old(self)@
                    }).saying(
                        "Resuming scan, skipping "@ + decimal(known as nat)
                            + " already-scanned paths..."@,
                    )
                },
                None => go is None && final(self)@ == old(self)@,
            },
    {
        let mut resuming: Option<(i64, String)> = None;
        std::mem::swap(&mut resuming, &mut self.resuming);
        match resuming {
            Some((scan_id, path)) => {
                self.view = types::View::Scanning;
                self.scan_progress = fresh_progress();
                self.scanning = true;
                self.cancelled = false;
                self.status_message =
                phrase(
                    "Resuming scan, skipping ",
                    usize_text(known).as_str(),
                    " already-scanned paths...",
                );
                Some((scan_id, expand_home(path.as_str(), home)))
            },
            None => None,
        }
    }

    /// Takes in that the stored paths could not be read, or that nothing was heard of them.
    pub fn resume_failed(&mut self, error: &str, lost: bool)
        requires
            old(self).well_formed(),
        ensures
            final(self).well_formed(),
            final(self)@ == (AppState {
                resuming: None,
                view: types::View::ScanList,
                ..old(self)@
            }).saying(
                (if lost {
                    "Resume preparation task error: "@
                } else {
                    "Error loading scan paths: "@
                }) + error@,
            ),
    {
        self.resuming = None;
        self.view = types::View::ScanList;
        self.status_message =
        with_error(
            if lost {
                "Resume preparation task error: "
            } else {
                "Error loading scan paths: "
            },
            error,
        );
    }

    /// The settings as they are now.
    pub fn current_settings(&self) -> (settings: Settings)
        ensures
            settings == (Settings {
                ui: UiSettings {
                    file_tree_sort: self@.file_tree_sort,
                    scan_list_sort: self@.scan_list_sort,
                    auto_fold_depth: 1,
                },
            }),
    {
        Settings {
            ui: UiSettings {
                file_tree_sort: self.file_tree_sort,
                scan_list_sort: self.scan_list_sort,
                auto_fold_depth: 1,
            },
        }
    }

    /// Takes in whether the settings were saved.
    pub fn settings_saved(&mut self, outcome: Result<(), String>)
        requires
            old(self).well_formed(),
        ensures
            final(self).well_formed(),
            match outcome {
                Ok(_) => final(self)@ == old(self)@,
                Err(e) => final(self)@ == old(self)@.saying("Error saving settings: "@ + e@),
            },
    {
        match outcome {
            Ok(_) => {},
            Err(e) => {
                self.status_message = with_error("Error saving settings: ", e.as_str());
            },
        }
    }

    /// Takes in whether the settings were saved where they are kept by default.
    pub fn default_restored(&mut self, path: String, outcome: Result<(), String>)
        requires
            old(self).well_formed(),
        ensures
            final(self).well_formed(),
            match outcome {
                Ok(_) => final(self)@ == (AppState {
                    settings_path: path@,
                    ..old(self)@
                }).saying("Config path restored to default: "@ + path@),
                Err(e) => final(self)@ == old(self)@.saying("Error restoring to default: "@ + e@),
            },
    {
        match outcome {
            Ok(_) => {
                self.status_message =
                with_error("Config path restored to default: ", path.as_str());
                self.settings_path = path;
            },
            Err(e) => {
                self.status_message = with_error("Error restoring to default: ", e.as_str());
            },
        }
    }

    /// Takes in whether the settings were saved at the new path and, if so, what was read from
    /// there.
    pub fn config_moved(
        &mut self,
        path: String,
        outcome: Result<Result<Settings, String>, String>,
    )
        requires
            old(self).well_formed(),
        ensures
            final(self).well_formed(),
            match outcome {
                Ok(Ok(settings)) => final(self)@ == (AppState {
                    settings_path: path@,
                    file_tree_sort: settings.ui.file_tree_sort,
                    scan_list_sort: settings.ui.scan_list_sort,
                    ..old(self)@
                }).saying("Config path updated and loaded: "@ + path@),
                Ok(Err(e)) => final(self)@ == (AppState {
                    settings_path: path@,
                    ..old(self)@
                }).saying("Path updated but error loading: "@ + e@),
                Err(e) => final(self)@ == old(self)@.saying("Error saving to new path: "@ + e@),
            },
    {
        match outcome {
            Ok(Ok(settings)) => {
                self.file_tree_sort = settings.ui.file_tree_sort;
                self.scan_list_sort = settings.ui.scan_list_sort;
                self.status_message =
                with_error("Config path updated and loaded: ", path.as_str());
                self.settings_path = path;
            },
            Ok(Err(e)) => {
                self.status_message = with_error("Path updated but error loading: ", e.as_str());
                self.settings_path = path;
            },
            Err(e) => {
                self.status_message = with_error("Error saving to new path: ", e.as_str());
            },
        }
    }

    /// The path that was typed, with the home directory in place of the sign for it.
    pub fn typed_path(&self, home: Option<&str>) -> (path: String)
        ensures
            is_expansion(self@.path_input, seen(home), path@),
    {
        expand_home(self.path_input.as_str(), home)
    }

    /// Takes in the path that was typed, and whether something is there. Where it is another than
    /// before, the change has to be confirmed.
    pub fn path_typed(&mut self, new_path: String, exists_there: bool)
        requires
            old(self).well_formed(),
            old(self).editing is Some,
        ensures
            final(self).well_formed(),
            ({
                let idx = old(self)@.editing->0;
                let old_path = if idx == 0 {
                    old(self)@.settings_path
                } else {
                    old(self)@.db_path
                };
                final(self)@ == if same_place(new_path@, old_path) {
                    edited(old(self)@).saying("Path unchanged"@)
                } else {
                    AppState {
                        pending: Some((idx, new_path@, old_path)),
                        pending_exists: exists_there,
                        view: types::View::ConfirmPathChange,
                        ..edited(old(self)@)
                    }
                }
            }),
    {
        let idx: usize = match self.editing {
            Some(i) => i,
            None => 0,
        };
        let old_path = if idx == 0 {
            self.settings_path.clone()
        } else {
            self.db_path.clone()
        };
        self.editing = None;
        self.path_input = String::new();
        self.cursor = 0;
        assert(self@.path_input =~= Seq::empty());
        if same_path(new_path.as_str(), old_path.as_str()) {
            self.status_message = "Path unchanged".to_owned();
        } else {
            self.pending = Some((idx, new_path, old_path));
            self.pending_exists = exists_there;
            self.view = types::View::ConfirmPathChange;
        }
    }
}

/// What to do about the mark of an entry.
#[derive(Debug, Clone, Copy, PartialEq, Eq, Structural)]
pub enum MarkChange {
    Mark,
    Unmark,
}

/// Whether the entry is to be marked or its mark taken away, from what is marked.
pub open spec fn change_for(items: Seq<StoredFileEntry>, entry_id: i64) -> MarkChange {
    if marked(items, entry_id) {
        MarkChange::Unmark
    } else {
        MarkChange::Mark
    }
}

/// Whether the entry is to be marked or its mark taken away, from what is marked.
pub fn mark_change(items: &Vec<StoredFileEntry>, entry_id: i64) -> (change: MarkChange)
    ensures
        change == change_for(items@, entry_id),
{
    if is_marked(items, entry_id) {
        MarkChange::Unmark
    } else {
        MarkChange::Mark
    }
}

/// `after` lists what is marked once `change` was made to the mark of `e`, where `before` listed it
/// until then. In which order the marked entries are listed is left open.
pub open spec fn lists_after(
    before: Seq<StoredFileEntry>,
    e: StoredFileEntry,
    change: MarkChange,
    after: Seq<StoredFileEntry>,
) -> bool {
    after.to_set() == match change {
        MarkChange::Mark => before.to_set().insert(e),
        MarkChange::Unmark => before.to_set().filter(|x: StoredFileEntry| x.id != e.id),
    }
}

/// Changing the mark of an entry twice, each time as the list then calls for, leaves marked what
/// was marked before; one of the two changes marks the entry and the other takes the mark away.
pub proof fn law_mark_changed_twice(
    before: Seq<StoredFileEntry>,
    between: Seq<StoredFileEntry>,
    after: Seq<StoredFileEntry>,
    e: StoredFileEntry,
)
    requires
        forall|i: int| 0 <= i < before.len() && (#[trigger] before[i]).id == e.id ==> before[i] == e,
        lists_after(before, e, change_for(before, e.id), between),
        lists_after(between, e, change_for(between, e.id), after),
    ensures
        after.to_set() == before.to_set(),
        change_for(between, e.id) != change_for(before, e.id),
        change_for(after, e.id) == change_for(before, e.id),
{
    lemma_marked_in_set(before, e.id);
    lemma_marked_in_set(between, e.id);
    lemma_marked_in_set(after, e.id);
    let old_set = before.to_set();
    let mid = between.to_set();
    if marked(before, e.id) {
        assert(!marked(between, e.id));
        let i = choose|i: int| 0 <= i < before.len() && (#[trigger] before[i]).id == e.id;
        assert(before.contains(before[i]));
        assert(old_set.contains(e));
        assert forall|x: StoredFileEntry| old_set.contains(x) && x.id == e.id implies x == e by {
            let k = choose|k: int| 0 <= k < before.len() && before[k] == x;
            assert(before[k].id == e.id);
        }
        assert(after.to_set() =~= old_set);
    } else {
        assert(mid.contains(e));
        assert(marked(between, e.id));
        assert forall|x: StoredFileEntry| old_set.contains(x) implies x.id != e.id by {
            if x.id == e.id {
                assert(marked(before, e.id));
            }
        }
        assert(after.to_set() =~= old_set);
    }
}

proof fn lemma_marked_in_set(items: Seq<StoredFileEntry>, id: i64)
    ensures
        marked(items, id) <==> exists|x: StoredFileEntry| #[trigger]
            items.to_set().contains(x) && x.id == id,
{
    if marked(items, id) {
        let i = choose|i: int| 0 <= i < items.len() && (#[trigger] items[i]).id == id;
        assert(items.contains(items[i]));
        assert(items.to_set().contains(items[i]));
    }
    if exists|x: StoredFileEntry| #[trigger] items.to_set().contains(x) && x.id == id {
        let x = choose|x: StoredFileEntry| #[trigger] items.to_set().contains(x) && x.id == id;
        let i = choose|i: int| 0 <= i < items.len() && items[i] == x;
        assert(items[i].id == id);
    }
}

} // verus!
