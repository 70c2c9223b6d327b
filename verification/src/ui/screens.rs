//! What the browser shows, line by line.
use vstd::prelude::*;

use crate::bytes::{
    byte_place, can_truncate, insert_char, inserted_at, is_place, smart_truncate_path, truncatable,
    truncated,
};
use crate::db::{Scan, StoredFileEntry};
use crate::format::{format_size, megabytes, megabytes_text, size_text};
use crate::text::{
    decimal, i64_text, pad_left, padded_left, repeat_char, repeated, signed_decimal, text_eq,
    u64_text, usize_text,
};
use crate::time::{date_text, format_date, has_date, TO_THE_MINUTE};
use crate::ui::app::{phrase, App};
use crate::ui::state::AppState;
use crate::ui::types;

verus! {

/// How a text is meant.
#[derive(Debug, Clone, Copy, PartialEq, Eq, Structural)]
pub enum Tone {
    Plain,
    Heading,
    Topic,
    Strong,
    Alarm,
    Bad,
    Good,
    Hint,
    Faint,
    Typed,
}

/// A line: a text, which another may stand in front of.
#[derive(Debug)]
pub struct Line {
    pub head: String,
    pub head_tone: Tone,
    pub text: String,
    pub tone: Tone,
}

/// A line, with texts as sequences.
pub ghost struct Shown {
    pub head: Seq<char>,
    pub head_tone: Tone,
    pub text: Seq<char>,
    pub tone: Tone,
}

impl View for Line {
    type V = Shown;

    open spec fn view(&self) -> Shown {
        Shown {
            head: self.head@,
            head_tone: self.head_tone,
            text: self.text@,
            tone: self.tone,
        }
    }
}

/// The lines as they are shown.
pub open spec fn shown(lines: Seq<Line>) -> Seq<Shown> {
    Seq::new(lines.len(), |i: int| lines[i]@)
}

/// A line without a head.
pub open spec fn plain_line(text: Seq<char>, tone: Tone) -> Shown {
    Shown { head: Seq::empty(), head_tone: Tone::Plain, text, tone }
}

/// A line with a head.
pub open spec fn headed_line(head: Seq<char>, head_tone: Tone, text: Seq<char>, tone: Tone) -> Shown {
    Shown { head, head_tone, text, tone }
}

fn no_lines() -> (lines: Vec<Line>)
    ensures
        shown(lines@) == Seq::<Shown>::empty(),
{
    let lines: Vec<Line> = Vec::new();
    assert(shown(lines@) =~= Seq::empty());
    lines
}

fn say(lines: &mut Vec<Line>, text: &str, tone: Tone)
    ensures
        shown(final(lines)@) == shown(old(lines)@).push(plain_line(text@, tone)),
{
    let line = Line {
        head: String::new(),
        head_tone: Tone::Plain,
        text: text.to_owned(),
        tone,
    };
    assert(line@.head =~= Seq::empty());
    lines.push(line);
    assert(shown(lines@) =~= shown(old(lines)@).push(plain_line(text@, tone)));
}

fn say_headed(lines: &mut Vec<Line>, head: &str, head_tone: Tone, text: &str, tone: Tone)
    ensures
        shown(final(lines)@) == shown(old(lines)@).push(
            headed_line(head@, head_tone, text@, tone),
        ),
{
    lines.push(Line { head: head.to_owned(), head_tone, text: text.to_owned(), tone });
    assert(shown(lines@) =~= shown(old(lines)@).push(headed_line(head@, head_tone, text@, tone)));
}

fn joined_text(before: &str, after: &str) -> (s: String)
    ensures
        s@ == before@ + after@,
{
    let mut s = before.to_owned();
    s.append(after);
    s
}

/// The sign for the status of a scan.
pub open spec fn status_sign(status: Seq<char>) -> Seq<char> {
    if status == "completed"@ {
        "✓"@
    } else if status == "running"@ {
        "⟳"@
    } else if status == "paused"@ {
        "⏸"@
    } else {
        "✗"@
    }
}

fn status_icon(status: &str) -> (sign: &'static str)
    ensures
        sign@ == status_sign(status@),
{
    if text_eq(status, "completed") {
        "✓"
    } else if text_eq(status, "running") {
        "⟳"
    } else if text_eq(status, "paused") {
        "⏸"
    } else {
        "✗"
    }
}

/// The line for a scan in the list of scans.
pub open spec fn scan_line(scan: Scan) -> Seq<char> {
    status_sign(scan.status@) + " "@ + scan.root_path@ + " | "@ + signed_decimal(
        scan.total_files as int,
    ) + " files | "@ + megabytes(scan.total_size as int) + " MB | "@ + date_text(
        scan.started_at.secs,
        scan.started_at.nanos,
        TO_THE_MINUTE@,
    )
}

/// The line for a scan in the list of scans. There is none where the calendar does not reach its
/// start.
pub fn scan_row(scan: &Scan) -> (row: Option<String>)
    ensures
        row is Some <==> has_date(scan.started_at.secs, scan.started_at.nanos),
        row is Some ==> row->0@ == scan_line(*scan),
{
    match format_date(scan.started_at, TO_THE_MINUTE) {
        Some(date) => {
            let mut s = status_icon(scan.status.as_str()).to_owned();
            s.append(" ");
            s.append(scan.root_path.as_str());
            s.append(" | ");
            s.append(i64_text(scan.total_files).as_str());
            s.append(" files | ");
            s.append(megabytes_text(scan.total_size).as_str());
            s.append(" MB | ");
            s.append(date.as_str());
            Some(s)
        },
        None => None,
    }
}

/// A stored size as the unsigned number that it stands for.
pub open spec fn unsigned(n: i64) -> nat {
    if n >= 0 {
        n as nat
    } else {
        (n + 0x1_0000_0000_0000_0000) as nat
    }
}

/// A stored size as the unsigned number that it stands for.
pub fn unsigned_size(n: i64) -> (u: u64)
    ensures
        u == unsigned(n),
{
    if n >= 0 {
        n as u64
    } else {
        u64::MAX - ((-(n + 1)) as u64)
    }
}

/// The line for a file or directory in the file tree.
pub open spec fn file_line(e: StoredFileEntry, folded: bool) -> Seq<char> {
    repeated(' ', (2 * e.depth) as nat) + (if e.is_dir {
        if folded {
            "▶ 📁"@
        } else {
            "▼ 📁"@
        }
    } else {
        "  📄"@
    }) + " "@ + e.name@ + " ("@ + size_text(unsigned(e.size)) + ")"@
}

/// The line for a file or directory in the file tree.
pub fn file_row(e: &StoredFileEntry, folded: bool) -> (row: String)
    requires
        0 <= e.depth,
        2 * e.depth <= usize::MAX,
    ensures
        row@ == file_line(*e, folded),
{
    let mut s = repeat_char(' ', 2 * (e.depth as usize));
    s.append(
        if e.is_dir {
            if folded {
                "▶ 📁"
            } else {
                "▼ 📁"
            }
        } else {
            "  📄"
        },
    );
    s.append(" ");
    s.append(e.name.as_str());
    s.append(" (");
    s.append(format_size(unsigned_size(e.size)).as_str());
    s.append(")");
    s
}

/// The title of the file tree.
pub open spec fn files_heading(scan: Option<Scan>) -> Seq<char> {
    match scan {
        Some(scan) => "Files (2) | Scan: "@ + scan.root_path@
            + " | z: fold/unfold | Z: unfold all | Space: mark"@,
        None => "Files (2)"@,
    }
}

/// The lines about the selected file.
pub open spec fn file_info(file: Option<StoredFileEntry>) -> Seq<Shown> {
    match file {
        Some(e) => seq![
            headed_line(
                "Type: "@,
                Tone::Topic,
                if e.is_dir {
                    "Directory"@
                } else {
                    "File"@
                },
                Tone::Plain,
            ),
            headed_line("Name: "@, Tone::Topic, e.name@, Tone::Plain),
            headed_line("Path: "@, Tone::Topic, e.path@, Tone::Plain),
            headed_line("Size: "@, Tone::Topic, size_text(unsigned(e.size)), Tone::Plain),
        ],
        None => seq![plain_line("No file selected"@, Tone::Plain)],
    }
}

/// The sum of the first `n` sizes.
pub open spec fn size_sum(items: Seq<StoredFileEntry>, n: nat) -> int
    decreases n,
{
    if n == 0 {
        0
    } else {
        size_sum(items, (n - 1) as nat) + items[n - 1].size
    }
}

/// Whether the sizes can be added one after the other.
pub open spec fn sizes_add(items: Seq<StoredFileEntry>) -> bool {
    forall|n: nat|
        n <= items.len() ==> i64::MIN <= #[trigger] size_sum(items, n) <= i64::MAX
}

/// The title of the list of what is marked.
pub open spec fn cleanup_heading(items: Seq<StoredFileEntry>) -> Seq<char> {
    "Cleanup List (3) | "@ + decimal(items.len()) + " items | "@ + size_text(
        unsigned(size_sum(items, items.len()) as i64),
    ) + " total | 'g' to generate script | Space to remove"@
}

/// The title of the list of what is marked. There is none where the sizes cannot be added.
pub fn cleanup_title(items: &Vec<StoredFileEntry>) -> (title: Option<String>)
    ensures
        title is Some <==> sizes_add(items@),
        title is Some ==> title->0@ == cleanup_heading(items@),
{
    let mut sum: i64 = 0;
    let mut n: usize = 0;
    while n < items.len()
        invariant
            n <= items@.len(),
            sum == size_sum(items@, n as nat),
            forall|m: nat| m <= n ==> i64::MIN <= #[trigger] size_sum(items@, m) <= i64::MAX,
        decreases items@.len() - n,
    {
        assert(size_sum(items@, (n + 1) as nat) == sum + items@[n as int].size);
        match sum.checked_add(items[n].size) {
            Some(s) => {
                sum = s;
            },
            None => {
                return None;
            },
        }
        n = n + 1;
    }
    let mut s = "Cleanup List (3) | ".to_owned();
    s.append(usize_text(items.len()).as_str());
    s.append(" items | ");
    s.append(format_size(unsigned_size(sum)).as_str());
    s.append(" total | 'g' to generate script | Space to remove");
    Some(s)
}

/// The line for an entry in the list of what is marked.
pub open spec fn cleanup_line(e: StoredFileEntry) -> Seq<char> {
    (if e.is_dir {
        "📁"@
    } else {
        "📄"@
    }) + " "@ + e.path@ + " ("@ + size_text(unsigned(e.size)) + ")"@
}

/// The line for an entry in the list of what is marked.
pub fn cleanup_row(e: &StoredFileEntry) -> (row: String)
    ensures
        row@ == cleanup_line(*e),
{
    let mut s = (if e.is_dir {
        "📁"
    } else {
        "📄"
    }).to_owned();
    s.append(" ");
    s.append(e.path.as_str());
    s.append(" (");
    s.append(format_size(unsigned_size(e.size)).as_str());
    s.append(")");
    s
}

/// The sign that turns.
pub open spec fn throbber_sign(frame: nat) -> char {
    seq!['⠋', '⠙', '⠹', '⠸', '⠼', '⠴', '⠦', '⠧'][(frame % 8) as int]
}

fn throbber_char(frame: usize) -> (c: char)
    ensures
        c == throbber_sign(frame as nat),
{
    let k: usize = frame % 8;
    if k == 0 {
        '⠋'
    } else if k == 1 {
        '⠙'
    } else if k == 2 {
        '⠹'
    } else if k == 3 {
        '⠸'
    } else if k == 4 {
        '⠼'
    } else if k == 5 {
        '⠴'
    } else if k == 6 {
        '⠦'
    } else {
        '⠧'
    }
}

/// The path of the scan with this number.
pub open spec fn path_of_scan(scans: Seq<Scan>, id: i64) -> Seq<char>
    decreases scans.len(),
{
    if scans.len() == 0 {
        "unknown"@
    } else if scans[0].id == id {
        scans[0].root_path@
    } else {
        path_of_scan(scans.skip(1), id)
    }
}

fn find_scan_path(scans: &Vec<Scan>, id: i64) -> (path: String)
    ensures
        path@ == path_of_scan(scans@, id),
{
    let mut i: usize = 0;
    assert(scans@.skip(0) =~= scans@);
    while i < scans.len()
        invariant
            i <= scans@.len(),
            path_of_scan(scans@, id) == path_of_scan(scans@.skip(i as int), id),
        decreases scans@.len() - i,
    {
        assert(scans@.skip(i as int)[0] == scans@[i as int]);
        assert(scans@.skip(i as int).skip(1) =~= scans@.skip(i + 1));
        if scans[i].id == id {
            return scans[i].root_path.clone();
        }
        i = i + 1;
    }
    "unknown".to_owned()
}

/// The lines that ask whether the scan is to be deleted.
pub open spec fn confirm_delete_text(s: AppState) -> Seq<Shown> {
    let blank = plain_line(""@, Tone::Plain);
    match s.delete_scan_id {
        Some(id) => seq![
            blank,
            plain_line("Delete Scan?"@, Tone::Alarm),
            blank,
            plain_line("Scan ID: "@ + signed_decimal(id as int), Tone::Plain),
            plain_line("Path: "@ + path_of_scan(s.scans, id), Tone::Plain),
            blank,
            plain_line("This will permanently delete all scan data."@, Tone::Topic),
            blank,
            plain_line("Press Y to confirm deletion, N/Esc to cancel"@, Tone::Hint),
        ],
        None => seq![blank],
    }
}

/// The lines while a scan is deleted.
pub open spec fn deleting_text(s: AppState) -> Seq<Shown> {
    let blank = plain_line(""@, Tone::Plain);
    let head = seq![
        blank,
        plain_line(
            seq![throbber_sign(s.throbber as nat)] + " Deleting scan..."@,
            Tone::Strong,
        ),
        blank,
    ];
    match s.delete_scan_id {
        Some(id) => head.push(plain_line("Scan ID: "@ + signed_decimal(id as int), Tone::Plain)).push(
            plain_line("Path: "@ + path_of_scan(s.scans, id), Tone::Plain),
        ).push(blank).push(plain_line("Removing scan data from database..."@, Tone::Faint)),
        None => head,
    }
}

/// The lines while a scan is prepared to go on.
pub open spec fn preparing_text(s: AppState) -> Seq<Shown> {
    let blank = plain_line(""@, Tone::Plain);
    let head = seq![
        blank,
        plain_line(
            seq![throbber_sign(s.throbber as nat)] + " Preparing to resume scan..."@,
            Tone::Heading,
        ),
        blank,
    ];
    match s.resuming {
        Some((id, path)) => head.push(
            plain_line("Scan ID: "@ + signed_decimal(id as int), Tone::Plain),
        ).push(plain_line("Path: "@ + path, Tone::Plain)).push(blank).push(
            plain_line("Loading already-scanned paths from database..."@, Tone::Faint),
        ).push(plain_line("This may take a moment for large scans."@, Tone::Hint)),
        None => head,
    }
}

/// The lines that ask whether the path is to be changed.
pub open spec fn confirm_path_text(s: AppState) -> Seq<Shown> {
    let blank = plain_line(""@, Tone::Plain);
    match s.pending {
        None => seq![blank],
        Some((idx, new_path, old_path)) => {
            let there = if s.pending_exists {
                plain_line("✓ File exists at new path"@, Tone::Good)
            } else {
                plain_line("⚠ File does not exist at new path"@, Tone::Bad)
            };
            let meaning = if s.pending_exists {
                if idx == 0 {
                    "Settings will be loaded from the new location."@
                } else {
                    "Note: Changing database path requires restarting the application."@
                }
            } else {
                if idx == 0 {
                    "A new config file will be created with current settings."@
                } else {
                    "Note: Database will need to be created after restart."@
                }
            };
            seq![
                blank,
                plain_line(
                    "Change "@ + (if idx == 0 {
                        "Config"@
                    } else {
                        "Database"@
                    }) + " Path?"@,
                    Tone::Strong,
                ),
                blank,
                plain_line("Old path: "@ + old_path, Tone::Plain),
                plain_line("New path: "@ + new_path, Tone::Plain),
                blank,
                there,
                blank,
                plain_line(meaning, Tone::Plain),
                blank,
                plain_line("Y: Apply change | N/Esc: Keep old path"@, Tone::Hint),
            ]
        },
    }
}

/// The line for a directory that is being scanned, with what percentage of it is done.
pub open spec fn dir_line(dir: (String, usize, usize), percent: usize, max: nat) -> Seq<char> {
    "  ["@ + decimal(dir.1 as nat) + "/"@ + decimal(dir.2 as nat) + "] "@ + padded_left(
        decimal(percent as nat),
        3,
    ) + "% "@ + truncated(dir.0@, max)
}

/// The line for a directory that is being scanned.
pub fn dir_row(path: &str, done: usize, total: usize, percent: usize, max: usize) -> (row: String)
    requires
        can_truncate(path@, max as nat),
    ensures
        forall|dir: (String, usize, usize)|
            dir.0@ == path@ && dir.1 == done && dir.2 == total ==> row@ == #[trigger] dir_line(
                dir,
                percent,
                max as nat,
            ),
{
    let mut s = "  [".to_owned();
    s.append(usize_text(done).as_str());
    s.append("/");
    s.append(usize_text(total).as_str());
    s.append("] ");
    s.append(pad_left(usize_text(percent).as_str(), 3).as_str());
    s.append("% ");
    s.append(smart_truncate_path(path, max).as_str());
    s
}

/// The help.
pub open spec fn help_text() -> Seq<Shown> {
    seq![
        plain_line("Rootkitty - Keyboard Shortcuts"@, Tone::Heading),
        plain_line(""@, Tone::Plain),
        plain_line("Navigation:"@, Tone::Topic),
        plain_line("  j/↓         Move down one item"@, Tone::Plain),
        plain_line("  k/↑         Move up one item"@, Tone::Plain),
        plain_line("  J           Jump to next sibling (same depth)"@, Tone::Plain),
        plain_line("  K           Jump to previous sibling (same depth)"@, Tone::Plain),
        plain_line("  d           Page down (10 items)"@, Tone::Plain),
        plain_line("  u           Page up (10 items)"@, Tone::Plain),
        plain_line("  gg          Jump to top"@, Tone::Plain),
        plain_line("  G           Jump to bottom"@, Tone::Plain),
        plain_line(""@, Tone::Plain),
        plain_line("Views:"@, Tone::Topic),
        plain_line("  1           Scan list view"@, Tone::Plain),
        plain_line("  2           File tree view"@, Tone::Plain),
        plain_line("  3           Cleanup list view"@, Tone::Plain),
        plain_line(""@, Tone::Plain),
        plain_line("Actions:"@, Tone::Topic),
        plain_line("  n           New scan"@, Tone::Plain),
        plain_line("  r           Resume paused scan"@, Tone::Plain),
        plain_line("  x           Delete scan (Scan list view)"@, Tone::Plain),
        plain_line("  t           Toggle sort mode (size/path)"@, Tone::Plain),
        plain_line("  Space       Mark/unmark file for cleanup (File view)"@, Tone::Plain),
        plain_line("  Space       Remove from cleanup list (Cleanup view)"@, Tone::Plain),
        plain_line("  z/o         Fold/unfold directory (File view)"@, Tone::Plain),
        plain_line("  Z/O         Unfold directory and all subdirs (File view)"@, Tone::Plain),
        plain_line("  s/g         Generate cleanup script (Cleanup view)"@, Tone::Plain),
        plain_line("  Enter/o     Select/open"@, Tone::Plain),
        plain_line(""@, Tone::Plain),
        plain_line("General:"@, Tone::Topic),
        plain_line("  ?           Show this help"@, Tone::Plain),
        plain_line("  S           Show settings"@, Tone::Plain),
        plain_line("  q           Quit / Cancel"@, Tone::Plain),
        plain_line("  Esc         Cancel / Go back"@, Tone::Plain),
        plain_line(""@, Tone::Plain),
        plain_line("Press any key to close"@, Tone::Hint),
    ]
}

/// The help.
pub fn help_lines() -> (lines: Vec<Line>)
    ensures
        shown(lines@) == help_text(),
{
    let mut lines = no_lines();
    say(&mut lines, "Rootkitty - Keyboard Shortcuts", Tone::Heading);
    say(&mut lines, "", Tone::Plain);
    say(&mut lines, "Navigation:", Tone::Topic);
    say(&mut lines, "  j/↓         Move down one item", Tone::Plain);
    say(&mut lines, "  k/↑         Move up one item", Tone::Plain);
    say(&mut lines, "  J           Jump to next sibling (same depth)", Tone::Plain);
    say(&mut lines, "  K           Jump to previous sibling (same depth)", Tone::Plain);
    say(&mut lines, "  d           Page down (10 items)", Tone::Plain);
    say(&mut lines, "  u           Page up (10 items)", Tone::Plain);
    say(&mut lines, "  gg          Jump to top", Tone::Plain);
    say(&mut lines, "  G           Jump to bottom", Tone::Plain);
    say(&mut lines, "", Tone::Plain);
    say(&mut lines, "Views:", Tone::Topic);
    say(&mut lines, "  1           Scan list view", Tone::Plain);
    say(&mut lines, "  2           File tree view", Tone::Plain);
    say(&mut lines, "  3           Cleanup list view", Tone::Plain);
    say(&mut lines, "", Tone::Plain);
    say(&mut lines, "Actions:", Tone::Topic);
    say(&mut lines, "  n           New scan", Tone::Plain);
    say(&mut lines, "  r           Resume paused scan", Tone::Plain);
    say(&mut lines, "  x           Delete scan (Scan list view)", Tone::Plain);
    say(&mut lines, "  t           Toggle sort mode (size/path)", Tone::Plain);
    say(&mut lines, "  Space       Mark/unmark file for cleanup (File view)", Tone::Plain);
    say(&mut lines, "  Space       Remove from cleanup list (Cleanup view)", Tone::Plain);
    say(&mut lines, "  z/o         Fold/unfold directory (File view)", Tone::Plain);
    say(&mut lines, "  Z/O         Unfold directory and all subdirs (File view)", Tone::Plain);
    say(&mut lines, "  s/g         Generate cleanup script (Cleanup view)", Tone::Plain);
    say(&mut lines, "  Enter/o     Select/open", Tone::Plain);
    say(&mut lines, "", Tone::Plain);
    say(&mut lines, "General:", Tone::Topic);
    say(&mut lines, "  ?           Show this help", Tone::Plain);
    say(&mut lines, "  S           Show settings", Tone::Plain);
    say(&mut lines, "  q           Quit / Cancel", Tone::Plain);
    say(&mut lines, "  Esc         Cancel / Go back", Tone::Plain);
    say(&mut lines, "", Tone::Plain);
    say(&mut lines, "Press any key to close", Tone::Hint);
    lines
}

/// What is asked when a new scan is started.
pub open spec fn scan_dialog_text(s: AppState) -> Seq<Shown> {
    seq![
        plain_line(""@, Tone::Plain),
        plain_line("Enter path to scan:"@, Tone::Plain),
        plain_line(""@, Tone::Plain),
        plain_line(s.scan_input, Tone::Typed),
        plain_line(""@, Tone::Plain),
        plain_line("Press Enter to start scan, Esc to cancel"@, Tone::Plain),
    ]
}

/// The keys that are told of below each view.
pub open spec fn keys_text(s: AppState) -> Seq<char> {
    match s.view {
        types::View::ScanList =>
            "q: quit | n: new | t: toggle sort | S: settings | 1: scans | 2: files | 3: cleanup"@,
        types::View::FileTree =>
            "q: quit | t: toggle sort | S: settings | Space: mark | z: fold | ↑↓/jk: navigate"@,
        types::View::CleanupList =>
            "q: quit | S: settings | 1: scans | 2: files | 3: cleanup | s: generate | Space: remove"@,
        types::View::ScanDialog => "Enter: start scan | Esc: cancel | Type path to scan"@,
        types::View::Scanning => "q/Esc: cancel scan"@,
        types::View::Help => "Press any key to close help"@,
        types::View::ConfirmDelete => "y: confirm delete | n/Esc: cancel"@,
        types::View::Deleting => "Deleting scan, please wait..."@,
        types::View::PreparingResume => "Loading scanned paths, please wait..."@,
        types::View::Settings => if s.editing is Some {
            "Enter: save | Esc: cancel | ←→: move cursor | Type path"@
        } else {
            "q/Esc: close | t: toggle | e: edit path | r: restore default | ↑↓/jk: navigate"@
        },
        types::View::ConfirmPathChange => "y: apply change | n/Esc: keep old path"@,
    }
}

/// A path in the settings: with the cursor in it while it is edited.
pub open spec fn path_setting(s: AppState, idx: usize, path: Seq<char>) -> Seq<char> {
    if s.editing == Some(idx) {
        inserted_at(s.path_input, s.cursor as nat, '█')
    } else {
        path
    }
}

/// The line for a path in the settings.
pub open spec fn path_setting_line(s: AppState, idx: usize, key: Seq<char>, path: Seq<char>) -> Shown {
    if s.editing == Some(idx) {
        headed_line(
            "[editing...] "@ + key + ": "@,
            Tone::Plain,
            path_setting(s, idx, path),
            Tone::Strong,
        )
    } else {
        plain_line(setting_text("[e/r]"@, key, path), Tone::Plain)
    }
}

/// A setting, with the keys that change it in front; one without a value has no colon.
pub open spec fn setting_text(mark: Seq<char>, key: Seq<char>, value: Seq<char>) -> Seq<char> {
    if value.len() == 0 {
        mark + " "@ + key
    } else {
        mark + " "@ + key + ": "@ + value
    }
}

/// The settings, line by line.
pub open spec fn settings_text(s: AppState, version: Seq<char>) -> Seq<Shown> {
    seq![
        path_setting_line(s, 0, "Config File Path"@, s.settings_path),
        path_setting_line(s, 1, "Database Path"@, s.db_path),
        plain_line(""@, Tone::Plain),
        plain_line(
            setting_text("[t]"@, "File Tree Sort"@, s.file_tree_sort.title()),
            Tone::Plain,
        ),
        plain_line(
            setting_text("[t]"@, "Scan List Sort"@, s.scan_list_sort.title()),
            Tone::Plain,
        ),
        plain_line(setting_text("   "@, "Auto-fold Depth"@, "1 level"@), Tone::Plain),
        plain_line(""@, Tone::Plain),
        plain_line(
            setting_text("   "@, "About"@, "Rootkitty - Disk Usage Analyzer"@),
            Tone::Plain,
        ),
        plain_line(setting_text("   "@, "Version"@, version), Tone::Plain),
    ]
}

/// Whether the cursor can be shown: no path is edited, or it stands where a character starts or
/// the path ends.
pub open spec fn cursor_shows(s: AppState) -> bool {
    s.editing is Some ==> byte_place(s.path_input, s.cursor as nat) is Some
}

fn setting_line(mark: &str, key: &str, value: &str) -> (r: String)
    ensures
        r@ == setting_text(mark@, key@, value@),
{
    let mut r = phrase(mark, " ", key);
    if !value.is_empty() {
        r.append(": ");
        r.append(value);
    }
    r
}

/// So many directories that are being scanned are shown.
pub const SHOWN_DIRS: usize = 5;

/// So many bytes of their paths are shown.
pub const SHOWN_PATH: usize = 60;

/// The lines for the first `n` directories.
pub open spec fn dir_lines(dirs: Seq<(String, usize, usize)>, percents: Seq<usize>, n: nat) -> Seq<
    Shown,
>
    decreases n,
{
    if n == 0 {
        Seq::empty()
    } else {
        dir_lines(dirs, percents, (n - 1) as nat).push(
            plain_line(dir_line(dirs[n - 1], percents[n - 1], SHOWN_PATH as nat), Tone::Plain),
        )
    }
}

/// How many of the directories are shown.
pub open spec fn shown_count(dirs: Seq<(String, usize, usize)>) -> nat {
    if dirs.len() < SHOWN_DIRS {
        dirs.len()
    } else {
        SHOWN_DIRS as nat
    }
}

/// The lines while a scan is under way; `percents` says how much of each directory is done.
pub open spec fn scanning_text(s: AppState, percents: Seq<usize>) -> Seq<Shown> {
    let blank = plain_line(""@, Tone::Plain);
    let head = seq![blank, plain_line("Scanning in progress..."@, Tone::Strong), blank];
    let body = match s.progress {
        Some(p) => {
            let counted = head.push(
                plain_line("Entries scanned: "@ + decimal(p.entries_scanned as nat), Tone::Plain),
            );
            let working = if p.active_workers > 0 {
                counted.push(
                    plain_line("Parallel workers: "@ + decimal(p.active_workers as nat), Tone::Plain),
                )
            } else {
                counted
            };
            let listed = working.push(blank).push(plain_line("Active directories:"@, Tone::Plain))
                + dir_lines(p.active_dirs, percents, shown_count(p.active_dirs));
            if p.active_dirs.len() > SHOWN_DIRS {
                listed.push(
                    plain_line(
                        "  ... and "@ + decimal((p.active_dirs.len() - SHOWN_DIRS) as nat)
                            + " more directories"@,
                        Tone::Plain,
                    ),
                )
            } else {
                listed
            }
        },
        None => head,
    };
    body.push(blank).push(plain_line("Press q or Esc to cancel scan"@, Tone::Plain))
}

/// Whether the directories can be shown: there is a percentage for each, and their paths can be
/// shortened.
pub open spec fn progress_shows(s: AppState, percents: Seq<usize>) -> bool {
    match s.progress {
        Some(p) => {
            &&& percents.len() >= shown_count(p.active_dirs)
            &&& forall|i: int|
                0 <= i < shown_count(p.active_dirs) ==> can_truncate(
                    (#[trigger] p.active_dirs[i]).0@,
                    SHOWN_PATH as nat,
                )
        },
        None => true,
    }
}

impl App {
    /// The title of the file tree.
    pub fn files_title(&self) -> (title: String)
        ensures
            title@ == files_heading(self@.current_scan),
    {
        match &self.current_scan {
            Some(scan) => phrase(
                "Files (2) | Scan: ",
                scan.root_path.as_str(),
                " | z: fold/unfold | Z: unfold all | Space: mark",
            ),
            None => "Files (2)".to_owned(),
        }
    }

    /// The lines about the selected file.
    pub fn file_info_lines(&self) -> (lines: Vec<Line>)
        ensures
            shown(lines@) == file_info(self@.file()),
    {
        let mut lines = no_lines();
        match self.selected_file() {
            Some(e) => {
                let kind = if e.is_dir {
                    "Directory"
                } else {
                    "File"
                };
                say_headed(&mut lines, "Type: ", Tone::Topic, kind, Tone::Plain);
                say_headed(&mut lines, "Name: ", Tone::Topic, e.name.as_str(), Tone::Plain);
                say_headed(&mut lines, "Path: ", Tone::Topic, e.path.as_str(), Tone::Plain);
                let size = format_size(unsigned_size(e.size));
                say_headed(&mut lines, "Size: ", Tone::Topic, size.as_str(), Tone::Plain);
            },
            None => {
                say(&mut lines, "No file selected", Tone::Plain);
            },
        }
        lines
    }

    /// What is asked when a new scan is started.
    pub fn scan_dialog_lines(&self) -> (lines: Vec<Line>)
        ensures
            shown(lines@) == scan_dialog_text(self@),
    {
        let mut lines = no_lines();
        say(&mut lines, "", Tone::Plain);
        say(&mut lines, "Enter path to scan:", Tone::Plain);
        say(&mut lines, "", Tone::Plain);
        say(&mut lines, self.scan_input.as_str(), Tone::Typed);
        say(&mut lines, "", Tone::Plain);
        say(&mut lines, "Press Enter to start scan, Esc to cancel", Tone::Plain);
        lines
    }

    /// The keys that are told of below the view.
    pub fn keys_line(&self) -> (keys: &'static str)
        ensures
            keys@ == keys_text(self@),
    {
        match self.view {
            types::View::ScanList =>
                "q: quit | n: new | t: toggle sort | S: settings | 1: scans | 2: files | 3: cleanup",
            types::View::FileTree =>
                "q: quit | t: toggle sort | S: settings | Space: mark | z: fold | ↑↓/jk: navigate",
            types::View::CleanupList =>
                "q: quit | S: settings | 1: scans | 2: files | 3: cleanup | s: generate | Space: remove",
            types::View::ScanDialog => "Enter: start scan | Esc: cancel | Type path to scan",
            types::View::Scanning => "q/Esc: cancel scan",
            types::View::Help => "Press any key to close help",
            types::View::ConfirmDelete => "y: confirm delete | n/Esc: cancel",
            types::View::Deleting => "Deleting scan, please wait...",
            types::View::PreparingResume => "Loading scanned paths, please wait...",
            types::View::Settings => if self.editing.is_some() {
                "Enter: save | Esc: cancel | ←→: move cursor | Type path"
            } else {
                "q/Esc: close | t: toggle | e: edit path | r: restore default | ↑↓/jk: navigate"
            },
            types::View::ConfirmPathChange => "y: apply change | n/Esc: keep old path",
        }
    }

    /// The lines that ask whether the scan is to be deleted.
    pub fn confirm_delete_lines(&self) -> (lines: Vec<Line>)
        ensures
            shown(lines@) == confirm_delete_text(self@),
    {
        let mut lines = no_lines();
        say(&mut lines, "", Tone::Plain);
        match self.delete_scan_id {
            Some(id) => {
                let number = joined_text("Scan ID: ", i64_text(id).as_str());
                let path = joined_text("Path: ", find_scan_path(&self.scans, id).as_str());
                say(&mut lines, "Delete Scan?", Tone::Alarm);
                say(&mut lines, "", Tone::Plain);
                say(&mut lines, number.as_str(), Tone::Plain);
                say(&mut lines, path.as_str(), Tone::Plain);
                say(&mut lines, "", Tone::Plain);
                say(&mut lines, "This will permanently delete all scan data.", Tone::Topic);
                say(&mut lines, "", Tone::Plain);
                say(&mut lines, "Press Y to confirm deletion, N/Esc to cancel", Tone::Hint);
            },
            None => {},
        }
        lines
    }

    /// The lines while a scan is deleted.
    pub fn deleting_lines(&self) -> (lines: Vec<Line>)
        ensures
            shown(lines@) == deleting_text(self@),
    {
        let mut lines = no_lines();
        let mut turning = String::new();
        turning.push(throbber_char(self.throbber));
        turning.append(" Deleting scan...");
        assert(turning@ =~= seq![throbber_sign(self.throbber as nat)] + " Deleting scan..."@);
        say(&mut lines, "", Tone::Plain);
        say(&mut lines, turning.as_str(), Tone::Strong);
        say(&mut lines, "", Tone::Plain);
        match self.delete_scan_id {
            Some(id) => {
                let number = joined_text("Scan ID: ", i64_text(id).as_str());
                let path = joined_text("Path: ", find_scan_path(&self.scans, id).as_str());
                say(&mut lines, number.as_str(), Tone::Plain);
                say(&mut lines, path.as_str(), Tone::Plain);
                say(&mut lines, "", Tone::Plain);
                say(&mut lines, "Removing scan data from database...", Tone::Faint);
            },
            None => {},
        }
        lines
    }

    /// The lines while a scan is prepared to go on.
    pub fn preparing_lines(&self) -> (lines: Vec<Line>)
        ensures
            shown(lines@) == preparing_text(self@),
    {
        let mut lines = no_lines();
        let mut turning = String::new();
        turning.push(throbber_char(self.throbber));
        turning.append(" Preparing to resume scan...");
        assert(turning@ =~= seq![throbber_sign(self.throbber as nat)]
            + " Preparing to resume scan..."@);
        say(&mut lines, "", Tone::Plain);
        say(&mut lines, turning.as_str(), Tone::Heading);
        say(&mut lines, "", Tone::Plain);
        match &self.resuming {
            Some((id, path)) => {
                let number = joined_text("Scan ID: ", i64_text(*id).as_str());
                let place = joined_text("Path: ", path.as_str());
                say(&mut lines, number.as_str(), Tone::Plain);
                say(&mut lines, place.as_str(), Tone::Plain);
                say(&mut lines, "", Tone::Plain);
                say(&mut lines, "Loading already-scanned paths from database...", Tone::Faint);
                say(&mut lines, "This may take a moment for large scans.", Tone::Hint);
            },
            None => {},
        }
        lines
    }

    /// The lines that ask whether the path is to be changed.
    pub fn confirm_path_lines(&self) -> (lines: Vec<Line>)
        ensures
            shown(lines@) == confirm_path_text(self@),
    {
        let mut lines = no_lines();
        say(&mut lines, "", Tone::Plain);
        match &self.pending {
            Some((idx, new_path, old_path)) => {
                let which = if *idx == 0 {
                    "Config"
                } else {
                    "Database"
                };
                let question = phrase("Change ", which, " Path?");
                say(&mut lines, question.as_str(), Tone::Strong);
                say(&mut lines, "", Tone::Plain);
                let before = joined_text("Old path: ", old_path.as_str());
                let after = joined_text("New path: ", new_path.as_str());
                say(&mut lines, before.as_str(), Tone::Plain);
                say(&mut lines, after.as_str(), Tone::Plain);
                say(&mut lines, "", Tone::Plain);
                if self.pending_exists {
                    say(&mut lines, "✓ File exists at new path", Tone::Good);
                } else {
                    say(&mut lines, "⚠ File does not exist at new path", Tone::Bad);
                }
                say(&mut lines, "", Tone::Plain);
                let meaning = if self.pending_exists {
                    if *idx == 0 {
                        "Settings will be loaded from the new location."
                    } else {
                        "Note: Changing database path requires restarting the application."
                    }
                } else {
                    if *idx == 0 {
                        "A new config file will be created with current settings."
                    } else {
                        "Note: Database will need to be created after restart."
                    }
                };
                say(&mut lines, meaning, Tone::Plain);
                say(&mut lines, "", Tone::Plain);
                say(&mut lines, "Y: Apply change | N/Esc: Keep old path", Tone::Hint);
            },
            None => {},
        }
        lines
    }

    /// Whether the cursor can be shown.
    pub fn can_show_cursor(&self) -> (b: bool)
        ensures
            b == cursor_shows(self@),
    {
        self.editing.is_none() || is_place(self.path_input.as_str(), self.cursor)
    }

    fn say_path_setting(&self, lines: &mut Vec<Line>, idx: usize, key: &str, path: &str)
        requires
            cursor_shows(self@),
        ensures
            shown(final(lines)@) == shown(old(lines)@).push(
                path_setting_line(self@, idx, key@, path@),
            ),
    {
        let edited = match self.editing {
            Some(i) => i == idx,
            None => false,
        };
        if edited {
            let head = phrase("[editing...] ", key, ": ");
            let typed = insert_char(self.path_input.as_str(), self.cursor, '█');
            say_headed(lines, head.as_str(), Tone::Plain, typed.as_str(), Tone::Strong);
        } else {
            let text = setting_line("[e/r]", key, path);
            say(lines, text.as_str(), Tone::Plain);
        }
    }

    /// The settings, line by line.
    pub fn settings_lines(&self, version: &str) -> (lines: Vec<Line>)
        requires
            cursor_shows(self@),
        ensures
            shown(lines@) == settings_text(self@, version@),
    {
        let mut lines = no_lines();
        self.say_path_setting(&mut lines, 0, "Config File Path", self.settings_path.as_str());
        self.say_path_setting(&mut lines, 1, "Database Path", self.db_path.as_str());
        say(&mut lines, "", Tone::Plain);
        let files = setting_line("[t]", "File Tree Sort", self.file_tree_sort.display_name());
        let scans = setting_line("[t]", "Scan List Sort", self.scan_list_sort.display_name());
        let depth = setting_line("   ", "Auto-fold Depth", "1 level");
        let about = setting_line("   ", "About", "Rootkitty - Disk Usage Analyzer");
        let number = setting_line("   ", "Version", version);
        say(&mut lines, files.as_str(), Tone::Plain);
        say(&mut lines, scans.as_str(), Tone::Plain);
        say(&mut lines, depth.as_str(), Tone::Plain);
        say(&mut lines, "", Tone::Plain);
        say(&mut lines, about.as_str(), Tone::Plain);
        say(&mut lines, number.as_str(), Tone::Plain);
        lines
    }

    /// Whether the directories that are being scanned can be shown.
    pub fn can_show_progress(&self, percents: &Vec<usize>) -> (b: bool)
        ensures
            b == progress_shows(self@, percents@),
    {
        match &self.scan_progress {
            Some(p) => {
                let n: usize = if p.active_dirs.len() < SHOWN_DIRS {
                    p.active_dirs.len()
                } else {
                    SHOWN_DIRS
                };
                if percents.len() < n {
                    return false;
                }
                let mut i: usize = 0;
                while i < n
                    invariant
                        i <= n <= p.active_dirs@.len(),
                        n == shown_count(p.active_dirs@),
                        self.scan_progress == Some(*p),
                        forall|k: int|
                            0 <= k < i ==> can_truncate(
                                (#[trigger] p.active_dirs@[k]).0@,
                                SHOWN_PATH as nat,
                            ),
                    decreases n - i,
                {
                    if !truncatable(p.active_dirs[i].0.as_str(), SHOWN_PATH) {
                        assert(!can_truncate(
                            self@.progress->0.active_dirs[i as int].0@,
                            SHOWN_PATH as nat,
                        ));
                        return false;
                    }
                    i = i + 1;
                }
                true
            },
            None => true,
        }
    }

    /// The lines while a scan is under way; `percents` says how much of each directory is done.
    pub fn scanning_lines(&self, percents: &Vec<usize>) -> (lines: Vec<Line>)
        requires
            progress_shows(self@, percents@),
        ensures
            shown(lines@) == scanning_text(self@, percents@),
    {
        let mut lines = no_lines();
        say(&mut lines, "", Tone::Plain);
        say(&mut lines, "Scanning in progress...", Tone::Strong);
        say(&mut lines, "", Tone::Plain);
        match &self.scan_progress {
            Some(p) => {
                let entries = joined_text("Entries scanned: ", u64_text(p.entries_scanned).as_str());
                say(&mut lines, entries.as_str(), Tone::Plain);
                if p.active_workers > 0 {
                    let workers =
                        joined_text("Parallel workers: ", usize_text(p.active_workers).as_str());
                    say(&mut lines, workers.as_str(), Tone::Plain);
                }
                say(&mut lines, "", Tone::Plain);
                say(&mut lines, "Active directories:", Tone::Plain);
                let ghost before = shown(lines@);
                let ghost dirs = p.active_dirs@;
                let count: usize = p.active_dirs.len();
                let n: usize = if count < SHOWN_DIRS {
                    count
                } else {
                    SHOWN_DIRS
                };
                let mut i: usize = 0;
                assert(shown(lines@) =~= before + dir_lines(dirs, percents@, 0));
                while i < n
                    invariant
                        i <= n <= dirs.len(),
                        dirs == p.active_dirs@,
                        n == shown_count(dirs),
                        percents@.len() >= n,
                        forall|k: int|
                            0 <= k < n ==> can_truncate(
                                (#[trigger] dirs[k]).0@,
                                SHOWN_PATH as nat,
                            ),
                        shown(lines@) == before + dir_lines(dirs, percents@, i as nat),
                    decreases n - i,
                {
                    let dir = &p.active_dirs[i];
                    assert(can_truncate(dirs[i as int].0@, SHOWN_PATH as nat));
                    let row = dir_row(dir.0.as_str(), dir.1, dir.2, percents[i], SHOWN_PATH);
                    assert(row@ == dir_line(dirs[i as int], percents@[i as int], SHOWN_PATH as nat));
                    say(&mut lines, row.as_str(), Tone::Plain);
                    assert(shown(lines@) =~= before + dir_lines(dirs, percents@, (i + 1) as nat));
                    i = i + 1;
                }
                if count > SHOWN_DIRS {
                    let more = phrase(
                        "  ... and ",
                        usize_text(count - SHOWN_DIRS).as_str(),
                        " more directories",
                    );
                    say(&mut lines, more.as_str(), Tone::Plain);
                }
            },
            None => {},
        }
        say(&mut lines, "", Tone::Plain);
        say(&mut lines, "Press q or Esc to cancel scan", Tone::Plain);
        lines
    }
}

} // verus!
