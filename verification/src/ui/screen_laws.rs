//! What the lists and lines of the browser show, and what it makes of how things ended.
use vstd::prelude::*;
use vstd::utf8::encode_utf8;

use crate::db::{Scan, StoredFileEntry};
use crate::format::{megabytes, size_text};
use crate::scanner::ScanStats;
use crate::text::{decimal, digit, padded_left, repeated, signed_decimal};
use crate::text_laws::{law_changed_at_a_place, law_fitting_path_stays, law_place_in_bytes};
use crate::time::date_text;
use crate::ui::events::{
    change_for, is_orphaned, lists_after, no_progress, orphans, scan_over, MarkChange, ScanOutcome,
};
use crate::ui::key_laws::among;
use crate::ui::listing_laws::lemma_text_le_at;
use crate::ui::scan_list::{is_scan_order, scan_before};
use crate::ui::screens::{
    cleanup_heading, cleanup_line, confirm_delete_text, confirm_path_text, cursor_shows,
    deleting_text, dir_line, dir_lines, file_info, file_line, files_heading, help_text, keys_text,
    path_of_scan, plain_line, preparing_text, scan_dialog_text, scan_line, scanning_text,
    settings_text, shown_count, size_sum, sizes_add, status_sign, throbber_sign, Shown, Tone,
};
use crate::ui::state::{deep_directories, AppState};
use crate::ui::types;
use crate::ui::types::SortMode;

verus! {

/// Every scan is shown, on one line.
pub proof fn law_every_scan_on_a_line(scans: Seq<Scan>, mode: SortMode, order: Seq<usize>, i: int)
    requires
        is_scan_order(scans, mode, order),
        0 <= i < scans.len() <= usize::MAX,
    ensures
        order.len() == scans.len(),
        exists|p: int| 0 <= p < order.len() && #[trigger] order[p] == i,
        forall|p: int, q: int|
            0 <= p < q < order.len() ==> #[trigger] order[p] != #[trigger] order[q],
{
    assert(order.contains(i as usize));
    let p = choose|p: int| 0 <= p < order.len() && order[p] == i as usize;
    assert(order[p] == i);
    assert forall|p: int, q: int| 0 <= p < q < order.len() implies #[trigger] order[p]
        != #[trigger] order[q] by {
        assert(scan_before(scans, mode, order[p] as int, order[q] as int));
    }
}

/// By size, the larger of two scans is shown first, and of two of one size the one that came first.
pub proof fn law_larger_scan_first(scans: Seq<Scan>, order: Seq<usize>, p: int, q: int)
    requires
        is_scan_order(scans, SortMode::BySize, order),
        0 <= p < q < order.len(),
    ensures
        ({
            let (a, b) = (scans[order[p] as int], scans[order[q] as int]);
            a.total_size > b.total_size || (a.total_size == b.total_size && order[p] < order[q])
        }),
{
    assert(scan_before(scans, SortMode::BySize, order[p] as int, order[q] as int));
}

/// By path, scans are shown in dictionary order, and those of one path in the order in which they
/// came.
pub proof fn law_scans_in_dictionary_order(
    scans: Seq<Scan>,
    order: Seq<usize>,
    p: int,
    q: int,
) -> (k: int)
    requires
        is_scan_order(scans, SortMode::ByPath, order),
        0 <= p < q < order.len(),
    ensures
        ({
            let (a, b) = (
                scans[order[p] as int].root_path@,
                scans[order[q] as int].root_path@,
            );
            &&& 0 <= k <= a.len()
            &&& k <= b.len()
            &&& a.take(k) == b.take(k)
            &&& k < a.len() ==> k < b.len() && (a[k] as u32) < (b[k] as u32)
            &&& a == b ==> order[p] < order[q]
        }),
{
    assert(scan_before(scans, SortMode::ByPath, order[p] as int, order[q] as int));
    let a = scans[order[p] as int].root_path@;
    crate::text::lemma_text_le_total(a, a);
    lemma_text_le_at(a, scans[order[q] as int].root_path@)
}

/// Where an entry is marked, the space bar takes the mark away, and elsewhere it marks it.
pub proof fn law_space_changes_the_mark(items: Seq<StoredFileEntry>, id: i64, i: int)
    ensures
        0 <= i < items.len() && items[i].id == id ==> change_for(items, id) == MarkChange::Unmark,
        (forall|k: int| 0 <= k < items.len() ==> (#[trigger] items[k]).id != id) ==> change_for(
            items,
            id,
        ) == MarkChange::Mark,
{
}

/// When a scan has ended, none is under way or cancelled any more. One whose entries were stored
/// leads back to the scans, as one that failed does; the message tells a scan that was stopped
/// from one that came to its end, with what was counted.
pub proof fn law_scan_has_ended(s: AppState, stats: ScanStats, error: String)
    ensures
        ({
            let idle = AppState { scanning: false, cancelled: false, ..s };
            let back = AppState { view: types::View::ScanList, progress: None, ..idle };
            let files = decimal(stats.total_files as nat);
            let dirs = decimal(stats.total_dirs as nat);
            let size = decimal(stats.total_size as nat);
            &&& s.cancelled ==> scan_over(s, ScanOutcome::Finished { stats, stored: true }) == (
            AppState {
                status: "Scan paused. Progress saved: "@ + files + " files, "@ + dirs
                    + " dirs. Press 'r' to resume."@,
                ..back
            })
            &&& !s.cancelled ==> scan_over(s, ScanOutcome::Finished { stats, stored: true }) == (
            AppState {
                status: "Scan complete! "@ + files + " files, "@ + dirs + " dirs, "@ + size
                    + " bytes"@,
                ..back
            })
            &&& scan_over(s, ScanOutcome::Finished { stats, stored: false }) == idle
            &&& scan_over(s, ScanOutcome::Failed { error }) == (AppState {
                status: "Scan error: "@ + error@,
                ..back
            })
            &&& scan_over(s, ScanOutcome::Lost { error }) == (AppState {
                status: "Scan join error: "@ + error@,
                ..back
            })
        }),
{
}

/// Before a scan has found anything, its progress is nothing.
pub proof fn law_progress_starts_at_nothing()
    ensures
        no_progress() is Some,
        no_progress()->0.entries_scanned == 0,
        no_progress()->0.active_dirs.len() == 0,
        no_progress()->0.active_workers == 0,
{
}

/// The scans that are found broken off are those that say they are running and have no end.
pub proof fn law_broken_off_scans(scans: Seq<Scan>, n: nat, id: i64)
    requires
        n <= scans.len(),
    ensures
        orphans(scans, n).contains(id) <==> exists|i: int|
            0 <= i < n && (#[trigger] scans[i]).id == id && scans[i].status@ == "running"@
                && scans[i].completed_at is None,
        orphans(scans, n).len() <= n,
    decreases n,
{
    if n > 0 {
        let before = orphans(scans, (n - 1) as nat);
        let all = orphans(scans, n);
        law_broken_off_scans(scans, (n - 1) as nat, id);
        if all.contains(id) {
            let k = choose|k: int| 0 <= k < all.len() && all[k] == id;
            if k < before.len() {
                assert(before[k] == id);
                assert(before.contains(id));
            } else {
                assert(scans[n - 1].id == id);
            }
        }
        if exists|i: int|
            0 <= i < n && (#[trigger] scans[i]).id == id && scans[i].status@ == "running"@
                && scans[i].completed_at is None {
            let i = choose|i: int|
                0 <= i < n && (#[trigger] scans[i]).id == id && scans[i].status@ == "running"@
                    && scans[i].completed_at is None;
            if i < n - 1 {
                assert(before.contains(id));
                let k = choose|k: int| 0 <= k < before.len() && before[k] == id;
                assert(all[k] == id);
            } else {
                assert(is_orphaned(scans[i]));
                assert(all[before.len() as int] == id);
            }
        }
    }
}

/// When a scan is opened, every directory is folded but the one that was scanned.
pub proof fn law_opened_with_directories_folded(files: Seq<StoredFileEntry>, i: int)
    requires
        0 <= i < files.len(),
    ensures
        files[i].is_dir && files[i].depth > 0 ==> deep_directories(files).contains(files[i].path@),
        (forall|k: int|
            0 <= k < files.len() && (#[trigger] files[k]).path@ == files[i].path@ ==> !files[k].is_dir
                || files[k].depth <= 0) ==> !deep_directories(files).contains(files[i].path@),
{
}

/// The sum of the marked sizes grows by the size of each entry that is marked.
pub proof fn law_marked_sizes_add_up(items: Seq<StoredFileEntry>, e: StoredFileEntry)
    ensures
        size_sum(items.push(e), items.len() + 1) == size_sum(items, items.len()) + e.size,
        size_sum(Seq::empty(), 0) == 0,
{
    lemma_sum_of_part(items, e, items.len());
    assert(items.push(e)[items.len() as int] == e);
}

proof fn lemma_sum_of_part(items: Seq<StoredFileEntry>, e: StoredFileEntry, n: nat)
    requires
        n <= items.len(),
    ensures
        size_sum(items.push(e), n) == size_sum(items, n),
    decreases n,
{
    if n > 0 {
        lemma_sum_of_part(items, e, (n - 1) as nat);
        assert(items.push(e)[n - 1] == items[n - 1]);
    }
}

/// The title over what is marked tells how many entries there are and how large they are together.
pub proof fn law_title_over_marked(items: Seq<StoredFileEntry>, total: i64)
    requires
        size_sum(items, items.len()) == total,
        total >= 0,
    ensures
        cleanup_heading(items) == "Cleanup List (3) | "@ + decimal(items.len()) + " items | "@
            + size_text(total as nat) + " total | 'g' to generate script | Space to remove"@,
{
}

/// In the file tree, an entry stands two blanks further in for every level, and the sign in front
/// tells files from directories and folded directories from unfolded ones. Behind it stand the name
/// and the size.
pub proof fn law_line_of_a_file(e: StoredFileEntry, folded: bool)
    requires
        e.depth >= 0,
        e.size >= 0,
    ensures
        ({
            let line = file_line(e, folded);
            let n = 2 * e.depth;
            let sign = if !e.is_dir {
                "  📄"@
            } else if folded {
                "▶ 📁"@
            } else {
                "▼ 📁"@
            };
            &&& line.len() >= n
            &&& forall|i: int| 0 <= i < n ==> #[trigger] line[i] == ' '
            &&& line.skip(n) == sign + " "@ + e.name@ + " ("@ + size_text(e.size as nat) + ")"@
        }),
{
    let n = 2 * e.depth;
    let sign = if !e.is_dir {
        "  📄"@
    } else if folded {
        "▶ 📁"@
    } else {
        "▼ 📁"@
    };
    let rest = sign + " "@ + e.name@ + " ("@ + size_text(e.size as nat) + ")"@;
    assert(file_line(e, folded) =~= repeated(' ', n as nat) + rest);
    assert(file_line(e, folded).skip(n) =~= rest);
}

/// What is marked is shown with its whole path and its size.
pub proof fn law_line_of_a_marked_entry(e: StoredFileEntry)
    requires
        e.size >= 0,
    ensures
        e.is_dir ==> cleanup_line(e) == "📁"@ + " "@ + e.path@ + " ("@ + size_text(e.size as nat)
            + ")"@,
        !e.is_dir ==> cleanup_line(e) == "📄"@ + " "@ + e.path@ + " ("@ + size_text(e.size as nat)
            + ")"@,
{
}

/// A scan is shown with its path, how many files it has, its size in megabytes and when it was
/// started, and in front with a sign for how it stands.
pub proof fn law_line_of_a_scan(scan: Scan)
    ensures
        ({
            let rest = " "@ + scan.root_path@ + " | "@ + signed_decimal(scan.total_files as int)
                + " files | "@ + megabytes(scan.total_size as int) + " MB | "@ + date_text(
                scan.started_at.secs,
                scan.started_at.nanos,
                "%Y-%m-%d %H:%M"@,
            );
            let sign = status_sign(scan.status@);
            &&& scan_line(scan) == sign + rest
            &&& scan.status@ == "completed"@ ==> sign == "✓"@
            &&& scan.status@ == "running"@ ==> sign == "⟳"@
            &&& scan.status@ == "paused"@ ==> sign == "⏸"@
            &&& scan.status@ != "completed"@ && scan.status@ != "running"@ && scan.status@
                != "paused"@ ==> sign == "✗"@
        }),
{
    reveal_strlit("completed");
    reveal_strlit("running");
    reveal_strlit("paused");
    assert("completed"@.len() == 9 && "running"@.len() == 7 && "paused"@.len() == 6);
    let rest = " "@ + scan.root_path@ + " | "@ + signed_decimal(scan.total_files as int)
        + " files | "@ + megabytes(scan.total_size as int) + " MB | "@ + date_text(
        scan.started_at.secs,
        scan.started_at.nanos,
        "%Y-%m-%d %H:%M"@,
    );
    assert(scan_line(scan) =~= status_sign(scan.status@) + rest);
}

/// The path that is named for a scan is that of the first scan with its number; where there is none,
/// it is said to be unknown.
pub proof fn law_path_for_a_number(scans: Seq<Scan>, id: i64, i: int)
    ensures
        0 <= i < scans.len() && scans[i].id == id && (forall|k: int|
            0 <= k < i ==> (#[trigger] scans[k]).id != id) ==> path_of_scan(scans, id)
            == scans[i].root_path@,
        (forall|k: int| 0 <= k < scans.len() ==> (#[trigger] scans[k]).id != id) ==> path_of_scan(
            scans,
            id,
        ) == "unknown"@,
    decreases scans.len(),
{
    if scans.len() > 0 {
        let rest = scans.skip(1);
        law_path_for_a_number(rest, id, i - 1);
        if 0 < i < scans.len() && scans[i].id == id && (forall|k: int|
            0 <= k < i ==> (#[trigger] scans[k]).id != id) {
            assert(scans[0].id != id);
            assert(rest[i - 1] == scans[i]);
            assert forall|k: int| 0 <= k < i - 1 implies (#[trigger] rest[k]).id != id by {
                assert(scans[k + 1].id != id);
            }
        }
        if forall|k: int| 0 <= k < scans.len() ==> (#[trigger] scans[k]).id != id {
            assert(scans[0].id != id);
            assert forall|k: int| 0 <= k < rest.len() implies (#[trigger] rest[k]).id != id by {
                assert(scans[k + 1].id != id);
            }
        }
    }
}

/// Whether some line has this text.
pub open spec fn says(lines: Seq<Shown>, text: Seq<char>) -> bool {
    exists|i: int| 0 <= i < lines.len() && (#[trigger] lines[i]).text == text
}

/// Before a scan is deleted, and while it is, its number and its path are shown; so they are while
/// a scan is prepared to go on.
pub proof fn law_shows_which_scan(s: AppState, id: i64, path: Seq<char>)
    ensures
        s.delete_scan_id == Some(id) ==> {
            &&& says(confirm_delete_text(s), "Scan ID: "@ + signed_decimal(id as int))
            &&& says(confirm_delete_text(s), "Path: "@ + path_of_scan(s.scans, id))
            &&& says(confirm_delete_text(s), "Press Y to confirm deletion, N/Esc to cancel"@)
            &&& says(deleting_text(s), "Scan ID: "@ + signed_decimal(id as int))
            &&& says(deleting_text(s), "Path: "@ + path_of_scan(s.scans, id))
        },
        s.resuming == Some((id, path)) ==> {
            &&& says(preparing_text(s), "Scan ID: "@ + signed_decimal(id as int))
            &&& says(preparing_text(s), "Path: "@ + path)
        },
{
    if s.delete_scan_id == Some(id) {
        let a = confirm_delete_text(s);
        assert(a[3].text == "Scan ID: "@ + signed_decimal(id as int));
        assert(a[4].text == "Path: "@ + path_of_scan(s.scans, id));
        assert(a[8].text == "Press Y to confirm deletion, N/Esc to cancel"@);
        let b = deleting_text(s);
        assert(b[3].text == "Scan ID: "@ + signed_decimal(id as int));
        assert(b[4].text == "Path: "@ + path_of_scan(s.scans, id));
    }
    if s.resuming == Some((id, path)) {
        let c = preparing_text(s);
        assert(c[3].text == "Scan ID: "@ + signed_decimal(id as int));
        assert(c[4].text == "Path: "@ + path);
    }
}

/// Before a path is changed, both the old and the new one are shown, with whether something is at
/// the new one and what that means.
pub proof fn law_shows_both_paths(s: AppState, which: usize, to: Seq<char>, from: Seq<char>)
    requires
        s.pending == Some((which, to, from)),
    ensures
        says(confirm_path_text(s), "Old path: "@ + from),
        says(confirm_path_text(s), "New path: "@ + to),
        s.pending_exists ==> says(confirm_path_text(s), "✓ File exists at new path"@),
        !s.pending_exists ==> says(confirm_path_text(s), "⚠ File does not exist at new path"@),
        which == 0 && s.pending_exists ==> says(
            confirm_path_text(s),
            "Settings will be loaded from the new location."@,
        ),
        which == 0 && !s.pending_exists ==> says(
            confirm_path_text(s),
            "A new config file will be created with current settings."@,
        ),
        which != 0 && s.pending_exists ==> says(
            confirm_path_text(s),
            "Note: Changing database path requires restarting the application."@,
        ),
        which != 0 && !s.pending_exists ==> says(
            confirm_path_text(s),
            "Note: Database will need to be created after restart."@,
        ),
{
    let a = confirm_path_text(s);
    assert(a[3].text == "Old path: "@ + from);
    assert(a[4].text == "New path: "@ + to);
    assert(a[6].text == a[6].text);
    assert(a[8].text == a[8].text);
}

/// The lines about a file tell its kind, its name, its path and its size, each with what it is in
/// front; where no file is selected, a line says so.
pub proof fn law_tells_about_a_file(e: StoredFileEntry)
    requires
        e.size >= 0,
    ensures
        ({
            let lines = file_info(Some(e));
            &&& lines.len() == 4
            &&& lines[0].text == if e.is_dir {
                "Directory"@
            } else {
                "File"@
            }
            &&& lines[1].text == e.name@
            &&& lines[2].text == e.path@
            &&& lines[3].text == size_text(e.size as nat)
            &&& lines[0].head == "Type: "@
            &&& lines[1].head == "Name: "@
            &&& lines[2].head == "Path: "@
            &&& lines[3].head == "Size: "@
        }),
        says(file_info(None), "No file selected"@),
{
    assert(file_info(None)[0].text == "No file selected"@);
}

/// At most five of the directories that are being scanned are shown, the first ones, each with its
/// progress.
pub proof fn law_first_five_directories(
    dirs: Seq<(String, usize, usize)>,
    percents: Seq<usize>,
    n: nat,
)
    requires
        n == shown_count(dirs),
    ensures
        n == if dirs.len() < 5 {
            dirs.len()
        } else {
            5
        },
        dir_lines(dirs, percents, n).len() == n,
        forall|i: int|
            0 <= i < n ==> (#[trigger] dir_lines(dirs, percents, n)[i]).text == dir_line(
                dirs[i],
                percents[i],
                60,
            ),
{
    lemma_dir_lines(dirs, percents, n);
}

proof fn lemma_dir_lines(dirs: Seq<(String, usize, usize)>, percents: Seq<usize>, n: nat)
    ensures
        dir_lines(dirs, percents, n).len() == n,
        forall|i: int|
            0 <= i < n ==> (#[trigger] dir_lines(dirs, percents, n)[i]).text == dir_line(
                dirs[i],
                percents[i],
                60,
            ),
    decreases n,
{
    if n > 0 {
        lemma_dir_lines(dirs, percents, (n - 1) as nat);
    }
}

/// The sign that turns goes round after eight steps, and no two neighbouring ones are alike.
pub proof fn law_sign_turns(frame: nat)
    ensures
        throbber_sign(frame + 8) == throbber_sign(frame),
        throbber_sign(frame + 1) != throbber_sign(frame),
{
}

/// While a scan is under way, the number of entries is shown, the number of workers where there are
/// any, the lines for the first directories one after the other, and how many more there are.
pub proof fn law_progress_is_shown(s: AppState, percents: Seq<usize>, i: int)
    requires
        s.progress is Some,
        0 <= i < shown_count(s.progress->0.active_dirs),
    ensures
        ({
            let p = s.progress->0;
            let text = scanning_text(s, percents);
            let workers: int = if p.active_workers > 0 {
                1
            } else {
                0
            };
            let dirs = p.active_dirs.len();
            &&& text[3].text == "Entries scanned: "@ + decimal(p.entries_scanned as nat)
            &&& p.active_workers > 0 ==> text[4].text == "Parallel workers: "@ + decimal(
                p.active_workers as nat,
            )
            &&& text[6 + workers + i].text == dir_line(p.active_dirs[i], percents[i], 60)
            &&& dirs > 5 ==> text.len() == 14 + workers && text[11 + workers].text == "  ... and "@
                + decimal((dirs - 5) as nat) + " more directories"@
            &&& dirs <= 5 ==> text.len() == 8 + workers + dirs
        }),
{
    let p = s.progress->0;
    lemma_dir_lines(p.active_dirs, percents, shown_count(p.active_dirs));
}

/// A directory that is being scanned is shown with how many of its entries are done and how many
/// there are, with the percentage, which takes three places, and with its path, where that fits.
pub proof fn law_line_of_a_directory(
    dir: (String, usize, usize),
    percent: usize,
    max: nat,
) -> (field: Seq<char>)
    requires
        encode_utf8(dir.0@).len() <= max,
        percent <= 100,
    ensures
        dir_line(dir, percent, max) == "  ["@ + decimal(dir.1 as nat) + "/"@ + decimal(
            dir.2 as nat,
        ) + "] "@ + field + "% "@ + dir.0@,
        field.len() == 3,
        percent == 100 ==> field == seq!['1', '0', '0'],
        10 <= percent < 100 ==> field == seq![
            ' ',
            (48 + percent / 10) as char,
            (48 + percent % 10) as char,
        ],
        percent < 10 ==> field == seq![' ', ' ', (48 + percent) as char],
{
    let n = percent as nat;
    law_fitting_path_stays(dir.0@, max);
    reveal_with_fuel(decimal, 4);
    let field = padded_left(decimal(n), 3);
    if percent == 100 {
        assert(decimal(100) =~= seq!['1', '0', '0']);
        assert(field =~= seq!['1', '0', '0']);
    } else if percent >= 10 {
        assert(decimal(n) =~= seq![digit(n / 10), digit(n % 10)]);
        assert(field =~= seq![' ', digit(n / 10), digit(n % 10)]);
    } else {
        assert(field =~= seq![' ', ' ', digit(n)]);
    }
    field
}

/// In the settings, each path stands on its line, unless it is edited: then what was typed stands
/// there, with a block where the cursor is. Editing one path leaves the other as it is.
pub proof fn law_paths_in_settings(s: AppState, version: Seq<char>, before: Seq<char>, after: Seq<char>)
    requires
        s.path_input == before + after,
        s.cursor == encode_utf8(before).len(),
        s.settings_path.len() > 0,
        s.db_path.len() > 0,
    ensures
        ({
            let text = settings_text(s, version);
            let typed = before + seq!['█'] + after;
            &&& text.len() == 9
            &&& s.editing == Some(0usize) ==> text[0].text == typed && text[0].head
                == "[editing...] "@ + "Config File Path"@ + ": "@
            &&& s.editing == Some(1usize) ==> text[1].text == typed && text[1].head
                == "[editing...] "@ + "Database Path"@ + ": "@
            &&& s.editing != Some(0usize) ==> text[0].text == "[e/r]"@ + " "@ + "Config File Path"@
                + ": "@ + s.settings_path
            &&& s.editing != Some(1usize) ==> text[1].text == "[e/r]"@ + " "@ + "Database Path"@
                + ": "@ + s.db_path
        }),
{
    law_changed_at_a_place(before, '█', after);
}

/// The settings tell how the files and the scans are sorted, and the version.
pub proof fn law_sorting_in_settings(s: AppState, version: Seq<char>)
    requires
        version.len() > 0,
    ensures
        ({
            let text = settings_text(s, version);
            &&& text[3].text == "[t]"@ + " "@ + "File Tree Sort"@ + ": "@ + s.file_tree_sort.title()
            &&& text[4].text == "[t]"@ + " "@ + "Scan List Sort"@ + ": "@ + s.scan_list_sort.title()
            &&& text[8].text == "   "@ + " "@ + "Version"@ + ": "@ + version
            &&& text[5].text == "   "@ + " "@ + "Auto-fold Depth"@ + ": "@ + "1 level"@
        }),
{
    reveal_strlit("By Size (Descending)");
    reveal_strlit("Alphabetical (by path)");
    reveal_strlit("1 level");
    assert(s.file_tree_sort.title().len() > 0);
    assert(s.scan_list_sort.title().len() > 0);
}

/// A path that is empty is shown by its name alone.
pub proof fn law_empty_path_in_settings(s: AppState, version: Seq<char>)
    requires
        s.editing is None,
    ensures
        s.settings_path.len() == 0 ==> settings_text(s, version)[0].text == "[e/r]"@ + " "@
            + "Config File Path"@,
        s.db_path.len() == 0 ==> settings_text(s, version)[1].text == "[e/r]"@ + " "@
            + "Database Path"@,
{
}

/// The cursor can be shown where it stands between two characters of what was typed, or at an end.
pub proof fn law_cursor_between_characters(s: AppState, before: Seq<char>, after: Seq<char>)
    requires
        s.path_input == before + after,
    ensures
        s.editing is None ==> cursor_shows(s),
        s.cursor == encode_utf8(before).len() ==> cursor_shows(s),
{
    law_place_in_bytes(before, after, 0);
}

/// Over the files stands the path that was scanned, and what was typed of a path to scan is shown.
pub proof fn law_shows_the_path(s: AppState, scan: Scan)
    ensures
        files_heading(Some(scan)) == "Files (2) | Scan: "@ + scan.root_path@
            + " | z: fold/unfold | Z: unfold all | Space: mark"@,
        says(scan_dialog_text(s), s.scan_input),
{
    assert(scan_dialog_text(s)[3].text == s.scan_input);
}

/// Marking an entry adds it to what is marked, and taking its mark away takes out what has its
/// number, and nothing else.
pub proof fn law_marks_change_one_entry(
    before: Seq<StoredFileEntry>,
    e: StoredFileEntry,
    after: Seq<StoredFileEntry>,
    x: StoredFileEntry,
)
    ensures
        lists_after(before, e, MarkChange::Mark, after) ==> (after.contains(x) <==> x == e
            || before.contains(x)),
        lists_after(before, e, MarkChange::Unmark, after) ==> (after.contains(x)
            <==> before.contains(x) && x.id != e.id),
{
    assert(after.to_set().contains(x) <==> after.contains(x));
    assert(before.to_set().contains(x) <==> before.contains(x));
}

/// The sizes of what is marked can be added where none is negative and the sum can be held.
pub proof fn law_marked_sizes_can_be_added(items: Seq<StoredFileEntry>)
    requires
        forall|i: int| 0 <= i < items.len() ==> (#[trigger] items[i]).size >= 0,
    ensures
        sizes_add(items) <==> size_sum(items, items.len()) <= i64::MAX,
{
    assert forall|n: nat| n <= items.len() implies 0 <= #[trigger] size_sum(items, n) <= size_sum(
        items,
        items.len(),
    ) by {
        lemma_sum_grows(items, n, items.len());
        lemma_sum_grows(items, 0, n);
    }
    if sizes_add(items) {
        assert(size_sum(items, items.len()) <= i64::MAX);
    }
}

proof fn lemma_sum_grows(items: Seq<StoredFileEntry>, n: nat, m: nat)
    requires
        n <= m <= items.len(),
        forall|i: int| 0 <= i < items.len() ==> (#[trigger] items[i]).size >= 0,
    ensures
        size_sum(items, n) <= size_sum(items, m),
    decreases m - n,
{
    if n < m {
        lemma_sum_grows(items, n, (m - 1) as nat);
        assert(items[m - 1].size >= 0);
    }
}

/// Whether some line tells of a key: the line starts with two blanks and the key, or with the key as
/// the second one after a stroke.
pub open spec fn tells_of(lines: Seq<Shown>, c: char) -> bool {
    exists|i: int|
        0 <= i < lines.len() && (#[trigger] lines[i]).text.len() > 4 && lines[i].text[0] == ' '
            && lines[i].text[1] == ' ' && (lines[i].text[2] == c || (lines[i].text[3] == '/'
            && lines[i].text[4] == c))
}

/// The help tells of every character that has a meaning in a list, but for the blank, which it calls
/// by its name.
pub proof fn law_help_tells_of_every_key(c: char)
    requires
        among(
            c,
            seq![
                'j', 'k', 'J', 'K', 'd', 'u', 'g', 'G', '1', '2', '3', 'n', 'r', 'x', 't', 'z', 'o',
                'Z', 'O', 's', '?', 'S', 'q',
            ],
        ),
    ensures
        tells_of(help_text(), c),
{
    reveal_strlit("  j/↓         Move down one item");
    reveal_strlit("  k/↑         Move up one item");
    reveal_strlit("  J           Jump to next sibling (same depth)");
    reveal_strlit("  K           Jump to previous sibling (same depth)");
    reveal_strlit("  d           Page down (10 items)");
    reveal_strlit("  u           Page up (10 items)");
    reveal_strlit("  gg          Jump to top");
    reveal_strlit("  G           Jump to bottom");
    reveal_strlit("  1           Scan list view");
    reveal_strlit("  2           File tree view");
    reveal_strlit("  3           Cleanup list view");
    reveal_strlit("  n           New scan");
    reveal_strlit("  r           Resume paused scan");
    reveal_strlit("  x           Delete scan (Scan list view)");
    reveal_strlit("  t           Toggle sort mode (size/path)");
    reveal_strlit("  z/o         Fold/unfold directory (File view)");
    reveal_strlit("  Z/O         Unfold directory and all subdirs (File view)");
    reveal_strlit("  s/g         Generate cleanup script (Cleanup view)");
    reveal_strlit("  ?           Show this help");
    reveal_strlit("  S           Show settings");
    reveal_strlit("  q           Quit / Cancel");
    let h = help_text();
    assert(h[3].text[2] == 'j' && h[4].text[2] == 'k' && h[5].text[2] == 'J');
    assert(h[6].text[2] == 'K' && h[7].text[2] == 'd' && h[8].text[2] == 'u');
    assert(h[9].text[2] == 'g' && h[10].text[2] == 'G' && h[13].text[2] == '1');
    assert(h[14].text[2] == '2' && h[15].text[2] == '3' && h[18].text[2] == 'n');
    assert(h[19].text[2] == 'r' && h[20].text[2] == 'x' && h[21].text[2] == 't');
    assert(h[24].text[2] == 'z' && h[24].text[4] == 'o' && h[25].text[2] == 'Z' && h[25].text[4]
        == 'O');
    assert(h[26].text[2] == 's' && h[30].text[2] == '?' && h[31].text[2] == 'S' && h[32].text[2]
        == 'q');
}

/// Below each view stand the keys that it takes; while a path is edited, those for that.
pub proof fn law_keys_below_the_views(s: AppState)
    ensures
        s.view == types::View::Scanning ==> keys_text(s) == "q/Esc: cancel scan"@,
        s.view == types::View::Help ==> keys_text(s) == "Press any key to close help"@,
        s.view == types::View::ConfirmDelete ==> keys_text(s)
            == "y: confirm delete | n/Esc: cancel"@,
        s.view == types::View::ConfirmPathChange ==> keys_text(s)
            == "y: apply change | n/Esc: keep old path"@,
        s.view == types::View::ScanDialog ==> keys_text(s)
            == "Enter: start scan | Esc: cancel | Type path to scan"@,
        s.view == types::View::Settings && s.editing is Some ==> keys_text(s)
            == "Enter: save | Esc: cancel | ←→: move cursor | Type path"@,
        s.view == types::View::Settings && s.editing is None ==> keys_text(s)
            == "q/Esc: close | t: toggle | e: edit path | r: restore default | ↑↓/jk: navigate"@,
        s.view == types::View::ScanList ==> keys_text(s)
            == "q: quit | n: new | t: toggle sort | S: settings | 1: scans | 2: files | 3: cleanup"@,
        s.view == types::View::FileTree ==> keys_text(s)
            == "q: quit | t: toggle sort | S: settings | Space: mark | z: fold | ↑↓/jk: navigate"@,
        s.view == types::View::CleanupList ==> keys_text(s)
            == "q: quit | S: settings | 1: scans | 2: files | 3: cleanup | s: generate | Space: remove"@,
        s.view == types::View::Deleting ==> keys_text(s) == "Deleting scan, please wait..."@,
        s.view == types::View::PreparingResume ==> keys_text(s)
            == "Loading scanned paths, please wait..."@,
{
}

/// What cannot be undone stands out, and so does whether something is at the new path.
pub proof fn law_warnings_stand_out(s: AppState)
    ensures
        s.delete_scan_id is Some ==> confirm_delete_text(s)[1] == plain_line(
            "Delete Scan?"@,
            Tone::Alarm,
        ),
        s.pending is Some && s.pending_exists ==> confirm_path_text(s)[6].tone == Tone::Good,
        s.pending is Some && !s.pending_exists ==> confirm_path_text(s)[6].tone == Tone::Bad,
        s.pending is Some ==> confirm_path_text(s)[1].text == "Change "@ + (if (s.pending->0).0
            == 0 {
            "Config"@
        } else {
            "Database"@
        }) + " Path?"@,
        s.delete_scan_id is None ==> confirm_delete_text(s).len() == 1,
        s.pending is None ==> confirm_path_text(s).len() == 1,
{
}

} // verus!
