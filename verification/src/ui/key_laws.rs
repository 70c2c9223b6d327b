//! What each key does, view by view.
use vstd::prelude::*;
use vstd::utf8::encode_utf8;

use crate::bytes::{byte_len, byte_place};
use crate::cleanup::script_for;
use crate::db::StoredFileEntry;
use crate::text::occurrences;
use crate::text_laws::{law_changed_at_a_place, law_place_in_bytes};
use crate::ui::listing_laws::below;
use crate::ui::nav::{moved, Move};
use crate::ui::scan_list::{is_scan_order, law_scan_order_determined};
use crate::ui::state::{
    file_sort_toggled, on_key, scan_sort_toggled, takes, AppState, Cmd, Key,
};
use crate::ui::tree::{is_sorted_listing, visible};
use crate::ui::tree_laws::law_listing_determined;
use crate::ui::types;
use crate::ui::types::SortMode;

verus! {

/// While a scan is under way, `q` and Esc tell it to stop: it counts as cancelled from then on, and
/// the message says so.
pub proof fn law_keys_stop_a_scan(s: AppState, key: Key)
    requires
        s.view == types::View::Scanning,
        s.scanning,
        key == Key::Char('q') || key == Key::Esc,
    ensures
        on_key(s, key) == (
            AppState { cancelled: true, status: "Cancelling scan..."@, ..s },
            Cmd::CancelScan,
        ),
{
}

/// While a scan is shown, no other key does anything, and none does where no scan is under way.
pub proof fn law_other_keys_leave_a_scan(s: AppState, key: Key)
    requires
        s.view == types::View::Scanning,
        !s.scanning || (key != Key::Char('q') && key != Key::Esc),
    ensures
        on_key(s, key) == (s, Cmd::Wait),
{
}

/// Each list is left for good by `q`, with nothing changed.
pub proof fn law_lists_are_quit(s: AppState)
    requires
        s.view == types::View::ScanList || s.view == types::View::FileTree || s.view
            == types::View::CleanupList,
    ensures
        on_key(s, Key::Char('q')) == (s, Cmd::Quit),
{
}

/// Where a line of `n` comes to be selected from the `i`th: the next one or the one before, round
/// the ends; ten further down or up, but not beyond the ends; the last.
pub open spec fn goes_to(c: char, i: int, n: int) -> int {
    if c == 'j' {
        (i + 1) % n
    } else if c == 'k' {
        (i - 1) % n
    } else if c == 'd' {
        if i + 10 < n {
            i + 10
        } else {
            n - 1
        }
    } else if c == 'u' {
        if i - 10 > 0 {
            i - 10
        } else {
            0
        }
    } else {
        n - 1
    }
}

/// A key that moves the selection, and the letter that stands for it.
pub open spec fn moves(key: Key, c: char) -> bool {
    ||| (key == Key::Char(c) && (c == 'j' || c == 'k' || c == 'd' || c == 'u' || c == 'G'))
    ||| (key == Key::Down && c == 'j')
    ||| (key == Key::Up && c == 'k')
}

proof fn lemma_goes_to(c: char, i: int, n: int, m: Move)
    requires
        0 <= i < n <= usize::MAX,
        moves(Key::Char(c), c),
        m == if c == 'j' {
            Move::Next
        } else if c == 'k' {
            Move::Previous
        } else if c == 'd' {
            Move::PageDown
        } else if c == 'u' {
            Move::PageUp
        } else {
            Move::Bottom
        },
    ensures
        moved(Some(i as usize), n as nat, m) == Some(goes_to(c, i, n) as usize),
        0 <= goes_to(c, i, n) < n,
{
    assert((i + 1) % n == if i + 1 == n {
        0
    } else {
        i + 1
    }) by {
        if i + 1 < n {
            vstd::arithmetic::div_mod::lemma_small_mod((i + 1) as nat, n as nat);
        } else {
            vstd::arithmetic::div_mod::lemma_mod_self_0(n);
        }
    }
    assert((i - 1) % n == if i == 0 {
        n - 1
    } else {
        i - 1
    }) by {
        if i > 0 {
            vstd::arithmetic::div_mod::lemma_small_mod((i - 1) as nat, n as nat);
        } else {
            vstd::arithmetic::div_mod::lemma_mod_add_multiples_vanish(-1, n);
            vstd::arithmetic::div_mod::lemma_small_mod((n - 1) as nat, n as nat);
        }
    }
}

/// In the list of scans, the keys move the selection and change nothing else.
pub proof fn law_moves_in_scans(s: AppState, key: Key, c: char)
    requires
        s.view == types::View::ScanList,
        s.scans.len() <= usize::MAX,
        s.scan_selected is Some,
        s.scan_selected->0 < s.scans.len(),
        moves(key, c),
    ensures
        on_key(s, key) == (
            AppState {
                scan_selected: Some(
                    goes_to(c, s.scan_selected->0 as int, s.scans.len() as int) as usize,
                ),
                g_pressed: false,
                ..s
            },
            Cmd::Wait,
        ),
{
    reveal(AppState::scan_moved);
    let (i, n) = (s.scan_selected->0 as int, s.scans.len() as int);
    let m = if c == 'j' {
        Move::Next
    } else if c == 'k' {
        Move::Previous
    } else if c == 'd' {
        Move::PageDown
    } else if c == 'u' {
        Move::PageUp
    } else {
        Move::Bottom
    };
    lemma_goes_to(c, i, n, m);
    assert(on_key(s, key).0 == s.scan_moved(m));
}

/// In the file tree, the keys move the selection and change nothing else.
pub proof fn law_moves_in_files(s: AppState, key: Key, c: char)
    requires
        s.view == types::View::FileTree,
        s.listing().len() <= usize::MAX,
        s.file_selected is Some,
        s.file_selected->0 < s.listing().len(),
        moves(key, c),
    ensures
        on_key(s, key) == (
            AppState {
                file_selected: Some(
                    goes_to(c, s.file_selected->0 as int, s.listing().len() as int) as usize,
                ),
                g_pressed: false,
                ..s
            },
            Cmd::Wait,
        ),
{
    reveal(AppState::file_moved);
    let (i, n) = (s.file_selected->0 as int, s.listing().len() as int);
    let m = if c == 'j' {
        Move::Next
    } else if c == 'k' {
        Move::Previous
    } else if c == 'd' {
        Move::PageDown
    } else if c == 'u' {
        Move::PageUp
    } else {
        Move::Bottom
    };
    lemma_goes_to(c, i, n, m);
    assert(on_key(s, key).0 == s.file_moved(m));
}

/// In the list of what is marked, the keys move the selection and change nothing else; only `G`
/// does not right after a `g`.
pub proof fn law_moves_in_cleanup(s: AppState, key: Key, c: char)
    requires
        s.view == types::View::CleanupList,
        s.cleanup.len() <= usize::MAX,
        s.cleanup_selected is Some,
        s.cleanup_selected->0 < s.cleanup.len(),
        moves(key, c),
        c == 'G' ==> !s.g_pressed,
    ensures
        on_key(s, key) == (
            AppState {
                cleanup_selected: Some(
                    goes_to(c, s.cleanup_selected->0 as int, s.cleanup.len() as int) as usize,
                ),
                g_pressed: false,
                ..s
            },
            Cmd::Wait,
        ),
{
    reveal(AppState::cleanup_moved);
    let (i, n) = (s.cleanup_selected->0 as int, s.cleanup.len() as int);
    let m = if c == 'j' {
        Move::Next
    } else if c == 'k' {
        Move::Previous
    } else if c == 'd' {
        Move::PageDown
    } else if c == 'u' {
        Move::PageUp
    } else {
        Move::Bottom
    };
    lemma_goes_to(c, i, n, m);
    assert(on_key(s, key).0 == s.cleanup_moved(m));
}

/// Where nothing is selected yet, a move selects the first line, and `G` the last; in an empty list
/// nothing comes to be selected.
pub proof fn law_first_move_in_scans(s: AppState, key: Key, c: char)
    requires
        s.view == types::View::ScanList,
        s.scan_selected is None,
        moves(key, c),
    ensures
        on_key(s, key).0.scan_selected == if s.scans.len() == 0 {
            None
        } else if c == 'G' {
            Some((s.scans.len() - 1) as usize)
        } else {
            Some(0usize)
        },
{
    reveal(AppState::scan_moved);
}

/// Typing `g` twice selects the first line of each list; after the first one nothing else has
/// changed.
pub proof fn law_gg_goes_to_the_top(s: AppState)
    requires
        s.view == types::View::ScanList || s.view == types::View::FileTree || s.view
            == types::View::CleanupList,
        !s.g_pressed,
    ensures
        ({
            let once = on_key(s, Key::Char('g')).0;
            let twice = on_key(once, Key::Char('g'));
            &&& once == (AppState { g_pressed: true, ..s })
            &&& s.view != types::View::CleanupList ==> on_key(s, Key::Char('g')).1 == Cmd::Wait
            &&& twice.1 == Cmd::Wait
            &&& s.view == types::View::ScanList && s.scans.len() > 0 ==> twice.0 == (AppState {
                scan_selected: Some(0),
                ..s
            })
            &&& s.view == types::View::FileTree && s.listing().len() > 0 ==> twice.0 == (AppState {
                file_selected: Some(0),
                ..s
            })
            &&& s.view == types::View::CleanupList && s.cleanup.len() > 0 ==> twice.0 == (AppState {
                cleanup_selected: Some(0),
                ..s
            })
        }),
{
    reveal(AppState::scan_moved);
    reveal(AppState::file_moved);
    reveal(AppState::cleanup_moved);
    reveal(AppState::listing);
    let once = on_key(s, Key::Char('g')).0;
    assert(once.listing() == s.listing());
}

/// The selected scan is the one on the selected line, in whichever way the scans are sorted.
pub proof fn law_selected_scan(s: AppState, order: Seq<usize>)
    requires
        is_scan_order(s.scans, s.scan_list_sort, order),
    ensures
        s.scan() == if s.scan_selected is Some && s.scan_selected->0 < s.scans.len() {
            Some(s.scans[order[s.scan_selected->0 as int] as int])
        } else {
            None
        },
{
    reveal(AppState::scan);
    law_scan_order_determined(s.scans, s.scan_list_sort, order, s.scan_order());
}

/// The selected file is the one on the selected line of the listing.
pub proof fn law_selected_file(s: AppState, l: Seq<StoredFileEntry>)
    requires
        is_sorted_listing(visible(s.files, s.folded, None), s.file_tree_sort, l),
    ensures
        s.listing() == l,
        s.file() == if s.file_selected is Some && s.file_selected->0 < l.len() {
            Some(l[s.file_selected->0 as int])
        } else {
            None
        },
{
    reveal(AppState::listing);
    reveal(AppState::file);
    law_listing_determined(
        visible(s.files, s.folded, None),
        s.file_tree_sort,
        l,
        s.listing(),
    );
}

/// Enter and `o` open the selected scan: it becomes the current one, and its entries are read.
pub proof fn law_scan_is_opened(s: AppState, key: Key)
    requires
        s.view == types::View::ScanList,
        key == Key::Enter || key == Key::Char('o'),
    ensures
        s.scan() is Some ==> on_key(s, key) == (
            AppState { current_scan: s.scan(), g_pressed: false, ..s },
            Cmd::LoadEntries { scan_id: s.scan()->0.id },
        ),
        s.scan() is None ==> on_key(s, key) == (AppState { g_pressed: false, ..s }, Cmd::Wait),
{
}

/// `r` takes a paused scan up again: what is stored of it is read first, and its number and path
/// are kept until then. Any other scan stays as it is.
pub proof fn law_paused_scan_is_resumed(s: AppState)
    requires
        s.view == types::View::ScanList,
    ensures
        s.scan() is Some && s.scan()->0.status@ == "paused"@ ==> on_key(s, Key::Char('r')) == (
            AppState {
                resuming: Some((s.scan()->0.id, s.scan()->0.root_path@)),
                view: types::View::PreparingResume,
                g_pressed: false,
                status: "Loading already-scanned paths from database..."@,
                ..s
            },
            Cmd::LoadScannedPaths { scan_id: s.scan()->0.id },
        ),
        s.scan() is Some && s.scan()->0.status@ != "paused"@ ==> on_key(s, Key::Char('r')) == (
            AppState { g_pressed: false, status: "Selected scan is not paused"@, ..s },
            Cmd::Wait,
        ),
        s.scan() is None ==> on_key(s, Key::Char('r')) == (
            AppState { g_pressed: false, ..s },
            Cmd::Wait,
        ),
{
}

/// `x` and then `y` or `Y` delete the selected scan, and no other; any other answer deletes none.
pub proof fn law_confirmed_scan_is_deleted(s: AppState, answer: Key)
    requires
        s.view == types::View::ScanList,
        s.scan() is Some,
    ensures
        ({
            let asked = on_key(s, Key::Char('x'));
            let then_said = on_key(asked.0, answer);
            let yes = answer == Key::Char('y') || answer == Key::Char('Y');
            let no = answer == Key::Char('n') || answer == Key::Char('N') || answer == Key::Char(
                'q',
            ) || answer == Key::Esc;
            &&& asked == (
                AppState {
                    view: types::View::ConfirmDelete,
                    previous_view: types::View::ScanList,
                    delete_scan_id: Some(s.scan()->0.id),
                    g_pressed: false,
                    ..s
                },
                Cmd::Wait,
            )
            &&& yes ==> then_said.1 == (Cmd::DeleteScan { scan_id: s.scan()->0.id })
            &&& yes ==> then_said.0 == (AppState {
                deleting: true,
                throbber: 0,
                view: types::View::Deleting,
                ..asked.0
            })
            &&& !yes ==> then_said.1 == Cmd::Wait
            &&& no ==> then_said.0 == (AppState {
                view: types::View::ScanList,
                delete_scan_id: None,
                ..asked.0
            })
            &&& !yes && !no ==> then_said.0 == asked.0
        }),
{
}

/// `1`, `2` and `3` lead to the scans, the files and what is marked. From the scans one gets to the
/// others only where a scan is open, and what is marked is read anew from the scans and the files.
pub proof fn law_views_by_number(s: AppState)
    requires
        s.view == types::View::ScanList || s.view == types::View::FileTree || s.view
            == types::View::CleanupList,
    ensures
        on_key(s, Key::Char('1')) == (
            AppState { view: types::View::ScanList, g_pressed: false, ..s },
            Cmd::Wait,
        ),
        s.view != types::View::ScanList || s.current_scan is Some ==> on_key(s, Key::Char('2')) == (
            AppState { view: types::View::FileTree, g_pressed: false, ..s },
            Cmd::Wait,
        ),
        s.view == types::View::ScanList && s.current_scan is None ==> on_key(s, Key::Char('2')) == (
            AppState { g_pressed: false, ..s },
            Cmd::Wait,
        ),
        s.view == types::View::CleanupList ==> on_key(s, Key::Char('3')) == (
            AppState { g_pressed: false, ..s },
            Cmd::Wait,
        ),
        s.view != types::View::CleanupList && s.current_scan is Some ==> on_key(
            s,
            Key::Char('3'),
        ) == (
            AppState { g_pressed: false, ..s },
            Cmd::LoadCleanup { scan_id: s.current_scan->0.id },
        ),
        s.view == types::View::ScanList && s.current_scan is None ==> on_key(s, Key::Char('3')) == (
            AppState { g_pressed: false, ..s },
            Cmd::Wait,
        ),
        s.view == types::View::FileTree && s.current_scan is None ==> on_key(s, Key::Char('3')) == (
            AppState { view: types::View::CleanupList, g_pressed: false, ..s },
            Cmd::Wait,
        ),
{
}

/// Esc leads from the files and from what is marked back to the scans.
pub proof fn law_escape_leads_to_scans(s: AppState)
    requires
        s.view == types::View::FileTree || s.view == types::View::CleanupList,
    ensures
        on_key(s, Key::Esc) == (
            AppState { view: types::View::ScanList, g_pressed: false, ..s },
            Cmd::Wait,
        ),
{
}

/// `t` sorts a list the other way and says how; the other list keeps its order.
pub proof fn law_sort_is_toggled(s: AppState)
    ensures
        s.view == types::View::ScanList ==> on_key(s, Key::Char('t')) == (
            AppState {
                scan_list_sort: if s.scan_list_sort == SortMode::BySize {
                    SortMode::ByPath
                } else {
                    SortMode::BySize
                },
                status: if s.scan_list_sort == SortMode::BySize {
                    "Scan list sort: "@ + "Alphabetical (by path)"@
                } else {
                    "Scan list sort: "@ + "By Size (Descending)"@
                },
                g_pressed: false,
                ..s
            },
            Cmd::Wait,
        ),
        s.view == types::View::FileTree ==> on_key(s, Key::Char('t')) == (
            AppState {
                file_tree_sort: if s.file_tree_sort == SortMode::BySize {
                    SortMode::ByPath
                } else {
                    SortMode::BySize
                },
                status: if s.file_tree_sort == SortMode::BySize {
                    "File tree sort: "@ + "Alphabetical (by path)"@
                } else {
                    "File tree sort: "@ + "By Size (Descending)"@
                },
                g_pressed: false,
                ..s
            },
            Cmd::Wait,
        ),
{
    reveal(scan_sort_toggled);
    reveal(file_sort_toggled);
}

/// The space bar asks about the mark of the selected file in the open scan.
pub proof fn law_space_asks_for_mark(s: AppState)
    requires
        s.view == types::View::FileTree,
    ensures
        s.current_scan is Some && s.file() is Some ==> on_key(s, Key::Char(' ')) == (
            AppState { g_pressed: false, ..s },
            Cmd::LookUpMark {
                scan_id: s.current_scan->0.id,
                entry_id: s.file()->0.id,
                name: s.file()->0.name@,
            },
        ),
        s.current_scan is None || s.file() is None ==> on_key(s, Key::Char(' ')) == (
            AppState { g_pressed: false, ..s },
            Cmd::Wait,
        ),
{
}

/// In the list of what is marked, the space bar takes the mark from the selected entry.
pub proof fn law_space_takes_mark(s: AppState)
    requires
        s.view == types::View::CleanupList,
        s.current_scan is Some,
        s.cleanup_selected is Some,
        s.cleanup_selected->0 < s.cleanup.len(),
    ensures
        on_key(s, Key::Char(' ')) == (
            AppState { g_pressed: false, ..s },
            Cmd::RemoveCleanup {
                scan_id: s.current_scan->0.id,
                entry_id: s.cleanup[s.cleanup_selected->0 as int].id,
                name: s.cleanup[s.cleanup_selected->0 as int].name@,
                selected: s.cleanup_selected->0,
            },
        ),
{
}

/// `s`, and a first `g`, write the script that removes all that is marked.
pub proof fn law_script_of_all_marked(s: AppState)
    requires
        s.view == types::View::CleanupList,
    ensures
        on_key(s, Key::Char('s')) == (
            AppState { g_pressed: false, ..s },
            Cmd::WriteScript { script: script_for(s.cleanup, s.cleanup.len()) },
        ),
        !s.g_pressed ==> on_key(s, Key::Char('g')) == (
            AppState { g_pressed: true, ..s },
            Cmd::WriteScript { script: script_for(s.cleanup, s.cleanup.len()) },
        ),
{
}

/// `z` and `o` fold the selected directory where it is not folded, and nothing else.
pub proof fn law_directory_is_folded(s: AppState, key: Key)
    requires
        s.view == types::View::FileTree,
        key == Key::Char('z') || key == Key::Char('o'),
        s.file() is Some,
        s.file()->0.is_dir,
        !s.folded.contains(s.file()->0.path@),
    ensures
        on_key(s, key) == (
            AppState {
                folded: s.folded.insert(s.file()->0.path@),
                status: "Folded '"@ + s.file()->0.name@ + "'"@,
                g_pressed: false,
                ..s
            },
            Cmd::Wait,
        ),
{
    reveal(AppState::fold_toggled);
}

/// Whether `path` goes on after `dir` with a single slash in the rest.
pub open spec fn one_slash_after(path: Seq<char>, dir: Seq<char>) -> bool {
    &&& path.len() >= dir.len()
    &&& path.take(dir.len() as int) == dir
    &&& exists|k: int|
        dir.len() <= k < path.len() && #[trigger] path[k] == '/' && forall|m: int|
            dir.len() <= m < path.len() && m != k ==> #[trigger] path[m] != '/'
}

/// `z` and `o` unfold the selected directory where it is folded, and fold the directories one level
/// deeper whose paths start with its own and go on with a single slash; everything else stays as it
/// was.
pub proof fn law_directory_is_unfolded(s: AppState, key: Key, path: Seq<char>)
    requires
        s.view == types::View::FileTree,
        key == Key::Char('z') || key == Key::Char('o'),
        s.file() is Some,
        s.file()->0.is_dir,
        s.folded.contains(s.file()->0.path@),
    ensures
        ({
            let dir = s.file()->0;
            let (next, cmd) = on_key(s, key);
            &&& cmd == Cmd::Wait
            &&& next == (AppState {
                folded: next.folded,
                status: "Unfolded '"@ + dir.name@ + "'"@,
                g_pressed: false,
                ..s
            })
            &&& next.folded.contains(path) <==> {
                ||| (s.folded.contains(path) && path != dir.path@)
                ||| (one_slash_after(path, dir.path@) && exists|i: int|
                    0 <= i < s.files.len() && (#[trigger] s.files[i]).path@ == path
                        && s.files[i].is_dir && s.files[i].depth == dir.depth + 1)
            }
        }),
{
    reveal(AppState::fold_toggled);
    let dir = s.file()->0.path@;
    let n = dir.len() as int;
    if path.len() >= n {
        let rest = path.skip(n);
        lemma_single(rest);
        assert(path.subrange(0, n) =~= path.take(n));
        assert(occurrences(rest, '/') == 1 && path.take(n) == dir <==> one_slash_after(
            path,
            dir,
        )) by {
            if occurrences(rest, '/') == 1 && path.take(n) == dir {
                let k = choose|k: int| #[trigger] only_at(rest, k);
                assert(path[k + n] == '/');
                assert forall|m: int| n <= m < path.len() && m != k + n implies #[trigger] path[m]
                    != '/' by {
                    assert(rest[m - n] != '/');
                }
            }
            if one_slash_after(path, dir) {
                let k = choose|k: int|
                    n <= k < path.len() && #[trigger] path[k] == '/' && forall|m: int|
                        n <= m < path.len() && m != k ==> #[trigger] path[m] != '/';
                assert forall|m: int| 0 <= m < rest.len() && m != k - n implies #[trigger] rest[m]
                    != '/' by {
                    assert(path[m + n] != '/');
                }
                assert(only_at(rest, k - n));
            }
        }
    }
}

spec fn only_at(s: Seq<char>, k: int) -> bool {
    0 <= k < s.len() && s[k] == '/' && forall|m: int|
        0 <= m < s.len() && m != k ==> #[trigger] s[m] != '/'
}

proof fn lemma_none(s: Seq<char>)
    ensures
        occurrences(s, '/') == 0 <==> forall|m: int| 0 <= m < s.len() ==> #[trigger] s[m] != '/',
    decreases s.len(),
{
    if s.len() > 0 {
        let part = s.drop_last();
        lemma_none(part);
        if occurrences(s, '/') == 0 {
            assert forall|m: int| 0 <= m < s.len() implies #[trigger] s[m] != '/' by {
                if m < part.len() {
                    assert(part[m] != '/');
                }
            }
        }
        if forall|m: int| 0 <= m < s.len() ==> #[trigger] s[m] != '/' {
            assert forall|m: int| 0 <= m < part.len() implies #[trigger] part[m] != '/' by {
                assert(s[m] != '/');
            }
            assert(s[s.len() - 1] != '/');
        }
    }
}

proof fn lemma_single(s: Seq<char>)
    ensures
        occurrences(s, '/') == 1 <==> exists|k: int| #[trigger] only_at(s, k),
    decreases s.len(),
{
    if s.len() > 0 {
        let part = s.drop_last();
        let last = s.len() - 1;
        lemma_single(part);
        lemma_none(part);
        if occurrences(s, '/') == 1 {
            if s.last() == '/' {
                assert forall|m: int| 0 <= m < s.len() && m != last implies #[trigger] s[m]
                    != '/' by {
                    assert(part[m] != '/');
                }
                assert(only_at(s, last));
            } else {
                let k = choose|k: int| #[trigger] only_at(part, k);
                assert forall|m: int| 0 <= m < s.len() && m != k implies #[trigger] s[m] != '/' by {
                    if m < part.len() {
                        assert(part[m] != '/');
                    }
                }
                assert(only_at(s, k));
            }
        }
        if exists|k: int| #[trigger] only_at(s, k) {
            let k = choose|k: int| #[trigger] only_at(s, k);
            if k == last {
                assert forall|m: int| 0 <= m < part.len() implies #[trigger] part[m] != '/' by {
                    assert(s[m] != '/');
                }
            } else {
                assert forall|m: int| 0 <= m < part.len() && m != k implies #[trigger] part[m]
                    != '/' by {
                    assert(s[m] != '/');
                }
                assert(only_at(part, k));
                assert(s[last] != '/');
            }
        }
    }
}

/// `Z` and `O` unfold the selected directory and everything below it, and nothing else; nothing
/// comes to be folded.
pub proof fn law_all_below_is_unfolded(s: AppState, key: Key, path: Seq<char>)
    requires
        s.view == types::View::FileTree,
        key == Key::Char('Z') || key == Key::Char('O'),
        s.file() is Some,
        s.file()->0.is_dir,
    ensures
        ({
            let dir = s.file()->0;
            let (next, cmd) = on_key(s, key);
            &&& cmd == Cmd::Wait
            &&& next == (AppState {
                folded: next.folded,
                status: "Unfolded '"@ + dir.name@ + "' and all subdirectories"@,
                g_pressed: false,
                ..s
            })
            &&& next.folded.contains(path) <==> s.folded.contains(path) && path != dir.path@
                && !below(path, dir.path@)
        }),
{
    reveal(AppState::fold_toggled);
    crate::ui::listing_laws::lemma_below(path, s.file()->0.path@);
}

/// Where no directory is selected, nothing is folded or unfolded.
pub proof fn law_only_directories_fold(s: AppState, key: Key)
    requires
        s.view == types::View::FileTree,
        key == Key::Char('z') || key == Key::Char('o') || key == Key::Char('Z') || key == Key::Char(
            'O',
        ),
        s.file() is None || !s.file()->0.is_dir,
    ensures
        on_key(s, key) == (
            AppState {
                status: if s.file() is Some {
                    "Not a directory"@
                } else {
                    s.status
                },
                g_pressed: false,
                ..s
            },
            Cmd::Wait,
        ),
{
    reveal(AppState::fold_toggled);
}

/// The state after a text was typed, character by character.
pub open spec fn typed_in(s: AppState, text: Seq<char>) -> AppState
    decreases text.len(),
{
    if text.len() == 0 {
        s
    } else {
        on_key(typed_in(s, text.drop_last()), Key::Char(text.last())).0
    }
}

proof fn lemma_typed_in_dialog(s: AppState, text: Seq<char>)
    requires
        s.view == types::View::ScanDialog,
    ensures
        typed_in(s, text) == (AppState { scan_input: s.scan_input + text, ..s }),
    decreases text.len(),
{
    if text.len() == 0 {
        assert(s.scan_input + text =~= s.scan_input);
    } else {
        lemma_typed_in_dialog(s, text.drop_last());
        assert((s.scan_input + text.drop_last()).push(text.last()) =~= s.scan_input + text);
    }
}

/// `n`, a path, and Enter start a scan of just that path; Esc instead of Enter leads back and
/// forgets it.
pub proof fn law_typed_path_is_scanned(s: AppState, text: Seq<char>)
    requires
        s.view == types::View::ScanList,
        text.len() > 0,
    ensures
        ({
            let asked = on_key(s, Key::Char('n'));
            let typed = typed_in(asked.0, text);
            &&& asked.1 == Cmd::Wait
            &&& asked.0.view == types::View::ScanDialog
            &&& asked.0.scan_input.len() == 0
            &&& typed == (AppState { scan_input: text, ..asked.0 })
            &&& on_key(typed, Key::Enter) == (typed, Cmd::StartScan { input: text })
            &&& on_key(typed, Key::Esc) == (
                AppState { view: types::View::ScanList, scan_input: Seq::empty(), ..typed },
                Cmd::Wait,
            )
        }),
{
    let asked = on_key(s, Key::Char('n')).0;
    lemma_typed_in_dialog(asked, text);
    assert(asked.scan_input + text =~= text);
}

/// In the dialog for a new scan, Backspace takes back the last character that was typed, and Enter
/// does nothing while nothing is typed.
pub proof fn law_typing_is_taken_back(s: AppState, c: char)
    requires
        s.view == types::View::ScanDialog,
    ensures
        on_key(on_key(s, Key::Char(c)).0, Key::Backspace) == (s, Cmd::Wait),
        s.scan_input.len() == 0 ==> on_key(s, Key::Backspace) == (s, Cmd::Wait),
        s.scan_input.len() == 0 ==> on_key(s, Key::Enter) == (s, Cmd::Wait),
{
    assert(s.scan_input.push(c).drop_last() =~= s.scan_input);
}

/// The settings are opened by `S` from each list and closed by `q` or Esc, and lead back there.
pub proof fn law_settings_lead_back(s: AppState, key: Key)
    requires
        s.view == types::View::ScanList || s.view == types::View::FileTree || s.view
            == types::View::CleanupList,
        s.editing is None,
        key == Key::Char('q') || key == Key::Esc,
    ensures
        ({
            let opened = on_key(s, Key::Char('S'));
            &&& opened.1 == Cmd::Wait
            &&& opened.0 == (AppState {
                view: types::View::Settings,
                previous_view: s.view,
                setting_selected: opened.0.setting_selected,
                g_pressed: false,
                ..s
            })
            &&& s.setting_selected is Some ==> opened.0.setting_selected == s.setting_selected
            &&& s.view == types::View::ScanList && s.setting_selected is None
                ==> opened.0.setting_selected == Some(0usize)
            &&& on_key(opened.0, key) == (AppState { view: s.view, ..opened.0 }, Cmd::Wait)
        }),
{
}

/// In the settings, `j` goes down and `k` goes up, past the lines that are empty and round the ends.
pub proof fn law_moves_in_settings(s: AppState, i: usize)
    requires
        s.view == types::View::Settings,
        s.editing is None,
        s.setting_selected == Some(i),
        i < 9,
        i != 2,
        i != 6,
    ensures
        ({
            let down = on_key(s, Key::Char('j'));
            let up = on_key(s, Key::Char('k'));
            &&& on_key(s, Key::Down) == down
            &&& on_key(s, Key::Up) == up
            &&& down == (
                AppState {
                    setting_selected: Some(
                        if i == 8 {
                            0
                        } else if i == 1 || i == 5 {
                            (i + 2) as usize
                        } else {
                            (i + 1) as usize
                        },
                    ),
                    g_pressed: false,
                    ..s
                },
                Cmd::Wait,
            )
            &&& up == (
                AppState {
                    setting_selected: Some(
                        if i == 0 {
                            8
                        } else if i == 3 || i == 7 {
                            (i - 2) as usize
                        } else {
                            (i - 1) as usize
                        },
                    ),
                    g_pressed: false,
                    ..s
                },
                Cmd::Wait,
            )
        }),
{
}

/// In the settings, `t` sorts the list that is selected the other way, and the settings are saved;
/// on any other line it changes nothing.
pub proof fn law_setting_is_toggled(s: AppState)
    requires
        s.view == types::View::Settings,
        s.editing is None,
    ensures
        ({
            let (next, cmd) = on_key(s, Key::Char('t'));
            let line = s.setting_selected;
            &&& line == Some(3usize) ==> cmd == Cmd::SaveSettings && next.file_tree_sort
                != s.file_tree_sort && next.scan_list_sort == s.scan_list_sort
            &&& line == Some(4usize) ==> cmd == Cmd::SaveSettings && next.scan_list_sort
                != s.scan_list_sort && next.file_tree_sort == s.file_tree_sort
            &&& line != Some(3usize) && line != Some(4usize) ==> (next, cmd) == (
                AppState { g_pressed: false, ..s },
                Cmd::Wait,
            )
        }),
{
    reveal(scan_sort_toggled);
    reveal(file_sort_toggled);
}

/// In the settings, `e` starts to edit the path that is selected, with all of it typed already and
/// the cursor at its end.
pub proof fn law_path_is_edited(s: AppState)
    requires
        s.view == types::View::Settings,
        s.editing is None,
    ensures
        ({
            let (next, cmd) = on_key(s, Key::Char('e'));
            let line = s.setting_selected;
            &&& cmd == Cmd::Wait
            &&& line == Some(0usize) ==> next == (AppState {
                editing: Some(0),
                path_input: s.settings_path,
                cursor: byte_len(s.settings_path) as usize,
                status: "Editing config path..."@,
                g_pressed: false,
                ..s
            })
            &&& line == Some(1usize) ==> next == (AppState {
                editing: Some(1),
                path_input: s.db_path,
                cursor: byte_len(s.db_path) as usize,
                status: "Editing database path (restart required)..."@,
                g_pressed: false,
                ..s
            })
            &&& line != Some(0usize) && line != Some(1usize) ==> next == (AppState {
                g_pressed: false,
                ..s
            })
        }),
{
}

/// In the settings, `r` puts the path of the settings back to where they are kept by default; the
/// path of the database cannot be put back.
pub proof fn law_default_path_is_restored(s: AppState)
    requires
        s.view == types::View::Settings,
        s.editing is None,
    ensures
        on_key(s, Key::Char('r')) == if s.setting_selected == Some(0usize) {
            (AppState { g_pressed: false, ..s }, Cmd::RestoreDefaultPath)
        } else if s.setting_selected == Some(1usize) {
            (
                AppState {
                    g_pressed: false,
                    status: "Database path cannot be restored (set via --db flag)"@,
                    ..s
                },
                Cmd::Wait,
            )
        } else {
            (AppState { g_pressed: false, ..s }, Cmd::Wait)
        },
{
}

/// While a path is edited, a character is put in between what stands before the cursor and what
/// stands behind it, and the cursor moves on by one; with Delete the character behind the cursor
/// goes, with Backspace the one before it, and the rest stays.
pub proof fn law_path_is_changed_at_the_cursor(
    s: AppState,
    before: Seq<char>,
    behind: Seq<char>,
    c: char,
)
    requires
        s.view == types::View::Settings,
        s.editing is Some,
        s.path_input == before + behind,
        byte_place(s.path_input, s.cursor as nat) == Some(before.len()),
        s.cursor < usize::MAX,
    ensures
        on_key(s, Key::Char(c)) == (
            AppState {
                path_input: before + seq![c] + behind,
                cursor: (s.cursor + 1) as usize,
                ..s
            },
            Cmd::Wait,
        ),
        behind.len() > 0 && s.cursor < byte_len(s.path_input) ==> on_key(s, Key::Delete) == (
            AppState { path_input: before + behind.skip(1), ..s },
            Cmd::Wait,
        ),
{
    let all = s.path_input;
    let k = before.len() as int;
    assert(all.take(k) =~= before);
    assert(all.skip(k) =~= behind);
    assert(all.take(k).push(c) + all.skip(k) =~= before + seq![c] + behind);
    if behind.len() > 0 {
        assert(all.remove(k) =~= before + behind.skip(1));
    }
}

/// While a path is edited, Backspace takes away the character that ends at the cursor.
pub proof fn law_path_loses_before_the_cursor(
    s: AppState,
    before: Seq<char>,
    c: char,
    behind: Seq<char>,
)
    requires
        s.view == types::View::Settings,
        s.editing is Some,
        s.path_input == before + seq![c] + behind,
        s.cursor > 0,
        byte_place(s.path_input, (s.cursor - 1) as nat) == Some(before.len()),
    ensures
        on_key(s, Key::Backspace) == (
            AppState {
                path_input: before + behind,
                cursor: (s.cursor - 1) as usize,
                ..s
            },
            Cmd::Wait,
        ),
{
    assert(s.path_input.remove(before.len() as int) =~= before + behind);
}

/// While a path is edited, the cursor moves one to the left or right but not beyond the ends, or to
/// either end; at the ends there is nothing to take away. Enter has the path looked at, and Esc
/// gives the editing up and keeps both paths.
pub proof fn law_cursor_stays_in_path(s: AppState)
    requires
        s.view == types::View::Settings,
        s.editing is Some,
        byte_len(s.path_input) <= usize::MAX,
    ensures
        ({
            let end = byte_len(s.path_input);
            &&& on_key(s, Key::Home) == (AppState { cursor: 0, ..s }, Cmd::Wait)
            &&& on_key(s, Key::End) == (AppState { cursor: end as usize, ..s }, Cmd::Wait)
            &&& s.cursor > 0 ==> on_key(s, Key::Left) == (
                AppState { cursor: (s.cursor - 1) as usize, ..s },
                Cmd::Wait,
            )
            &&& s.cursor < end ==> on_key(s, Key::Right) == (
                AppState { cursor: (s.cursor + 1) as usize, ..s },
                Cmd::Wait,
            )
            &&& s.cursor == 0 ==> on_key(s, Key::Left) == (s, Cmd::Wait) && on_key(
                s,
                Key::Backspace,
            ) == (s, Cmd::Wait)
            &&& s.cursor >= end ==> on_key(s, Key::Right) == (s, Cmd::Wait) && on_key(
                s,
                Key::Delete,
            ) == (s, Cmd::Wait)
            &&& on_key(s, Key::Enter) == (s, Cmd::CheckPath)
            &&& on_key(s, Key::Esc) == (
                AppState {
                    editing: None,
                    path_input: Seq::empty(),
                    cursor: 0,
                    status: "Path edit cancelled"@,
                    ..s
                },
                Cmd::Wait,
            )
        }),
{
}

/// A change of a path is made by `y` or `Y` and by nothing else: the settings are saved under their
/// new path, and the database's path is replaced. `n`, `N`, `q` and Esc give it up.
pub proof fn law_confirmed_path_is_changed(
    s: AppState,
    key: Key,
    which: usize,
    to: Seq<char>,
    from: Seq<char>,
)
    requires
        s.view == types::View::ConfirmPathChange,
        s.pending == Some((which, to, from)),
    ensures
        ({
            let (next, cmd) = on_key(s, key);
            let yes = key == Key::Char('y') || key == Key::Char('Y');
            let no = key == Key::Char('n') || key == Key::Char('N') || key == Key::Char('q') || key
                == Key::Esc;
            let back = AppState { pending: None, view: types::View::Settings, ..s };
            &&& yes && which == 0 ==> (next, cmd) == (back, Cmd::SaveConfigTo { path: to })
            &&& yes && which == 1 ==> (next, cmd) == (
                AppState {
                    db_path: to,
                    status: "Database path updated: "@ + to
                        + " (restart required to take effect)"@,
                    ..back
                },
                Cmd::Wait,
            )
            &&& no ==> (next, cmd) == (
                AppState { status: "Path change cancelled"@, ..back },
                Cmd::Wait,
            )
            &&& !yes && !no ==> (next, cmd) == (s, Cmd::Wait)
        }),
{
}

/// The siblings of the selected file: `J` goes to the next line that lies as deep, where everything
/// between lies deeper, and `K` to the one before; the message names it.
pub proof fn law_sibling_is_selected(s: AppState, i: int, k: int)
    requires
        s.view == types::View::FileTree,
        0 <= i < k < s.listing().len() <= usize::MAX,
        s.listing()[i].depth == s.listing()[k].depth,
        forall|m: int| i < m < k ==> (#[trigger] s.listing()[m]).depth > s.listing()[i].depth,
    ensures
        s.file_selected == Some(i as usize) ==> on_key(s, Key::Char('J')) == (
            AppState {
                file_selected: Some(k as usize),
                status: "Next sibling: "@ + s.listing()[k].name@,
                g_pressed: false,
                ..s
            },
            Cmd::Wait,
        ),
        s.file_selected == Some(k as usize) ==> on_key(s, Key::Char('K')) == (
            AppState {
                file_selected: Some(i as usize),
                status: "Previous sibling: "@ + s.listing()[i].name@,
                g_pressed: false,
                ..s
            },
            Cmd::Wait,
        ),
{
    reveal(AppState::to_sibling);
    let l = s.listing();
    crate::ui::nav::lemma_sibling_at(l, l[i].depth, (i + 1) as nat, k as nat);
    crate::ui::nav::lemma_sibling_back(l, l[i].depth, k as nat, i as nat);
}

/// Where a line that lies less deep, or the end, comes before another that lies as deep, there is no
/// sibling on that side: the selection stays, and the message says so.
pub proof fn law_no_sibling(s: AppState, i: int, k: int)
    requires
        s.view == types::View::FileTree,
        0 <= i < s.listing().len() <= usize::MAX,
        s.file_selected == Some(i as usize),
    ensures
        i < k <= s.listing().len() && (k < s.listing().len() ==> s.listing()[k].depth
            < s.listing()[i].depth) && (forall|m: int|
            i < m < k ==> (#[trigger] s.listing()[m]).depth > s.listing()[i].depth) ==> on_key(
            s,
            Key::Char('J'),
        ) == (
            AppState { status: "No next sibling at this level"@, g_pressed: false, ..s },
            Cmd::Wait,
        ),
        -1 <= k < i && (k >= 0 ==> s.listing()[k].depth < s.listing()[i].depth) && (forall|m: int|
            k < m < i ==> (#[trigger] s.listing()[m]).depth > s.listing()[i].depth) ==> on_key(
            s,
            Key::Char('K'),
        ) == (
            AppState { status: "No previous sibling at this level"@, g_pressed: false, ..s },
            Cmd::Wait,
        ),
{
    reveal(AppState::to_sibling);
    let l = s.listing();
    if i < k <= l.len() && (k < l.len() ==> l[k].depth < l[i].depth) && (forall|m: int|
        i < m < k ==> (#[trigger] l[m]).depth > l[i].depth) {
        crate::ui::nav::lemma_no_sibling_at(l, l[i].depth, (i + 1) as nat, k as nat);
    }
    if -1 <= k < i && (k >= 0 ==> l[k].depth < l[i].depth) && (forall|m: int|
        k < m < i ==> (#[trigger] l[m]).depth > l[i].depth) {
        crate::ui::nav::lemma_no_sibling_back(l, l[i].depth, i as nat, k);
    }
}

/// Whether the character is one of these.
pub open spec fn among(c: char, these: Seq<char>) -> bool {
    exists|i: int| 0 <= i < these.len() && #[trigger] these[i] == c
}

/// A `g` that was typed in a list is forgotten at the next key, unless that leaves the browser or
/// is a `g` itself; a second `g` is no first one.
pub proof fn law_g_is_forgotten(s: AppState, key: Key)
    requires
        s.view == types::View::ScanList || s.view == types::View::FileTree || s.view
            == types::View::CleanupList,
        key != Key::Char('q'),
    ensures
        on_key(s, key).0.g_pressed <==> key == Key::Char('g') && !s.g_pressed,
{
    reveal(AppState::scan_moved);
    reveal(AppState::file_moved);
    reveal(AppState::cleanup_moved);
    reveal(AppState::to_sibling);
    reveal(AppState::fold_toggled);
    reveal(scan_sort_toggled);
    reveal(file_sort_toggled);
}

/// In the list of scans, a character without a meaning does nothing, nor does a key that is not one
/// of the arrows up and down and Enter.
pub proof fn law_no_meaning_in_scans(s: AppState, key: Key)
    requires
        s.view == types::View::ScanList,
        match key {
            Key::Char(c) => !among(
                c,
                seq![
                    'q', '?', 'S', 'n', 'g', 'G', 'j', 'k', 'd', 'u', 'r', 'x', 'o', '1', '2', '3', 't',
                ],
            ),
            Key::Up | Key::Down | Key::Enter => false,
            _ => true,
        },
    ensures
        on_key(s, key) == (AppState { g_pressed: false, ..s }, Cmd::Wait),
{
    let these = seq![
        'q', '?', 'S', 'n', 'g', 'G', 'j', 'k', 'd', 'u', 'r', 'x', 'o', '1', '2', '3', 't',
    ];
    if let Key::Char(c) = key {
        assert(c != these[0] && c != these[1] && c != these[2] && c != these[3] && c != these[4] && c
            != these[5] && c != these[6] && c != these[7] && c != these[8]);
        assert(c != these[9] && c != these[10] && c != these[11] && c != these[12] && c != these[13]
            && c != these[14] && c != these[15] && c != these[16]);
    }
}

/// In the file tree, a character without a meaning does nothing, nor does a key that is not one of
/// the arrows up and down and Esc.
pub proof fn law_no_meaning_in_files(s: AppState, key: Key)
    requires
        s.view == types::View::FileTree,
        match key {
            Key::Char(c) => !among(
                c,
                seq![
                    'q', '?', 'S', 'g', 'G', 'j', 'k', 'd', 'u', '1', '2', '3', 't', 'J', 'K', ' ', 'z',
                    'o', 'Z', 'O',
                ],
            ),
            Key::Up | Key::Down | Key::Esc => false,
            _ => true,
        },
    ensures
        on_key(s, key) == (AppState { g_pressed: false, ..s }, Cmd::Wait),
{
    let these = seq![
        'q', '?', 'S', 'g', 'G', 'j', 'k', 'd', 'u', '1', '2', '3', 't', 'J', 'K', ' ', 'z', 'o', 'Z',
        'O',
    ];
    if let Key::Char(c) = key {
        assert(c != these[0] && c != these[1] && c != these[2] && c != these[3] && c != these[4] && c
            != these[5] && c != these[6] && c != these[7] && c != these[8] && c != these[9]);
        assert(c != these[10] && c != these[11] && c != these[12] && c != these[13] && c != these[14]
            && c != these[15] && c != these[16] && c != these[17] && c != these[18] && c
            != these[19]);
    }
}

/// In the list of what is marked, a character without a meaning does nothing, nor does a key that
/// is not one of the arrows up and down and Esc.
pub proof fn law_no_meaning_in_cleanup(s: AppState, key: Key)
    requires
        s.view == types::View::CleanupList,
        match key {
            Key::Char(c) => !among(
                c,
                seq!['q', '?', 'S', 'g', 'G', 'j', 'k', 'd', 'u', '1', '2', '3', 's', ' '],
            ),
            Key::Up | Key::Down | Key::Esc => false,
            _ => true,
        },
    ensures
        on_key(s, key) == (AppState { g_pressed: false, ..s }, Cmd::Wait),
{
    let these = seq!['q', '?', 'S', 'g', 'G', 'j', 'k', 'd', 'u', '1', '2', '3', 's', ' '];
    if let Key::Char(c) = key {
        assert(c != these[0] && c != these[1] && c != these[2] && c != these[3] && c != these[4] && c
            != these[5] && c != these[6] && c != these[7] && c != these[8] && c != these[9] && c
            != these[10] && c != these[11] && c != these[12] && c != these[13]);
    }
}

/// In the settings, where no path is edited, a character without a meaning does nothing, nor does a
/// key that is not one of the arrows up and down and Esc; and what has a meaning for other settings
/// does nothing to this one.
pub proof fn law_no_meaning_in_settings(s: AppState, key: Key)
    requires
        s.view == types::View::Settings,
        s.editing is None,
        match key {
            Key::Char(c) => {
                &&& c != 'q' && c != 'j' && c != 'k'
                &&& c == 'e' || c == 'r' ==> s.setting_selected != Some(0usize)
                    && s.setting_selected != Some(1usize)
                &&& c == 't' ==> s.setting_selected != Some(3usize) && s.setting_selected != Some(
                    4usize,
                )
            },
            Key::Up | Key::Down | Key::Esc => false,
            _ => true,
        },
    ensures
        on_key(s, key) == (AppState { g_pressed: false, ..s }, Cmd::Wait),
{
}

/// What was typed of the path of a new scan is given up by Esc, which leads where one came from.
pub proof fn law_dialog_is_left(s: AppState)
    requires
        s.view == types::View::ScanDialog,
    ensures
        on_key(s, Key::Esc).1 == Cmd::Wait,
        on_key(s, Key::Esc).0.view == s.previous_view,
        on_key(s, Key::Esc).0.scan_input.len() == 0,
        on_key(s, Key::Esc).0 == (AppState {
            view: s.previous_view,
            scan_input: on_key(s, Key::Esc).0.scan_input,
            ..s
        }),
{
}

/// A path that is edited is given up by Esc: the path stays, and nothing is edited any more.
pub proof fn law_edit_is_given_up(s: AppState)
    requires
        s.view == types::View::Settings,
        s.editing is Some,
    ensures
        on_key(s, Key::Esc) == (
            AppState {
                editing: None,
                path_input: Seq::empty(),
                cursor: 0,
                status: "Path edit cancelled"@,
                ..s
            },
            Cmd::Wait,
        ),
        on_key(s, Key::Enter) == (s, Cmd::CheckPath),
        on_key(s, Key::Up) == (s, Cmd::Wait),
        on_key(s, Key::Down) == (s, Cmd::Wait),
{
}

/// `n`, `N`, Esc and `q` keep the paths, and keys that say neither yes nor no leave the question
/// open.
pub proof fn law_path_is_kept(s: AppState, key: Key)
    requires
        s.view == types::View::ConfirmPathChange,
        key != Key::Char('y'),
        key != Key::Char('Y'),
    ensures
        on_key(s, key).1 == Cmd::Wait,
        key == Key::Char('n') || key == Key::Char('N') || key == Key::Char('q') || key == Key::Esc
            ==> on_key(s, key).0 == (AppState {
            pending: None,
            view: types::View::Settings,
            status: "Path change cancelled"@,
            ..s
        }),
        key != Key::Char('n') && key != Key::Char('N') && key != Key::Char('q') && key != Key::Esc
            ==> on_key(s, key).0 == s,
{
}

/// The script for what is marked is written by `s`, by a first `g` and by a `G` after it.
pub proof fn law_script_is_written(s: AppState, key: Key)
    requires
        s.view == types::View::CleanupList,
        key == Key::Char('s') || (key == Key::Char('g') && !s.g_pressed) || (key == Key::Char('G')
            && s.g_pressed),
    ensures
        on_key(s, key).1 is WriteScript,
        on_key(s, key).0 == (AppState { g_pressed: key == Key::Char('g'), ..s }),
{
}

/// Where no file is selected, `J` and `K` select the first one that is listed; where none is listed,
/// or the selection is past the end, they do nothing.
pub proof fn law_first_sibling_is_selected(s: AppState, key: Key)
    requires
        s.view == types::View::FileTree,
        key == Key::Char('J') || key == Key::Char('K'),
    ensures
        s.file_selected is None && s.listing().len() > 0 ==> on_key(s, key) == (
            AppState { file_selected: Some(0), g_pressed: false, ..s },
            Cmd::Wait,
        ),
        s.listing().len() == 0 ==> on_key(s, key) == (AppState { g_pressed: false, ..s }, Cmd::Wait),
        s.file_selected is Some && s.file_selected->0 >= s.listing().len() ==> on_key(s, key) == (
            AppState { g_pressed: false, ..s },
            Cmd::Wait,
        ),
{
    reveal(AppState::to_sibling);
}

/// Every key can be taken unless a path is edited. Then what is typed can be taken where the cursor
/// stands between two characters, Delete where it does or stands at the end, and Backspace where
/// it stands behind a character of one byte; other keys always.
pub proof fn law_keys_are_taken(s: AppState, key: Key, before: Seq<char>, after: Seq<char>)
    requires
        s.path_input == before + after,
        s.cursor == encode_utf8(before).len(),
        s.cursor < usize::MAX,
    ensures
        s.view != types::View::Settings ==> takes(s, key),
        s.editing is None ==> takes(s, key),
        key is Char ==> takes(s, key),
        key == Key::Delete ==> takes(s, key),
        key == Key::Backspace && (before.len() == 0 || (before.last() as u32) < 128) ==> takes(s, key),
        key !is Char && key != Key::Backspace ==> takes(s, key),
{
    law_place_in_bytes(before, after, 0);
    if after.len() == 0 {
        assert(before + after =~= before);
    }
    if before.len() > 0 && (before.last() as u32) < 128 {
        let head = before.drop_last();
        let c = before.last();
        vstd::utf8::char_is_scalar(c);
        law_changed_at_a_place(head, c, after);
        law_place_in_bytes(head, seq![c] + after, 0);
        assert(head + seq![c] =~= before);
        assert(head + (seq![c] + after) =~= before + after);
        assert(byte_len(before) == byte_len(head) + 1);
    } else if before.len() == 0 {
        assert(encode_utf8(before).len() == 0);
    }
}

} // verus!
