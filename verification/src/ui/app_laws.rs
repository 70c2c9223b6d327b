//! What holds of the browser whatever is typed.
use vstd::prelude::*;

use crate::bytes::{byte_place, inserted_at, removed_at, starts_char, width};
use crate::ui::state::{
    confirms, declines, on_cleanup_list_char, on_file_tree_act, on_file_tree_char, on_key, on_scan_list,
    on_scan_list_act, on_scan_list_char, on_settings_char, AppState, Cmd, Key,
};
use crate::ui::types;

verus! {

/// A scan is deleted only when its deletion was asked for and is then confirmed.
pub proof fn law_delete_only_confirmed(s: AppState, key: Key, scan_id: i64)
    requires
        on_key(s, key).1 == (Cmd::DeleteScan { scan_id }),
    ensures
        s.view == types::View::ConfirmDelete,
        confirms(key),
        s.delete_scan_id == Some(scan_id),
{
}

/// Declining a deletion deletes nothing and leads back to the list of scans.
pub proof fn law_declined_delete(s: AppState, key: Key)
    requires
        s.view == types::View::ConfirmDelete,
        declines(key),
    ensures
        on_key(s, key) == (
            AppState { delete_scan_id: None, view: types::View::ScanList, ..s },
            Cmd::Wait,
        ),
{
}

/// Declining the change of a path keeps both paths.
pub proof fn law_declined_path_change(s: AppState, key: Key)
    requires
        s.view == types::View::ConfirmPathChange,
        declines(key),
    ensures
        on_key(s, key).1 == Cmd::Wait,
        on_key(s, key).0.settings_path == s.settings_path,
        on_key(s, key).0.db_path == s.db_path,
        on_key(s, key).0.pending is None,
        on_key(s, key).0.view == types::View::Settings,
{
}

/// Only a paused scan is resumed.
pub proof fn law_resume_only_paused(s: AppState, key: Key, scan_id: i64)
    requires
        on_key(s, key).1 == (Cmd::LoadScannedPaths { scan_id }),
    ensures
        s.view == types::View::ScanList,
        s.scan() is Some,
        s.scan()->0.id == scan_id,
        s.scan()->0.status@ == "paused"@,
        on_key(s, key).0.resuming == Some((scan_id, s.scan()->0.root_path@)),
{
    match s.view {
        types::View::ScanList => {
            lemma_list_resume(s, key, scan_id);
        },
        types::View::FileTree => {
            if let Key::Char(c) = key {
                assert(on_file_tree_act(s, c).1 != (Cmd::LoadScannedPaths { scan_id }));
                assert(on_file_tree_char(s, c).1 != (Cmd::LoadScannedPaths { scan_id }));
            }
        },
        types::View::CleanupList => {
            if let Key::Char(c) = key {
                assert(on_cleanup_list_char(s, c).1 != (Cmd::LoadScannedPaths { scan_id }));
            }
        },
        types::View::Settings => {
            if let Key::Char(c) = key {
                assert(on_settings_char(s, c).1 != (Cmd::LoadScannedPaths { scan_id }));
            }
        },
        _ => {},
    }
}

proof fn lemma_list_resume(s: AppState, key: Key, scan_id: i64)
    requires
        s.view == types::View::ScanList,
        on_scan_list(s, key).1 == (Cmd::LoadScannedPaths { scan_id }),
    ensures
        s.scan() is Some,
        s.scan()->0.id == scan_id,
        s.scan()->0.status@ == "paused"@,
        on_scan_list(s, key).0.resuming == Some((scan_id, s.scan()->0.root_path@)),
{
    assert(key is Char);
    let c = key->Char_0;
    assert(on_scan_list_char(s, c) == on_scan_list_act(s, c));
    assert(c == 'r');
}

/// While a scan is deleted or prepared, keys do nothing.
pub proof fn law_keys_wait(s: AppState, key: Key)
    requires
        s.view == types::View::Deleting || s.view == types::View::PreparingResume,
    ensures
        on_key(s, key) == (s, Cmd::Wait),
{
}

/// A scan under way is only ever told to stop.
pub proof fn law_scan_only_stopped(s: AppState, key: Key)
    requires
        s.view == types::View::Scanning,
    ensures
        on_key(s, key).1 == Cmd::Wait || on_key(s, key).1 == Cmd::CancelScan,
        on_key(s, key).1 == Cmd::CancelScan ==> on_key(s, key).0.cancelled,
        on_key(s, key).0.view == s.view,
{
}

/// The help, opened from a list, leads back to it by any key, and changes nothing else.
pub proof fn law_help_leads_back(s: AppState, key: Key)
    requires
        s.view == types::View::ScanList || s.view == types::View::FileTree || s.view
            == types::View::CleanupList,
    ensures
        ({
            let help = on_key(s, Key::Char('?')).0;
            &&& help.view == types::View::Help
            &&& on_key(help, key) == (
                AppState { previous_view: s.view, g_pressed: false, ..s },
                Cmd::Wait,
            )
        }),
{
}

/// The browser is left only from a list, by `q`.
pub proof fn law_quit_only_from_lists(s: AppState, key: Key)
    requires
        on_key(s, key).1 == Cmd::Quit,
    ensures
        key == Key::Char('q'),
        s.view == types::View::ScanList || s.view == types::View::FileTree || s.view
            == types::View::CleanupList,
        on_key(s, key).0 == s,
{
}

proof fn lemma_place_before_insert(s: Seq<char>, b: nat, c: char)
    requires
        byte_place(s, b) is Some,
    ensures
        byte_place(s, b)->0 <= s.len(),
        byte_place(inserted_at(s, b, c), b) == byte_place(s, b),
    decreases s.len(),
{
    let k = byte_place(s, b)->0 as int;
    let t = inserted_at(s, b, c);
    if b > 0 {
        let rest = s.drop_first();
        let left = (b - width(s[0])) as nat;
        lemma_place_before_insert(rest, left, c);
        assert(t[0] == s[0]);
        assert(t.drop_first() =~= inserted_at(rest, left, c));
    }
}

/// Typing a character into a path and taking it back at once leaves the path as it was.
pub proof fn law_typed_then_taken_back(s: AppState, c: char)
    requires
        s.view == types::View::Settings,
        s.editing is Some,
        byte_place(s.path_input, s.cursor as nat) is Some,
        s.cursor < usize::MAX,
    ensures
        ({
            let typed = on_key(s, Key::Char(c)).0;
            &&& starts_char(typed.path_input, (typed.cursor - 1) as nat)
            &&& on_key(typed, Key::Backspace) == (s, Cmd::Wait)
        }),
{
    let b = s.cursor as nat;
    lemma_place_before_insert(s.path_input, b, c);
    let typed = on_key(s, Key::Char(c)).0;
    assert(removed_at(typed.path_input, b) =~= s.path_input);
}

} // verus!
