//! Moves of the selection in a list.
use vstd::prelude::*;

use crate::db::StoredFileEntry;
use crate::ui::tree::entries_of;

verus! {

/// A page has so many lines.
pub const PAGE: usize = 10;

/// A move in a list.
#[derive(Debug, Clone, Copy, PartialEq, Eq, Structural)]
pub enum Move {
    Next,
    Previous,
    Top,
    Bottom,
    PageDown,
    PageUp,
}

/// The selection after a move in a list of `len` lines. Next and previous go round the ends, pages
/// stop there. In an empty list nothing moves.
pub open spec fn moved(selected: Option<usize>, len: nat, m: Move) -> Option<usize> {
    if len == 0 {
        selected
    } else {
        match m {
            Move::Top => Some(0),
            Move::Bottom => Some((len - 1) as usize),
            _ => match selected {
                None => Some(0),
                Some(i) => match m {
                    Move::Next => Some(
                        if i >= len - 1 {
                            0
                        } else {
                            (i + 1) as usize
                        },
                    ),
                    Move::Previous => Some(
                        if i == 0 {
                            (len - 1) as usize
                        } else {
                            (i - 1) as usize
                        },
                    ),
                    Move::PageDown => Some(
                        if i + PAGE >= len {
                            (len - 1) as usize
                        } else {
                            (i + PAGE) as usize
                        },
                    ),
                    _ => Some(
                        if i >= PAGE {
                            (i - PAGE) as usize
                        } else {
                            0
                        },
                    ),
                },
            },
        }
    }
}

/// Moves the selection in a list of `len` lines.
pub fn move_selection(selected: Option<usize>, len: usize, m: Move) -> (r: Option<usize>)
    ensures
        r == moved(selected, len as nat, m),
{
    if len == 0 {
        return selected;
    }
    match m {
        Move::Top => Some(0),
        Move::Bottom => Some(len - 1),
        _ => match selected {
            None => Some(0),
            Some(i) => match m {
                Move::Next => Some(
                    if i >= len - 1 {
                        0
                    } else {
                        i + 1
                    },
                ),
                Move::Previous => Some(
                    if i == 0 {
                        len - 1
                    } else {
                        i - 1
                    },
                ),
                Move::PageDown => Some(
                    if i >= len || len - i <= PAGE {
                        len - 1
                    } else {
                        i + PAGE
                    },
                ),
                _ => Some(
                    if i >= PAGE {
                        i - PAGE
                    } else {
                        0
                    },
                ),
            },
        },
    }
}

/// A selection that is in the list stays in the list.
pub proof fn law_move_stays_in_list(selected: Option<usize>, len: nat, m: Move)
    requires
        0 < len <= usize::MAX,
        selected is Some ==> selected->0 < len,
    ensures
        moved(selected, len, m) is Some,
        moved(selected, len, m)->0 < len,
{
}

/// A step forward and a step back lead where one was.
pub proof fn law_next_then_previous(i: usize, len: nat)
    requires
        i < len <= usize::MAX,
    ensures
        moved(moved(Some(i), len, Move::Next), len, Move::Previous) == Some(i),
        moved(moved(Some(i), len, Move::Previous), len, Move::Next) == Some(i),
{
}

/// How many settings there are, spacers counted.
pub const SETTINGS_LINES: usize = 9;

/// Whether a line of the settings is a spacer.
pub open spec fn is_spacer(i: nat) -> bool {
    i == 2 || i == 6
}

/// The setting after this one; spacers are passed over.
pub open spec fn next_setting(selected: Option<usize>) -> usize {
    match selected {
        None => 0,
        Some(i) => if i >= 8 {
            0
        } else if is_spacer((i + 1) as nat) {
            (i + 2) as usize
        } else {
            (i + 1) as usize
        },
    }
}

/// The setting before this one; spacers are passed over.
pub open spec fn previous_setting(selected: Option<usize>) -> usize {
    match selected {
        None => 0,
        Some(i) => if i == 0 {
            8
        } else if is_spacer((i - 1) as nat) {
            (i - 2) as usize
        } else {
            (i - 1) as usize
        },
    }
}

/// The setting after this one.
pub fn settings_next(selected: Option<usize>) -> (r: usize)
    ensures
        r == next_setting(selected),
{
    match selected {
        None => 0,
        Some(i) => if i >= SETTINGS_LINES - 1 {
            0
        } else if i + 1 == 2 || i + 1 == 6 {
            i + 2
        } else {
            i + 1
        },
    }
}

/// The setting before this one.
pub fn settings_previous(selected: Option<usize>) -> (r: usize)
    ensures
        r == previous_setting(selected),
{
    match selected {
        None => 0,
        Some(i) => if i == 0 {
            SETTINGS_LINES - 1
        } else if i - 1 == 2 || i - 1 == 6 {
            i - 2
        } else {
            i - 1
        },
    }
}

/// From a setting that is no spacer, one gets to another that is none, and back.
pub proof fn law_settings_round(i: usize)
    requires
        i < SETTINGS_LINES,
        !is_spacer(i as nat),
    ensures
        next_setting(Some(i)) < SETTINGS_LINES,
        !is_spacer(next_setting(Some(i)) as nat),
        previous_setting(Some(next_setting(Some(i)))) == i,
        previous_setting(Some(i)) < SETTINGS_LINES,
        !is_spacer(previous_setting(Some(i)) as nat),
        next_setting(Some(previous_setting(Some(i)))) == i,
{
}

/// The next entry from `k` on at this depth, unless one that lies less deep comes first.
pub open spec fn sibling_from(entries: Seq<StoredFileEntry>, depth: i64, k: nat) -> Option<nat>
    decreases entries.len() - k,
{
    if k >= entries.len() {
        None
    } else if entries[k as int].depth == depth {
        Some(k)
    } else if entries[k as int].depth < depth {
        None
    } else {
        sibling_from(entries, depth, k + 1)
    }
}

/// The last entry before `k` at this depth, unless one that lies less deep comes between.
pub open spec fn sibling_before(entries: Seq<StoredFileEntry>, depth: i64, k: nat) -> Option<nat>
    decreases k,
{
    if k == 0 {
        None
    } else if entries[k - 1].depth == depth {
        Some((k - 1) as nat)
    } else if entries[k - 1].depth < depth {
        None
    } else {
        sibling_before(entries, depth, (k - 1) as nat)
    }
}

/// The next sibling of the entry at `i`, where there is one.
pub fn next_sibling(entries: &Vec<&StoredFileEntry>, i: usize) -> (r: Option<usize>)
    requires
        i < entries@.len(),
    ensures
        match r {
            Some(k) => k < entries@.len() && sibling_from(
                entries_of(entries@),
                entries@[i as int].depth,
                (i + 1) as nat,
            ) == Some(k as nat),
            None => sibling_from(
                entries_of(entries@),
                entries@[i as int].depth,
                (i + 1) as nat,
            ) is None,
        },
{
    let ghost all = entries_of(entries@);
    let depth: i64 = entries[i].depth;
    let n: usize = entries.len();
    let mut k: usize = i + 1;
    while k < n
        invariant
            i < k <= n == entries@.len(),
            depth == entries@[i as int].depth,
            all == entries_of(entries@),
            sibling_from(all, depth, (i + 1) as nat) == sibling_from(all, depth, k as nat),
        decreases entries@.len() - k,
    {
        if entries[k].depth == depth {
            return Some(k);
        } else if entries[k].depth < depth {
            return None;
        }
        k = k + 1;
    }
    None
}

/// The previous sibling of the entry at `i`, where there is one.
pub fn previous_sibling(entries: &Vec<&StoredFileEntry>, i: usize) -> (r: Option<usize>)
    requires
        i < entries@.len(),
    ensures
        match r {
            Some(k) => k < i && sibling_before(
                entries_of(entries@),
                entries@[i as int].depth,
                i as nat,
            ) == Some(k as nat),
            None => sibling_before(
                entries_of(entries@),
                entries@[i as int].depth,
                i as nat,
            ) is None,
        },
{
    let ghost all = entries_of(entries@);
    let depth: i64 = entries[i].depth;
    let mut k: usize = i;
    while k > 0
        invariant
            k <= i < entries@.len(),
            depth == entries@[i as int].depth,
            all == entries_of(entries@),
            sibling_before(all, depth, i as nat) == sibling_before(all, depth, k as nat),
        decreases k,
    {
        if entries[k - 1].depth == depth {
            return Some(k - 1);
        } else if entries[k - 1].depth < depth {
            return None;
        }
        k = k - 1;
    }
    None
}

/// A step to the next sibling and one back lead where one was.
pub proof fn law_sibling_round(entries: Seq<StoredFileEntry>, i: nat)
    requires
        i < entries.len(),
        sibling_from(entries, entries[i as int].depth, i + 1) is Some,
    ensures
        ({
            let next = sibling_from(entries, entries[i as int].depth, i + 1)->0;
            &&& next < entries.len()
            &&& entries[next as int].depth == entries[i as int].depth
            &&& sibling_before(entries, entries[next as int].depth, next) == Some(i)
        }),
{
    lemma_sibling_round(entries, i, i + 1);
}

proof fn lemma_sibling_round(entries: Seq<StoredFileEntry>, i: nat, k: nat)
    requires
        i < k <= entries.len(),
        sibling_from(entries, entries[i as int].depth, (i + 1) as nat) is Some,
        sibling_from(entries, entries[i as int].depth, (i + 1) as nat) == sibling_from(
            entries,
            entries[i as int].depth,
            k,
        ),
        forall|m: int| i < m < k ==> (#[trigger] entries[m]).depth > entries[i as int].depth,
    ensures
        ({
            let next = sibling_from(entries, entries[i as int].depth, (i + 1) as nat)->0;
            &&& next < entries.len()
            &&& entries[next as int].depth == entries[i as int].depth
            &&& sibling_before(entries, entries[next as int].depth, next) == Some(i)
        }),
    decreases entries.len() - k,
{
    let depth = entries[i as int].depth;
    if entries[k as int].depth == depth {
        lemma_back_over(entries, depth, i, k);
    } else {
        lemma_sibling_round(entries, i, k + 1);
    }
}

proof fn lemma_back_over(entries: Seq<StoredFileEntry>, depth: i64, i: nat, k: nat)
    requires
        i < k <= entries.len(),
        entries[i as int].depth == depth,
        forall|m: int| i < m < k ==> (#[trigger] entries[m]).depth > depth,
    ensures
        sibling_before(entries, depth, k) == Some(i),
    decreases k,
{
    if k > i + 1 {
        assert(entries[k - 1].depth > depth);
        lemma_back_over(entries, depth, i, (k - 1) as nat);
    }
}

/// The sibling from `k` on is the first line as deep that only deeper ones come before.
pub proof fn lemma_sibling_at(entries: Seq<StoredFileEntry>, depth: i64, k: nat, at: nat)
    requires
        k <= at < entries.len(),
        entries[at as int].depth == depth,
        forall|m: int| k <= m < at ==> (#[trigger] entries[m]).depth > depth,
    ensures
        sibling_from(entries, depth, k) == Some(at),
    decreases at - k,
{
    if k < at {
        assert(entries[k as int].depth > depth);
        lemma_sibling_at(entries, depth, k + 1, at);
    }
}

/// There is no sibling from `k` on where a less deep line or the end comes first.
pub proof fn lemma_no_sibling_at(entries: Seq<StoredFileEntry>, depth: i64, k: nat, at: nat)
    requires
        k <= at <= entries.len(),
        at < entries.len() ==> entries[at as int].depth < depth,
        forall|m: int| k <= m < at ==> (#[trigger] entries[m]).depth > depth,
    ensures
        sibling_from(entries, depth, k) is None,
    decreases at - k,
{
    if k < at {
        assert(entries[k as int].depth > depth);
        lemma_no_sibling_at(entries, depth, k + 1, at);
    }
}

/// The sibling before `k` is the last line as deep that only deeper ones come after.
pub proof fn lemma_sibling_back(entries: Seq<StoredFileEntry>, depth: i64, k: nat, at: nat)
    requires
        at < k <= entries.len(),
        entries[at as int].depth == depth,
        forall|m: int| at < m < k ==> (#[trigger] entries[m]).depth > depth,
    ensures
        sibling_before(entries, depth, k) == Some(at),
    decreases k,
{
    if at + 1 < k {
        assert(entries[k - 1].depth > depth);
        lemma_sibling_back(entries, depth, (k - 1) as nat, at);
    }
}

/// There is no sibling before `k` where a less deep line or the beginning comes first.
pub proof fn lemma_no_sibling_back(entries: Seq<StoredFileEntry>, depth: i64, k: nat, at: int)
    requires
        -1 <= at < k <= entries.len(),
        at >= 0 ==> entries[at].depth < depth,
        forall|m: int| at < m < k ==> (#[trigger] entries[m]).depth > depth,
    ensures
        sibling_before(entries, depth, k) is None,
    decreases k,
{
    if at + 1 < k {
        assert(entries[k - 1].depth > depth);
        lemma_no_sibling_back(entries, depth, (k - 1) as nat, at);
    }
}

} // verus!
