//! The vocabulary of the browser.
use vstd::prelude::*;
use vstd::view::View as _;

use crate::text::text_eq;

verus! {

/// What the browser shows.
#[derive(Debug, Clone, Copy, PartialEq, Eq, Structural)]
pub enum View {
    ScanList,
    FileTree,
    CleanupList,
    ScanDialog,
    Scanning,
    Help,
    ConfirmDelete,
    Deleting,
    PreparingResume,
    Settings,
    ConfirmPathChange,
}

/// How a list is sorted.
#[derive(Debug, Clone, Copy, PartialEq, Eq, Structural)]
pub enum SortMode {
    BySize,
    ByPath,
}

impl SortMode {
    /// The other way to sort.
    pub open spec fn toggled(self) -> SortMode {
        match self {
            SortMode::BySize => SortMode::ByPath,
            SortMode::ByPath => SortMode::BySize,
        }
    }

    /// The other way to sort.
    pub fn toggle(self) -> (other: SortMode)
        ensures
            other == self.toggled(),
    {
        match self {
            SortMode::BySize => SortMode::ByPath,
            SortMode::ByPath => SortMode::BySize,
        }
    }

    /// What the way to sort is called on the screen.
    pub open spec fn title(self) -> Seq<char> {
        match self {
            SortMode::BySize => "By Size (Descending)"@,
            SortMode::ByPath => "Alphabetical (by path)"@,
        }
    }

    /// What the way to sort is called on the screen.
    pub fn display_name(self) -> (name: &'static str)
        ensures
            name@ == self.title(),
    {
        match self {
            SortMode::BySize => "By Size (Descending)",
            SortMode::ByPath => "Alphabetical (by path)",
        }
    }

    /// What the way to sort is called in the settings file.
    pub open spec fn keyword(self) -> Seq<char> {
        match self {
            SortMode::BySize => "by_size"@,
            SortMode::ByPath => "by_path"@,
        }
    }

    /// What the way to sort is called in the settings file.
    pub fn key(self) -> (key: &'static str)
        ensures
            key@ == self.keyword(),
    {
        match self {
            SortMode::BySize => "by_size",
            SortMode::ByPath => "by_path",
        }
    }

    /// The way to sort that the settings file means by `key`, where it means one.
    pub open spec fn named(key: Seq<char>) -> Option<SortMode> {
        if key == "by_size"@ {
            Some(SortMode::BySize)
        } else if key == "by_path"@ {
            Some(SortMode::ByPath)
        } else {
            None
        }
    }

    /// The way to sort that the settings file means by `key`, where it means one.
    pub fn from_key(key: &str) -> (mode: Option<SortMode>)
        ensures
            mode == SortMode::named(key@),
    {
        if text_eq(key, "by_size") {
            Some(SortMode::BySize)
        } else if text_eq(key, "by_path") {
            Some(SortMode::ByPath)
        } else {
            None
        }
    }
}

/// What the settings file calls a way to sort is read back as that way to sort.
pub proof fn law_keyword_reads_back(mode: SortMode)
    ensures
        SortMode::named(mode.keyword()) == Some(mode),
{
    reveal_strlit("by_size");
    reveal_strlit("by_path");
    assert("by_size"@[3] != "by_path"@[3]);
}

/// How far a scan has come.
#[derive(Debug)]
pub struct ScanProgress {
    pub entries_scanned: u64,
    pub active_dirs: Vec<(String, usize, usize)>,
    pub active_workers: usize,
}

/// Toggling twice gives back the first way to sort.
pub proof fn law_toggle_twice(mode: SortMode)
    ensures
        mode.toggled().toggled() == mode,
        mode.toggled() != mode,
{
}

} // verus!
