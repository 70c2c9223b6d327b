//! The settings and where they are kept.
use vstd::prelude::*;

use crate::text::seen;
use crate::ui::types::law_keyword_reads_back;

pub use crate::ui::types::SortMode;

verus! {

/// The settings.
#[derive(Debug, Clone, Copy, PartialEq, Eq, Structural)]
pub struct Settings {
    pub ui: UiSettings,
}

/// The settings of the browser.
#[derive(Debug, Clone, Copy, PartialEq, Eq, Structural)]
pub struct UiSettings {
    pub file_tree_sort: SortMode,
    pub scan_list_sort: SortMode,
    pub auto_fold_depth: u32,
}

/// How the file tree is sorted unless the settings say otherwise.
pub fn default_file_tree_sort() -> (mode: SortMode)
    ensures
        mode == SortMode::ByPath,
{
    SortMode::ByPath
}

/// How the list of scans is sorted unless the settings say otherwise.
pub fn default_scan_list_sort() -> (mode: SortMode)
    ensures
        mode == SortMode::BySize,
{
    SortMode::BySize
}

/// How deep directories are folded unless the settings say otherwise.
pub fn default_auto_fold_depth() -> (depth: u32)
    ensures
        depth == 1,
{
    1
}

impl Default for UiSettings {
    fn default() -> (s: Self)
        ensures
            s == (UiSettings {
                file_tree_sort: SortMode::ByPath,
                scan_list_sort: SortMode::BySize,
                auto_fold_depth: 1,
            }),
    {
        UiSettings {
            file_tree_sort: default_file_tree_sort(),
            scan_list_sort: default_scan_list_sort(),
            auto_fold_depth: default_auto_fold_depth(),
        }
    }
}

impl Default for Settings {
    fn default() -> (s: Self)
        ensures
            s.ui == (UiSettings {
                file_tree_sort: SortMode::ByPath,
                scan_list_sort: SortMode::BySize,
                auto_fold_depth: 1,
            }),
    {
        Settings { ui: UiSettings::default() }
    }
}

/// The settings that a file holds: what it leaves out has its default.
pub open spec fn settings_in(
    file_tree_sort: Option<SortMode>,
    scan_list_sort: Option<SortMode>,
    auto_fold_depth: Option<u32>,
) -> Settings {
    Settings {
        ui: UiSettings {
            file_tree_sort: match file_tree_sort {
                Some(mode) => mode,
                None => SortMode::ByPath,
            },
            scan_list_sort: match scan_list_sort {
                Some(mode) => mode,
                None => SortMode::BySize,
            },
            auto_fold_depth: match auto_fold_depth {
                Some(depth) => depth,
                None => 1,
            },
        },
    }
}

/// Settings that were written, each under its keyword, are read back as they were.
pub proof fn law_settings_read_back(settings: Settings)
    ensures
        settings_in(
            SortMode::named(settings.ui.file_tree_sort.keyword()),
            SortMode::named(settings.ui.scan_list_sort.keyword()),
            Some(settings.ui.auto_fold_depth),
        ) == settings,
{
    law_keyword_reads_back(settings.ui.file_tree_sort);
    law_keyword_reads_back(settings.ui.scan_list_sort);
}

/// The settings that a file holds: what it leaves out has its default.
pub fn read_settings(
    file_tree_sort: Option<SortMode>,
    scan_list_sort: Option<SortMode>,
    auto_fold_depth: Option<u32>,
) -> (s: Settings)
    ensures
        s == settings_in(file_tree_sort, scan_list_sort, auto_fold_depth),
{
    Settings {
        ui: UiSettings {
            file_tree_sort: match file_tree_sort {
                Some(mode) => mode,
                None => default_file_tree_sort(),
            },
            scan_list_sort: match scan_list_sort {
                Some(mode) => mode,
                None => default_scan_list_sort(),
            },
            auto_fold_depth: match auto_fold_depth {
                Some(depth) => depth,
                None => default_auto_fold_depth(),
            },
        },
    }
}

/// `name` inside the directory at `base`.
pub open spec fn joined(base: Seq<char>, name: Seq<char>) -> Seq<char> {
    if base.len() == 0 || base.last() == '/' {
        base + name
    } else {
        base.push('/') + name
    }
}

fn ends_with_slash(s: &str) -> (b: bool)
    ensures
        b == (s@.len() > 0 && s@.last() == '/'),
{
    let chars = crate::text::to_chars(s);
    chars.len() > 0 && chars[chars.len() - 1] == '/'
}

/// `name`, which is relative, inside the directory at `base`.
pub fn join_path(base: &str, name: &str) -> (path: String)
    ensures
        path@ == joined(base@, name@),
{
    let mut path = base.to_owned();
    if !base.is_empty() && !ends_with_slash(base) {
        path.push('/');
    }
    path.append(name);
    path
}

/// The operating systems that keep settings in a place of their own.
#[derive(Debug, Clone, Copy, PartialEq, Eq, Structural)]
pub enum Platform {
    Macos,
    Linux,
    Windows,
    Other,
}

/// Where settings are kept, as far as the environment says so.
pub open spec fn config_place(
    platform: Platform,
    home: Option<Seq<char>>,
    xdg_config_home: Option<Seq<char>>,
    appdata: Option<Seq<char>>,
) -> Option<Seq<char>> {
    let under_home = match home {
        Some(h) => Some(joined(h, ".config"@)),
        None => None,
    };
    match platform {
        Platform::Macos => under_home,
        Platform::Linux => match xdg_config_home {
            Some(x) => Some(x),
            None => under_home,
        },
        Platform::Windows => appdata,
        Platform::Other => None,
    }
}

/// Where settings are kept, from what the environment holds.
pub fn config_dir(
    platform: Platform,
    home: Option<&str>,
    xdg_config_home: Option<&str>,
    appdata: Option<&str>,
) -> (dir: Option<String>)
    ensures
        match dir {
            Some(d) => config_place(platform, seen(home), seen(xdg_config_home), seen(appdata))
                == Some(d@),
            None => config_place(
                platform,
                seen(home),
                seen(xdg_config_home),
                seen(appdata),
            ) is None,
        },
{
    let under_home = match home {
        Some(h) => Some(join_path(h, ".config")),
        None => None,
    };
    match platform {
        Platform::Macos => under_home,
        Platform::Linux => match xdg_config_home {
            Some(x) => Some(x.to_owned()),
            None => under_home,
        },
        Platform::Windows => match appdata {
            Some(a) => Some(a.to_owned()),
            None => None,
        },
        Platform::Other => None,
    }
}

impl Settings {
    /// Where the settings are kept unless something else is asked for.
    pub fn default_path(config_dir: Option<&str>) -> (path: String)
        ensures
            path@ == joined(
                joined(
                    match config_dir {
                        Some(dir) => dir@,
                        None => "."@,
                    },
                    "rootkitty"@,
                ),
                "settings.toml"@,
            ),
    {
        let base = match config_dir {
            Some(dir) => dir,
            None => ".",
        };
        join_path(join_path(base, "rootkitty").as_str(), "settings.toml")
    }
}

} // verus!
