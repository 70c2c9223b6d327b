//! The settings and where they are kept.
use rootkitty::settings::{config_dir, join_path, read_settings, Platform, Settings};
use rootkitty::ui::SortMode;

#[test]
fn test_default_settings() {
    let settings = Settings::default();
    assert_eq!(settings.ui.file_tree_sort, SortMode::ByPath);
    assert_eq!(settings.ui.scan_list_sort, SortMode::BySize);
    assert_eq!(settings.ui.auto_fold_depth, 1);
}

#[test]
fn test_sort_mode_toggle() {
    // Test ByPath toggles to BySize
    let mode = SortMode::ByPath;
    assert_eq!(mode.toggle(), SortMode::BySize);

    // Test BySize toggles to ByPath
    let mode = SortMode::BySize;
    assert_eq!(mode.toggle(), SortMode::ByPath);

    // Test double toggle returns to where it started
    let mode = SortMode::ByPath;
    assert_eq!(mode.toggle().toggle(), SortMode::ByPath);
}

#[test]
fn test_sort_mode_display_names() {
    assert_eq!(SortMode::BySize.display_name(), "By Size (Descending)");
    assert_eq!(SortMode::ByPath.display_name(), "Alphabetical (by path)");
}

#[test]
fn settings_left_out_have_their_defaults() {
    assert_eq!(read_settings(None, None, None), Settings::default());
    let settings = read_settings(Some(SortMode::BySize), Some(SortMode::ByPath), Some(3));
    assert_eq!(settings.ui.file_tree_sort, SortMode::BySize);
    assert_eq!(settings.ui.scan_list_sort, SortMode::ByPath);
    assert_eq!(settings.ui.auto_fold_depth, 3);
}

#[test]
fn keywords_of_the_settings_file() {
    for mode in [SortMode::BySize, SortMode::ByPath] {
        assert_eq!(SortMode::from_key(mode.key()), Some(mode));
    }
    assert_eq!(SortMode::BySize.key(), "by_size");
    assert_eq!(SortMode::ByPath.key(), "by_path");
    assert_eq!(SortMode::from_key("by_name"), None);
}

#[test]
fn places_of_the_settings() {
    let home = Some("/home/me");
    let xdg = Some("/xdg");
    let appdata = Some("C:/appdata");
    let dir = |platform| config_dir(platform, home, xdg, appdata);
    assert_eq!(dir(Platform::Linux).as_deref(), Some("/xdg"));
    assert_eq!(dir(Platform::Macos).as_deref(), Some("/home/me/.config"));
    assert_eq!(dir(Platform::Windows).as_deref(), Some("C:/appdata"));
    assert_eq!(dir(Platform::Other), None);
    assert_eq!(
        config_dir(Platform::Linux, home, None, appdata).as_deref(),
        Some("/home/me/.config")
    );
    assert_eq!(config_dir(Platform::Linux, None, None, None), None);
    assert_eq!(
        Settings::default_path(Some("/home/me/.config")),
        "/home/me/.config/rootkitty/settings.toml"
    );
    assert_eq!(Settings::default_path(None), "./rootkitty/settings.toml");
}

#[test]
fn paths_joined() {
    for (base, name) in [("/a", "b"), ("/a/", "b"), ("", "b"), ("/", "b")] {
        assert_eq!(
            join_path(base, name),
            std::path::Path::new(base).join(name).display().to_string()
        );
    }
}
