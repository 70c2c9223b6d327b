//! Texts, their places in bytes, shortened paths and shell words.
use rootkitty::bytes::{
    char_width, insert_char, is_char_start, is_place, remove_char, smart_truncate_path, text_bytes,
    truncatable,
};
use rootkitty::cleanup::{cleanup_script, is_marked};
use rootkitty::db::StoredFileEntry;
use rootkitty::paths::{expand_home, same_path, PathSet};
use rootkitty::text::{
    begins_with, contains_part, count_char, i64_text, pad, pad_left, split_text, text_eq,
    trim_end_of, u64_text,
};

fn item(id: i64, path: &str, is_dir: bool) -> StoredFileEntry {
    StoredFileEntry {
        id,
        scan_id: 1,
        path: path.to_string(),
        name: path.to_string(),
        parent_path: None,
        size: 10,
        is_dir,
        modified_at: None,
        depth: 0,
    }
}

#[test]
fn texts_split_and_trimmed() {
    for s in ["", "/", "/a/b", "a//b/", "ä/ö"] {
        let parts: Vec<&str> = s.split('/').collect();
        assert_eq!(split_text(s, '/'), parts);
        assert_eq!(trim_end_of(s, '/'), s.trim_end_matches('/'));
        assert_eq!(count_char(s, '/'), s.matches('/').count());
    }
}

#[test]
fn texts_compared() {
    assert!(text_eq("añb", "añb"));
    assert!(!text_eq("añb", "anb"));
    assert!(begins_with("/home/user", "/home"));
    assert!(!begins_with("/home", "/home/user"));
    assert!(contains_part("haystack", "yst"));
    assert!(contains_part("anything", ""));
    assert!(!contains_part("hay", "haystack"));
}

#[test]
fn numbers_as_texts() {
    for n in [0u64, 9, 10, 99, 12_345, u64::MAX] {
        assert_eq!(u64_text(n), n.to_string());
    }
    for n in [0i64, -1, 42, i64::MAX, i64::MIN] {
        assert_eq!(i64_text(n), n.to_string());
    }
    assert_eq!(pad("ab", 5), format!("{:<5}", "ab"));
    assert_eq!(pad("abcdef", 5), "abcdef");
    assert_eq!(pad_left("7", 3), format!("{:>3}", 7));
}

#[test]
fn places_in_bytes() {
    let s = "aéz🦀";
    assert_eq!(text_bytes(s), s.len());
    for c in s.chars() {
        assert_eq!(char_width(c), c.len_utf8());
    }
    for b in 0..10 {
        assert_eq!(is_place(s, b), s.is_char_boundary(b));
        assert_eq!(is_char_start(s, b), b < s.len() && s.is_char_boundary(b));
    }
}

#[test]
fn characters_put_in_and_taken_out() {
    assert_eq!(insert_char("aéz", 3, 'x'), "aéxz");
    assert_eq!(insert_char("", 0, 'x'), "x");
    assert_eq!(insert_char("ab", 2, 'c'), "abc");
    assert_eq!(remove_char("aéz", 1), "az");
    assert_eq!(remove_char("aéz", 3), "aé");
    assert_eq!(remove_char(&insert_char("path", 2, 'X'), 2), "path");
}

#[test]
fn paths_shortened() {
    assert_eq!(smart_truncate_path("/short", 60), "/short");
    // Few parts: the end is kept.
    assert_eq!(smart_truncate_path("/a/0123456789", 8), "...56789");
    // Many parts: both ends are kept as whole parts where they fit.
    assert_eq!(
        smart_truncate_path("/usr/local/share/very/long/way/down/file", 24),
        "/usr/.../down/file"
    );
    // Otherwise the middle is cut out.
    assert_eq!(
        smart_truncate_path("/aaaaaaaaaa/bbbbbbbbbb/cccccccccc/dddddddddd", 20),
        "/aaaaaaa...dddddddd"
    );
}

#[test]
fn shortened_paths_fit() {
    let path = "/some/long/path/with/many/parts/and/äöü/letters/inside/of/it.txt";
    for max in 3..80 {
        if truncatable(path, max) {
            assert!(smart_truncate_path(path, max).len() <= max);
        }
    }
}

#[test]
fn paths_that_would_be_cut_inside_a_character() {
    assert!(!truncatable("/x/éééééé", 8));
    assert!(truncatable("/x/éééééé", 9));
}

#[test]
fn script_removes_each_item() {
    let items = vec![item(1, "/tmp/file", false), item(2, "/tmp/dir", true)];
    assert_eq!(
        cleanup_script(&items),
        "#!/bin/bash\n\n# Rootkitty cleanup script\n# Review carefully before running!\n\n\
         rm '/tmp/file'\nrm -rf '/tmp/dir'\n"
    );
    assert!(is_marked(&items, 2));
    assert!(!is_marked(&items, 3));
}

#[test]
fn script_quotes_quotes() {
    let items = vec![item(1, "/tmp/it's", false)];
    assert!(cleanup_script(&items).ends_with("rm '/tmp/it'\\''s'\n"));
}

#[test]
fn script_of_nothing() {
    assert_eq!(
        cleanup_script(&vec![]),
        "#!/bin/bash\n\n# Rootkitty cleanup script\n# Review carefully before running!\n\n"
    );
}

#[test]
fn home_directory_expanded() {
    let me = Some("/home/me");
    assert_eq!(expand_home("~", me), "/home/me");
    assert_eq!(expand_home("~/", me), "/home/me/");
    assert_eq!(expand_home("~/work", me), "/home/me/work");
    assert_eq!(expand_home("/var/log", me), "/var/log");
    assert_eq!(expand_home("~other/x", me), "~other/x");
    assert_eq!(expand_home("a/~", me), "a/~");
    assert_eq!(expand_home("", me), "");
    assert_eq!(expand_home("~/work", None), "~/work");
    assert_eq!(expand_home("~", None), "~");
    let home = shellexpand::tilde("~").to_string();
    assert_eq!(expand_home("~/work", Some(&home)), shellexpand::tilde("~/work").to_string());
}

#[test]
fn paths_for_one_place() {
    assert!(same_path("/a/b", "/a//b/"));
    assert!(same_path("/a/./b", "/a/b"));
    assert!(!same_path("a/b", "/a/b"));
    assert!(!same_path("./a", "a"));
    assert!(!same_path("/a/b", "/a/c"));
    for (a, b) in [("/a/b", "/a//b/"), ("./a", "a"), ("a/.", "a"), ("", "."), ("/", "//")] {
        assert_eq!(same_path(a, b), std::path::Path::new(a) == std::path::Path::new(b));
    }
}

#[test]
fn sets_of_paths() {
    let mut set = PathSet::new();
    assert_eq!(set.len(), 0);
    set.insert("/a".to_string());
    set.insert("/a/b".to_string());
    set.insert("/ab".to_string());
    set.insert("/a".to_string());
    assert_eq!(set.len(), 3);
    set.remove("/nowhere");
    assert_eq!(set.len(), 3);
    set.remove("/ab");
    assert!(!set.contains("/ab"));
    set.insert("/ab".to_string());
    set.remove_subtree("/a");
    assert!(set.contains("/ab"));
    assert!(!set.contains("/a") && !set.contains("/a/b"));
    set.clear();
    assert_eq!(set.len(), 0);
    set.insert("/".to_string());
    set.insert("/a".to_string());
    set.insert("/a/b".to_string());
    set.insert("relative".to_string());
    set.remove_subtree("/");
    assert_eq!(set.len(), 1);
    assert!(set.contains("relative"));
}
