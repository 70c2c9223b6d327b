//! What the file tree shows, and in which order.
use rootkitty::db::StoredFileEntry;
use rootkitty::paths::PathSet;
use rootkitty::time::Timestamp;
use rootkitty::ui::tree::{compute_visible_entries, get_parent_path, is_entry_hidden};
use rootkitty::ui::SortMode;

fn create_test_entry(
    id: i64,
    path: &str,
    name: &str,
    depth: i64,
    is_dir: bool,
) -> StoredFileEntry {
    // Calculate parent_path from the full path
    let parent_path = if depth > 0 {
        path.rsplit_once('/').map(|(parent, _)| parent.to_string())
    } else {
        None
    };

    StoredFileEntry {
        id,
        scan_id: 1,
        path: path.to_string(),
        name: name.to_string(),
        parent_path,
        size: 1000,
        is_dir,
        modified_at: Some(Timestamp { secs: 1_700_000_000, nanos: 0 }),
        depth,
    }
}

#[test]
fn test_visible_entries_ordering() {
    // A directory structure in which the order matters
    // /root
    //   /root/parent
    //     /root/parent/child1
    //       /root/parent/child1/file.txt
    //     /root/parent/child2

    let entries = vec![
        create_test_entry(1, "/root", "root", 0, true),
        create_test_entry(2, "/root/parent", "parent", 1, true),
        create_test_entry(3, "/root/parent/child1", "child1", 2, true),
        create_test_entry(4, "/root/parent/child1/file.txt", "file.txt", 3, false),
        create_test_entry(5, "/root/parent/child2", "child2", 2, true),
    ];

    // Start with all folders except root folded
    let mut folded_dirs = PathSet::new();
    folded_dirs.insert("/root/parent".to_string());
    folded_dirs.insert("/root/parent/child1".to_string());
    folded_dirs.insert("/root/parent/child2".to_string());

    // Initially, root and parent should be visible (parent is folded but shows up with ▶)
    // but child1, child2, and file.txt should be hidden
    let visible = compute_visible_entries(&entries, &folded_dirs, SortMode::ByPath, None);
    assert_eq!(
        visible.len(),
        2,
        "Expected 2 visible entries (root and parent), got {} entries: {:?}",
        visible.len(),
        visible.iter().map(|e| &e.path).collect::<Vec<_>>()
    );
    assert_eq!(visible[0].path, "/root");
    assert_eq!(visible[1].path, "/root/parent");

    // Unfold parent - should show root, parent, child1 (folded), child2 (folded)
    // but NOT file.txt (child1 is still folded)
    folded_dirs.remove("/root/parent");
    let visible = compute_visible_entries(&entries, &folded_dirs, SortMode::ByPath, None);
    assert_eq!(
        visible.len(),
        4,
        "Expected 4 visible entries (root, parent, child1, child2), got {} entries: {:?}",
        visible.len(),
        visible.iter().map(|e| &e.path).collect::<Vec<_>>()
    ); // root, parent, child1, child2

    // Check ordering: parent should come before its children
    let paths: Vec<&str> = visible.iter().map(|e| e.path.as_str()).collect();

    // Find indices
    let parent_idx = paths.iter().position(|&p| p == "/root/parent");
    let child1_idx = paths.iter().position(|&p| p == "/root/parent/child1");
    let child2_idx = paths.iter().position(|&p| p == "/root/parent/child2");

    assert!(parent_idx.is_some(), "Parent should be visible");
    assert!(child1_idx.is_some(), "Child1 should be visible");
    assert!(child2_idx.is_some(), "Child2 should be visible");

    // Parent should appear BEFORE its children in the visible list
    assert!(
        parent_idx.unwrap() < child1_idx.unwrap(),
        "Parent (idx {}) should appear before child1 (idx {}), but order is: {:?}",
        parent_idx.unwrap(),
        child1_idx.unwrap(),
        paths
    );
    assert!(
        parent_idx.unwrap() < child2_idx.unwrap(),
        "Parent (idx {}) should appear before child2 (idx {}), but order is: {:?}",
        parent_idx.unwrap(),
        child2_idx.unwrap(),
        paths
    );
}

#[test]
fn test_visible_entries_ordering_with_size_sorted_input() {
    // Entries may come from the database sorted by size:
    // a large child file appears before its smaller parent directory

    let entries = vec![
        create_test_entry(1, "/root", "root", 0, true),
        // Child1 has larger size (8000) so comes first when sorted by size DESC
        create_test_entry(3, "/root/parent/child1", "child1", 2, true),
        // Parent has smaller size (2000) so comes second
        create_test_entry(2, "/root/parent", "parent", 1, true),
        // Child2 has smallest size
        create_test_entry(4, "/root/parent/child2", "child2", 2, true),
    ];

    // Fold everything except root
    let mut folded_dirs = PathSet::new();
    folded_dirs.insert("/root/parent".to_string());
    folded_dirs.insert("/root/parent/child1".to_string());
    folded_dirs.insert("/root/parent/child2".to_string());

    // Unfold parent
    folded_dirs.remove("/root/parent");
    let visible = compute_visible_entries(&entries, &folded_dirs, SortMode::ByPath, None);

    let paths: Vec<&str> = visible.iter().map(|e| e.path.as_str()).collect();

    // Should be in hierarchical order: root, parent, child1, child2
    // NOT in size order: root, child1, parent, child2

    let parent_idx = paths.iter().position(|&p| p == "/root/parent").unwrap();
    let child1_idx = paths
        .iter()
        .position(|&p| p == "/root/parent/child1")
        .unwrap();
    let child2_idx = paths
        .iter()
        .position(|&p| p == "/root/parent/child2")
        .unwrap();

    assert!(
        parent_idx < child1_idx,
        "Parent (idx {}) should appear before child1 (idx {}) in hierarchical view, but order is: {:?}",
        parent_idx,
        child1_idx,
        paths
    );
    assert!(
        parent_idx < child2_idx,
        "Parent (idx {}) should appear before child2 (idx {}), but order is: {:?}",
        parent_idx,
        child2_idx,
        paths
    );
}

#[test]
fn test_sibling_navigation() {
    // Test tree structure:
    // /root (depth 0)
    //   /root/a (depth 1)
    //     /root/a/file1.txt (depth 2)
    //   /root/b (depth 1) <- sibling of 'a'
    //   /root/c (depth 1) <- sibling of 'a' and 'b'
    //     /root/c/d (depth 2)
    //       /root/c/d/file2.txt (depth 3)

    let entries = vec![
        create_test_entry(1, "/root", "root", 0, true),
        create_test_entry(2, "/root/a", "a", 1, true),
        create_test_entry(3, "/root/a/file1.txt", "file1.txt", 2, false),
        create_test_entry(4, "/root/b", "b", 1, true),
        create_test_entry(5, "/root/c", "c", 1, true),
        create_test_entry(6, "/root/c/d", "d", 2, true),
        create_test_entry(7, "/root/c/d/file2.txt", "file2.txt", 3, false),
    ];

    let folded_dirs = PathSet::new(); // All unfolded for this test
    let visible = compute_visible_entries(&entries, &folded_dirs, SortMode::ByPath, None);

    // All entries should be visible (sorted by path)
    assert_eq!(visible.len(), 7);

    // Test depth-based sibling relationships
    // At depth 1, we have: a, b, c (indices 1, 3, 4 in visible)
    let a_idx = visible.iter().position(|e| e.name == "a").unwrap();
    let b_idx = visible.iter().position(|e| e.name == "b").unwrap();
    let c_idx = visible.iter().position(|e| e.name == "c").unwrap();

    // Verify a, b, c are at depth 1
    assert_eq!(visible[a_idx].depth, 1);
    assert_eq!(visible[b_idx].depth, 1);
    assert_eq!(visible[c_idx].depth, 1);

    // Verify ordering: a should come before b, b before c
    assert!(a_idx < b_idx, "a should come before b");
    assert!(b_idx < c_idx, "b should come before c");

    // Verify file1.txt is between a and b (depth 2, child of a)
    let file1_idx = visible.iter().position(|e| e.name == "file1.txt").unwrap();
    assert!(a_idx < file1_idx && file1_idx < b_idx);
}

#[test]
fn test_hierarchical_sort_by_size() {
    // Test that children are kept with their parent when sorting by size
    // Structure:
    // /root (depth 0)
    //   /root/big_dir (depth 1, size 1000)
    //     /root/big_dir/file1.txt (depth 2, size 500)
    //     /root/big_dir/file2.txt (depth 2, size 500)
    //   /root/small_dir (depth 1, size 100)
    //     /root/small_dir/tiny.txt (depth 2, size 100)
    //   /root/medium_file.txt (depth 1, size 200)

    let entries = vec![
        create_test_entry(1, "/root", "root", 0, true),
        create_test_entry(2, "/root/big_dir", "big_dir", 1, true),
        create_test_entry(3, "/root/big_dir/file1.txt", "file1.txt", 2, false),
        create_test_entry(4, "/root/big_dir/file2.txt", "file2.txt", 2, false),
        create_test_entry(5, "/root/small_dir", "small_dir", 1, true),
        create_test_entry(6, "/root/small_dir/tiny.txt", "tiny.txt", 2, false),
        create_test_entry(7, "/root/medium_file.txt", "medium_file.txt", 1, false),
    ];

    // Manually set sizes for testing
    let mut entries_with_size = entries.clone();
    entries_with_size[1].size = 1000; // big_dir
    entries_with_size[2].size = 500; // file1.txt
    entries_with_size[3].size = 500; // file2.txt
    entries_with_size[4].size = 100; // small_dir
    entries_with_size[5].size = 100; // tiny.txt
    entries_with_size[6].size = 200; // medium_file.txt

    let folded_dirs = PathSet::new(); // All unfolded
    let visible = compute_visible_entries(&entries_with_size, &folded_dirs, SortMode::BySize, None);

    let paths: Vec<&str> = visible.iter().map(|e| e.path.as_str()).collect();

    // Expected order when sorted by size hierarchically:
    // /root (always first - root)
    // /root/big_dir (1000) - largest sibling
    //   /root/big_dir/file1.txt (500)
    //   /root/big_dir/file2.txt (500)
    // /root/medium_file.txt (200) - second largest sibling
    // /root/small_dir (100) - smallest sibling
    //   /root/small_dir/tiny.txt (100)

    assert_eq!(paths[0], "/root", "Root should be first");
    assert_eq!(
        paths[1], "/root/big_dir",
        "big_dir should be second (largest child of root)"
    );

    // Children of big_dir should come before any siblings of big_dir
    // Find where big_dir's descendants end (where we hit something that's not under /root/big_dir)
    let big_dir_idx = paths.iter().position(|&p| p == "/root/big_dir").unwrap();
    let big_dir_children_end = paths[big_dir_idx + 1..]
        .iter()
        .position(|&p| !p.starts_with("/root/big_dir/"))
        .map(|i| i + big_dir_idx + 1)
        .unwrap_or(paths.len());

    // big_dir is at index 1, its children should be at 2 and 3, so children_end should be 4
    assert!(
        big_dir_children_end == 4,
        "All children of big_dir should end at index 4, but ended at index {}",
        big_dir_children_end
    );

    // medium_file should come after all big_dir descendants
    let medium_idx = paths
        .iter()
        .position(|&p| p == "/root/medium_file.txt")
        .unwrap();
    let file1_idx = paths
        .iter()
        .position(|&p| p == "/root/big_dir/file1.txt")
        .unwrap();
    let file2_idx = paths
        .iter()
        .position(|&p| p == "/root/big_dir/file2.txt")
        .unwrap();
    assert!(
        medium_idx > file1_idx,
        "medium_file should come after big_dir's children"
    );
    assert!(
        medium_idx > file2_idx,
        "medium_file should come after big_dir's children"
    );

    // small_dir should come after medium_file (size ordering among siblings)
    let small_dir_idx = paths.iter().position(|&p| p == "/root/small_dir").unwrap();
    assert!(
        small_dir_idx > medium_idx,
        "small_dir should come after medium_file (smaller size)"
    );

    // tiny.txt should come after small_dir but before end
    let tiny_idx = paths
        .iter()
        .position(|&p| p == "/root/small_dir/tiny.txt")
        .unwrap();
    assert!(
        tiny_idx > small_dir_idx,
        "tiny.txt should come after its parent small_dir"
    );
    assert!(tiny_idx == paths.len() - 1, "tiny.txt should be last");
}

// ========================================================================
// COMPREHENSIVE TESTING OF SORT + FOLD COMBINATIONS
// ========================================================================

/// Create a realistic test fixture representing a typical directory structure
///
/// Structure:
/// /project (5000 bytes total)
///   /project/src (3000 bytes)
///     /project/src/main.rs (1000 bytes)
///     /project/src/lib.rs (500 bytes)
///     /project/src/utils (1500 bytes)
///       /project/src/utils/helper.rs (800 bytes)
///       /project/src/utils/config.rs (700 bytes)
///   /project/tests (1500 bytes)
///     /project/tests/integration.rs (1500 bytes)
///   /project/docs (300 bytes)
///     /project/docs/README.md (300 bytes)
///   /project/Cargo.toml (200 bytes)
fn create_test_fixture() -> Vec<StoredFileEntry> {
    vec![
        // Root
        create_test_entry_with_size(1, "/project", "project", 0, true, 5000),
        // src directory (largest)
        create_test_entry_with_size(2, "/project/src", "src", 1, true, 3000),
        create_test_entry_with_size(3, "/project/src/main.rs", "main.rs", 2, false, 1000),
        create_test_entry_with_size(4, "/project/src/lib.rs", "lib.rs", 2, false, 500),
        create_test_entry_with_size(5, "/project/src/utils", "utils", 2, true, 1500),
        create_test_entry_with_size(
            6,
            "/project/src/utils/helper.rs",
            "helper.rs",
            3,
            false,
            800,
        ),
        create_test_entry_with_size(
            7,
            "/project/src/utils/config.rs",
            "config.rs",
            3,
            false,
            700,
        ),
        // tests directory (medium)
        create_test_entry_with_size(8, "/project/tests", "tests", 1, true, 1500),
        create_test_entry_with_size(
            9,
            "/project/tests/integration.rs",
            "integration.rs",
            2,
            false,
            1500,
        ),
        // docs directory (small)
        create_test_entry_with_size(10, "/project/docs", "docs", 1, true, 300),
        create_test_entry_with_size(11, "/project/docs/README.md", "README.md", 2, false, 300),
        // Cargo.toml (file at root, smallest)
        create_test_entry_with_size(12, "/project/Cargo.toml", "Cargo.toml", 1, false, 200),
    ]
}

fn create_test_entry_with_size(
    id: i64,
    path: &str,
    name: &str,
    depth: i64,
    is_dir: bool,
    size: i64,
) -> StoredFileEntry {
    let parent_path = if depth > 0 {
        path.rsplit_once('/').map(|(parent, _)| parent.to_string())
    } else {
        None
    };

    StoredFileEntry {
        id,
        scan_id: 1,
        path: path.to_string(),
        name: name.to_string(),
        parent_path,
        size,
        is_dir,
        modified_at: Some(Timestamp { secs: 1_700_000_000, nanos: 0 }),
        depth,
    }
}

#[test]
fn mod_test_sort_by_path_all_unfolded() {
    let entries = create_test_fixture();
    let folded = PathSet::new();

    let visible = compute_visible_entries(&entries, &folded, SortMode::ByPath, None);
    let paths: Vec<&str> = visible.iter().map(|e| e.path.as_str()).collect();

    // All 12 entries should be visible
    assert_eq!(visible.len(), 12);

    // Should be in alphabetical/path order
    assert_eq!(paths[0], "/project");
    assert_eq!(paths[1], "/project/Cargo.toml");
    assert_eq!(paths[2], "/project/docs");
    assert_eq!(paths[3], "/project/docs/README.md");
    assert_eq!(paths[4], "/project/src");
    assert_eq!(paths[5], "/project/src/lib.rs");
    assert_eq!(paths[6], "/project/src/main.rs");
    assert_eq!(paths[7], "/project/src/utils");
    assert_eq!(paths[8], "/project/src/utils/config.rs");
    assert_eq!(paths[9], "/project/src/utils/helper.rs");
    assert_eq!(paths[10], "/project/tests");
    assert_eq!(paths[11], "/project/tests/integration.rs");
}

#[test]
fn mod_test_sort_by_size_all_unfolded() {
    let entries = create_test_fixture();
    let folded = PathSet::new();

    let visible = compute_visible_entries(&entries, &folded, SortMode::BySize, None);
    let paths: Vec<&str> = visible.iter().map(|e| e.path.as_str()).collect();

    // All 12 entries should be visible
    assert_eq!(visible.len(), 12);

    // Expected order (largest to smallest within each level):
    // /project (root)
    //   /project/src (3000) - largest child
    //     /project/src/main.rs (1000) - largest in src
    //     /project/src/utils (1500) - next largest in src
    //       /project/src/utils/helper.rs (800)
    //       /project/src/utils/config.rs (700)
    //     /project/src/lib.rs (500) - smallest in src
    //   /project/tests (1500) - next largest child of project
    //     /project/tests/integration.rs (1500)
    //   /project/docs (300) - smaller
    //     /project/docs/README.md (300)
    //   /project/Cargo.toml (200) - smallest

    assert_eq!(paths[0], "/project");
    assert_eq!(
        paths[1], "/project/src",
        "src should be first child (largest)"
    );

    // All of src's descendants should come before tests
    let tests_idx = paths.iter().position(|&p| p == "/project/tests").unwrap();
    let main_idx = paths
        .iter()
        .position(|&p| p == "/project/src/main.rs")
        .unwrap();
    let utils_idx = paths
        .iter()
        .position(|&p| p == "/project/src/utils")
        .unwrap();
    let lib_idx = paths
        .iter()
        .position(|&p| p == "/project/src/lib.rs")
        .unwrap();

    assert!(main_idx < tests_idx, "main.rs should come before tests");
    assert!(utils_idx < tests_idx, "utils should come before tests");
    assert!(lib_idx < tests_idx, "lib.rs should come before tests");

    // Within src's children, order should be by size: utils (1500), main.rs (1000), lib.rs (500)
    assert!(
        utils_idx < main_idx,
        "utils (1500) should come before main.rs (1000)"
    );
    assert!(
        main_idx < lib_idx,
        "main.rs (1000) should come before lib.rs (500)"
    );

    // Within utils, helper.rs (800) should come before config.rs (700)
    let helper_idx = paths
        .iter()
        .position(|&p| p == "/project/src/utils/helper.rs")
        .unwrap();
    let config_idx = paths
        .iter()
        .position(|&p| p == "/project/src/utils/config.rs")
        .unwrap();
    assert!(
        helper_idx < config_idx,
        "helper.rs (800) should come before config.rs (700)"
    );
}

#[test]
fn mod_test_sort_by_size_with_folded_dirs() {
    let entries = create_test_fixture();
    let mut folded = PathSet::new();
    folded.insert("/project/src/utils".to_string());

    let visible = compute_visible_entries(&entries, &folded, SortMode::BySize, None);
    let paths: Vec<&str> = visible.iter().map(|e| e.path.as_str()).collect();

    // Should see: project, src, main.rs, lib.rs, utils (folded), tests, integration.rs, docs, README.md, Cargo.toml
    // utils children should be hidden
    assert!(
        !paths.contains(&"/project/src/utils/helper.rs"),
        "helper.rs should be hidden"
    );
    assert!(
        !paths.contains(&"/project/src/utils/config.rs"),
        "config.rs should be hidden"
    );
    assert!(
        paths.contains(&"/project/src/utils"),
        "utils itself should be visible"
    );

    // Should be 10 items (12 - 2 hidden files)
    assert_eq!(visible.len(), 10);
}

#[test]
fn test_sort_by_path_with_folded_dirs() {
    let entries = create_test_fixture();
    let mut folded = PathSet::new();
    folded.insert("/project/src".to_string());

    let visible = compute_visible_entries(&entries, &folded, SortMode::ByPath, None);
    let paths: Vec<&str> = visible.iter().map(|e| e.path.as_str()).collect();

    // Should hide everything under /project/src
    assert!(
        paths.contains(&"/project/src"),
        "src should be visible (just folded)"
    );
    assert!(
        !paths.contains(&"/project/src/main.rs"),
        "main.rs should be hidden"
    );
    assert!(
        !paths.contains(&"/project/src/lib.rs"),
        "lib.rs should be hidden"
    );
    assert!(
        !paths.contains(&"/project/src/utils"),
        "utils should be hidden"
    );
    assert!(
        !paths.contains(&"/project/src/utils/helper.rs"),
        "helper.rs should be hidden"
    );

    // Should be 6 items (project, src, tests, integration.rs, docs, README.md, Cargo.toml)
    assert_eq!(visible.len(), 7);
}

#[test]
fn test_visible_entries_with_complex_tree() {
    // More complex tree to test ordering
    let entries = vec![
        create_test_entry(1, "/root", "root", 0, true),
        create_test_entry(2, "/root/a", "a", 1, true),
        create_test_entry(3, "/root/a/b", "b", 2, true),
        create_test_entry(4, "/root/a/b/c", "c", 3, true),
        create_test_entry(5, "/root/a/file1.txt", "file1.txt", 2, false),
        create_test_entry(6, "/root/z", "z", 1, true),
        create_test_entry(7, "/root/z/file2.txt", "file2.txt", 2, false),
    ];

    // Fold everything except root
    let mut folded_dirs = PathSet::new();
    folded_dirs.insert("/root/a".to_string());
    folded_dirs.insert("/root/a/b".to_string());
    folded_dirs.insert("/root/a/b/c".to_string());
    folded_dirs.insert("/root/z".to_string());

    // Unfold /root/a - should show a, b (folded), and file1.txt
    folded_dirs.remove("/root/a");
    let visible = compute_visible_entries(&entries, &folded_dirs, SortMode::ByPath, None);

    let paths: Vec<&str> = visible.iter().map(|e| e.path.as_str()).collect();

    // Should contain: root, a, b (folded), file1.txt, z (folded)
    assert!(paths.contains(&"/root"));
    assert!(paths.contains(&"/root/a"));
    assert!(paths.contains(&"/root/a/b"));
    assert!(paths.contains(&"/root/a/file1.txt"));
    assert!(paths.contains(&"/root/z"));

    // Should NOT contain anything under folded directories
    assert!(!paths.contains(&"/root/a/b/c"));
    assert!(!paths.contains(&"/root/z/file2.txt"));

    // Check ordering: each directory should appear before its children
    let a_idx = paths.iter().position(|&p| p == "/root/a").unwrap();
    let b_idx = paths.iter().position(|&p| p == "/root/a/b").unwrap();
    let file1_idx = paths
        .iter()
        .position(|&p| p == "/root/a/file1.txt")
        .unwrap();

    assert!(
        a_idx < b_idx,
        "Directory /root/a should appear before /root/a/b"
    );
    assert!(
        a_idx < file1_idx,
        "Directory /root/a should appear before /root/a/file1.txt"
    );
}

#[test]
fn tree_test_sort_by_path_all_unfolded() {
    let entries = create_test_fixture();
    let folded = PathSet::new();

    let visible = compute_visible_entries(&entries, &folded, SortMode::ByPath, None);
    let paths: Vec<&str> = visible.iter().map(|e| e.path.as_str()).collect();

    assert_eq!(visible.len(), 12);
    assert_eq!(paths[0], "/project");
    assert_eq!(paths[1], "/project/Cargo.toml");
    assert_eq!(paths[4], "/project/src");
}

#[test]
fn tree_test_sort_by_size_all_unfolded() {
    let entries = create_test_fixture();
    let folded = PathSet::new();

    let visible = compute_visible_entries(&entries, &folded, SortMode::BySize, None);
    let paths: Vec<&str> = visible.iter().map(|e| e.path.as_str()).collect();

    assert_eq!(visible.len(), 12);
    assert_eq!(paths[0], "/project");
    assert_eq!(
        paths[1], "/project/src",
        "src should be first child (largest)"
    );

    // All of src's descendants should come before tests
    let tests_idx = paths.iter().position(|&p| p == "/project/tests").unwrap();
    let utils_idx = paths
        .iter()
        .position(|&p| p == "/project/src/utils")
        .unwrap();

    assert!(utils_idx < tests_idx, "utils should come before tests");
}

#[test]
fn tree_test_sort_by_size_with_folded_dirs() {
    let entries = create_test_fixture();
    let mut folded = PathSet::new();
    folded.insert("/project/src/utils".to_string());

    let visible = compute_visible_entries(&entries, &folded, SortMode::BySize, None);
    let paths: Vec<&str> = visible.iter().map(|e| e.path.as_str()).collect();

    assert!(
        !paths.contains(&"/project/src/utils/helper.rs"),
        "helper.rs should be hidden"
    );
    assert!(
        paths.contains(&"/project/src/utils"),
        "utils itself should be visible"
    );
    assert_eq!(visible.len(), 10);
}

#[test]
fn test_parents_always_before_children() {
    // This test verifies that in ANY sorting mode, parents always appear before their children
    let entries = create_test_fixture();
    let folded = PathSet::new();

    // Test both sort modes
    for sort_mode in [SortMode::ByPath, SortMode::BySize] {
        let visible = compute_visible_entries(&entries, &folded, sort_mode, None);
        let paths: Vec<&str> = visible.iter().map(|e| e.path.as_str()).collect();

        // For each entry, verify its parent appears before it
        for (i, entry) in visible.iter().enumerate() {
            if let Some(parent_path) = &entry.parent_path {
                let parent_idx = paths.iter().position(|&p| p == parent_path.as_str());
                assert!(
                    parent_idx.is_some(),
                    "Parent '{}' not found for '{}'",
                    parent_path,
                    entry.path
                );
                let parent_idx = parent_idx.unwrap();
                assert!(
                    parent_idx < i,
                    "Parent '{}' at index {} should appear before child '{}' at index {} (sort mode: {:?})",
                    parent_path,
                    parent_idx,
                    entry.path,
                    i,
                    sort_mode
                );
            }
        }
    }
}

#[test]
fn test_sort_with_missing_parents() {
    // Simulate the case where we have top N entries by size, but not all parents
    // This is what happens when using get_largest_entries with a limit
    let entries = vec![
        // Parent is NOT included (too small)
        create_test_entry_with_size(
            1,
            "/root/large_child.txt",
            "large_child.txt",
            1,
            false,
            1000,
        ),
        create_test_entry_with_size(
            2,
            "/root/medium_child.txt",
            "medium_child.txt",
            1,
            false,
            500,
        ),
    ];

    let folded = PathSet::new();
    let visible = compute_visible_entries(&entries, &folded, SortMode::BySize, None);

    // Even without parent, children should be sorted by size
    assert_eq!(visible.len(), 2);
    assert_eq!(visible[0].size, 1000);
    assert_eq!(visible[1].size, 500);
}

#[test]
fn test_unfold_with_size_sort() {
    // Test unfolding a directory when sorted by size
    let entries = create_test_fixture();

    // Start with /project/src folded
    let mut folded = PathSet::new();
    folded.insert("/project/src".to_string());

    let visible = compute_visible_entries(&entries, &folded, SortMode::BySize, None);
    let paths: Vec<&str> = visible.iter().map(|e| e.path.as_str()).collect();

    // src should be visible but its children hidden
    assert!(paths.contains(&"/project/src"));
    assert!(!paths.contains(&"/project/src/main.rs"));

    // Now unfold src
    folded.remove("/project/src");
    let visible = compute_visible_entries(&entries, &folded, SortMode::BySize, None);
    let paths: Vec<&str> = visible.iter().map(|e| e.path.as_str()).collect();

    // src should still come before its children
    let src_idx = paths.iter().position(|&p| p == "/project/src").unwrap();
    let main_idx = paths
        .iter()
        .position(|&p| p == "/project/src/main.rs")
        .unwrap();
    let utils_idx = paths
        .iter()
        .position(|&p| p == "/project/src/utils")
        .unwrap();

    assert!(
        src_idx < main_idx,
        "src at {} should come before main.rs at {}",
        src_idx,
        main_idx
    );
    assert!(
        src_idx < utils_idx,
        "src at {} should come before utils at {}",
        src_idx,
        utils_idx
    );
}

fn paths_of(visible: &[&StoredFileEntry]) -> Vec<String> {
    visible.iter().map(|e| e.path.clone()).collect()
}

#[test]
fn search_shows_what_it_finds_and_what_is_above() {
    let entries = create_test_fixture();
    let folded = PathSet::new();
    let visible = compute_visible_entries(&entries, &folded, SortMode::ByPath, Some("HELPER"));
    assert_eq!(
        paths_of(&visible),
        vec!["/project", "/project/src", "/project/src/utils", "/project/src/utils/helper.rs"]
    );
    let visible = compute_visible_entries(&entries, &folded, SortMode::ByPath, Some("readme"));
    assert_eq!(
        paths_of(&visible),
        vec!["/project", "/project/docs", "/project/docs/README.md"]
    );
    let visible = compute_visible_entries(&entries, &folded, SortMode::ByPath, Some("nowhere"));
    assert!(visible.is_empty());
}

#[test]
fn search_for_nothing_shows_everything() {
    let entries = create_test_fixture();
    let visible = compute_visible_entries(&entries, &PathSet::new(), SortMode::BySize, Some(""));
    assert_eq!(visible.len(), 12);
}

#[test]
fn search_finds_nothing_that_is_folded_away() {
    let entries = create_test_fixture();
    let mut folded = PathSet::new();
    folded.insert("/project/src".to_string());
    let visible = compute_visible_entries(&entries, &folded, SortMode::ByPath, Some("helper"));
    assert!(visible.is_empty());
}

#[test]
fn search_with_letters_that_change_their_length() {
    let entries = vec![create_test_entry(1, "/İstanbul", "İstanbul", 0, false)];
    let visible =
        compute_visible_entries(&entries, &PathSet::new(), SortMode::ByPath, Some("İSTANBUL"));
    assert_eq!(visible.len(), 1);
    let visible =
        compute_visible_entries(&entries, &PathSet::new(), SortMode::ByPath, Some("istanbul"));
    assert_eq!(visible.len(), 0);
}

#[test]
fn size_order_is_exact() {
    let entries = create_test_fixture();
    let visible = compute_visible_entries(&entries, &PathSet::new(), SortMode::BySize, None);
    assert_eq!(
        paths_of(&visible),
        vec![
            "/project",
            "/project/src",
            "/project/src/utils",
            "/project/src/utils/helper.rs",
            "/project/src/utils/config.rs",
            "/project/src/main.rs",
            "/project/src/lib.rs",
            "/project/tests",
            "/project/tests/integration.rs",
            "/project/docs",
            "/project/docs/README.md",
            "/project/Cargo.toml",
        ]
    );
}

#[test]
fn entries_without_their_parents_are_sorted_by_size() {
    let entries = vec![
        create_test_entry_with_size(1, "/root/small.txt", "small.txt", 1, false, 1),
        create_test_entry_with_size(2, "/root/large", "large", 1, true, 900),
        create_test_entry_with_size(3, "/root/medium.txt", "medium.txt", 1, false, 500),
        create_test_entry_with_size(4, "/root/large/inside.txt", "inside.txt", 2, false, 700),
    ];
    let visible = compute_visible_entries(&entries, &PathSet::new(), SortMode::BySize, None);
    assert_eq!(
        paths_of(&visible),
        vec!["/root/large", "/root/large/inside.txt", "/root/medium.txt", "/root/small.txt"]
    );
}

#[test]
fn entries_of_one_size_keep_their_order() {
    let entries = vec![
        create_test_entry(1, "/r", "r", 0, true),
        create_test_entry(2, "/r/z", "z", 1, false),
        create_test_entry(3, "/r/a", "a", 1, false),
    ];
    let visible = compute_visible_entries(&entries, &PathSet::new(), SortMode::BySize, None);
    assert_eq!(paths_of(&visible), vec!["/r", "/r/z", "/r/a"]);
}

#[test]
fn hidden_below_any_folded_directory() {
    let mut folded = PathSet::new();
    folded.insert("/a".to_string());
    let deep = create_test_entry(1, "/a/b/c", "c", 2, false);
    let beside = create_test_entry(2, "/ab/c", "c", 1, false);
    let itself = create_test_entry(3, "/a", "a", 0, true);
    assert!(is_entry_hidden(&deep, &folded));
    assert!(!is_entry_hidden(&beside, &folded));
    assert!(!is_entry_hidden(&itself, &folded));
}

#[test]
fn everything_rooted_lies_below_the_root_directory() {
    let entries = vec![
        create_test_entry(1, "/", "/", 0, true),
        create_test_entry(2, "/home", "home", 1, true),
        create_test_entry(3, "/home/me", "me", 2, false),
        create_test_entry(4, "/tmp", "tmp", 1, false),
    ];
    let mut folded = PathSet::new();
    folded.insert("/".to_string());
    assert!(!is_entry_hidden(&entries[0], &folded));
    assert!(entries[1..].iter().all(|e| is_entry_hidden(e, &folded)));
    assert!(!is_entry_hidden(&create_test_entry(5, "beside", "beside", 0, false), &folded));
    for mode in [SortMode::ByPath, SortMode::BySize] {
        assert_eq!(paths_of(&compute_visible_entries(&entries, &folded, mode, None)), vec!["/"]);
        let visible = compute_visible_entries(&entries, &PathSet::new(), mode, Some("me"));
        assert_eq!(paths_of(&visible), vec!["/", "/home", "/home/me"]);
    }
}

#[test]
fn parents_of_paths() {
    assert_eq!(get_parent_path("/a/b"), Some("/a"));
    assert_eq!(get_parent_path("/a"), Some(""));
    assert_eq!(get_parent_path("/ä/ö"), Some("/ä"));
    assert_eq!(get_parent_path("a"), None);
}
