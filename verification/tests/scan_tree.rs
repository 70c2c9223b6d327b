//! The tree of scans.
use rootkitty::db::Scan;
use rootkitty::time::Timestamp;
use rootkitty::ui::scan_tree::{
    build_scan_tree, build_subscan_map, flatten_tree, is_subpath, toggle_fold, unfold, unfold_all,
    ScanTreeNode,
};

const NOW: Timestamp = Timestamp { secs: 1_700_000_000, nanos: 0 };

fn create_test_scan(id: i64, path: &str) -> Scan {
    Scan {
        id,
        root_path: path.to_string(),
        started_at: NOW,
        completed_at: Some(NOW),
        total_size: 1000,
        total_files: 10,
        total_dirs: 5,
        status: "completed".to_string(),
        entries_table: Some(format!("scan_entries_{}", id)),
    }
}

#[test]
fn test_is_subpath() {
    assert!(is_subpath("/home/user/docs", "/home/user"));
    assert!(is_subpath("/home/user/docs", "/home"));
    assert!(!is_subpath("/home/user", "/home/user"));
    assert!(!is_subpath("/home", "/home/user"));
    assert!(!is_subpath("/home/user2", "/home/user"));
}

#[test]
fn test_build_subscan_map() {
    let scans = vec![
        create_test_scan(1, "/home"),
        create_test_scan(2, "/home/user"),
        create_test_scan(3, "/home/user/docs"),
        create_test_scan(4, "/var"),
    ];

    let map = build_subscan_map(&scans);

    assert_eq!(map.get("/home"), Some(&true)); // has /home/user and /home/user/docs
    assert_eq!(map.get("/home/user"), Some(&true)); // has /home/user/docs
    assert_eq!(map.get("/home/user/docs"), Some(&false)); // no subscans
    assert_eq!(map.get("/var"), Some(&false)); // no subscans
}

#[test]
fn test_build_scan_tree_simple() {
    let scans = vec![create_test_scan(1, "/home"), create_test_scan(2, "/var")];

    let tree = build_scan_tree(&scans);

    assert_eq!(tree.len(), 2);
    // Both should be path nodes with scan children
    for node in &tree {
        assert!(matches!(node, ScanTreeNode::PathNode { .. }));
        if let ScanTreeNode::PathNode { children, .. } = node {
            assert_eq!(children.len(), 1); // Each path has 1 scan
            assert!(matches!(children[0], ScanTreeNode::ScanNode { .. }));
        }
    }
}

#[test]
fn test_build_scan_tree_nested() {
    let scans = vec![
        create_test_scan(1, "/home"),
        create_test_scan(2, "/home/user"),
    ];

    let tree = build_scan_tree(&scans);

    // Should have root nodes
    assert!(!tree.is_empty());

    // Flatten to verify structure (with nodes folded, should show path nodes only)
    let flat = flatten_tree(&tree);
    assert!(flat.len() >= 1); // At least the /home path node
}

#[test]
fn test_multiple_scans_same_path() {
    let scans = vec![
        create_test_scan(1, "/home"),
        create_test_scan(2, "/home"), // Same path, different scan
    ];

    let tree = build_scan_tree(&scans);

    assert_eq!(tree.len(), 1); // One path node
    if let ScanTreeNode::PathNode { children, .. } = &tree[0] {
        assert_eq!(children.len(), 2); // Two scans for this path
        for child in children {
            assert!(matches!(child, ScanTreeNode::ScanNode { .. }));
        }
    } else {
        panic!("Expected PathNode");
    }
}

#[test]
fn test_flatten_tree_respects_folding() {
    let scans = vec![
        create_test_scan(1, "/home"),
        create_test_scan(2, "/home/user"),
        create_test_scan(3, "/home/user/docs"),
    ];

    let mut tree = build_scan_tree(&scans);

    // Initially, all path nodes should be folded
    let flat = flatten_tree(&tree);
    // Should have fewer items when folded
    let folded_count = flat.len();

    // Unfold all
    unfold_all_recursive(&mut tree);
    let flat_unfolded = flatten_tree(&tree);
    let unfolded_count = flat_unfolded.len();

    // Unfolded should have more or equal items
    assert!(unfolded_count >= folded_count);
}

fn unfold_all_recursive(nodes: &mut [ScanTreeNode]) {
    for node in nodes.iter_mut() {
        node.set_folded(false);
        if let Some(children) = node.children_mut() {
            unfold_all_recursive(children);
        }
    }
}

#[test]
fn test_toggle_fold() {
    let scans = vec![
        create_test_scan(1, "/home"),
        create_test_scan(2, "/home/user"),
    ];

    let mut tree = build_scan_tree(&scans);

    // Find a path node
    if let Some(ScanTreeNode::PathNode { full_path, .. }) = tree.first() {
        let path = full_path.clone();
        let initial_state = tree[0].is_folded();

        // Toggle it
        assert!(toggle_fold(&mut tree, &path));
        assert_eq!(tree[0].is_folded(), !initial_state);
    }
}

fn outline(tree: &[ScanTreeNode], depth: usize, out: &mut Vec<String>) {
    for node in tree {
        let text = match node {
            ScanTreeNode::PathNode { name, full_path, .. } => format!("{} {}", name, full_path),
            ScanTreeNode::ScanNode { scan, has_subscans } => {
                format!("#{}{}", scan.id, if *has_subscans { " +" } else { "" })
            }
        };
        out.push(format!("{}{}", "  ".repeat(depth), text));
        outline(node.children(), depth + 1, out);
    }
}

fn outlined(tree: &[ScanTreeNode]) -> Vec<String> {
    let mut out = Vec::new();
    outline(tree, 0, &mut out);
    out
}

#[test]
fn scans_stand_below_their_paths() {
    let scans = vec![
        create_test_scan(1, "/home/user"),
        create_test_scan(2, "/home"),
        create_test_scan(3, "/var/log"),
        create_test_scan(4, "/home/user"),
    ];
    assert_eq!(
        outlined(&build_scan_tree(&scans)),
        vec![
            "home /home",
            "  #2 +",
            "  user /home/user",
            "    #1",
            "    #4",
            "log /var/log",
            "  #3",
        ]
    );
}

#[test]
fn chains_of_directories_are_drawn_together() {
    let scans = vec![create_test_scan(1, "/a/b/c/x"), create_test_scan(2, "/a/b/c/y")];
    assert_eq!(
        outlined(&build_scan_tree(&scans)),
        vec!["c /a/b/c", "  x /a/b/c/x", "    #1", "  y /a/b/c/y", "    #2"]
    );
}

#[test]
fn scan_of_the_whole_file_system() {
    let tree = build_scan_tree(&vec![create_test_scan(1, "/")]);
    assert_eq!(outlined(&tree), vec!["/ /", "  #1"]);
}

#[test]
fn no_scans_make_no_tree() {
    assert!(build_scan_tree(&[]).is_empty());
}

#[test]
fn lines_of_the_tree() {
    let scans = vec![create_test_scan(1, "/home"), create_test_scan(2, "/home/user")];
    let mut tree = build_scan_tree(&scans);
    assert_eq!(flatten_tree(&tree).len(), 1);
    assert!(unfold(&mut tree, "/home"));
    let places: Vec<(usize, usize)> =
        flatten_tree(&tree).iter().map(|l| (l.depth, l.index)).collect();
    assert_eq!(places, vec![(0, 0), (1, 1), (1, 2)]);
    unfold_all(&mut tree);
    let places: Vec<(usize, usize)> =
        flatten_tree(&tree).iter().map(|l| (l.depth, l.index)).collect();
    assert_eq!(places, vec![(0, 0), (1, 1), (1, 2), (2, 3)]);
}

#[test]
fn folding_what_is_not_there() {
    let mut tree = build_scan_tree(&vec![create_test_scan(1, "/home")]);
    assert!(!toggle_fold(&mut tree, "/nowhere"));
    assert!(!unfold(&mut tree, "/nowhere"));
    assert!(tree[0].is_folded());
    assert!(toggle_fold(&mut tree, "/home"));
    assert!(toggle_fold(&mut tree, "/home"));
    assert!(tree[0].is_folded());
}

#[test]
fn paths_of_nodes() {
    let mut tree = build_scan_tree(&vec![create_test_scan(1, "/home")]);
    assert_eq!(tree[0].full_path(), "/home");
    assert_eq!(tree[0].children()[0].full_path(), "/home");
    assert!(!tree[0].children()[0].is_folded());
    let leaf = &mut tree[0].children_mut().unwrap()[0];
    leaf.set_folded(true);
    assert!(!leaf.is_folded());
    assert!(leaf.children_mut().is_none());
    assert!(leaf.children().is_empty());
}

#[test]
fn root_lies_above_every_path() {
    assert!(is_subpath("/home", "/"));
    assert!(!is_subpath("/", "/"));
}
