//! Walks over trees in memory, what is gathered from them, and sizes from flat lists.
use rootkitty::demo::{Demo, DemoStage};
use rootkitty::paths::PathSet;
use rootkitty::scanner::{
    listed_name, Collector, FileEntry, ScanPlan, ScanStats, Scanner, ScannerImpl, BUFFER_SIZE,
    PROGRESS_UPDATE_INTERVAL,
};
use rootkitty::tally::{aggregate, is_sound, record_entry, Record, Tally};
use rootkitty::time::{Timestamp, FIRST_SECOND, LAST_SECOND};
use rootkitty::walk::{add_up, measured, Effect, Reply, Request, Target, Walk};

/// What stands at a path of a tree in memory.
#[derive(Clone)]
enum Node {
    File(u64),
    Dir(Vec<(String, Node)>),
    Locked,
    Hidden,
}

fn file(name: &str, len: u64) -> (String, Node) {
    (name.to_string(), Node::File(len))
}

fn dir(name: &str, children: Vec<(String, Node)>) -> (String, Node) {
    (name.to_string(), Node::Dir(children))
}

fn target(path: &str, name: &str, parent: Option<&str>, node: Node) -> Target<Node> {
    Target {
        handle: node,
        path: path.to_string(),
        name: name.to_string(),
        parent_path: parent.map(|p| p.to_string()),
    }
}

fn look(t: &Target<Node>) -> Reply<Node> {
    match &t.handle {
        Node::File(len) => Reply::File { len: *len, modified: Some(1_700_000_000) },
        Node::Dir(children) => Reply::Directory {
            modified: None,
            children: Some(
                children
                    .iter()
                    .map(|(name, node)| {
                        target(&format!("{}/{}", t.path, name), name, Some(&t.path), node.clone())
                    })
                    .collect(),
            ),
        },
        Node::Locked => Reply::Directory { modified: None, children: None },
        Node::Hidden => Reply::Skipped,
    }
}

fn copy(t: &Target<Node>) -> Target<Node> {
    target(&t.path, &t.name, t.parent_path.as_deref(), t.handle.clone())
}

/// Drives a walk to its end and hands everything that it makes known to `sink`.
fn drive(
    start: Target<Node>,
    depth: usize,
    scanned: &PathSet,
    sink: &mut Vec<Effect>,
) -> (u64, ScanStats) {
    let mut walk = Walk::new(start, depth, scanned);
    loop {
        let reply = match walk.request() {
            Request::Done(size) => return (size, walk.stats()),
            Request::Known(_) => Reply::Skipped,
            Request::Inspect(t) => look(t),
            Request::Measure { children, depth } => {
                let parts = children
                    .iter()
                    .map(|child| drive(copy(child), depth, scanned, sink))
                    .collect();
                measured(&parts).unwrap()
            }
        };
        assert!(walk.accepts(&reply));
        let (next, effects) = walk.advance(reply);
        walk = next;
        sink.extend(effects);
    }
}

fn entries(effects: Vec<Effect>) -> Vec<FileEntry> {
    effects
        .into_iter()
        .filter_map(|e| match e {
            Effect::Found(entry) => Some(entry),
            _ => None,
        })
        .collect()
}

fn scan(start: Target<Node>) -> (Vec<FileEntry>, ScanStats) {
    let mut effects = Vec::new();
    let (_, stats) = drive(start, 0, &PathSet::new(), &mut effects);
    (entries(effects), stats)
}

fn test_tree() -> Target<Node> {
    let root = Node::Dir(vec![
        file("file1.txt", 5),
        file("file2.txt", 5),
        dir(
            "subdir",
            vec![
                file("file3.txt", 4),
                file("file4.txt", 4),
                dir("nested", vec![file("deep.txt", 9)]),
            ],
        ),
        dir("empty_dir", vec![]),
    ]);
    target("/root", "root", None, root)
}

#[test]
fn walk_counts_and_measures() {
    let (found, stats) = scan(test_tree());
    assert_eq!(stats, ScanStats { total_size: 27, total_files: 5, total_dirs: 4 });
    let sizes: Vec<(&str, u64, usize)> =
        found.iter().map(|e| (e.path.as_str(), e.size, e.depth)).collect();
    assert_eq!(
        sizes,
        vec![
            ("/root/file1.txt", 5, 1),
            ("/root/file2.txt", 5, 1),
            ("/root/subdir/file3.txt", 4, 2),
            ("/root/subdir/file4.txt", 4, 2),
            ("/root/subdir/nested/deep.txt", 9, 3),
            ("/root/subdir/nested", 9, 2),
            ("/root/subdir", 17, 1),
            ("/root/empty_dir", 0, 1),
            ("/root", 27, 0),
        ]
    );
    assert_eq!(found[0].modified_at, Some(Timestamp { secs: 1_700_000_000, nanos: 0 }));
    assert_eq!(found[8].modified_at, None);
}

#[test]
fn test_empty_directory() {
    let (entries, stats) = scan(target("/empty", "empty", None, Node::Dir(vec![])));
    // Root directory itself
    assert_eq!(stats.total_dirs, 1);
    assert_eq!(stats.total_files, 0);
    assert_eq!(stats.total_size, 0);
    assert_eq!(entries.len(), 1);
}

#[test]
fn test_large_directory_uses_parallelism() {
    // More than 100 files are handed out to be walked side by side.
    let files = (0..150)
        .map(|i| file(&format!("file{}.txt", i), format!("content{}", i).len() as u64))
        .collect();
    let root = target("/big", "big", None, Node::Dir(files));
    let mut effects = Vec::new();
    let (size, stats) = drive(root, 0, &PathSet::new(), &mut effects);
    assert_eq!(effects.iter().filter(|e| matches!(e, Effect::Forked)).count(), 1);
    assert_eq!(effects.iter().filter(|e| matches!(e, Effect::Joined)).count(), 1);
    let entries = entries(effects);

    assert_eq!(stats.total_files, 150);
    assert_eq!(stats.total_dirs, 1); // Just the root
    assert!(entries.len() == 151); // 150 files + 1 dir
    assert_eq!(size, stats.total_size);
    assert_eq!(entries[150].size, size);
}

#[test]
fn test_directory_size_calculation() {
    let root = Node::Dir(vec![dir("dir1", vec![file("a.txt", 5), file("b.txt", 5)])]);
    let (entries, _stats) = scan(target("/tmp/x", "x", None, root));

    // Find the dir1 entry
    let dir1_entry = entries
        .iter()
        .find(|e| e.name == "dir1" && e.is_dir)
        .expect("Should find dir1");

    // Directory size should be sum of its contents
    assert_eq!(dir1_entry.size, 10, "dir1 should have size 10 (5+5)");
}

#[test]
fn hundred_entries_are_walked_in_turn() {
    let files: Vec<(String, Node)> = (0..100).map(|i| file(&format!("f{}", i), 1)).collect();
    let mut effects = Vec::new();
    let root = target("/r", "r", None, Node::Dir(files));
    let (size, _) = drive(root, 0, &PathSet::new(), &mut effects);
    assert_eq!(size, 100);
    assert!(!effects.iter().any(|e| matches!(e, Effect::Forked)));
}

#[test]
fn what_cannot_be_read_is_passed_over() {
    let root = Node::Dir(vec![
        ("locked".to_string(), Node::Locked),
        ("hidden".to_string(), Node::Hidden),
        file("seen", 3),
    ]);
    let (found, stats) = scan(target("/r", "r", None, root));
    assert_eq!(stats, ScanStats { total_size: 3, total_files: 1, total_dirs: 2 });
    let names: Vec<&str> = found.iter().map(|e| e.name.as_str()).collect();
    assert_eq!(names, vec!["locked", "seen", "r"]);
}

#[test]
fn what_was_scanned_is_passed_over() {
    let mut scanned = PathSet::new();
    scanned.insert("/root/subdir".to_string());
    scanned.insert("/root/file1.txt".to_string());
    let mut effects = Vec::new();
    let (size, stats) = drive(test_tree(), 0, &scanned, &mut effects);
    assert_eq!(size, 5);
    assert_eq!(stats, ScanStats { total_size: 5, total_files: 1, total_dirs: 2 });
    let paths: Vec<String> = entries(effects).into_iter().map(|e| e.path).collect();
    assert_eq!(paths, vec!["/root/file2.txt", "/root/empty_dir", "/root"]);
}

#[test]
fn progress_is_made_known_in_order() {
    let root = Node::Dir(vec![file("a", 1), dir("d", vec![])]);
    let mut effects = Vec::new();
    drive(target("/r", "r", None, root), 0, &PathSet::new(), &mut effects);
    let story: Vec<String> = effects
        .iter()
        .map(|e| match e {
            Effect::Entered { path, total } => format!("enter {} {}", path, total),
            Effect::Advanced { path, done } => format!("advance {} {}", path, done),
            Effect::Left { path } => format!("leave {}", path),
            Effect::Forked => "fork".to_string(),
            Effect::Joined => "join".to_string(),
            Effect::Found(e) => format!("find {}", e.path),
        })
        .collect();
    assert_eq!(
        story,
        vec![
            "enter /r 2",
            "find /r/a",
            "advance /r 1",
            "enter /r/d 0",
            "leave /r/d",
            "find /r/d",
            "advance /r 2",
            "leave /r",
            "find /r",
        ]
    );
}

#[test]
fn replies_that_do_not_fit_are_not_accepted() {
    let scanned = PathSet::new();
    let walk = Walk::new(target("/r", "r", None, Node::Hidden), 0, &scanned);
    let measured = Reply::Measured {
        sizes: vec![],
        stats: ScanStats { total_size: 0, total_files: 0, total_dirs: 0 },
    };
    assert!(!walk.accepts(&measured));
    let (walk, _) = walk.advance(Reply::Directory {
        modified: None,
        children: Some(vec![
            target("/r/a", "a", Some("/r"), Node::Hidden),
            target("/r/b", "b", Some("/r"), Node::Hidden),
        ]),
    });
    let (walk, _) = walk.advance(Reply::File { len: u64::MAX, modified: None });
    assert!(!walk.accepts(&Reply::File { len: 1, modified: None }));
    assert!(walk.accepts(&Reply::Skipped));
    let (walk, _) = walk.advance(Reply::Skipped);
    assert!(matches!(walk.request(), Request::Done(u64::MAX)));
    assert!(!walk.accepts(&Reply::Skipped));
}

#[test]
fn times_outside_the_calendar_are_dropped() {
    let changed = |secs| {
        let scanned = PathSet::new();
        let walk = Walk::new(target("/f", "f", None, Node::Hidden), 0, &scanned);
        let (_, effects) = walk.advance(Reply::File { len: 1, modified: Some(secs) });
        entries(effects)[0].modified_at
    };
    assert_eq!(changed(i64::MAX), None);
    for secs in [FIRST_SECOND, -1, 0, LAST_SECOND] {
        assert_eq!(changed(secs), Some(Timestamp { secs, nanos: 0 }));
    }
    assert_eq!(changed(FIRST_SECOND - 1), None);
    assert_eq!(changed(LAST_SECOND + 1), None);
}

#[test]
fn sizes_added_up() {
    assert_eq!(add_up(&vec![1, 2, 3]), Some(6));
    assert_eq!(add_up(&vec![]), Some(0));
    assert_eq!(add_up(&vec![u64::MAX, 1]), None);
}

#[test]
fn walks_side_by_side_add_up() {
    let part = |size, files| (size, ScanStats { total_size: size, total_files: files, total_dirs: 1 });
    match measured::<Node>(&vec![part(3, 1), part(4, 2)]) {
        Some(Reply::Measured { sizes, stats }) => {
            assert_eq!(sizes, vec![3, 4]);
            assert_eq!(stats, ScanStats { total_size: 7, total_files: 3, total_dirs: 2 });
        }
        _ => panic!("totals were expected"),
    }
    assert!(measured::<Node>(&vec![part(u64::MAX, 1), part(1, 1)]).is_none());
    assert!(measured::<Node>(&vec![part(1, u64::MAX), part(1, 1)]).is_none());
}

fn plain_entry(i: usize) -> FileEntry {
    FileEntry {
        path: format!("/x/{}", i),
        name: i.to_string(),
        parent_path: Some("/x".to_string()),
        size: 1,
        is_dir: false,
        modified_at: None,
        depth: 1,
    }
}

#[test]
fn test_scan_with_streaming() {
    let scanner = Scanner::with_sender("/root".to_string(), false, false);
    let mut collector = scanner.collector();
    let mut effects = Vec::new();
    let (_, stats) = drive(test_tree(), 0, &PathSet::new(), &mut effects);
    let mut collected = 0;
    for effect in effects {
        if let Some(batch) = collector.record(effect).batch {
            collected += batch.len();
        }
    }
    let (last, entries) = collector.finish();
    collected += last.map_or(0, |batch| batch.len());

    // When streaming, should return empty vec
    assert!(entries.is_empty());

    // Stats should still be correct
    assert!(stats.total_files >= 5);
    assert!(stats.total_dirs >= 4);

    assert!(collected > 0, "Should have collected some entries");
    assert_eq!(collected as u64, stats.total_files + stats.total_dirs);
}

#[test]
fn full_batches_are_handed_on() {
    let mut collector = Collector::new(true, false);
    let mut batches = Vec::new();
    for i in 0..(2 * BUFFER_SIZE + 7) {
        let handover = collector.record(Effect::Found(plain_entry(i)));
        assert!(handover.progress.is_none());
        batches.extend(handover.batch);
    }
    let (last, kept) = collector.finish();
    assert!(kept.is_empty());
    batches.extend(last);
    let lengths: Vec<usize> = batches.iter().map(|b| b.len()).collect();
    assert_eq!(lengths, vec![BUFFER_SIZE, BUFFER_SIZE, 7]);
    let all: Vec<FileEntry> = batches.into_iter().flatten().collect();
    for (i, e) in all.iter().enumerate() {
        assert_eq!(e.name, i.to_string());
    }
}

#[test]
fn kept_entries_are_returned() {
    let mut collector = Collector::new(false, false);
    for i in 0..(BUFFER_SIZE + 1) {
        assert!(collector.record(Effect::Found(plain_entry(i))).batch.is_none());
    }
    let (last, kept) = collector.finish();
    assert!(last.is_none());
    assert_eq!(kept.len(), BUFFER_SIZE + 1);
    let (last, kept) = Collector::new(true, false).finish();
    assert!(last.is_none() && kept.is_empty());
}

#[test]
fn test_progress_updates() {
    let scanner = Scanner::with_sender("/root".to_string(), true, false);
    let mut collector = scanner.collector();
    let mut effects = Vec::new();
    let (_, stats) = drive(test_tree(), 0, &PathSet::new(), &mut effects);
    let mut updates = Vec::new();
    for effect in effects {
        updates.extend(collector.record(effect).progress);
    }

    // Should have received at least one progress update
    // (depends on PROGRESS_UPDATE_INTERVAL and number of entries)
    assert!(
        !updates.is_empty() || stats.total_files + stats.total_dirs < PROGRESS_UPDATE_INTERVAL
    );
    assert_eq!(updates.len(), 1);
    assert_eq!(updates[0].files_scanned, 0);
    assert_eq!(updates[0].current_path, "/root/file1.txt");
    assert_eq!(updates[0].active_dirs, vec![("/root".to_string(), 0, 4)]);
}

#[test]
fn progress_after_every_hundred_entries() {
    let mut collector = Collector::new(false, true);
    collector.record(Effect::Entered { path: "/x".to_string(), total: 250 });
    collector.record(Effect::Entered { path: "/y".to_string(), total: 1 });
    collector.record(Effect::Left { path: "/y".to_string() });
    collector.record(Effect::Forked);
    let mut counts = Vec::new();
    for i in 0..250usize {
        if let Some(update) = collector.record(Effect::Found(plain_entry(i))).progress {
            counts.push(update.files_scanned);
            assert_eq!(update.active_dirs, vec![("/x".to_string(), i, 250)]);
            assert_eq!(update.active_workers, 1);
        }
        collector.record(Effect::Advanced { path: "/x".to_string(), done: i + 1 });
    }
    assert_eq!(counts, vec![0, 100, 200]);
}

#[test]
fn plans_of_scanners() {
    assert_eq!(
        Scanner::new("/x".to_string()).plan(),
        ScanPlan::Read(ScannerImpl::Custom)
    );
    assert_eq!(
        Scanner::new_with_impl("/x".to_string(), ScannerImpl::Walkdir).plan(),
        ScanPlan::Read(ScannerImpl::Walkdir)
    );
    assert_eq!(
        Scanner::with_sender_demo("/x".to_string(), true, false).plan(),
        ScanPlan::Demo
    );
    assert!(Scanner::with_sender("/x".to_string(), true, true).follow_symlinks);
    assert!(!Scanner::new("/x".to_string()).streaming);
}

#[test]
fn names_that_walkers_list() {
    assert_eq!(listed_name(Some("a".to_string()), false), "a");
    assert_eq!(listed_name(None, true), "/");
    assert_eq!(listed_name(None, false), "");
}

fn record(path: &str, len: u64, is_dir: bool, ancestors: &[&str]) -> Record {
    Record {
        key: path.to_string(),
        ancestors: ancestors.iter().map(|a| a.to_string()).collect(),
        path: path.to_string(),
        name: path.rsplit('/').next().unwrap().to_string(),
        parent_path: ancestors.first().map(|a| a.to_string()),
        len,
        is_dir,
        modified_at: None,
        depth: ancestors.len(),
    }
}

fn test_records() -> Vec<Record> {
    vec![
        record("/t", 0, true, &[]),
        record("/t/file1.txt", 5, false, &["/t"]),
        record("/t/file2.txt", 5, false, &["/t"]),
        record("/t/subdir", 0, true, &["/t"]),
        record("/t/subdir/file3.txt", 4, false, &["/t/subdir", "/t"]),
        record("/t/subdir/file4.txt", 4, false, &["/t/subdir", "/t"]),
        record("/t/subdir/nested", 0, true, &["/t/subdir", "/t"]),
        record("/t/subdir/nested/deep.txt", 9, false, &["/t/subdir/nested", "/t/subdir", "/t"]),
        record("/t/empty_dir", 0, true, &["/t"]),
    ]
}

#[test]
fn test_hybrid_scan() {
    // Each half of the listing is counted on its own.
    let records = test_records();
    let (front, back) = records.split_at(4);
    let mut first = Tally::new();
    for r in front {
        assert!(is_sound(r) && first.count_record(r));
    }
    let mut second = Tally::new();
    for r in back {
        assert!(is_sound(r) && second.count_record(r));
    }
    let both = first.merge(second).unwrap();
    let entries: Vec<FileEntry> =
        records.iter().map(|r| record_entry(r, &both.sizes)).collect();
    let stats = both.stats;

    // Should have at least 5 files (file1, file2, file3, file4, deep.txt)
    assert!(
        stats.total_files >= 5,
        "Expected at least 5 files, got {}",
        stats.total_files
    );

    // Should have at least 4 directories (root, subdir, nested, empty_dir)
    assert!(
        stats.total_dirs >= 4,
        "Expected at least 4 dirs, got {}",
        stats.total_dirs
    );

    // Total size should be sum of file contents
    assert!(
        stats.total_size >= 23,
        "Expected at least 23 bytes, got {}",
        stats.total_size
    );

    // Should return all entries when not streaming
    assert!(!entries.is_empty());
    assert_eq!(entries.len() as u64, stats.total_files + stats.total_dirs);
    assert_eq!(entries[0].size, 27);
    assert_eq!(entries[3].size, 17);
    assert_eq!(entries[6].size, 9);
    assert_eq!(entries[8].size, 0);
}

#[test]
fn listing_with_parents_first() {
    let (entries, stats) = aggregate(&test_records()).unwrap();
    assert_eq!(stats, ScanStats { total_size: 27, total_files: 5, total_dirs: 4 });
    let sizes: Vec<u64> = entries.iter().map(|e| e.size).collect();
    assert_eq!(sizes, vec![27, 5, 5, 17, 4, 4, 9, 9, 0]);
}

#[test]
fn a_directory_starts_from_nothing_at_its_record() {
    let records = vec![
        record("/t/a", 5, false, &["/t"]),
        record("/t", 0, true, &[]),
        record("/t/b", 7, false, &["/t"]),
    ];
    let (entries, stats) = aggregate(&records).unwrap();
    assert_eq!(entries[1].size, 7);
    assert_eq!(stats.total_size, 12);
}

#[test]
fn lengths_too_large_to_be_added() {
    let records = vec![record("/a", u64::MAX, false, &["/"]), record("/b", 1, false, &["/"])];
    assert!(aggregate(&records).is_none());
    let mut tally = Tally::new();
    assert!(tally.count_record(&records[0]));
    assert!(!tally.count_record(&records[1]));
    assert_eq!(tally.stats.total_files, 1);
    let mut other = Tally::new();
    assert!(other.count_record(&records[1]));
    assert!(tally.merge(other).is_none());
}

#[test]
fn records_with_a_path_twice_above_are_not_sound() {
    assert!(is_sound(&record("/a/b", 1, false, &["/a", "/"])));
    assert!(!is_sound(&record("/a/b", 1, false, &["/a", "/", "/a"])));
}

#[test]
fn demo_runs_to_its_end() {
    let mut demo = Demo::new();
    let mut collector = Collector::new(true, true);
    let mut batches = 0;
    let mut entries = 0;
    let mut updates = 0;
    while demo.stage != DemoStage::Over {
        for effect in demo.advance(false) {
            let handover = collector.record(effect);
            if let Some(batch) = handover.batch {
                batches += 1;
                entries += batch.len();
            }
            if handover.progress.is_some() {
                updates += 1;
            }
        }
    }
    entries += collector.finish().0.map_or(0, |b| b.len());
    assert_eq!(demo.stats.total_files, 2200);
    assert_eq!(demo.stats.total_dirs, 5);
    // 1024 * (i % 100) over 150, 500, 300, 1200 and 50 files.
    let sum: u64 = [150u64, 500, 300, 1200, 50]
        .iter()
        .map(|n| (0..*n).map(|i| 1024 * (i % 100)).sum::<u64>())
        .sum();
    assert_eq!(demo.stats.total_size, sum);
    assert_eq!(batches, 2);
    assert_eq!(entries, 2200);
    assert_eq!(updates, 22);
}

#[test]
fn demo_files() {
    let mut demo = Demo::new();
    assert!(!demo.at_file());
    demo.advance(false);
    for _ in 0..101 {
        assert!(demo.at_file());
        demo.advance(false);
    }
    match demo.advance(false).remove(0) {
        Effect::Found(e) => {
            assert_eq!(e.path, "/demo/src/file_101.txt");
            assert_eq!(e.name, "file_101.txt");
            assert_eq!(e.parent_path.as_deref(), Some("/demo/src"));
            assert_eq!(e.size, 1024);
            assert_eq!(e.depth, 3);
            assert!(!e.is_dir && e.modified_at.is_none());
        }
        _ => panic!("a file was expected"),
    }
}

#[test]
fn demo_cancelled() {
    let mut demo = Demo::new();
    demo.advance(false);
    demo.advance(false);
    assert!(matches!(demo.advance(true)[0], Effect::Left { .. }));
    assert!(demo.advance(true).is_empty());
    assert_eq!(demo.stage, DemoStage::Over);
    assert_eq!(demo.stats, ScanStats { total_size: 0, total_files: 1, total_dirs: 1 });
}

#[test]
fn the_root_has_no_parent() {
    let root = target("/top/x", "x", Some("/top"), Node::Dir(vec![file("a", 1)]));
    let (found, _) = scan(root);
    assert_eq!(found[0].parent_path.as_deref(), Some("/top/x"));
    assert_eq!(found[1].parent_path, None);
    let mut root = record("/top/x", 0, true, &["/top"]);
    root.depth = 0;
    let mut inside = record("/top/x/a", 1, false, &["/top/x", "/top"]);
    inside.depth = 1;
    let (entries, _) = aggregate(&vec![root, inside]).unwrap();
    assert_eq!(entries[0].parent_path, None);
    assert_eq!(entries[1].parent_path.as_deref(), Some("/top/x"));
}

/// The records of a tree, each directory before what it holds.
fn list(t: &Target<Node>, above: &[&str], records: &mut Vec<Record>) {
    let inside: Vec<&str> = [t.path.as_str()].iter().chain(above).copied().collect();
    match look(t) {
        Reply::File { len, .. } => records.push(record(&t.path, len, false, above)),
        Reply::Directory { children, .. } => {
            records.push(record(&t.path, 0, true, above));
            for child in children.unwrap_or_default() {
                list(&child, &inside, records);
            }
        }
        _ => {}
    }
}

fn facts(entries: &[FileEntry]) -> Vec<(String, u64, bool, usize)> {
    let mut facts: Vec<(String, u64, bool, usize)> =
        entries.iter().map(|e| (e.path.clone(), e.size, e.is_dir, e.depth)).collect();
    facts.sort();
    facts
}

#[test]
fn collectors_return_what_walks_find() {
    for streaming in [false, true] {
        let mut effects = Vec::new();
        drive(test_tree(), 0, &PathSet::new(), &mut effects);
        let mut collector = Collector::new(streaming, false);
        let mut handed = Vec::new();
        for effect in effects {
            handed.extend(collector.record(effect).batch.into_iter().flatten());
        }
        let (last, kept) = collector.finish();
        handed.extend(last.into_iter().flatten());
        assert_eq!(handed.is_empty(), !streaming);
        assert_eq!(kept.is_empty(), streaming);
        handed.extend(kept);
        assert_eq!(facts(&handed), facts(&scan(test_tree()).0));
    }
}

#[test]
fn ways_to_scan_agree() {
    let crowd: Vec<(String, Node)> = (0..120)
        .map(|i| dir(&format!("d{}", i), vec![file("f", i), dir("e", vec![file("g", 1)])]))
        .collect();
    let odd = Node::Dir(vec![
        ("locked".to_string(), Node::Locked),
        ("hidden".to_string(), Node::Hidden),
        file(".dotfile", 3),
    ]);
    let trees = vec![
        test_tree(),
        target("/big", "big", None, Node::Dir(crowd)),
        target("/odd", "odd", None, odd),
        target("/file", "file", None, Node::File(8)),
    ];
    for tree in trees {
        let mut records = Vec::new();
        list(&tree, &[], &mut records);
        let (walked, stats) = scan(tree);
        let (listed, listed_stats) = aggregate(&records).unwrap();
        let (front, back) = records.split_at(records.len() / 2);
        let mut tallies = Vec::new();
        for part in [front, back] {
            let mut tally = Tally::new();
            for r in part {
                assert!(is_sound(r) && tally.count_record(r));
            }
            tallies.push(tally);
        }
        let second = tallies.pop().unwrap();
        let both = tallies.pop().unwrap().merge(second).unwrap();
        let tallied: Vec<FileEntry> =
            records.iter().map(|r| record_entry(r, &both.sizes)).collect();
        assert_eq!(listed_stats, stats);
        assert_eq!(both.stats, stats);
        assert_eq!(walked.len() as u64, stats.total_files + stats.total_dirs);
        assert_eq!(facts(&listed), facts(&walked));
        assert_eq!(facts(&tallied), facts(&walked));
    }
}
