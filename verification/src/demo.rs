//! A made up scan, to show progress without reading a disk.
use vstd::prelude::*;

use crate::scanner::{FileEntry, ScanStats};
use crate::text::{count_char, decimal, occurrences, usize_text};
use crate::walk::Effect;

verus! {

/// The directories of the demo, with how many files each holds.
pub open spec fn demo_dirs() -> Seq<(Seq<char>, nat)> {
    seq![
        ("/demo/src"@, 150nat),
        ("/demo/target/debug"@, 500nat),
        ("/demo/target/release"@, 300nat),
        ("/demo/node_modules"@, 1200nat),
        ("/demo/docs"@, 50nat),
    ]
}

fn demo_dir(d: usize) -> (dir: (&'static str, usize))
    requires
        d < 5,
    ensures
        dir.0@ == demo_dirs()[d as int].0,
        dir.1 == demo_dirs()[d as int].1,
{
    if d == 0 {
        ("/demo/src", 150)
    } else if d == 1 {
        ("/demo/target/debug", 500)
    } else if d == 2 {
        ("/demo/target/release", 300)
    } else if d == 3 {
        ("/demo/node_modules", 1200)
    } else {
        ("/demo/docs", 50)
    }
}

/// The name of the `i`th file of a directory.
pub open spec fn demo_name(i: nat) -> Seq<char> {
    "file_"@ + decimal(i) + ".txt"@
}

/// The size of the `i`th file of a directory.
pub open spec fn demo_size(i: nat) -> nat {
    1024 * (i % 100)
}

/// The entry is the `i`th file of the `d`th directory.
pub open spec fn is_demo_file(e: FileEntry, d: int, i: nat) -> bool {
    let dir = demo_dirs()[d].0;
    &&& e.path@ == dir + "/"@ + demo_name(i)
    &&& e.name@ == demo_name(i)
    &&& e.parent_path is Some
    &&& e.parent_path->0@ == dir
    &&& e.size == demo_size(i)
    &&& !e.is_dir
    &&& e.modified_at is None
    &&& e.depth == occurrences(dir, '/') + 1
}

/// How far a demo has come.
#[derive(Debug, Clone, Copy, PartialEq, Eq, Structural)]
pub enum DemoStage {
    /// Before the directory with this number.
    Before(usize),
    /// Inside a directory, before the file with this number.
    Inside(usize, usize),
    /// At the end.
    Over,
}

/// A made up scan under way.
pub struct Demo {
    pub stage: DemoStage,
    pub stats: ScanStats,
}

/// The file at which the demo stands, where it stands before one.
pub open spec fn next_file(stage: DemoStage) -> Option<(int, nat)> {
    match stage {
        DemoStage::Inside(d, i) => if d < 5 && i < demo_dirs()[d as int].1 {
            Some((d as int, i as nat))
        } else {
            None
        },
        _ => None,
    }
}

/// The stage after this one.
pub open spec fn stage_after(stage: DemoStage, cancelled: bool) -> DemoStage {
    match stage {
        DemoStage::Before(d) => if d >= 5 || cancelled {
            DemoStage::Over
        } else {
            DemoStage::Inside(d, 0)
        },
        DemoStage::Inside(d, i) => if !cancelled && next_file(stage) is Some {
            DemoStage::Inside(d, (i + 1) as usize)
        } else {
            DemoStage::Before((d + 1) as usize)
        },
        DemoStage::Over => DemoStage::Over,
    }
}

/// What is made known on the way from a stage to the next.
pub open spec fn demo_effects(stage: DemoStage, cancelled: bool, effects: Seq<Effect>) -> bool {
    match stage {
        DemoStage::Before(d) => if d >= 5 || cancelled {
            effects.len() == 0
        } else {
            &&& effects.len() == 1
            &&& effects[0] matches Effect::Entered { path, total }
            &&& path@ == demo_dirs()[d as int].0
            &&& total == demo_dirs()[d as int].1
        },
        DemoStage::Inside(d, i) => if !cancelled && next_file(stage) is Some {
            &&& effects.len() == 2
            &&& effects[0] is Found
            &&& is_demo_file(effects[0]->Found_0, d as int, i as nat)
            &&& effects[1] matches Effect::Advanced { path, done }
            &&& path@ == demo_dirs()[d as int].0
            &&& done == i + 1
        } else {
            &&& effects.len() == 1
            &&& effects[0] matches Effect::Left { path }
            &&& path@ == demo_dirs()[d as int].0
        },
        DemoStage::Over => effects.len() == 0,
    }
}

/// The totals after a step: a file counts when it is found, a directory when it is left.
pub open spec fn demo_stats(stage: DemoStage, cancelled: bool, stats: ScanStats) -> ScanStats {
    match stage {
        DemoStage::Inside(d, i) => if !cancelled && next_file(stage) is Some {
            ScanStats {
                total_size: stats.total_size.wrapping_add(demo_size(i as nat) as u64),
                total_files: stats.total_files.wrapping_add(1),
                ..stats
            }
        } else {
            ScanStats { total_dirs: stats.total_dirs.wrapping_add(1), ..stats }
        },
        _ => stats,
    }
}

/// The stage can be reached.
pub open spec fn reachable(stage: DemoStage) -> bool {
    match stage {
        DemoStage::Before(d) => d <= 5,
        DemoStage::Inside(d, i) => d < 5 && i <= demo_dirs()[d as int].1,
        DemoStage::Over => true,
    }
}

impl Demo {
    /// A demo at its start.
    pub fn new() -> (demo: Demo)
        ensures
            reachable(demo.stage),
            demo.stage == DemoStage::Before(0),
            demo.stats == (ScanStats { total_size: 0, total_files: 0, total_dirs: 0 }),
    {
        Demo {
            stage: DemoStage::Before(0),
            stats: ScanStats { total_size: 0, total_files: 0, total_dirs: 0 },
        }
    }

    /// Whether the next step finds a file, unless the scan is cancelled.
    pub fn at_file(&self) -> (b: bool)
        requires
            reachable(self.stage),
        ensures
            b <==> next_file(self.stage) is Some,
    {
        match self.stage {
            DemoStage::Inside(d, i) => i < demo_dir(d).1,
            _ => false,
        }
    }

    /// Takes one step and says what is to be made known.
    pub fn advance(&mut self, cancelled: bool) -> (effects: Vec<Effect>)
        requires
            reachable(old(self).stage),
        ensures
            reachable(final(self).stage),
            final(self).stage == stage_after(old(self).stage, cancelled),
            final(self).stats == demo_stats(old(self).stage, cancelled, old(self).stats),
            demo_effects(old(self).stage, cancelled, effects@),
    {
        let mut effects: Vec<Effect> = Vec::new();
        match self.stage {
            DemoStage::Before(d) => {
                if d >= 5 || cancelled {
                    self.stage = DemoStage::Over;
                } else {
                    let (path, total) = demo_dir(d);
                    effects.push(Effect::Entered { path: path.to_owned(), total });
                    self.stage = DemoStage::Inside(d, 0);
                }
            },
            DemoStage::Inside(d, i) => {
                let (path, total) = demo_dir(d);
                if !cancelled && i < total {
                    let entry = demo_file(d, i);
                    self.stats.total_files = self.stats.total_files.wrapping_add(1);
                    self.stats.total_size = self.stats.total_size.wrapping_add(entry.size);
                    effects.push(Effect::Found(entry));
                    effects.push(Effect::Advanced { path: path.to_owned(), done: i + 1 });
                    self.stage = DemoStage::Inside(d, i + 1);
                } else {
                    effects.push(Effect::Left { path: path.to_owned() });
                    self.stats.total_dirs = self.stats.total_dirs.wrapping_add(1);
                    self.stage = DemoStage::Before(d + 1);
                }
            },
            DemoStage::Over => {},
        }
        effects
    }
}

fn demo_file(d: usize, i: usize) -> (e: FileEntry)
    requires
        d < 5,
        i < demo_dirs()[d as int].1,
    ensures
        is_demo_file(e, d as int, i as nat),
{
    let (dir, _) = demo_dir(d);
    let mut name = "file_".to_owned();
    name.append(usize_text(i).as_str());
    name.append(".txt");
    let mut path = dir.to_owned();
    path.append("/");
    path.append(name.as_str());
    let slashes: usize = count_char(dir, '/');
    assert(slashes <= 20) by {
        reveal_strlit("/demo/src");
        reveal_strlit("/demo/target/debug");
        reveal_strlit("/demo/target/release");
        reveal_strlit("/demo/node_modules");
        reveal_strlit("/demo/docs");
        lemma_occurrences_bound(dir@, '/');
    }
    FileEntry {
        path,
        name,
        parent_path: Some(dir.to_owned()),
        size: 1024 * (i as u64 % 100),
        is_dir: false,
        modified_at: None,
        depth: slashes + 1,
    }
}

proof fn lemma_occurrences_bound(s: Seq<char>, c: char)
    ensures
        occurrences(s, c) <= s.len(),
    decreases s.len(),
{
    if s.len() > 0 {
        lemma_occurrences_bound(s.drop_last(), c);
    }
}

} // verus!
