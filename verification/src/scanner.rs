//! What a scan finds, and how it is gathered.
use vstd::prelude::*;

use crate::text::text_eq;
use crate::time::Timestamp;
use crate::walk::Effect;

verus! {

/// One file or directory that a scan has found.
#[derive(Debug)]
pub struct FileEntry {
    pub path: String,
    pub name: String,
    pub parent_path: Option<String>,
    pub size: u64,
    pub is_dir: bool,
    pub modified_at: Option<Timestamp>,
    pub depth: usize,
}

/// A copy of an optional text.
pub fn copy_optional(text: &Option<String>) -> (copy: Option<String>)
    ensures
        copy == *text,
{
    match text {
        Some(t) => Some(t.clone()),
        None => None,
    }
}

impl Clone for FileEntry {
    fn clone(&self) -> (copy: Self)
        ensures
            copy == *self,
    {
        FileEntry {
            path: self.path.clone(),
            name: self.name.clone(),
            parent_path: copy_optional(&self.parent_path),
            size: self.size,
            is_dir: self.is_dir,
            modified_at: self.modified_at,
            depth: self.depth,
        }
    }
}

/// The totals of a scan.
#[derive(Debug, Clone, Copy, PartialEq, Eq, Structural)]
pub struct ScanStats {
    pub total_size: u64,
    pub total_files: u64,
    pub total_dirs: u64,
}

/// So many entries go into a batch when they are streamed.
pub const BUFFER_SIZE: usize = 1000;

/// After so many entries progress is reported.
pub const PROGRESS_UPDATE_INTERVAL: u64 = 100;

/// A report on a scan under way.
#[derive(Debug)]
pub struct ProgressUpdate {
    pub files_scanned: u64,
    pub dirs_scanned: u64,
    pub total_size: u64,
    pub current_path: String,
    /// The directories that are being scanned: how many of their entries are done, out of how many.
    pub active_dirs: Vec<(String, usize, usize)>,
    pub active_workers: usize,
}

/// Where `path` stands among the active directories, or how many there are.
pub open spec fn place_of(active: Seq<(String, usize, usize)>, path: Seq<char>) -> nat
    decreases active.len(),
{
    if active.len() == 0 {
        0
    } else if active[0].0@ == path {
        0
    } else {
        1 + place_of(active.skip(1), path)
    }
}

/// The active directories after one with `total` entries was entered.
pub open spec fn entered(
    active: Seq<(String, usize, usize)>,
    path: String,
    total: usize,
) -> Seq<(String, usize, usize)> {
    let k = place_of(active, path@) as int;
    if k < active.len() {
        active.update(k, (active[k].0, 0, total))
    } else {
        active.push((path, 0, total))
    }
}

/// The active directories after `done` entries of one are done.
pub open spec fn advanced(
    active: Seq<(String, usize, usize)>,
    path: String,
    done: usize,
) -> Seq<(String, usize, usize)> {
    let k = place_of(active, path@) as int;
    if k < active.len() {
        active.update(k, (active[k].0, done, active[k].2))
    } else {
        active
    }
}

/// The active directories after one was left.
pub open spec fn left(active: Seq<(String, usize, usize)>, path: String) -> Seq<
    (String, usize, usize),
> {
    let k = place_of(active, path@) as int;
    if k < active.len() {
        active.remove(k)
    } else {
        active
    }
}

proof fn lemma_place_of(active: Seq<(String, usize, usize)>, path: Seq<char>, k: nat)
    requires
        k <= active.len(),
        forall|i: int| 0 <= i < k ==> (#[trigger] active[i]).0@ != path,
        k < active.len() ==> active[k as int].0@ == path,
    ensures
        place_of(active, path) == k,
    decreases k,
{
    if k > 0 {
        assert forall|i: int| 0 <= i < k - 1 implies (#[trigger] active.skip(1)[i]).0@ != path by {
            assert(active.skip(1)[i] == active[i + 1]);
        }
        lemma_place_of(active.skip(1), path, (k - 1) as nat);
    }
}

fn find_active(active: &Vec<(String, usize, usize)>, path: &str) -> (k: usize)
    ensures
        k == place_of(active@, path@),
        k <= active@.len(),
{
    let mut k: usize = 0;
    while k < active.len()
        invariant
            k <= active@.len(),
            forall|i: int| 0 <= i < k ==> (#[trigger] active@[i]).0@ != path@,
        decreases active@.len() - k,
    {
        if text_eq(active[k].0.as_str(), path) {
            proof {
                lemma_place_of(active@, path@, k as nat);
            }
            return k;
        }
        k = k + 1;
    }
    proof {
        lemma_place_of(active@, path@, k as nat);
    }
    k
}

fn copy_active(active: &Vec<(String, usize, usize)>) -> (copy: Vec<(String, usize, usize)>)
    ensures
        copy@ == active@,
{
    let mut copy: Vec<(String, usize, usize)> = Vec::new();
    let mut i: usize = 0;
    while i < active.len()
        invariant
            i <= active@.len(),
            copy@ == active@.take(i as int),
        decreases active@.len() - i,
    {
        copy.push((active[i].0.clone(), active[i].1, active[i].2));
        assert(copy@ =~= active@.take(i + 1));
        i = i + 1;
    }
    assert(active@.take(i as int) =~= active@);
    copy
}

/// What has been gathered from a walk and is still held.
pub ghost struct Gathered {
    pub streaming: bool,
    pub reporting: bool,
    pub buffer: Seq<FileEntry>,
    pub processed: u64,
    pub active: Seq<(String, usize, usize)>,
    pub workers: usize,
}

impl Gathered {
    /// The state after an effect of the walk.
    pub open spec fn next(self, effect: Effect) -> Gathered {
        match effect {
            Effect::Entered { path, total } => Gathered {
                active: entered(self.active, path, total),
                ..self
            },
            Effect::Advanced { path, done } => Gathered {
                active: advanced(self.active, path, done),
                ..self
            },
            Effect::Left { path } => Gathered { active: left(self.active, path), ..self },
            Effect::Forked => Gathered { workers: self.workers.wrapping_add(1), ..self },
            Effect::Joined => Gathered { workers: self.workers.wrapping_sub(1), ..self },
            Effect::Found(entry) => Gathered {
                buffer: if self.fills(effect) {
                    Seq::empty()
                } else {
                    self.buffer.push(entry)
                },
                processed: self.processed.wrapping_add(1),
                ..self
            },
        }
    }

    /// Whether the effect fills a batch, which is then handed on.
    pub open spec fn fills(self, effect: Effect) -> bool {
        effect is Found && self.streaming && self.buffer.len() + 1 >= BUFFER_SIZE
    }

    /// Whether progress is due after the effect.
    pub open spec fn due(self, effect: Effect) -> bool {
        effect is Found && self.reporting && self.processed % PROGRESS_UPDATE_INTERVAL == 0
    }
}

/// What is to be handed on after an effect.
pub struct Handover {
    pub batch: Option<Vec<FileEntry>>,
    pub progress: Option<ProgressUpdate>,
}

/// Gathers what walks make known: batches of entries, and reports on the progress.
pub struct Collector {
    streaming: bool,
    reporting: bool,
    buffer: Vec<FileEntry>,
    processed: u64,
    active: Vec<(String, usize, usize)>,
    workers: usize,
}

impl View for Collector {
    type V = Gathered;

    closed spec fn view(&self) -> Gathered {
        Gathered {
            streaming: self.streaming,
            reporting: self.reporting,
            buffer: self.buffer@,
            processed: self.processed,
            active: self.active@,
            workers: self.workers,
        }
    }
}

impl Collector {
    /// A collector that streams its entries in batches or keeps them, and reports progress or not.
    pub fn new(streaming: bool, reporting: bool) -> (c: Collector)
        ensures
            c@ == (Gathered {
                streaming,
                reporting,
                buffer: Seq::empty(),
                processed: 0,
                active: Seq::empty(),
                workers: 0,
            }),
    {
        let c = Collector {
            streaming,
            reporting,
            buffer: Vec::new(),
            processed: 0,
            active: Vec::new(),
            workers: 0,
        };
        assert(c@.buffer =~= Seq::empty());
        assert(c@.active =~= Seq::empty());
        c
    }

    /// Takes an effect of a walk in.
    pub fn record(&mut self, effect: Effect) -> (h: Handover)
        ensures
            final(self)@ == old(self)@.next(effect),
            h.batch is Some <==> old(self)@.fills(effect),
            h.batch is Some ==> h.batch->0@ == old(self)@.buffer.push(effect->Found_0),
            h.progress is Some <==> old(self)@.due(effect),
            h.progress is Some ==> {
                &&& h.progress->0.files_scanned == old(self)@.processed
                &&& h.progress->0.dirs_scanned == 0
                &&& h.progress->0.total_size == 0
                &&& h.progress->0.current_path == effect->Found_0.path
                &&& h.progress->0.active_dirs@ == old(self)@.active
                &&& h.progress->0.active_workers == old(self)@.workers
            },
    {
        let mut batch: Option<Vec<FileEntry>> = None;
        let mut progress: Option<ProgressUpdate> = None;
        match effect {
            Effect::Entered { path, total } => {
                let k: usize = find_active(&self.active, path.as_str());
                if k < self.active.len() {
                    let known = self.active[k].0.clone();
                    self.active.set(k, (known, 0, total));
                } else {
                    self.active.push((path, 0, total));
                }
            },
            Effect::Advanced { path, done } => {
                let k: usize = find_active(&self.active, path.as_str());
                if k < self.active.len() {
                    let known = self.active[k].0.clone();
                    let total: usize = self.active[k].2;
                    self.active.set(k, (known, done, total));
                }
            },
            Effect::Left { path } => {
                let k: usize = find_active(&self.active, path.as_str());
                if k < self.active.len() {
                    let _gone = self.active.remove(k);
                }
            },
            Effect::Forked => {
                self.workers = self.workers.wrapping_add(1);
            },
            Effect::Joined => {
                self.workers = self.workers.wrapping_sub(1);
            },
            Effect::Found(entry) => {
                let path = entry.path.clone();
                self.buffer.push(entry);
                if self.streaming && self.buffer.len() >= BUFFER_SIZE {
                    let mut full: Vec<FileEntry> = Vec::new();
                    std::mem::swap(&mut full, &mut self.buffer);
                    batch = Some(full);
                }
                let count: u64 = self.processed;
                self.processed = count.wrapping_add(1);
                if self.reporting && count % PROGRESS_UPDATE_INTERVAL == 0 {
                    progress =
                    Some(
                        ProgressUpdate {
                            files_scanned: count,
                            dirs_scanned: 0,
                            total_size: 0,
                            current_path: path,
                            active_dirs: copy_active(&self.active),
                            active_workers: self.workers,
                        },
                    );
                }
            },
        }
        assert(self@.buffer =~= old(self)@.next(effect).buffer);
        assert(self@.active =~= old(self)@.next(effect).active);
        Handover { batch, progress }
    }

    /// Ends the gathering: the last batch, where entries are streamed and some are left, and the
    /// entries to return, which are none when they were streamed.
    pub fn finish(self) -> (r: (Option<Vec<FileEntry>>, Vec<FileEntry>))
        ensures
            r.0 is Some <==> self@.streaming && self@.buffer.len() > 0,
            r.0 is Some ==> r.0->0@ == self@.buffer,
            r.1@ == if self@.streaming {
                Seq::empty()
            } else {
                self@.buffer
            },
    {
        if self.streaming {
            if self.buffer.len() > 0 {
                (Some(self.buffer), Vec::new())
            } else {
                (None, Vec::new())
            }
        } else {
            (None, self.buffer)
        }
    }
}

/// The entries that are made known, in order.
pub open spec fn entries_in(effects: Seq<Effect>) -> Seq<FileEntry>
    decreases effects.len(),
{
    if effects.len() == 0 {
        Seq::empty()
    } else {
        let rest = entries_in(effects.skip(1));
        if effects[0] is Found {
            seq![effects[0]->Found_0] + rest
        } else {
            rest
        }
    }
}

/// The state after a run of effects.
pub open spec fn gathered_after(start: Gathered, effects: Seq<Effect>) -> Gathered
    decreases effects.len(),
{
    if effects.len() == 0 {
        start
    } else {
        gathered_after(start.next(effects[0]), effects.skip(1))
    }
}

/// The batches that a run of effects hands on.
pub open spec fn batches_of(start: Gathered, effects: Seq<Effect>) -> Seq<Seq<FileEntry>>
    decreases effects.len(),
{
    if effects.len() == 0 {
        Seq::empty()
    } else {
        let rest = batches_of(start.next(effects[0]), effects.skip(1));
        if start.fills(effects[0]) {
            seq![start.buffer.push(effects[0]->Found_0)] + rest
        } else {
            rest
        }
    }
}

/// Some batches, one after the other.
pub open spec fn unbatched(batches: Seq<Seq<FileEntry>>) -> Seq<FileEntry>
    decreases batches.len(),
{
    if batches.len() == 0 {
        Seq::empty()
    } else {
        batches[0] + unbatched(batches.skip(1))
    }
}

/// Every entry is handed on once and in order, be it in a batch or at the end, and every batch
/// that is handed on before the end is a full one.
pub proof fn law_nothing_lost(start: Gathered, effects: Seq<Effect>)
    requires
        start.streaming ==> start.buffer.len() < BUFFER_SIZE,
    ensures
        unbatched(batches_of(start, effects)) + gathered_after(start, effects).buffer
            == start.buffer + entries_in(effects),
        forall|i: int|
            0 <= i < batches_of(start, effects).len() ==> (#[trigger] batches_of(
                start,
                effects,
            )[i]).len() == BUFFER_SIZE,
        !start.streaming ==> batches_of(start, effects).len() == 0,
        gathered_after(start, effects).streaming == start.streaming,
        start.streaming ==> gathered_after(start, effects).buffer.len() < BUFFER_SIZE,
    decreases effects.len(),
{
    let out = batches_of(start, effects);
    if effects.len() == 0 {
        assert(unbatched(out) + start.buffer =~= start.buffer + entries_in(effects));
    } else {
        let e = effects[0];
        let next = start.next(e);
        let rest = batches_of(next, effects.skip(1));
        law_nothing_lost(next, effects.skip(1));
        let end = gathered_after(start, effects).buffer;
        if start.fills(e) {
            let full = start.buffer.push(e->Found_0);
            assert(out.skip(1) =~= rest);
            assert(out[0] == full);
            assert(unbatched(out) =~= full + unbatched(rest));
            assert(unbatched(out) + end =~= full + (unbatched(rest) + end));
            assert(unbatched(out) + end =~= start.buffer + entries_in(effects));
            assert forall|i: int| 0 <= i < out.len() implies (#[trigger] out[i]).len()
                == BUFFER_SIZE by {
                if i > 0 {
                    assert(out[i] == rest[i - 1]);
                }
            }
        } else {
            assert(out == rest);
            assert(unbatched(out) + end =~= start.buffer + entries_in(effects));
        }
    }
}

/// How the file system is read.
#[derive(Debug, Clone, Copy, PartialEq, Eq, Structural)]
pub enum ScannerImpl {
    /// A walk that measures crowded directories side by side.
    Custom,
    /// A directory walker on one thread.
    Walkdir,
    /// A directory walker on many threads, with the sizes added up in parts.
    Hybrid,
}

/// What a scan does.
#[derive(Debug, Clone, Copy, PartialEq, Eq, Structural)]
pub enum ScanPlan {
    /// Make entries up.
    Demo,
    /// Read the file system.
    Read(ScannerImpl),
}

/// What is scanned, and how.
pub struct Scanner {
    pub root_path: String,
    pub streaming: bool,
    pub reporting: bool,
    pub demo_mode: bool,
    pub implementation: ScannerImpl,
    pub follow_symlinks: bool,
}

impl Scanner {
    /// A scan that hands its entries on as it finds them.
    pub fn with_sender(root_path: String, reporting: bool, follow_symlinks: bool) -> (s: Scanner)
        ensures
            s == (Scanner {
                root_path,
                streaming: true,
                reporting,
                demo_mode: false,
                implementation: ScannerImpl::Custom,
                follow_symlinks,
            }),
    {
        Scanner {
            root_path,
            streaming: true,
            reporting,
            demo_mode: false,
            implementation: ScannerImpl::Custom,
            follow_symlinks,
        }
    }

    /// A made up scan that hands its entries on.
    pub fn with_sender_demo(
        root_path: String,
        reporting: bool,
        follow_symlinks: bool,
    ) -> (s: Scanner)
        ensures
            s == (Scanner {
                root_path,
                streaming: true,
                reporting,
                demo_mode: true,
                implementation: ScannerImpl::Custom,
                follow_symlinks,
            }),
    {
        Scanner {
            root_path,
            streaming: true,
            reporting,
            demo_mode: true,
            implementation: ScannerImpl::Custom,
            follow_symlinks,
        }
    }

    /// A scan that keeps its entries.
    pub fn new(root_path: String) -> (s: Scanner)
        ensures
            s == (Scanner {
                root_path,
                streaming: false,
                reporting: false,
                demo_mode: false,
                implementation: ScannerImpl::Custom,
                follow_symlinks: false,
            }),
    {
        Scanner::new_with_impl(root_path, ScannerImpl::Custom)
    }

    /// A scan that keeps its entries and reads the file system in the given way.
    pub fn new_with_impl(root_path: String, implementation: ScannerImpl) -> (s: Scanner)
        ensures
            s == (Scanner {
                root_path,
                streaming: false,
                reporting: false,
                demo_mode: false,
                implementation,
                follow_symlinks: false,
            }),
    {
        Scanner {
            root_path,
            streaming: false,
            reporting: false,
            demo_mode: false,
            implementation,
            follow_symlinks: false,
        }
    }

    /// What this scan does: a made up one is never read from the file system.
    pub fn plan(&self) -> (plan: ScanPlan)
        ensures
            plan == if self.demo_mode {
                ScanPlan::Demo
            } else {
                ScanPlan::Read(self.implementation)
            },
    {
        if self.demo_mode {
            ScanPlan::Demo
        } else {
            ScanPlan::Read(self.implementation)
        }
    }

    /// The collector that a walk of this scan fills.
    pub fn collector(&self) -> (c: Collector)
        ensures
            c@ == (Gathered {
                streaming: self.streaming,
                reporting: self.reporting,
                buffer: Seq::empty(),
                processed: 0,
                active: Seq::empty(),
                workers: 0,
            }),
    {
        Collector::new(self.streaming, self.reporting)
    }
}

/// The name of an entry that a directory walker lists: its file name, where it has one. A root
/// without one is the file system's.
pub fn listed_name(file_name: Option<String>, is_root: bool) -> (name: String)
    ensures
        file_name is Some ==> name == file_name->0,
        file_name is None ==> name@ == if is_root {
            "/"@
        } else {
            ""@
        },
{
    match file_name {
        Some(name) => name,
        None => if is_root {
            "/".to_owned()
        } else {
            "".to_owned()
        },
    }
}

} // verus!
