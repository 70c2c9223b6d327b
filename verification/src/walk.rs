//! The walk that measures a directory tree.
//!
//! A walk holds the directories that it is inside of and asks for one thing at a time: what stands
//! at a path, or how large the entries of a crowded directory are. Whoever drives it looks at the
//! disk and answers. From the answers the walk makes the entries, the totals and the progress.
use vstd::prelude::*;

use crate::paths::PathSet;
use crate::scanner::{FileEntry, ScanStats};
use crate::time::{has_date, instant_from_unix, Timestamp};

verus! {

/// A directory with more entries than this hands them out to be walked side by side.
pub const FAN_OUT_ABOVE: usize = 100;

/// Something that the walk will visit. The handle is the driver's own way to find it.
pub struct Target<P> {
    pub handle: P,
    pub path: String,
    pub name: String,
    pub parent_path: Option<String>,
}

/// What the driver found out.
pub enum Reply<P> {
    /// The scan has been cancelled, or the path cannot be looked at.
    Skipped,
    /// A file, with its length and when it was changed in seconds since the epoch.
    File { len: u64, modified: Option<i64> },
    /// A directory, with what it holds unless that cannot be read.
    Directory { modified: Option<i64>, children: Option<Vec<Target<P>>> },
    /// The entries of a crowded directory have been walked: the size of each, and their totals.
    Measured { sizes: Vec<u64>, stats: ScanStats },
}

/// What the walk wants to be known, in this order.
pub enum Effect {
    /// A directory with so many entries has been entered.
    Entered { path: String, total: usize },
    /// So many entries of a directory are done.
    Advanced { path: String, done: usize },
    /// A directory is done.
    Left { path: String },
    /// The entries of a directory are handed out to be walked side by side.
    Forked,
    /// The entries that were handed out are done.
    Joined,
    /// A file or directory with its size.
    Found(FileEntry),
}

/// A reply, with sequences in place of vectors.
pub ghost enum Answer<P> {
    Skipped,
    File { len: u64, modified: Option<i64> },
    Directory { modified: Option<i64>, children: Option<Seq<Target<P>>> },
    Measured { sizes: Seq<u64>, stats: Totals },
}

/// Unbounded totals.
pub ghost struct Totals {
    pub size: nat,
    pub files: nat,
    pub dirs: nat,
}

/// The totals in `stats`.
pub open spec fn totals_in(stats: ScanStats) -> Totals {
    Totals {
        size: stats.total_size as nat,
        files: stats.total_files as nat,
        dirs: stats.total_dirs as nat,
    }
}

/// The sum of two totals.
pub open spec fn plus(a: Totals, b: Totals) -> Totals {
    Totals { size: a.size + b.size, files: a.files + b.files, dirs: a.dirs + b.dirs }
}

/// No totals.
pub open spec fn nothing() -> Totals {
    Totals { size: 0, files: 0, dirs: 0 }
}

impl<P> View for Reply<P> {
    type V = Answer<P>;

    open spec fn view(&self) -> Answer<P> {
        match *self {
            Reply::Skipped => Answer::Skipped,
            Reply::File { len, modified } => Answer::File { len, modified },
            Reply::Directory { modified, children } => Answer::Directory {
                modified,
                children: match children {
                    Some(c) => Some(c@),
                    None => None,
                },
            },
            Reply::Measured { sizes, stats } => Answer::Measured {
                sizes: sizes@,
                stats: totals_in(stats),
            },
        }
    }
}

/// A directory that the walk is inside of: how many of its entries are done, how large they are
/// together, and which ones come after the one under way.
pub ghost struct Level<P> {
    pub target: Target<P>,
    pub modified_at: Option<Timestamp>,
    pub pending: Seq<Target<P>>,
    pub done: nat,
    pub size: nat,
}

/// Where a walk stands.
pub ghost enum Stage<P> {
    /// A path has to be looked at.
    Visit(Target<P>),
    /// The entries of a crowded directory have to be walked.
    FanOut {
        target: Target<P>,
        modified_at: Option<Timestamp>,
        children: Seq<Target<P>>,
    },
    /// All is done; the walk's root has this size.
    Finished(nat),
}

/// The state of a walk.
pub ghost struct WalkState<P> {
    pub scanned: Set<Seq<char>>,
    pub base: nat,
    pub levels: Seq<Level<P>>,
    pub stage: Stage<P>,
    pub totals: Totals,
}

/// The time of a change that was given in seconds, where the calendar reaches it.
pub open spec fn change_time(modified: Option<i64>) -> Option<Timestamp> {
    match modified {
        Some(secs) => if has_date(secs, 0) {
            Some(Timestamp { secs, nanos: 0 })
        } else {
            None
        },
        None => None,
    }
}

/// The entry for a target. The root of a scan, at depth zero, has no parent.
pub open spec fn entry_for<P>(
    t: Target<P>,
    size: nat,
    is_dir: bool,
    modified_at: Option<Timestamp>,
    depth: nat,
) -> FileEntry {
    FileEntry {
        path: t.path,
        name: t.name,
        parent_path: if depth == 0 {
            None
        } else {
            t.parent_path
        },
        size: size as u64,
        is_dir,
        modified_at,
        depth: depth as usize,
    }
}

/// What is made known when a directory is done.
pub open spec fn closing<P>(
    t: Target<P>,
    size: nat,
    modified_at: Option<Timestamp>,
    depth: nat,
) -> Seq<Effect> {
    seq![Effect::Left { path: t.path }, Effect::Found(entry_for(t, size, true, modified_at, depth))]
}

/// What follows when the entry under way turns out to have `size`: the directories that it
/// completes are left, and the next entry comes up.
pub open spec fn settled<P>(base: nat, levels: Seq<Level<P>>, size: nat) -> (
    Seq<Level<P>>,
    Stage<P>,
    Seq<Effect>,
)
    decreases levels.len(),
{
    if levels.len() == 0 {
        (levels, Stage::Finished(size), Seq::empty())
    } else {
        let top = levels.last();
        let outer = levels.drop_last();
        let sum = top.size + size;
        let progress = seq![
            Effect::Advanced { path: top.target.path, done: (top.done + 1) as usize },
        ];
        if top.pending.len() > 0 {
            (
                outer.push(
                    Level {
                        pending: top.pending.skip(1),
                        done: top.done + 1,
                        size: sum,
                        ..top
                    },
                ),
                Stage::Visit(top.pending[0]),
                progress,
            )
        } else {
            let (rest, stage, effects) = settled(base, outer, sum);
            (
                rest,
                stage,
                progress + closing(top.target, sum, top.modified_at, base + outer.len()) + effects,
            )
        }
    }
}

/// The sum of some sizes.
pub open spec fn sum_of(sizes: Seq<u64>) -> nat
    decreases sizes.len(),
{
    if sizes.len() == 0 {
        0
    } else {
        sum_of(sizes.drop_last()) + sizes.last() as nat
    }
}

impl<P> WalkState<P> {
    /// How deep the entry under way lies.
    pub open spec fn depth(self) -> nat {
        self.base + self.levels.len()
    }

    /// The state after the entry under way was found to have `size`, with `more` to count, and
    /// what is made known, after `known`.
    pub open spec fn after(self, known: Seq<Effect>, size: nat, more: Totals) -> (
        WalkState<P>,
        Seq<Effect>,
    ) {
        let (levels, stage, effects) = settled(self.base, self.levels, size);
        (
            WalkState { levels, stage, totals: plus(self.totals, more), ..self },
            known + effects,
        )
    }

    /// One step of the walk.
    pub open spec fn step(self, answer: Answer<P>) -> (WalkState<P>, Seq<Effect>) {
        match self.stage {
            Stage::Visit(t) => if self.scanned.contains(t.path@) {
                self.after(Seq::empty(), 0, nothing())
            } else {
                match answer {
                    Answer::File { len, modified } => self.after(
                        seq![
                            Effect::Found(
                                entry_for(t, len as nat, false, change_time(modified), self.depth()),
                            ),
                        ],
                        len as nat,
                        Totals { size: len as nat, files: 1, dirs: 0 },
                    ),
                    Answer::Directory { modified, children: None } => self.after(
                        seq![
                            Effect::Found(
                                entry_for(t, 0, true, change_time(modified), self.depth()),
                            ),
                        ],
                        0,
                        Totals { size: 0, files: 0, dirs: 1 },
                    ),
                    Answer::Directory { modified, children: Some(children) } => {
                        let one = Totals { size: 0, files: 0, dirs: 1 };
                        let entered = Effect::Entered {
                            path: t.path,
                            total: children.len() as usize,
                        };
                        if children.len() > FAN_OUT_ABOVE {
                            (
                                WalkState {
                                    stage: Stage::FanOut {
                                        target: t,
                                        modified_at: change_time(modified),
                                        children,
                                    },
                                    totals: plus(self.totals, one),
                                    ..self
                                },
                                seq![entered, Effect::Forked],
                            )
                        } else if children.len() == 0 {
                            self.after(
                                seq![entered] + closing(t, 0, change_time(modified), self.depth()),
                                0,
                                one,
                            )
                        } else {
                            (
                                WalkState {
                                    levels: self.levels.push(
                                        Level {
                                            target: t,
                                            modified_at: change_time(modified),
                                            pending: children.skip(1),
                                            done: 0,
                                            size: 0,
                                        },
                                    ),
                                    stage: Stage::Visit(children[0]),
                                    totals: plus(self.totals, one),
                                    ..self
                                },
                                seq![entered],
                            )
                        }
                    },
                    _ => self.after(Seq::empty(), 0, nothing()),
                }
            },
            Stage::FanOut { target, modified_at, .. } => match answer {
                Answer::Measured { sizes, stats } => self.after(
                    seq![Effect::Joined] + closing(
                        target,
                        sum_of(sizes),
                        modified_at,
                        self.depth(),
                    ),
                    sum_of(sizes),
                    stats,
                ),
                _ => self.after(
                    seq![Effect::Joined] + closing(target, 0, modified_at, self.depth()),
                    0,
                    nothing(),
                ),
            },
            Stage::Finished(_) => (self, Seq::empty()),
        }
    }
}

struct Frame<P> {
    target: Target<P>,
    modified_at: Option<Timestamp>,
    pending: Vec<Target<P>>,
    done: usize,
    size: u64,
}

impl<P> Frame<P> {
    // The entries to come are kept last first, so that the next one can be popped.
    spec fn level(self) -> Level<P> {
        Level {
            target: self.target,
            modified_at: self.modified_at,
            pending: self.pending@.reverse(),
            done: self.done as nat,
            size: self.size as nat,
        }
    }
}

enum Phase<P> {
    Visit(Target<P>),
    FanOut { target: Target<P>, modified_at: Option<Timestamp>, children: Vec<Target<P>> },
    Finished(u64),
}

impl<P> Phase<P> {
    spec fn stage(self) -> Stage<P> {
        match self {
            Phase::Visit(t) => Stage::Visit(t),
            Phase::FanOut { target, modified_at, children } => Stage::FanOut {
                target,
                modified_at,
                children: children@,
            },
            Phase::Finished(size) => Stage::Finished(size as nat),
        }
    }
}

spec fn levels_in<P>(frames: Seq<Frame<P>>) -> Seq<Level<P>> {
    frames.map_values(|f: Frame<P>| f.level())
}

/// The sizes gathered so far in the directories that the walk is inside of.
pub open spec fn gathered<P>(levels: Seq<Level<P>>) -> nat
    decreases levels.len(),
{
    if levels.len() == 0 {
        0
    } else {
        gathered(levels.drop_last()) + levels.last().size
    }
}

/// A walk under way.
pub struct Walk<'a, P> {
    scanned: &'a PathSet,
    base_depth: usize,
    frames: Vec<Frame<P>>,
    phase: Phase<P>,
    stats: ScanStats,
}

impl<'a, P> View for Walk<'a, P> {
    type V = WalkState<P>;

    closed spec fn view(&self) -> WalkState<P> {
        WalkState {
            scanned: self.scanned@,
            base: self.base_depth as nat,
            levels: levels_in(self.frames@),
            stage: self.phase.stage(),
            totals: totals_in(self.stats),
        }
    }
}

/// What a walk asks for.
pub enum Request<'b, P> {
    /// Look at this path.
    Inspect(&'b Target<P>),
    /// This path was scanned before: any reply will do.
    Known(&'b Target<P>),
    /// Walk each of these, as deep as given, and reply with what came out.
    Measure { children: &'b Vec<Target<P>>, depth: usize },
    /// Nothing is left to ask. The root has this size.
    Done(u64),
}

/// The counts in `state` can be held by a machine.
pub open spec fn within_limits<P>(state: WalkState<P>) -> bool {
    &&& gathered(state.levels) <= state.totals.size
    &&& state.depth() < usize::MAX
    &&& forall|i: int|
        0 <= i < state.levels.len() ==> (#[trigger] state.levels[i]).done
            + state.levels[i].pending.len() < usize::MAX
}

/// The reply is of a kind that was asked for, and its counts can be added.
pub open spec fn acceptable<P>(state: WalkState<P>, answer: Answer<P>) -> bool {
    match state.stage {
        Stage::Visit(_) => match answer {
            Answer::Skipped => true,
            Answer::File { len, .. } => state.totals.size + len <= u64::MAX && state.totals.files
                < u64::MAX,
            Answer::Directory { children, .. } => state.totals.dirs < u64::MAX && state.depth() + 1
                < usize::MAX,
            Answer::Measured { .. } => false,
        },
        Stage::FanOut { .. } => match answer {
            Answer::Measured { sizes, stats } => {
                &&& sum_of(sizes) <= stats.size
                &&& state.totals.size + stats.size <= u64::MAX
                &&& state.totals.files + stats.files <= u64::MAX
                &&& state.totals.dirs + stats.dirs <= u64::MAX
            },
            _ => false,
        },
        Stage::Finished(_) => false,
    }
}

fn change_instant(modified: Option<i64>) -> (t: Option<Timestamp>)
    ensures
        t == change_time(modified),
{
    match modified {
        Some(secs) => instant_from_unix(secs),
        None => None,
    }
}

fn make_entry<P>(
    t: Target<P>,
    size: u64,
    is_dir: bool,
    modified_at: Option<Timestamp>,
    depth: usize,
) -> (e: FileEntry)
    ensures
        e == entry_for(t, size as nat, is_dir, modified_at, depth as nat),
{
    FileEntry {
        path: t.path,
        name: t.name,
        parent_path: if depth == 0 {
            None
        } else {
            t.parent_path
        },
        size,
        is_dir,
        modified_at,
        depth,
    }
}

/// The sum of some sizes, where it can be held.
pub fn add_up(sizes: &Vec<u64>) -> (sum: Option<u64>)
    ensures
        sum is Some <==> sum_of(sizes@) <= u64::MAX,
        sum is Some ==> sum->0 == sum_of(sizes@),
{
    let mut sum: u64 = 0;
    let mut i: usize = 0;
    assert(sizes@.take(0) =~= Seq::empty());
    while i < sizes.len()
        invariant
            i <= sizes@.len(),
            sum == sum_of(sizes@.take(i as int)),
        decreases sizes@.len() - i,
    {
        assert(sizes@.take(i + 1).drop_last() =~= sizes@.take(i as int));
        proof {
            lemma_sum_of_part(sizes@, i + 1);
        }
        match sum.checked_add(sizes[i]) {
            Some(s) => {
                sum = s;
            },
            None => {
                return None;
            },
        }
        i = i + 1;
    }
    assert(sizes@.take(i as int) =~= sizes@);
    Some(sum)
}

/// The totals of some walks together.
pub open spec fn totals_of(parts: Seq<(u64, ScanStats)>) -> Totals
    decreases parts.len(),
{
    if parts.len() == 0 {
        nothing()
    } else {
        plus(totals_of(parts.drop_last()), totals_in(parts.last().1))
    }
}

/// The sizes that some walks came to.
pub open spec fn sizes_of(parts: Seq<(u64, ScanStats)>) -> Seq<u64> {
    parts.map_values(|p: (u64, ScanStats)| p.0)
}

/// Whether totals can be held by a machine.
pub open spec fn held(t: Totals) -> bool {
    t.size <= u64::MAX && t.files <= u64::MAX && t.dirs <= u64::MAX
}

proof fn lemma_totals_of_part(parts: Seq<(u64, ScanStats)>, n: int)
    requires
        0 <= n <= parts.len(),
    ensures
        totals_of(parts.take(n)).size <= totals_of(parts).size,
        totals_of(parts.take(n)).files <= totals_of(parts).files,
        totals_of(parts.take(n)).dirs <= totals_of(parts).dirs,
    decreases parts.len() - n,
{
    if n < parts.len() {
        lemma_totals_of_part(parts, n + 1);
        assert(parts.take(n + 1).drop_last() =~= parts.take(n));
    } else {
        assert(parts.take(n) =~= parts);
    }
}

/// The reply for the entries of a crowded directory, from the size and the totals that the walk
/// over each came to. There is none where the totals cannot be added.
pub fn measured<P>(parts: &Vec<(u64, ScanStats)>) -> (reply: Option<Reply<P>>)
    ensures
        reply is Some <==> held(totals_of(parts@)),
        reply is Some ==> reply->0@ == (Answer::<P>::Measured {
            sizes: sizes_of(parts@),
            stats: totals_of(parts@),
        }),
{
    let mut sizes: Vec<u64> = Vec::new();
    let mut stats = ScanStats { total_size: 0, total_files: 0, total_dirs: 0 };
    let mut i: usize = 0;
    assert(parts@.take(0) =~= Seq::empty());
    assert(sizes@ =~= sizes_of(parts@.take(0)));
    while i < parts.len()
        invariant
            i <= parts@.len(),
            sizes@ == sizes_of(parts@.take(i as int)),
            totals_in(stats) == totals_of(parts@.take(i as int)),
        decreases parts@.len() - i,
    {
        let part = &parts[i].1;
        proof {
            assert(parts@.take(i + 1).drop_last() =~= parts@.take(i as int));
            lemma_totals_of_part(parts@, i + 1);
        }
        match (
            stats.total_size.checked_add(part.total_size),
            stats.total_files.checked_add(part.total_files),
            stats.total_dirs.checked_add(part.total_dirs),
        ) {
            (Some(total_size), Some(total_files), Some(total_dirs)) => {
                stats = ScanStats { total_size, total_files, total_dirs };
            },
            _ => {
                return None;
            },
        }
        sizes.push(parts[i].0);
        assert(sizes@ =~= sizes_of(parts@.take(i + 1)));
        i = i + 1;
    }
    assert(parts@.take(i as int) =~= parts@);
    Some(Reply::Measured { sizes, stats })
}

proof fn lemma_sum_of_part(sizes: Seq<u64>, n: int)
    requires
        0 <= n <= sizes.len(),
    ensures
        sum_of(sizes.take(n)) <= sum_of(sizes),
    decreases sizes.len() - n,
{
    if n < sizes.len() {
        lemma_sum_of_part(sizes, n + 1);
        assert(sizes.take(n + 1).drop_last() =~= sizes.take(n));
    } else {
        assert(sizes.take(n) =~= sizes);
    }
}

proof fn lemma_gathered_push<P>(levels: Seq<Level<P>>, l: Level<P>)
    ensures
        gathered(levels.push(l)) == gathered(levels) + l.size,
{
    assert(levels.push(l).drop_last() =~= levels);
}

proof fn lemma_levels_push<P>(frames: Seq<Frame<P>>, f: Frame<P>)
    ensures
        levels_in(frames.push(f)) == levels_in(frames).push(f.level()),
{
    assert(levels_in(frames.push(f)) =~= levels_in(frames).push(f.level()));
}

fn settle<P>(
    base_depth: usize,
    frames: &mut Vec<Frame<P>>,
    size: u64,
    effects: &mut Vec<Effect>,
) -> (phase: Phase<P>)
    requires
        gathered(levels_in(old(frames)@)) + size <= u64::MAX,
        base_depth + old(frames)@.len() <= usize::MAX,
        forall|i: int|
            0 <= i < old(frames)@.len() ==> (#[trigger] levels_in(old(frames)@)[i]).done
                + levels_in(old(frames)@)[i].pending.len() < usize::MAX,
    ensures
        ({
            let (levels, stage, more) = settled(
                base_depth as nat,
                levels_in(old(frames)@),
                size as nat,
            );
            &&& levels_in(final(frames)@) == levels
            &&& phase.stage() == stage
            &&& final(effects)@ == old(effects)@ + more
        }),
        gathered(levels_in(final(frames)@)) <= gathered(levels_in(old(frames)@)) + size,
        final(frames)@.len() <= old(frames)@.len(),
        forall|i: int|
            0 <= i < final(frames)@.len() ==> (#[trigger] levels_in(final(frames)@)[i]).done
                + levels_in(final(frames)@)[i].pending.len() < usize::MAX,
    decreases old(frames)@.len(),
{
    let ghost before = levels_in(frames@);
    match frames.pop() {
        None => {
            assert(effects@ =~= old(effects)@ + Seq::empty());
            Phase::Finished(size)
        },
        Some(frame) => {
            let mut frame = frame;
            let ghost top = before.last();
            proof {
                assert(levels_in(frames@) =~= before.drop_last());
                assert(top == frame.level());
                assert(before[before.len() - 1].done + top.pending.len() < usize::MAX);
                assert forall|i: int| 0 <= i < frames@.len() implies (#[trigger] levels_in(
                    frames@,
                )[i]).done + levels_in(frames@)[i].pending.len() < usize::MAX by {
                    assert(levels_in(frames@)[i] == before[i]);
                }
            }
            frame.done = frame.done + 1;
            frame.size = frame.size + size;
            effects.push(Effect::Advanced { path: frame.target.path.clone(), done: frame.done });
            match frame.pending.pop() {
                Some(next) => {
                    let ghost outer = frames@;
                    frames.push(frame);
                    proof {
                        assert(frame.pending@.reverse() =~= top.pending.skip(1));
                        assert(next == top.pending[0]);
                        lemma_levels_push(outer, frame);
                        lemma_gathered_push(levels_in(outer), frame.level());
                        assert(levels_in(frames@) =~= settled(
                            base_depth as nat,
                            before,
                            size as nat,
                        ).0);
                        assert forall|i: int| 0 <= i < frames@.len() implies (#[trigger] levels_in(
                            frames@,
                        )[i]).done + levels_in(frames@)[i].pending.len() < usize::MAX by {
                            if i < outer.len() {
                                assert(levels_in(frames@)[i] == levels_in(outer)[i]);
                            }
                        }
                    }
                    Phase::Visit(next)
                },
                None => {
                    let whole: u64 = frame.size;
                    let depth: usize = base_depth + frames.len();
                    let modified_at = frame.modified_at;
                    effects.push(Effect::Left { path: frame.target.path.clone() });
                    effects.push(
                        Effect::Found(make_entry(frame.target, whole, true, modified_at, depth)),
                    );
                    let ghost so_far = effects@;
                    let phase = settle(base_depth, frames, whole, effects);
                    proof {
                        let inner = settled(base_depth as nat, before.drop_last(), whole as nat);
                        let all = settled(base_depth as nat, before, size as nat);
                        assert(top.pending.len() == 0);
                        assert(effects@ =~= old(effects)@ + all.2);
                    }
                    phase
                },
            }
        },
    }
}

impl<'a, P> Walk<'a, P> {
    /// Every invariant of a walk that is under way.
    pub closed spec fn well_formed(&self) -> bool {
        within_limits(self@)
    }

    /// A walk that starts at `target`, which lies `depth` deep, and passes over what was scanned
    /// before.
    pub fn new(target: Target<P>, depth: usize, scanned: &'a PathSet) -> (walk: Walk<'a, P>)
        requires
            depth < usize::MAX,
        ensures
            walk.well_formed(),
            walk@ == (WalkState {
                scanned: scanned@,
                base: depth as nat,
                levels: Seq::empty(),
                stage: Stage::Visit(target),
                totals: nothing(),
            }),
    {
        let walk = Walk {
            scanned,
            base_depth: depth,
            frames: Vec::new(),
            phase: Phase::Visit(target),
            stats: ScanStats { total_size: 0, total_files: 0, total_dirs: 0 },
        };
        assert(walk@.levels =~= Seq::empty());
        walk
    }

    /// What is to be found out next.
    pub fn request(&self) -> (request: Request<'_, P>)
        requires
            self.well_formed(),
        ensures
            match self@.stage {
                Stage::Visit(t) => request == if self@.scanned.contains(t.path@) {
                    Request::Known(&t)
                } else {
                    Request::Inspect(&t)
                },
                Stage::FanOut { children, .. } => {
                    &&& request is Measure
                    &&& request->children@ == children
                    &&& request->depth == self@.depth() + 1
                },
                Stage::Finished(size) => request is Done && request->Done_0 == size,
            },
    {
        match &self.phase {
            Phase::Visit(t) => if self.scanned.contains(t.path.as_str()) {
                Request::Known(t)
            } else {
                Request::Inspect(t)
            },
            Phase::FanOut { children, .. } => Request::Measure {
                children,
                depth: self.base_depth + self.frames.len() + 1,
            },
            Phase::Finished(size) => Request::Done(*size),
        }
    }

    /// The totals so far.
    pub fn stats(&self) -> (stats: ScanStats)
        ensures
            totals_in(stats) == self@.totals,
    {
        self.stats
    }

    /// Whether the walk can take this reply now.
    pub fn accepts(&self, reply: &Reply<P>) -> (b: bool)
        requires
            self.well_formed(),
        ensures
            b == acceptable(self@, reply@),
    {
        match &self.phase {
            Phase::Visit(_) => match reply {
                Reply::Skipped => true,
                Reply::File { len, .. } => u64::MAX - self.stats.total_size >= *len
                    && self.stats.total_files < u64::MAX,
                Reply::Directory { .. } => self.stats.total_dirs < u64::MAX && self.base_depth
                    + self.frames.len() < usize::MAX - 1,
                Reply::Measured { .. } => false,
            },
            Phase::FanOut { .. } => match reply {
                Reply::Measured { sizes, stats } => {
                    match add_up(sizes) {
                        Some(sum) => sum <= stats.total_size && u64::MAX - self.stats.total_size
                            >= stats.total_size && u64::MAX - self.stats.total_files
                            >= stats.total_files && u64::MAX - self.stats.total_dirs
                            >= stats.total_dirs,
                        None => false,
                    }
                },
                _ => false,
            },
            Phase::Finished(_) => false,
        }
    }

    /// Takes a reply in: the walk after it, and what is to be made known.
    pub fn advance(self, reply: Reply<P>) -> (r: (Walk<'a, P>, Vec<Effect>))
        requires
            self.well_formed(),
            acceptable(self@, reply@),
        ensures
            r.0.well_formed(),
            (r.0@, r.1@) == self@.step(reply@),
    {
        let ghost start = self@;
        let mut walk = self;
        let mut effects: Vec<Effect> = Vec::new();
        let depth: usize = walk.base_depth + walk.frames.len();
        match walk.phase {
            Phase::Visit(target) => {
                if walk.scanned.contains(target.path.as_str()) {
                    walk.phase = settle(walk.base_depth, &mut walk.frames, 0, &mut effects);
                } else {
                    match reply {
                        Reply::File { len, modified } => {
                            walk.stats.total_files = walk.stats.total_files + 1;
                            walk.stats.total_size = walk.stats.total_size + len;
                            effects.push(
                                Effect::Found(
                                    make_entry(target, len, false, change_instant(modified), depth),
                                ),
                            );
                            walk.phase =
                            settle(walk.base_depth, &mut walk.frames, len, &mut effects);
                        },
                        Reply::Directory { modified, children } => {
                            walk.stats.total_dirs = walk.stats.total_dirs + 1;
                            let modified_at = change_instant(modified);
                            match children {
                                None => {
                                    effects.push(
                                        Effect::Found(
                                            make_entry(target, 0, true, modified_at, depth),
                                        ),
                                    );
                                    walk.phase =
                                    settle(walk.base_depth, &mut walk.frames, 0, &mut effects);
                                },
                                Some(children) => {
                                    let ghost listed = children@;
                                    let total: usize = children.len();
                                    effects.push(
                                        Effect::Entered { path: target.path.clone(), total },
                                    );
                                    if total > FAN_OUT_ABOVE {
                                        effects.push(Effect::Forked);
                                        walk.phase = Phase::FanOut { target, modified_at, children };
                                    } else if total == 0 {
                                        effects.push(Effect::Left { path: target.path.clone() });
                                        effects.push(
                                            Effect::Found(
                                                make_entry(target, 0, true, modified_at, depth),
                                            ),
                                        );
                                        walk.phase =
                                        settle(walk.base_depth, &mut walk.frames, 0, &mut effects);
                                    } else {
                                        let mut pending = last_first(children);
                                        let first = pending.pop();
                                        match first {
                                            Some(first) => {
                                                let ghost outer = walk.frames@;
                                                let frame = Frame {
                                                    target,
                                                    modified_at,
                                                    pending,
                                                    done: 0,
                                                    size: 0,
                                                };
                                                walk.frames.push(frame);
                                                walk.phase = Phase::Visit(first);
                                                proof {
                                                    assert(pending@.reverse() =~= listed.skip(1));
                                                    assert(first == listed[0]);
                                                    lemma_levels_push(outer, frame);
                                                    lemma_gathered_push(
                                                        levels_in(outer),
                                                        frame.level(),
                                                    );
                                                }
                                            },
                                            None => {
                                                walk.phase = Phase::Finished(0);
                                            },
                                        }
                                    }
                                },
                            }
                        },
                        _ => {
                            walk.phase = settle(walk.base_depth, &mut walk.frames, 0, &mut effects);
                        },
                    }
                }
            },
            Phase::FanOut { target, modified_at, .. } => {
                let mut sum: u64 = 0;
                match reply {
                    Reply::Measured { sizes, stats } => {
                        match add_up(&sizes) {
                            Some(s) => {
                                sum = s;
                            },
                            None => {},
                        }
                        walk.stats.total_size = walk.stats.total_size + stats.total_size;
                        walk.stats.total_files = walk.stats.total_files + stats.total_files;
                        walk.stats.total_dirs = walk.stats.total_dirs + stats.total_dirs;
                    },
                    _ => {},
                }
                effects.push(Effect::Joined);
                effects.push(Effect::Left { path: target.path.clone() });
                effects.push(Effect::Found(make_entry(target, sum, true, modified_at, depth)));
                walk.phase = settle(walk.base_depth, &mut walk.frames, sum, &mut effects);
            },
            Phase::Finished(size) => {
                walk.phase = Phase::Finished(size);
            },
        }
        proof {
            assert(walk@.levels =~= start.step(reply@).0.levels);
            assert(walk@.stage == start.step(reply@).0.stage);
            assert(walk@.totals == start.step(reply@).0.totals);
            assert(effects@ =~= start.step(reply@).1);
        }
        (walk, effects)
    }
}

fn last_first<P>(targets: Vec<Target<P>>) -> (r: Vec<Target<P>>)
    ensures
        r@ == targets@.reverse(),
{
    let ghost all = targets@;
    let mut rest = targets;
    let mut turned: Vec<Target<P>> = Vec::new();
    while rest.len() > 0
        invariant
            rest@.len() <= all.len(),
            rest@ == all.take(rest@.len() as int),
            turned@ == all.skip(rest@.len() as int).reverse(),
        decreases rest@.len(),
    {
        let ghost n = rest@.len() - 1;
        match rest.pop() {
            Some(t) => {
                turned.push(t);
            },
            None => {},
        }
        proof {
            assert(rest@ =~= all.take(n));
            assert(turned@ =~= all.skip(n).reverse());
        }
    }
    turned
}

} // verus!
