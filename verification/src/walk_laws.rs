//! What a walk over a whole tree comes to.
use vstd::prelude::*;

use crate::scanner::{FileEntry, ScanStats};
use crate::walk::{
    acceptable, change_time, closing, entry_for, nothing, plus, settled, sizes_of, sum_of, totals_in,
    totals_of, Answer, Effect, Level, Stage, Target, Totals, WalkState, FAN_OUT_ABOVE,
};

verus! {

/// What stands at a path.
pub ghost enum Node<P> {
    /// Nothing that can be looked at.
    Hidden,
    File { len: u64, modified: Option<i64> },
    /// A directory that cannot be read.
    Locked { modified: Option<i64> },
    Directory { modified: Option<i64>, children: Seq<(Target<P>, Node<P>)> },
}

/// The targets among the entries of a directory.
pub open spec fn targets<P>(children: Seq<(Target<P>, Node<P>)>) -> Seq<Target<P>> {
    children.map_values(|c: (Target<P>, Node<P>)| c.0)
}

/// The size of what stands at `t`, where it was not scanned before.
pub open spec fn size_at<P>(scanned: Set<Seq<char>>, t: Target<P>, node: Node<P>) -> nat
    decreases node, 0nat,
{
    if scanned.contains(t.path@) {
        0
    } else {
        match node {
            Node::Hidden => 0,
            Node::File { len, .. } => len as nat,
            Node::Locked { .. } => 0,
            Node::Directory { children, .. } => size_from(scanned, children, 0),
        }
    }
}

/// The sizes of the entries from the `k`th on, together.
pub open spec fn size_from<P>(
    scanned: Set<Seq<char>>,
    children: Seq<(Target<P>, Node<P>)>,
    k: nat,
) -> nat
    decreases children, children.len() - k,
{
    if k >= children.len() {
        0
    } else {
        size_at(scanned, children[k as int].0, children[k as int].1) + size_from(
            scanned,
            children,
            k + 1,
        )
    }
}

/// What is counted at `t` and below.
pub open spec fn totals_at<P>(scanned: Set<Seq<char>>, t: Target<P>, node: Node<P>) -> Totals
    decreases node, 0nat,
{
    if scanned.contains(t.path@) {
        nothing()
    } else {
        match node {
            Node::Hidden => nothing(),
            Node::File { len, .. } => Totals { size: len as nat, files: 1, dirs: 0 },
            Node::Locked { .. } => Totals { size: 0, files: 0, dirs: 1 },
            Node::Directory { children, .. } => plus(
                Totals { size: 0, files: 0, dirs: 1 },
                totals_from(scanned, children, 0),
            ),
        }
    }
}

/// What is counted in the entries from the `k`th on.
pub open spec fn totals_from<P>(
    scanned: Set<Seq<char>>,
    children: Seq<(Target<P>, Node<P>)>,
    k: nat,
) -> Totals
    decreases children, children.len() - k,
{
    if k >= children.len() {
        nothing()
    } else {
        plus(
            totals_at(scanned, children[k as int].0, children[k as int].1),
            totals_from(scanned, children, k + 1),
        )
    }
}

/// The sizes of the entries of a directory.
pub open spec fn child_sizes<P>(
    scanned: Set<Seq<char>>,
    children: Seq<(Target<P>, Node<P>)>,
) -> Seq<u64> {
    Seq::new(
        children.len(),
        |i: int| size_at(scanned, children[i].0, children[i].1) as u64,
    )
}

/// The answers that a driver gives who finds `node` at `t`. The entries of a crowded directory are
/// measured by walks of their own.
pub open spec fn answers_at<P>(scanned: Set<Seq<char>>, t: Target<P>, node: Node<P>) -> Seq<
    Answer<P>,
>
    decreases node, 0nat,
{
    if scanned.contains(t.path@) {
        seq![Answer::Skipped]
    } else {
        match node {
            Node::Hidden => seq![Answer::Skipped],
            Node::File { len, modified } => seq![Answer::File { len, modified }],
            Node::Locked { modified } => seq![Answer::Directory { modified, children: None }],
            Node::Directory { modified, children } => {
                let listed = seq![
                    Answer::Directory { modified, children: Some(targets(children)) },
                ];
                if children.len() > FAN_OUT_ABOVE {
                    listed.push(
                        Answer::Measured {
                            sizes: child_sizes(scanned, children),
                            stats: totals_from(scanned, children, 0),
                        },
                    )
                } else {
                    listed + answers_from(scanned, children, 0)
                }
            },
        }
    }
}

/// The answers for the entries from the `k`th on.
pub open spec fn answers_from<P>(
    scanned: Set<Seq<char>>,
    children: Seq<(Target<P>, Node<P>)>,
    k: nat,
) -> Seq<Answer<P>>
    decreases children, children.len() - k,
{
    if k >= children.len() {
        Seq::empty()
    } else {
        answers_at(scanned, children[k as int].0, children[k as int].1) + answers_from(
            scanned,
            children,
            k + 1,
        )
    }
}

/// What is made known of `t` and all below it: each directory after what it holds.
pub open spec fn effects_at<P>(
    scanned: Set<Seq<char>>,
    t: Target<P>,
    node: Node<P>,
    depth: nat,
) -> Seq<Effect>
    decreases node, 0nat,
{
    if scanned.contains(t.path@) {
        Seq::empty()
    } else {
        match node {
            Node::Hidden => Seq::empty(),
            Node::File { len, modified } => seq![
                Effect::Found(entry_for(t, len as nat, false, change_time(modified), depth)),
            ],
            Node::Locked { modified } => seq![
                Effect::Found(entry_for(t, 0, true, change_time(modified), depth)),
            ],
            Node::Directory { modified, children } => {
                let entered = seq![
                    Effect::Entered { path: t.path, total: children.len() as usize },
                ];
                let left = closing(
                    t,
                    size_from(scanned, children, 0),
                    change_time(modified),
                    depth,
                );
                if children.len() > FAN_OUT_ABOVE {
                    entered + seq![Effect::Forked] + seq![Effect::Joined] + left
                } else {
                    entered + effects_from(scanned, t, children, depth, 0) + left
                }
            },
        }
    }
}

/// What is made known of the entries of `t` from the `k`th on.
pub open spec fn effects_from<P>(
    scanned: Set<Seq<char>>,
    t: Target<P>,
    children: Seq<(Target<P>, Node<P>)>,
    depth: nat,
    k: nat,
) -> Seq<Effect>
    decreases children, children.len() - k,
{
    if k >= children.len() {
        Seq::empty()
    } else {
        effects_at(scanned, children[k as int].0, children[k as int].1, depth + 1) + seq![
            Effect::Advanced { path: t.path, done: (k + 1) as usize },
        ] + effects_from(scanned, t, children, depth, k + 1)
    }
}

/// The walk after a run of answers, and all that was made known.
pub open spec fn run<P>(state: WalkState<P>, answers: Seq<Answer<P>>) -> (
    WalkState<P>,
    Seq<Effect>,
)
    decreases answers.len(),
{
    if answers.len() == 0 {
        (state, Seq::empty())
    } else {
        let (next, first) = state.step(answers[0]);
        let (end, rest) = run(next, answers.skip(1));
        (end, first + rest)
    }
}

proof fn lemma_run_one<P>(state: WalkState<P>, answer: Answer<P>)
    ensures
        run(state, seq![answer]) == state.step(answer),
{
    let (next, first) = state.step(answer);
    assert(seq![answer].skip(1) =~= Seq::<Answer<P>>::empty());
    assert(run(next, seq![answer].skip(1)) == (next, Seq::<Effect>::empty()));
    assert(first + Seq::<Effect>::empty() =~= first);
}

proof fn lemma_run_split<P>(state: WalkState<P>, a: Seq<Answer<P>>, b: Seq<Answer<P>>)
    ensures
        run(state, a + b).0 == run(run(state, a).0, b).0,
        run(state, a + b).1 == run(state, a).1 + run(run(state, a).0, b).1,
    decreases a.len(),
{
    if a.len() == 0 {
        assert(a + b =~= b);
        assert(Seq::<Effect>::empty() + run(state, b).1 =~= run(state, b).1);
    } else {
        let (next, first) = state.step(a[0]);
        assert((a + b)[0] == a[0]);
        assert((a + b).skip(1) =~= a.skip(1) + b);
        lemma_run_split(next, a.skip(1), b);
        let (mid, e1) = run(next, a.skip(1));
        let (end, e2) = run(mid, b);
        assert(first + (e1 + e2) =~= (first + e1) + e2);
    }
}

/// The size of what stands at a path is what is counted there and below.
pub proof fn law_size_is_counted<P>(scanned: Set<Seq<char>>, t: Target<P>, node: Node<P>)
    ensures
        size_at(scanned, t, node) == totals_at(scanned, t, node).size,
    decreases node, 0nat,
{
    if let Node::Directory { children, .. } = node {
        lemma_size_from_counted(scanned, children, 0);
    }
}

proof fn lemma_size_from_counted<P>(
    scanned: Set<Seq<char>>,
    children: Seq<(Target<P>, Node<P>)>,
    k: nat,
)
    ensures
        size_from(scanned, children, k) == totals_from(scanned, children, k).size,
    decreases children, children.len() - k,
{
    if k < children.len() {
        law_size_is_counted(scanned, children[k as int].0, children[k as int].1);
        lemma_size_from_counted(scanned, children, k + 1);
    }
}

proof fn lemma_sum_of_children<P>(
    scanned: Set<Seq<char>>,
    children: Seq<(Target<P>, Node<P>)>,
    k: nat,
)
    requires
        k <= children.len(),
        size_from(scanned, children, 0) <= u64::MAX,
    ensures
        sum_of(child_sizes(scanned, children).take(k as int)) + size_from(scanned, children, k)
            == size_from(scanned, children, 0),
    decreases k,
{
    let sizes = child_sizes(scanned, children);
    if k == 0 {
        assert(sizes.take(0) =~= Seq::empty());
    } else {
        lemma_sum_of_children(scanned, children, (k - 1) as nat);
        assert(sizes.take(k as int).drop_last() =~= sizes.take(k - 1));
        let one = size_at(scanned, children[k - 1].0, children[k - 1].1);
        assert(size_from(scanned, children, (k - 1) as nat) == one + size_from(
            scanned,
            children,
            k,
        ));
        assert(sizes.take(k as int).last() == one as u64);
    }
}

/// Walking what stands at `t` comes to its size, counts what is there, and makes everything known
/// in order; then the walk goes on where it was.
pub proof fn lemma_walk<P>(state: WalkState<P>, t: Target<P>, node: Node<P>)
    requires
        state.stage == Stage::Visit(t),
        totals_at(state.scanned, t, node).size <= u64::MAX,
    ensures
        run(state, answers_at(state.scanned, t, node)) == state.after(
            effects_at(state.scanned, t, node, state.depth()),
            size_at(state.scanned, t, node),
            totals_at(state.scanned, t, node),
        ),
    decreases node, 0nat,
{
    let scanned = state.scanned;
    let answers = answers_at(scanned, t, node);
    let none = Seq::<Effect>::empty();
    if scanned.contains(t.path@) || !(node is Directory) {
        lemma_run_one(state, answers[0]);
        assert(answers =~= seq![answers[0]]);
    } else if let Node::Directory { modified, children } = node {
        let list = targets(children);
        let listed = Answer::Directory { modified, children: Some(list) };
        let (next, first) = state.step(listed);
        let size = size_from(scanned, children, 0);
        let when = change_time(modified);
        let depth = state.depth();
        let entered = Effect::Entered { path: t.path, total: children.len() as usize };
        lemma_size_from_counted(scanned, children, 0);
        if children.len() > FAN_OUT_ABOVE {
            let measured = Answer::Measured {
                sizes: child_sizes(scanned, children),
                stats: totals_from(scanned, children, 0),
            };
            assert(answers =~= seq![listed] + seq![measured]);
            lemma_run_split(state, seq![listed], seq![measured]);
            lemma_run_one(state, listed);
            lemma_run_one(next, measured);
            lemma_sum_of_children(scanned, children, children.len());
            assert(child_sizes(scanned, children).take(children.len() as int) =~= child_sizes(
                scanned,
                children,
            ));
            let tail = settled(state.base, state.levels, size).2;
            assert(first =~= seq![entered, Effect::Forked]);
            assert(run(state, answers).1 =~= effects_at(scanned, t, node, depth) + tail);
            assert(run(state, answers).0.totals =~= plus(
                state.totals,
                totals_at(scanned, t, node),
            ));
        } else if children.len() == 0 {
            assert(answers =~= seq![listed]);
            lemma_run_one(state, listed);
            assert(effects_at(scanned, t, node, depth) =~= seq![entered] + closing(
                t,
                0,
                when,
                depth,
            ));
        } else {
            let rest = answers_from(scanned, children, 0);
            lemma_run_split(state, seq![listed], rest);
            lemma_run_one(state, listed);
            let level = Level { target: t, modified_at: when, pending: list.skip(1), done: 0, size: 0 };
            assert(next.levels =~= state.levels.push(level));
            assert(next.levels.drop_last() =~= state.levels);
            assert(list[0] == children[0].0);
            lemma_walk_from(next, state.levels, t, when, children, 0);
            let tail = settled(state.base, state.levels, size).2;
            let inner = effects_from(scanned, t, children, depth, 0);
            let left = closing(t, size, when, depth);
            assert(run(state, answers).1 =~= seq![entered] + inner + left + tail);
            assert(run(state, answers).0.totals =~= plus(
                state.totals,
                totals_at(scanned, t, node),
            ));
        }
    }
}

proof fn lemma_walk_from<P>(
    state: WalkState<P>,
    outer: Seq<Level<P>>,
    t: Target<P>,
    when: Option<crate::time::Timestamp>,
    children: Seq<(Target<P>, Node<P>)>,
    k: nat,
)
    requires
        k < children.len(),
        state.stage == Stage::Visit(children[k as int].0),
        state.levels.len() == outer.len() + 1,
        state.levels.drop_last() == outer,
        state.levels.last().target == t,
        state.levels.last().modified_at == when,
        state.levels.last().pending == targets(children).skip(k as int + 1),
        state.levels.last().done == k,
        state.levels.last().size + size_from(state.scanned, children, k) <= u64::MAX,
    ensures
        ({
            let size = state.levels.last().size + size_from(state.scanned, children, k);
            let (levels, stage, tail) = settled(state.base, outer, size);
            let depth = state.base + outer.len();
            &&& run(state, answers_from(state.scanned, children, k)).0 == (WalkState {
                levels,
                stage,
                totals: plus(state.totals, totals_from(state.scanned, children, k)),
                ..state
            })
            &&& run(state, answers_from(state.scanned, children, k)).1 == effects_from(
                state.scanned,
                t,
                children,
                depth,
                k,
            ) + closing(t, size, when, depth) + tail
        }),
    decreases children, children.len() - k,
{
    let scanned = state.scanned;
    let child = children[k as int];
    let here = answers_at(scanned, child.0, child.1);
    let rest = answers_from(scanned, children, k + 1);
    let depth = state.base + outer.len();
    let top = state.levels.last();
    let grown = size_at(scanned, child.0, child.1);
    let size = top.size + size_from(scanned, children, k);
    law_size_is_counted(scanned, child.0, child.1);
    lemma_walk(state, child.0, child.1);
    lemma_run_split(state, here, rest);
    let (mid, known) = run(state, here);
    let progress = Effect::Advanced { path: t.path, done: (k + 1) as usize };
    let at_child = effects_at(scanned, child.0, child.1, depth + 1);
    let list = targets(children);
    if k + 1 < children.len() {
        assert(top.pending[0] == children[k as int + 1].0);
        assert(top.pending.skip(1) =~= list.skip(k as int + 2));
        assert(mid.levels.drop_last() =~= outer);
        assert(known =~= at_child + seq![progress]);
        lemma_walk_from(mid, outer, t, when, children, k + 1);
        let (levels, stage, tail) = settled(state.base, outer, size);
        let later = effects_from(scanned, t, children, depth, k + 1);
        assert(run(mid, rest).1 =~= later + closing(t, size, when, depth) + tail);
        assert(run(state, here + rest).1 =~= at_child + seq![progress] + later + closing(
            t,
            size,
            when,
            depth,
        ) + tail);
        assert(run(state, here + rest).0.totals =~= plus(
            state.totals,
            totals_from(scanned, children, k),
        ));
    } else {
        assert(top.pending.len() == 0);
        assert(rest.len() == 0);
        assert(size_from(scanned, children, k + 1) == 0);
        assert(size == top.size + grown);
        let (levels, stage, tail) = settled(state.base, outer, size);
        assert(settled(state.base, state.levels, grown).2 =~= seq![progress] + closing(
            t,
            size,
            when,
            depth,
        ) + tail);
        assert(known =~= at_child + (seq![progress] + closing(t, size, when, depth) + tail));
        assert(effects_from(scanned, t, children, depth, k + 1) =~= Seq::empty());
        assert(run(state, here + rest).1 =~= effects_from(scanned, t, children, depth, k) + closing(
            t,
            size,
            when,
            depth,
        ) + tail);
        assert(totals_from(scanned, children, k + 1) == nothing());
        assert(mid.totals == plus(state.totals, totals_at(scanned, child.0, child.1)));
        assert(run(state, here + rest).0.totals =~= plus(
            state.totals,
            totals_from(scanned, children, k),
        ));
    }
}

/// A walk over a whole tree ends with the root's size, which is the length of all files in it
/// that were not scanned before, and with the totals of what it passed; every file and every
/// directory is made known once, a directory after what it holds.
pub proof fn law_walk<P>(scanned: Set<Seq<char>>, t: Target<P>, node: Node<P>, depth: nat)
    requires
        totals_at(scanned, t, node).size <= u64::MAX,
    ensures
        ({
            let start = WalkState {
                scanned,
                base: depth,
                levels: Seq::empty(),
                stage: Stage::Visit(t),
                totals: nothing(),
            };
            let (end, known) = run(start, answers_at(scanned, t, node));
            &&& end.stage == Stage::<P>::Finished(size_at(scanned, t, node))
            &&& end.totals == totals_at(scanned, t, node)
            &&& size_at(scanned, t, node) == totals_at(scanned, t, node).size
            &&& known == effects_at(scanned, t, node, depth)
        }),
{
    let start = WalkState {
        scanned,
        base: depth,
        levels: Seq::<Level<P>>::empty(),
        stage: Stage::Visit(t),
        totals: nothing(),
    };
    lemma_walk(start, t, node);
    law_size_is_counted(scanned, t, node);
    let known = effects_at(scanned, t, node, depth);
    assert(known + Seq::<Effect>::empty() =~= known);
}

proof fn lemma_parts_add_up<P>(
    scanned: Set<Seq<char>>,
    children: Seq<(Target<P>, Node<P>)>,
    parts: Seq<(u64, ScanStats)>,
    k: nat,
)
    requires
        k <= parts.len(),
        parts.len() == children.len(),
        forall|i: int|
            0 <= i < parts.len() ==> totals_in((#[trigger] parts[i]).1) == totals_at(
                scanned,
                children[i].0,
                children[i].1,
            ),
    ensures
        plus(totals_of(parts.take(k as int)), totals_from(scanned, children, k)) == totals_from(
            scanned,
            children,
            0,
        ),
    decreases k,
{
    if k == 0 {
        assert(parts.take(0) =~= Seq::empty());
    } else {
        lemma_parts_add_up(scanned, children, parts, (k - 1) as nat);
        assert(parts.take(k as int).drop_last() =~= parts.take(k - 1));
        assert(parts.take(k as int).last() == parts[k - 1]);
    }
}

/// Walking the entries of a crowded directory one by one, side by side, gives the answer that the
/// walk over the directory waits for.
pub proof fn law_entries_walked_apart<P>(
    scanned: Set<Seq<char>>,
    children: Seq<(Target<P>, Node<P>)>,
    parts: Seq<(u64, ScanStats)>,
)
    requires
        parts.len() == children.len(),
        forall|i: int|
            0 <= i < parts.len() ==> {
                &&& (#[trigger] parts[i]).0 == size_at(scanned, children[i].0, children[i].1)
                &&& totals_in(parts[i].1) == totals_at(scanned, children[i].0, children[i].1)
            },
    ensures
        sizes_of(parts) == child_sizes(scanned, children),
        totals_of(parts) == totals_from(scanned, children, 0),
{
    lemma_parts_add_up(scanned, children, parts, parts.len());
    assert(parts.take(parts.len() as int) =~= parts);
    assert(sizes_of(parts) =~= child_sizes(scanned, children));
}

/// How many files and directories are made known.
pub open spec fn found_in(effects: Seq<Effect>) -> nat
    decreases effects.len(),
{
    if effects.len() == 0 {
        0
    } else {
        found_in(effects.drop_last()) + if effects.last() is Found {
            1nat
        } else {
            0
        }
    }
}

/// How many entries are made known by the walks that are started below `t` for the entries of
/// crowded directories.
pub open spec fn found_apart<P>(scanned: Set<Seq<char>>, t: Target<P>, node: Node<P>, depth: nat) -> nat
    decreases node, 0nat,
{
    match node {
        Node::Directory { children, .. } => if scanned.contains(t.path@) {
            0
        } else {
            found_apart_from(scanned, children, depth, 0)
        },
        _ => 0,
    }
}

/// The same for the entries of a directory from the `k`th on.
pub open spec fn found_apart_from<P>(
    scanned: Set<Seq<char>>,
    children: Seq<(Target<P>, Node<P>)>,
    depth: nat,
    k: nat,
) -> nat
    decreases children, children.len() - k,
{
    if k >= children.len() {
        0
    } else {
        let child = children[k as int];
        let own = if children.len() > FAN_OUT_ABOVE {
            found_in(effects_at(scanned, child.0, child.1, depth + 1))
        } else {
            0
        };
        own + found_apart(scanned, child.0, child.1, depth + 1) + found_apart_from(
            scanned,
            children,
            depth,
            k + 1,
        )
    }
}

proof fn lemma_found_in_sum(a: Seq<Effect>, b: Seq<Effect>)
    ensures
        found_in(a + b) == found_in(a) + found_in(b),
    decreases b.len(),
{
    if b.len() == 0 {
        assert(a + b =~= a);
    } else {
        lemma_found_in_sum(a, b.drop_last());
        assert((a + b).drop_last() =~= a + b.drop_last());
    }
}

proof fn lemma_found_in_one(e: Effect)
    ensures
        found_in(seq![e]) == if e is Found {
            1nat
        } else {
            0
        },
{
    assert(seq![e].drop_last() =~= Seq::<Effect>::empty());
    assert(found_in(Seq::<Effect>::empty()) == 0);
}

/// As many entries are made known as files and directories are counted.
pub proof fn law_every_entry_once<P>(
    scanned: Set<Seq<char>>,
    t: Target<P>,
    node: Node<P>,
    depth: nat,
)
    ensures
        found_in(effects_at(scanned, t, node, depth)) + found_apart(scanned, t, node, depth)
            == totals_at(scanned, t, node).files + totals_at(scanned, t, node).dirs,
    decreases node, 0nat,
{
    let known = effects_at(scanned, t, node, depth);
    if scanned.contains(t.path@) {
    } else {
        match node {
            Node::Hidden => {},
            Node::File { .. } => {
                lemma_found_in_one(known[0]);
                assert(known =~= seq![known[0]]);
            },
            Node::Locked { .. } => {
                lemma_found_in_one(known[0]);
                assert(known =~= seq![known[0]]);
            },
            Node::Directory { modified, children } => {
                let entered = Effect::Entered { path: t.path, total: children.len() as usize };
                let size = size_from(scanned, children, 0);
                let left = closing(t, size, change_time(modified), depth);
                lemma_found_in_one(entered);
                lemma_found_in_one(left[0]);
                lemma_found_in_one(left[1]);
                assert(left =~= seq![left[0]] + seq![left[1]]);
                lemma_found_in_sum(seq![left[0]], seq![left[1]]);
                lemma_entries_once_from(scanned, t, children, depth, 0);
                if children.len() > FAN_OUT_ABOVE {
                    lemma_found_in_one(Effect::Forked);
                    lemma_found_in_one(Effect::Joined);
                    lemma_found_in_sum(seq![entered], seq![Effect::Forked]);
                    lemma_found_in_sum(seq![entered] + seq![Effect::Forked], seq![Effect::Joined]);
                    lemma_found_in_sum(
                        seq![entered] + seq![Effect::Forked] + seq![Effect::Joined],
                        left,
                    );
                } else {
                    let inner = effects_from(scanned, t, children, depth, 0);
                    lemma_found_in_sum(seq![entered], inner);
                    lemma_found_in_sum(seq![entered] + inner, left);
                }
            },
        }
    }
}

proof fn lemma_entries_once_from<P>(
    scanned: Set<Seq<char>>,
    t: Target<P>,
    children: Seq<(Target<P>, Node<P>)>,
    depth: nat,
    k: nat,
)
    ensures
        found_apart_from(scanned, children, depth, k) + (if children.len() > FAN_OUT_ABOVE {
            0
        } else {
            found_in(effects_from(scanned, t, children, depth, k))
        }) == totals_from(scanned, children, k).files + totals_from(scanned, children, k).dirs,
    decreases children, children.len() - k,
{
    if k < children.len() {
        let child = children[k as int];
        law_every_entry_once(scanned, child.0, child.1, depth + 1);
        lemma_entries_once_from(scanned, t, children, depth, k + 1);
        let here = effects_at(scanned, child.0, child.1, depth + 1);
        let progress = Effect::Advanced { path: t.path, done: (k + 1) as usize };
        let rest = effects_from(scanned, t, children, depth, k + 1);
        lemma_found_in_one(progress);
        lemma_found_in_sum(here, seq![progress]);
        lemma_found_in_sum(here + seq![progress], rest);
    }
}

/// None of the directories that the walk is inside of was scanned before.
pub open spec fn inside_new<P>(state: WalkState<P>) -> bool {
    &&& forall|i: int|
        0 <= i < state.levels.len() ==> !state.scanned.contains(
            (#[trigger] state.levels[i]).target.path@,
        )
    &&& match state.stage {
        Stage::FanOut { target, .. } => !state.scanned.contains(target.path@),
        _ => true,
    }
}

/// None of what is made known was scanned before.
pub open spec fn finds_new(scanned: Set<Seq<char>>, effects: Seq<Effect>) -> bool {
    forall|i: int|
        0 <= i < effects.len() && (#[trigger] effects[i]) is Found ==> !scanned.contains(
            effects[i]->Found_0.path@,
        )
}

proof fn lemma_settled_new<P>(
    scanned: Set<Seq<char>>,
    base: nat,
    levels: Seq<Level<P>>,
    size: nat,
)
    requires
        forall|i: int|
            0 <= i < levels.len() ==> !scanned.contains((#[trigger] levels[i]).target.path@),
    ensures
        ({
            let (rest, stage, effects) = settled(base, levels, size);
            &&& forall|i: int|
                0 <= i < rest.len() ==> !scanned.contains((#[trigger] rest[i]).target.path@)
            &&& !(stage is FanOut)
            &&& finds_new(scanned, effects)
        }),
    decreases levels.len(),
{
    if levels.len() > 0 {
        let top = levels.last();
        let outer = levels.drop_last();
        assert(!scanned.contains(levels[levels.len() - 1].target.path@));
        assert forall|i: int| 0 <= i < outer.len() implies !scanned.contains(
            (#[trigger] outer[i]).target.path@,
        ) by {
            assert(outer[i] == levels[i]);
        }
        if top.pending.len() == 0 {
            lemma_settled_new(scanned, base, outer, top.size + size);
            let inner = settled(base, outer, top.size + size).2;
            let all = settled(base, levels, size).2;
            assert forall|i: int|
                0 <= i < all.len() && (#[trigger] all[i]) is Found implies !scanned.contains(
                all[i]->Found_0.path@,
            ) by {
                if i >= 3 {
                    assert(all[i] == inner[i - 3]);
                }
            }
        }
    }
}

/// Whatever the answers are, a walk makes nothing known that was scanned before.
pub proof fn law_scanned_passed_over<P>(state: WalkState<P>, answer: Answer<P>)
    requires
        inside_new(state),
    ensures
        inside_new(state.step(answer).0),
        state.step(answer).0.scanned == state.scanned,
        finds_new(state.scanned, state.step(answer).1),
{
    let scanned = state.scanned;
    let (next, effects) = state.step(answer);
    let zero = settled(state.base, state.levels, 0);
    lemma_settled_new(scanned, state.base, state.levels, 0);
    match state.stage {
        Stage::Visit(t) => {
            if !scanned.contains(t.path@) {
                match answer {
                    Answer::File { len, .. } => {
                        lemma_settled_new(scanned, state.base, state.levels, len as nat);
                        let tail = settled(state.base, state.levels, len as nat).2;
                        assert forall|i: int|
                            0 <= i < effects.len() && (#[trigger] effects[i]) is Found implies
                            !scanned.contains(effects[i]->Found_0.path@) by {
                            if i >= 1 {
                                assert(effects[i] == tail[i - 1]);
                            }
                        }
                    },
                    Answer::Directory { children: None, .. } => {
                        assert forall|i: int|
                            0 <= i < effects.len() && (#[trigger] effects[i]) is Found implies
                            !scanned.contains(effects[i]->Found_0.path@) by {
                            if i >= 1 {
                                assert(effects[i] == zero.2[i - 1]);
                            }
                        }
                    },
                    Answer::Directory { children: Some(children), .. } => {
                        if children.len() == 0 {
                            assert forall|i: int|
                                0 <= i < effects.len() && (#[trigger] effects[i]) is Found implies
                                !scanned.contains(effects[i]->Found_0.path@) by {
                                if i >= 3 {
                                    assert(effects[i] == zero.2[i - 3]);
                                }
                            }
                        }
                    },
                    _ => {
                        assert(effects =~= zero.2);
                    },
                }
            } else {
                assert(effects =~= zero.2);
            }
        },
        Stage::FanOut { .. } => {
            let size = match answer {
                Answer::Measured { sizes, .. } => sum_of(sizes),
                _ => 0,
            };
            lemma_settled_new(scanned, state.base, state.levels, size);
            let tail = settled(state.base, state.levels, size).2;
            assert forall|i: int|
                0 <= i < effects.len() && (#[trigger] effects[i]) is Found implies
                !scanned.contains(effects[i]->Found_0.path@) by {
                if i >= 3 {
                    assert(effects[i] == tail[i - 3]);
                }
            }
        },
        Stage::Finished(_) => {},
    }
}

/// What is said of a file or directory that is found.
pub ghost struct Said {
    pub path: Seq<char>,
    pub name: Seq<char>,
    /// The directory that it lies in.
    pub parent: Option<Seq<char>>,
    pub size: nat,
    pub is_dir: bool,
    /// When it was changed, in seconds and nanoseconds since 1970.
    pub changed: Option<(i64, u32)>,
    pub depth: nat,
}

/// Something that a walk makes known, with texts and numbers in place of what a machine holds.
pub ghost enum Event {
    Entered { path: Seq<char>, total: nat },
    Advanced { path: Seq<char>, done: nat },
    Left { path: Seq<char> },
    Forked,
    Joined,
    Found(Said),
}

/// What an entry says.
pub open spec fn said(e: FileEntry) -> Said {
    Said {
        path: e.path@,
        name: e.name@,
        parent: match e.parent_path {
            Some(p) => Some(p@),
            None => None,
        },
        size: e.size as nat,
        is_dir: e.is_dir,
        changed: match e.modified_at {
            Some(t) => Some((t.secs, t.nanos)),
            None => None,
        },
        depth: e.depth as nat,
    }
}

/// What an effect makes known.
pub open spec fn event_of(e: Effect) -> Event {
    match e {
        Effect::Entered { path, total } => Event::Entered { path: path@, total: total as nat },
        Effect::Advanced { path, done } => Event::Advanced { path: path@, done: done as nat },
        Effect::Left { path } => Event::Left { path: path@ },
        Effect::Forked => Event::Forked,
        Effect::Joined => Event::Joined,
        Effect::Found(e) => Event::Found(said(e)),
    }
}

/// What some effects make known, in order.
pub open spec fn told(effects: Seq<Effect>) -> Seq<Event> {
    effects.map_values(|e: Effect| event_of(e))
}

/// A time of change that was given in seconds, from the year -262143 to the year 262142.
pub open spec fn when_changed(modified: Option<i64>) -> Option<(i64, u32)> {
    match modified {
        Some(secs) => if -8_334_601_228_800 <= secs <= 8_210_266_876_799 {
            Some((secs, 0))
        } else {
            None
        },
        None => None,
    }
}

/// Every target in a tree names the directory that it stands in as its parent, and every count can
/// be held by a machine.
pub open spec fn in_place<P>(t: Target<P>, node: Node<P>, depth: nat) -> bool
    decreases node, 0nat,
{
    &&& depth <= usize::MAX
    &&& match node {
        Node::Directory { children, .. } => {
            &&& children.len() <= usize::MAX
            &&& in_place_from(t, children, 0, depth + 1)
        },
        _ => true,
    }
}

/// The same of the entries of the directory at `t` from the `k`th on.
pub open spec fn in_place_from<P>(
    t: Target<P>,
    children: Seq<(Target<P>, Node<P>)>,
    k: nat,
    depth: nat,
) -> bool
    decreases children, children.len() - k,
{
    if k >= children.len() {
        true
    } else {
        let c = children[k as int];
        &&& c.0.parent_path is Some
        &&& c.0.parent_path->0@ == t.path@
        &&& in_place(c.0, c.1, depth)
        &&& in_place_from(t, children, k + 1, depth)
    }
}

/// What is to be made known of what stands at `t`, `depth` deep in the directory `parent`, and of
/// all below it. A directory is entered, its entries are gone through in order, and then it is
/// left and known with the length of all files below it; a crowded one has its entries gone
/// through elsewhere. What was scanned before is passed over.
pub open spec fn events_at<P>(
    scanned: Set<Seq<char>>,
    t: Target<P>,
    node: Node<P>,
    depth: nat,
    parent: Option<Seq<char>>,
) -> Seq<Event>
    decreases node, 0nat,
{
    let own = Said {
        path: t.path@,
        name: t.name@,
        parent,
        size: 0,
        is_dir: true,
        changed: None,
        depth,
    };
    if scanned.contains(t.path@) {
        Seq::empty()
    } else {
        match node {
            Node::Hidden => Seq::empty(),
            Node::File { len, modified } => seq![
                Event::Found(
                    Said {
                        size: len as nat,
                        is_dir: false,
                        changed: when_changed(modified),
                        ..own
                    },
                ),
            ],
            Node::Locked { modified } => seq![
                Event::Found(Said { changed: when_changed(modified), ..own }),
            ],
            Node::Directory { modified, children } => {
                let inner = if children.len() > 100 {
                    seq![Event::Forked, Event::Joined]
                } else {
                    events_from(scanned, t, children, 0, depth + 1)
                };
                seq![Event::Entered { path: t.path@, total: children.len() }] + inner + seq![
                    Event::Left { path: t.path@ },
                    Event::Found(
                        Said {
                            size: size_from(scanned, children, 0),
                            changed: when_changed(modified),
                            ..own
                        },
                    ),
                ]
            },
        }
    }
}

/// The same of the entries of the directory at `t` from the `k`th on, with how many are done after
/// each.
pub open spec fn events_from<P>(
    scanned: Set<Seq<char>>,
    t: Target<P>,
    children: Seq<(Target<P>, Node<P>)>,
    k: nat,
    depth: nat,
) -> Seq<Event>
    decreases children, children.len() - k,
{
    if k >= children.len() {
        Seq::empty()
    } else {
        events_at(
            scanned,
            children[k as int].0,
            children[k as int].1,
            depth,
            Some(t.path@),
        ) + seq![Event::Advanced { path: t.path@, done: k + 1 }] + events_from(
            scanned,
            t,
            children,
            k + 1,
            depth,
        )
    }
}

proof fn lemma_told_sum(a: Seq<Effect>, b: Seq<Effect>)
    ensures
        told(a + b) == told(a) + told(b),
{
    assert(told(a + b) =~= told(a) + told(b));
}

proof fn lemma_told_at<P>(
    scanned: Set<Seq<char>>,
    t: Target<P>,
    node: Node<P>,
    depth: nat,
    parent: Option<Seq<char>>,
)
    requires
        in_place(t, node, depth),
        size_at(scanned, t, node) <= u64::MAX,
        parent == if depth == 0 {
            None
        } else {
            match t.parent_path {
                Some(p) => Some(p@),
                None => None,
            }
        },
    ensures
        told(effects_at(scanned, t, node, depth)) == events_at(scanned, t, node, depth, parent),
    decreases node, 0nat,
{
    let known = effects_at(scanned, t, node, depth);
    let wanted = events_at(scanned, t, node, depth, parent);
    if !scanned.contains(t.path@) {
        if let Node::Directory { modified, children } = node {
            let size = size_from(scanned, children, 0);
            let left = closing(t, size, change_time(modified), depth);
            let entered = seq![Effect::Entered { path: t.path, total: children.len() as usize }];
            if children.len() > FAN_OUT_ABOVE {
                assert(told(known) =~= wanted);
            } else {
                let inner = effects_from(scanned, t, children, depth, 0);
                lemma_told_from(scanned, t, children, 0, depth);
                lemma_told_sum(entered, inner);
                lemma_told_sum(entered + inner, left);
                assert(told(known) =~= wanted);
            }
        } else {
            assert(told(known) =~= wanted);
        }
    } else {
        assert(told(known) =~= wanted);
    }
}

proof fn lemma_told_from<P>(
    scanned: Set<Seq<char>>,
    t: Target<P>,
    children: Seq<(Target<P>, Node<P>)>,
    k: nat,
    depth: nat,
)
    requires
        children.len() <= usize::MAX,
        in_place_from(t, children, k, depth + 1),
        size_from(scanned, children, k) <= u64::MAX,
    ensures
        told(effects_from(scanned, t, children, depth, k)) == events_from(
            scanned,
            t,
            children,
            k,
            depth + 1,
        ),
    decreases children, children.len() - k,
{
    if k < children.len() {
        let c = children[k as int];
        let here = effects_at(scanned, c.0, c.1, depth + 1);
        let step = seq![Effect::Advanced { path: t.path, done: (k + 1) as usize }];
        let rest = effects_from(scanned, t, children, depth, k + 1);
        lemma_told_at(scanned, c.0, c.1, depth + 1, Some(t.path@));
        lemma_told_from(scanned, t, children, k + 1, depth);
        lemma_told_sum(here, step);
        lemma_told_sum(here + step, rest);
        assert(told(step) =~= seq![Event::Advanced { path: t.path@, done: k + 1 }]);
    } else {
        assert(told(effects_from(scanned, t, children, depth, k)) =~= Seq::empty());
    }
}

/// A walk over a tree makes known what the tree holds, in order, and nothing else: every file and
/// directory with its path and name, the directory that it lies in, its size, its kind, when it
/// was changed and how deep it lies. The root of a scan lies in no directory, everything else in
/// the one that lists it; what was scanned before does not occur.
pub proof fn law_walk_tells_the_tree<P>(
    scanned: Set<Seq<char>>,
    t: Target<P>,
    node: Node<P>,
    depth: nat,
    parent: Option<Seq<char>>,
)
    requires
        totals_at(scanned, t, node).size <= u64::MAX,
        in_place(t, node, depth),
        depth == 0 ==> parent is None,
        depth > 0 ==> parent is Some && t.parent_path is Some && t.parent_path->0@ == parent->0,
    ensures
        told(
            run(
                WalkState {
                    scanned,
                    base: depth,
                    levels: Seq::empty(),
                    stage: Stage::Visit(t),
                    totals: nothing(),
                },
                answers_at(scanned, t, node),
            ).1,
        ) == events_at(scanned, t, node, depth, parent),
{
    law_walk(scanned, t, node, depth);
    lemma_told_at(scanned, t, node, depth, parent);
}

/// Whatever is found, at whatever place of a walk: the answer to a path that was not scanned before
/// makes an entry with that path and its name, and with the length and the time that were
/// answered. At depth zero it has no parent, everywhere else the one of its target.
pub proof fn law_answer_makes_entry<P>(state: WalkState<P>, t: Target<P>, answer: Answer<P>)
    requires
        state.stage == Stage::Visit(t),
        !state.scanned.contains(t.path@),
        state.base + state.levels.len() <= usize::MAX,
        answer is File || (answer is Directory && (answer->children is None
            || answer->children->0.len() == 0)),
    ensures
        ({
            let known = told(state.step(answer).1);
            let depth = state.base + state.levels.len();
            let found = Event::Found(
                Said {
                    path: t.path@,
                    name: t.name@,
                    parent: if depth > 0 && t.parent_path is Some {
                        Some(t.parent_path->0@)
                    } else {
                        None
                    },
                    size: match answer {
                        Answer::File { len, .. } => len as nat,
                        _ => 0,
                    },
                    is_dir: answer is Directory,
                    changed: when_changed(
                        match answer {
                            Answer::File { modified, .. } => modified,
                            Answer::Directory { modified, .. } => modified,
                            _ => None,
                        },
                    ),
                    depth,
                },
            );
            if answer is Directory && answer->children is Some {
                &&& known.len() >= 3
                &&& known[0] == (Event::Entered { path: t.path@, total: 0 })
                &&& known[1] == (Event::Left { path: t.path@ })
                &&& known[2] == found
            } else {
                known.len() >= 1 && known[0] == found
            }
        }),
{
}

/// A path that was scanned before is asked about for nothing: whatever the answer is, it counts for
/// nothing and makes no entry of that path.
pub proof fn law_known_path_counts_nothing<P>(state: WalkState<P>, t: Target<P>, answer: Answer<P>)
    requires
        state.stage == Stage::Visit(t),
        state.scanned.contains(t.path@),
        inside_new(state),
    ensures
        state.step(answer).0.totals == state.totals,
        forall|i: int|
            0 <= i < state.step(answer).1.len() && (#[trigger] state.step(answer).1[i]) is Found
                ==> state.step(answer).1[i]->Found_0.path@ != t.path@,
{
    law_scanned_passed_over(state, answer);
}

/// The entries of a directory are handed out where there are more than a hundred of them, and gone
/// through one by one where there are fewer.
pub proof fn law_crowded_above_hundred<P>(
    state: WalkState<P>,
    t: Target<P>,
    modified: Option<i64>,
    children: Seq<Target<P>>,
)
    requires
        state.stage == Stage::Visit(t),
        !state.scanned.contains(t.path@),
        children.len() > 0,
    ensures
        ({
            let (next, known) = state.step(Answer::Directory { modified, children: Some(children) });
            &&& next.totals == (Totals { dirs: state.totals.dirs + 1, ..state.totals })
            &&& children.len() > 100 ==> {
                &&& next.stage is FanOut
                &&& next.stage->children == children
                &&& known.len() == 2
                &&& known[1] == Effect::Forked
            }
            &&& children.len() <= 100 ==> {
                &&& next.stage == Stage::Visit(children[0])
                &&& next.levels.len() == state.levels.len() + 1
                &&& next.levels.last().pending == children.skip(1)
                &&& known.len() == 1
            }
        }),
{
}

/// A reply is taken wherever it answers what was asked and its counts can still be added; nothing
/// is taken at the end.
pub proof fn law_fitting_reply_is_taken<P>(state: WalkState<P>, answer: Answer<P>)
    ensures
        state.stage is Visit && answer is Skipped ==> acceptable(state, answer),
        state.stage is Visit && answer is File ==> (acceptable(state, answer) <==> state.totals.size
            + answer->len <= u64::MAX && state.totals.files + 1 <= u64::MAX),
        state.stage is Visit && answer is Directory ==> (acceptable(state, answer)
            <==> state.totals.dirs + 1 <= u64::MAX && state.base + state.levels.len() + 1
            < usize::MAX),
        state.stage is Visit && answer is Measured ==> !acceptable(state, answer),
        state.stage is FanOut && !(answer is Measured) ==> !acceptable(state, answer),
        state.stage is Finished ==> !acceptable(state, answer),
{
}

} // verus!
