//! The ways to scan a tree agree.
//!
//! A tree can be walked, or listed by a directory walker and measured from the list. Here a tree
//! is listed as a walker does it, each directory before what it holds, and what comes out of the
//! list is held against what comes out of the walk.
use vstd::multiset::Multiset;
use vstd::prelude::*;

use crate::scanner::{
    batches_of, entries_in, gathered_after, law_nothing_lost, unbatched, FileEntry, Gathered,
};
use crate::tally::{
    bytes_in, dirs_in, entry_of, files_in, law_parents_first, share, shares, shares_since, sound,
    times, Record,
};
use crate::text::texts;
use crate::walk::{
    change_time, closing, nothing, plus, Effect, Stage, Target, Totals, WalkState, FAN_OUT_ABOVE,
};
use crate::walk_laws::{
    answers_at, effects_at, effects_from, law_size_is_counted, law_walk, run, size_at, size_from,
    totals_at, totals_from, Node,
};

verus! {

/// A file or directory in a walker's list.
pub ghost struct Listed {
    pub key: Seq<char>,
    /// The keys of all directories above, the nearest first.
    pub above: Seq<Seq<char>>,
    pub path: Seq<char>,
    pub len: u64,
    pub is_dir: bool,
    pub depth: nat,
}

/// What a scan says of a file or directory.
pub ghost struct Fact {
    pub path: Seq<char>,
    pub size: nat,
    pub is_dir: bool,
    pub depth: nat,
}

/// What an entry says.
pub open spec fn fact_of(e: FileEntry) -> Fact {
    Fact { path: e.path@, size: e.size as nat, is_dir: e.is_dir, depth: e.depth as nat }
}

/// No path was scanned before.
pub open spec fn fresh() -> Set<Seq<char>> {
    Set::empty()
}

/// The list of what stands at `t` and below, each directory before what it holds.
pub open spec fn listing_at<P>(
    key: spec_fn(Target<P>) -> Seq<char>,
    t: Target<P>,
    node: Node<P>,
    depth: nat,
    above: Seq<Seq<char>>,
) -> Seq<Listed>
    decreases node, 0nat,
{
    let own = Listed { key: key(t), above, path: t.path@, len: 0, is_dir: true, depth };
    match node {
        Node::Hidden => Seq::empty(),
        Node::File { len, .. } => seq![Listed { len, is_dir: false, ..own }],
        Node::Locked { .. } => seq![own],
        Node::Directory { children, .. } => seq![own] + listing_from(
            key,
            children,
            0,
            depth + 1,
            seq![key(t)] + above,
        ),
    }
}

/// The list of the entries of a directory from the `k`th on.
pub open spec fn listing_from<P>(
    key: spec_fn(Target<P>) -> Seq<char>,
    children: Seq<(Target<P>, Node<P>)>,
    k: nat,
    depth: nat,
    above: Seq<Seq<char>>,
) -> Seq<Listed>
    decreases children, children.len() - k,
{
    if k >= children.len() {
        Seq::empty()
    } else {
        listing_at(key, children[k as int].0, children[k as int].1, depth, above) + listing_from(
            key,
            children,
            k + 1,
            depth,
            above,
        )
    }
}

/// What is to be said of what stands at `t` and below, each directory before what it holds. The
/// size of a directory is the length of all files below it.
pub open spec fn facts_at<P>(t: Target<P>, node: Node<P>, depth: nat) -> Seq<Fact>
    decreases node, 0nat,
{
    let own = Fact {
        path: t.path@,
        size: size_at(fresh(), t, node),
        is_dir: !(node is File),
        depth,
    };
    match node {
        Node::Hidden => Seq::empty(),
        Node::Directory { children, .. } => seq![own] + facts_from(children, 0, depth + 1),
        _ => seq![own],
    }
}

/// What is to be said of the entries of a directory from the `k`th on.
pub open spec fn facts_from<P>(children: Seq<(Target<P>, Node<P>)>, k: nat, depth: nat) -> Seq<Fact>
    decreases children, children.len() - k,
{
    if k >= children.len() {
        Seq::empty()
    } else {
        facts_at(children[k as int].0, children[k as int].1, depth) + facts_from(
            children,
            k + 1,
            depth,
        )
    }
}

/// What one line of the list adds to the directory `key`.
pub open spec fn line_share(l: Listed, key: Seq<char>) -> nat {
    if l.is_dir {
        0
    } else {
        l.len as nat * times(l.above, key)
    }
}

/// What the list adds to the directory `key`.
pub open spec fn line_shares(list: Seq<Listed>, key: Seq<char>) -> nat
    decreases list.len(),
{
    if list.len() == 0 {
        0
    } else {
        line_shares(list.drop_last(), key) + line_share(list.last(), key)
    }
}

/// What one line of the list counts for.
pub open spec fn line_totals(l: Listed) -> Totals {
    if l.is_dir {
        Totals { size: 0, files: 0, dirs: 1 }
    } else {
        Totals { size: l.len as nat, files: 1, dirs: 0 }
    }
}

/// What the list counts for.
pub open spec fn list_totals(list: Seq<Listed>) -> Totals
    decreases list.len(),
{
    if list.len() == 0 {
        nothing()
    } else {
        plus(list_totals(list.drop_last()), line_totals(list.last()))
    }
}

/// Whether some line of the list has this key.
pub open spec fn has_key(list: Seq<Listed>, key: Seq<char>) -> bool {
    exists|i: int| 0 <= i < list.len() && (#[trigger] list[i]).key == key
}

/// No two lines have one key.
pub open spec fn distinct(list: Seq<Listed>) -> bool {
    forall|i: int, j: int|
        0 <= i < j < list.len() ==> (#[trigger] list[i]).key != (#[trigger] list[j]).key
}

/// No line has a key from `above`.
pub open spec fn apart(list: Seq<Listed>, above: Seq<Seq<char>>) -> bool {
    forall|i: int| 0 <= i < list.len() ==> times(above, (#[trigger] list[i]).key) == 0
}

/// Each line comes before every line that lies below it.
pub open spec fn parents_first(list: Seq<Listed>) -> bool {
    forall|i: int, j: int|
        0 <= i < j < list.len() ==> times((#[trigger] list[i]).above, (#[trigger] list[j]).key)
            == 0
}

/// The list says as much as `facts` do, with the sizes of directories taken from the list itself.
pub open spec fn says(list: Seq<Listed>, facts: Seq<Fact>) -> bool {
    &&& list.len() == facts.len()
    &&& forall|i: int|
        0 <= i < list.len() ==> (#[trigger] facts[i]) == (Fact {
            path: list[i].path,
            size: if list[i].is_dir {
                line_shares(list, list[i].key)
            } else {
                list[i].len as nat
            },
            is_dir: list[i].is_dir,
            depth: list[i].depth,
        })
}

proof fn lemma_line_shares_sum(a: Seq<Listed>, b: Seq<Listed>, key: Seq<char>)
    ensures
        line_shares(a + b, key) == line_shares(a, key) + line_shares(b, key),
    decreases b.len(),
{
    if b.len() == 0 {
        assert(a + b =~= a);
    } else {
        lemma_line_shares_sum(a, b.drop_last(), key);
        assert((a + b).drop_last() =~= a + b.drop_last());
    }
}

proof fn lemma_line_shares_one(l: Listed, key: Seq<char>)
    ensures
        line_shares(seq![l], key) == line_share(l, key),
{
    assert(seq![l].drop_last() =~= Seq::<Listed>::empty());
    assert(line_shares(Seq::<Listed>::empty(), key) == 0);
}

proof fn lemma_list_totals_sum(a: Seq<Listed>, b: Seq<Listed>)
    ensures
        list_totals(a + b) == plus(list_totals(a), list_totals(b)),
    decreases b.len(),
{
    if b.len() == 0 {
        assert(a + b =~= a);
    } else {
        lemma_list_totals_sum(a, b.drop_last());
        assert((a + b).drop_last() =~= a + b.drop_last());
    }
}

proof fn lemma_list_totals_one(l: Listed)
    ensures
        list_totals(seq![l]) == line_totals(l),
{
    assert(seq![l].drop_last() =~= Seq::<Listed>::empty());
    assert(list_totals(Seq::<Listed>::empty()) == nothing());
}

proof fn lemma_times_sum(a: Seq<Seq<char>>, b: Seq<Seq<char>>, key: Seq<char>)
    ensures
        times(a + b, key) == times(a, key) + times(b, key),
    decreases b.len(),
{
    if b.len() == 0 {
        assert(a + b =~= a);
    } else {
        lemma_times_sum(a, b.drop_last(), key);
        assert((a + b).drop_last() =~= a + b.drop_last());
    }
}

proof fn lemma_times_one(x: Seq<char>, above: Seq<Seq<char>>, key: Seq<char>)
    ensures
        times(seq![x] + above, key) == times(above, key) + if x == key {
            1nat
        } else {
            0
        },
{
    lemma_times_sum(seq![x], above, key);
    assert(seq![x].drop_last() =~= Seq::<Seq<char>>::empty());
    assert(times(Seq::<Seq<char>>::empty(), key) == 0);
}

proof fn lemma_times_absent(keys: Seq<Seq<char>>, key: Seq<char>)
    requires
        times(keys, key) == 0,
    ensures
        !keys.contains(key),
    decreases keys.len(),
{
    if keys.len() > 0 {
        lemma_times_absent(keys.drop_last(), key);
        if keys.contains(key) {
            let i = choose|i: int| 0 <= i < keys.len() && keys[i] == key;
            assert(keys.drop_last()[i] == key);
        }
    }
}

/// What stands at `t` adds all its files to every directory above it, and lies below nothing else
/// than itself and what is above it.
proof fn lemma_outside_at<P>(
    key: spec_fn(Target<P>) -> Seq<char>,
    t: Target<P>,
    node: Node<P>,
    depth: nat,
    above: Seq<Seq<char>>,
    x: Seq<char>,
)
    requires
        !has_key(listing_at(key, t, node, depth, above), x),
    ensures
        line_shares(listing_at(key, t, node, depth, above), x) == totals_at(fresh(), t, node).size
            * times(above, x),
        forall|i: int|
            0 <= i < listing_at(key, t, node, depth, above).len() ==> times(
                (#[trigger] listing_at(key, t, node, depth, above)[i]).above,
                x,
            ) == times(above, x),
    decreases node, 0nat,
{
    let list = listing_at(key, t, node, depth, above);
    let n = times(above, x);
    match node {
        Node::Hidden => {
            assert(0nat * n == 0) by (nonlinear_arith);
        },
        Node::File { .. } => {
            lemma_line_shares_one(list[0], x);
            assert(list =~= seq![list[0]]);
        },
        Node::Locked { .. } => {
            lemma_line_shares_one(list[0], x);
            assert(list =~= seq![list[0]]);
            assert(0nat * n == 0) by (nonlinear_arith);
        },
        Node::Directory { children, .. } => {
            let inner = seq![key(t)] + above;
            let rest = listing_from(key, children, 0, depth + 1, inner);
            assert(list =~= seq![list[0]] + rest);
            assert(list[0].key != x);
            assert(!has_key(rest, x)) by {
                if has_key(rest, x) {
                    let i = choose|i: int| 0 <= i < rest.len() && (#[trigger] rest[i]).key == x;
                    assert(list[i + 1].key == x);
                }
            }
            lemma_times_one(key(t), above, x);
            lemma_outside_from(key, children, 0, depth + 1, inner, x);
            lemma_line_shares_one(list[0], x);
            lemma_line_shares_sum(seq![list[0]], rest, x);
            assert forall|i: int| 0 <= i < list.len() implies times((#[trigger] list[i]).above, x)
                == n by {
                if i > 0 {
                    assert(list[i] == rest[i - 1]);
                }
            }
        },
    }
}

proof fn lemma_outside_from<P>(
    key: spec_fn(Target<P>) -> Seq<char>,
    children: Seq<(Target<P>, Node<P>)>,
    k: nat,
    depth: nat,
    above: Seq<Seq<char>>,
    x: Seq<char>,
)
    requires
        !has_key(listing_from(key, children, k, depth, above), x),
    ensures
        line_shares(listing_from(key, children, k, depth, above), x) == totals_from(
            fresh(),
            children,
            k,
        ).size * times(above, x),
        forall|i: int|
            0 <= i < listing_from(key, children, k, depth, above).len() ==> times(
                (#[trigger] listing_from(key, children, k, depth, above)[i]).above,
                x,
            ) == times(above, x),
    decreases children, children.len() - k,
{
    let n = times(above, x);
    if k >= children.len() {
        assert(0nat * n == 0) by (nonlinear_arith);
    } else {
        let c = children[k as int];
        let list = listing_from(key, children, k, depth, above);
        let first = listing_at(key, c.0, c.1, depth, above);
        let rest = listing_from(key, children, k + 1, depth, above);
        assert(list =~= first + rest);
        assert(!has_key(first, x)) by {
            if has_key(first, x) {
                let i = choose|i: int| 0 <= i < first.len() && (#[trigger] first[i]).key == x;
                assert(list[i].key == x);
            }
        }
        assert(!has_key(rest, x)) by {
            if has_key(rest, x) {
                let i = choose|i: int| 0 <= i < rest.len() && (#[trigger] rest[i]).key == x;
                assert(list[first.len() + i].key == x);
            }
        }
        lemma_outside_at(key, c.0, c.1, depth, above, x);
        lemma_outside_from(key, children, k + 1, depth, above, x);
        lemma_line_shares_sum(first, rest, x);
        let a = totals_at(fresh(), c.0, c.1).size;
        let b = totals_from(fresh(), children, k + 1).size;
        assert((a + b) * n == a * n + b * n) by (nonlinear_arith);
        assert forall|i: int| 0 <= i < list.len() implies times((#[trigger] list[i]).above, x)
            == n by {
            if i < first.len() {
                assert(list[i] == first[i]);
            } else {
                assert(list[i] == rest[i - first.len()]);
            }
        }
    }
}

/// The list of a tree gives every directory its size, and comes to the totals of the tree.
proof fn lemma_listing_at<P>(
    key: spec_fn(Target<P>) -> Seq<char>,
    t: Target<P>,
    node: Node<P>,
    depth: nat,
    above: Seq<Seq<char>>,
)
    requires
        distinct(listing_at(key, t, node, depth, above)),
        apart(listing_at(key, t, node, depth, above), above),
        above.no_duplicates(),
    ensures
        says(listing_at(key, t, node, depth, above), facts_at(t, node, depth)),
        parents_first(listing_at(key, t, node, depth, above)),
        list_totals(listing_at(key, t, node, depth, above)) == totals_at(fresh(), t, node),
        forall|i: int|
            0 <= i < listing_at(key, t, node, depth, above).len() ==> (#[trigger] listing_at(
                key,
                t,
                node,
                depth,
                above,
            )[i]).above.no_duplicates(),
    decreases node, 0nat,
{
    let list = listing_at(key, t, node, depth, above);
    let facts = facts_at(t, node, depth);
    match node {
        Node::Hidden => {},
        Node::File { .. } => {
            assert(list =~= seq![list[0]]);
            lemma_list_totals_one(list[0]);
        },
        Node::Locked { .. } => {
            assert(list =~= seq![list[0]]);
            lemma_list_totals_one(list[0]);
            lemma_line_shares_one(list[0], list[0].key);
        },
        Node::Directory { children, .. } => {
            let own = list[0];
            let inner = seq![key(t)] + above;
            let rest = listing_from(key, children, 0, depth + 1, inner);
            let told = facts_from(children, 0, depth + 1);
            assert(list =~= seq![own] + rest);
            assert(facts =~= seq![facts[0]] + told);
            assert(distinct(rest)) by {
                assert forall|i: int, j: int|
                    0 <= i < j < rest.len() implies (#[trigger] rest[i]).key
                    != (#[trigger] rest[j]).key by {
                    assert(list[i + 1] == rest[i] && list[j + 1] == rest[j]);
                }
            }
            assert(apart(rest, inner)) by {
                assert forall|i: int| 0 <= i < rest.len() implies times(
                    inner,
                    (#[trigger] rest[i]).key,
                ) == 0 by {
                    assert(list[i + 1] == rest[i]);
                    assert(list[0].key != list[i + 1].key);
                    lemma_times_one(key(t), above, rest[i].key);
                }
            }
            lemma_times_absent(above, own.key);
            assert(inner.no_duplicates()) by {
                assert forall|i: int, j: int|
                    0 <= i < inner.len() && 0 <= j < inner.len() && i != j implies inner[i]
                    != inner[j] by {
                    if i == 0 {
                        assert(inner[j] == above[j - 1]);
                        assert(above.contains(above[j - 1]));
                    } else if j == 0 {
                        assert(inner[i] == above[i - 1]);
                        assert(above.contains(above[i - 1]));
                    } else {
                        assert(inner[i] == above[i - 1] && inner[j] == above[j - 1]);
                    }
                }
            }
            lemma_listing_from(key, children, 0, depth + 1, inner);
            lemma_list_totals_one(own);
            lemma_list_totals_sum(seq![own], rest);
            law_size_is_counted(fresh(), t, node);
            assert(!has_key(rest, own.key)) by {
                if has_key(rest, own.key) {
                    let i = choose|i: int|
                        0 <= i < rest.len() && (#[trigger] rest[i]).key == own.key;
                    assert(list[i + 1] == rest[i]);
                    assert(list[0].key != list[i + 1].key);
                }
            }
            lemma_outside_from(key, children, 0, depth + 1, inner, own.key);
            lemma_times_one(key(t), above, own.key);
            assert forall|i: int| 0 <= i < list.len() implies (#[trigger] facts[i]) == (Fact {
                path: list[i].path,
                size: if list[i].is_dir {
                    line_shares(list, list[i].key)
                } else {
                    list[i].len as nat
                },
                is_dir: list[i].is_dir,
                depth: list[i].depth,
            }) by {
                lemma_line_shares_one(own, list[i].key);
                lemma_line_shares_sum(seq![own], rest, list[i].key);
                if i > 0 {
                    assert(list[i] == rest[i - 1]);
                    assert(facts[i] == told[i - 1]);
                } else {
                    let all = totals_from(fresh(), children, 0).size;
                    assert(times(inner, own.key) == 1);
                    assert(all * 1 == all);
                }
            }
            assert forall|i: int, j: int| 0 <= i < j < list.len() implies times(
                (#[trigger] list[i]).above,
                (#[trigger] list[j]).key,
            ) == 0 by {
                assert(list[j] == rest[j - 1]);
                if i > 0 {
                    assert(list[i] == rest[i - 1]);
                }
            }
            assert forall|i: int| 0 <= i < list.len() implies (
            #[trigger] list[i]).above.no_duplicates() by {
                if i > 0 {
                    assert(list[i] == rest[i - 1]);
                }
            }
        },
    }
}

proof fn lemma_listing_from<P>(
    key: spec_fn(Target<P>) -> Seq<char>,
    children: Seq<(Target<P>, Node<P>)>,
    k: nat,
    depth: nat,
    above: Seq<Seq<char>>,
)
    requires
        distinct(listing_from(key, children, k, depth, above)),
        apart(listing_from(key, children, k, depth, above), above),
        above.no_duplicates(),
    ensures
        says(listing_from(key, children, k, depth, above), facts_from(children, k, depth)),
        parents_first(listing_from(key, children, k, depth, above)),
        list_totals(listing_from(key, children, k, depth, above)) == totals_from(
            fresh(),
            children,
            k,
        ),
        forall|i: int|
            0 <= i < listing_from(key, children, k, depth, above).len() ==> (
            #[trigger] listing_from(key, children, k, depth, above)[i]).above.no_duplicates(),
    decreases children, children.len() - k,
{
    if k < children.len() {
        let c = children[k as int];
        let list = listing_from(key, children, k, depth, above);
        let first = listing_at(key, c.0, c.1, depth, above);
        let rest = listing_from(key, children, k + 1, depth, above);
        let facts = facts_from(children, k, depth);
        let m = first.len() as int;
        assert(list =~= first + rest);
        assert forall|i: int| 0 <= i < m implies (#[trigger] first[i]) == list[i] by {}
        assert forall|i: int| 0 <= i < rest.len() implies (#[trigger] rest[i]) == list[m + i] by {}
        lemma_listing_at(key, c.0, c.1, depth, above);
        lemma_listing_from(key, children, k + 1, depth, above);
        lemma_list_totals_sum(first, rest);
        assert forall|i: int| 0 <= i < list.len() implies (#[trigger] facts[i]) == (Fact {
            path: list[i].path,
            size: if list[i].is_dir {
                line_shares(list, list[i].key)
            } else {
                list[i].len as nat
            },
            is_dir: list[i].is_dir,
            depth: list[i].depth,
        }) by {
            let x = list[i].key;
            lemma_line_shares_sum(first, rest, x);
            if i < m {
                assert(list[i] == first[i]);
                assert(facts[i] == facts_at(c.0, c.1, depth)[i]);
                assert(!has_key(rest, x)) by {
                    if has_key(rest, x) {
                        let j = choose|j: int| 0 <= j < rest.len() && (#[trigger] rest[j]).key == x;
                        assert(list[i].key != list[m + j].key);
                    }
                }
                lemma_outside_from(key, children, k + 1, depth, above, x);
                let size = totals_from(fresh(), children, k + 1).size;
                assert(size * 0 == 0);
            } else {
                assert(list[i] == rest[i - m]);
                assert(facts[i] == facts_from(children, k + 1, depth)[i - m]);
                assert(!has_key(first, x)) by {
                    if has_key(first, x) {
                        let j = choose|j: int| 0 <= j < m && (#[trigger] first[j]).key == x;
                        assert(list[j].key != list[i].key);
                    }
                }
                lemma_outside_at(key, c.0, c.1, depth, above, x);
                let size = totals_at(fresh(), c.0, c.1).size;
                assert(size * 0 == 0);
            }
        }
        assert forall|i: int, j: int| 0 <= i < j < list.len() implies times(
            (#[trigger] list[i]).above,
            (#[trigger] list[j]).key,
        ) == 0 by {
            if j < m {
                assert(list[i] == first[i] && list[j] == first[j]);
            } else if i >= m {
                assert(list[i] == rest[i - m] && list[j] == rest[j - m]);
            } else {
                let x = list[j].key;
                assert(!has_key(first, x)) by {
                    if has_key(first, x) {
                        let q = choose|q: int| 0 <= q < m && (#[trigger] first[q]).key == x;
                        assert(list[q].key != list[j].key);
                    }
                }
                lemma_outside_at(key, c.0, c.1, depth, above, x);
                assert(list[i] == first[i]);
            }
        }
        assert forall|i: int| 0 <= i < list.len() implies (
        #[trigger] list[i]).above.no_duplicates() by {
            if i < m {
                assert(list[i] == first[i]);
            } else {
                assert(list[i] == rest[i - m]);
            }
        }
    }
}

/// A record holds what a line of the list says.
pub open spec fn is_record(r: Record, l: Listed) -> bool {
    &&& r.key@ == l.key
    &&& texts(r.ancestors@) == l.above
    &&& r.path@ == l.path
    &&& r.is_dir == l.is_dir
    &&& !l.is_dir ==> r.len == l.len
    &&& r.depth == l.depth
}

/// The records hold the list, line by line.
pub open spec fn are_records(records: Seq<Record>, list: Seq<Listed>) -> bool {
    &&& records.len() == list.len()
    &&& forall|i: int| 0 <= i < records.len() ==> is_record(#[trigger] records[i], list[i])
}

proof fn lemma_records(records: Seq<Record>, list: Seq<Listed>)
    requires
        are_records(records, list),
    ensures
        forall|key: Seq<char>| #[trigger] shares(records, key) == line_shares(list, key),
        bytes_in(records) == list_totals(list).size,
        files_in(records) == list_totals(list).files,
        dirs_in(records) == list_totals(list).dirs,
        records.len() == files_in(records) + dirs_in(records),
    decreases records.len(),
{
    if records.len() > 0 {
        let rest = records.drop_last();
        let lines = list.drop_last();
        assert forall|i: int| 0 <= i < rest.len() implies is_record(
            #[trigger] rest[i],
            lines[i],
        ) by {
            assert(rest[i] == records[i] && lines[i] == list[i]);
        }
        lemma_records(rest, lines);
        let n = records.len() - 1;
        assert(is_record(records[n], list[n]));
        assert forall|key: Seq<char>| #[trigger] shares(records, key) == line_shares(
            list,
            key,
        ) by {
            assert(shares(rest, key) == line_shares(lines, key));
        }
    }
}

/// What the entries that are made known say.
pub open spec fn facts_found(effects: Seq<Effect>) -> Multiset<Fact>
    decreases effects.len(),
{
    if effects.len() == 0 {
        Multiset::empty()
    } else {
        match effects.last() {
            Effect::Found(e) => facts_found(effects.drop_last()).insert(fact_of(e)),
            _ => facts_found(effects.drop_last()),
        }
    }
}

/// What the entries say that are made known by the walks that are started below `t` for the
/// entries of crowded directories.
pub open spec fn facts_apart<P>(t: Target<P>, node: Node<P>, depth: nat) -> Multiset<Fact>
    decreases node, 0nat,
{
    match node {
        Node::Directory { children, .. } => facts_apart_from(children, 0, depth + 1),
        _ => Multiset::empty(),
    }
}

/// The same for the entries of a directory from the `k`th on.
pub open spec fn facts_apart_from<P>(
    children: Seq<(Target<P>, Node<P>)>,
    k: nat,
    depth: nat,
) -> Multiset<Fact>
    decreases children, children.len() - k,
{
    if k >= children.len() {
        Multiset::empty()
    } else {
        let child = children[k as int];
        let own = if children.len() > FAN_OUT_ABOVE {
            facts_found(effects_at(fresh(), child.0, child.1, depth))
        } else {
            Multiset::empty()
        };
        own.add(facts_apart(child.0, child.1, depth)).add(
            facts_apart_from(children, k + 1, depth),
        )
    }
}

/// The sizes and depths can be written in an entry.
pub open spec fn fits(facts: Seq<Fact>) -> bool {
    forall|i: int|
        0 <= i < facts.len() ==> (#[trigger] facts[i]).size <= u64::MAX && facts[i].depth
            <= usize::MAX
}

proof fn lemma_facts_found_sum(a: Seq<Effect>, b: Seq<Effect>)
    ensures
        facts_found(a + b) == facts_found(a).add(facts_found(b)),
    decreases b.len(),
{
    if b.len() == 0 {
        assert(a + b =~= a);
        assert(facts_found(a).add(Multiset::empty()) =~= facts_found(a));
    } else {
        lemma_facts_found_sum(a, b.drop_last());
        assert((a + b).drop_last() =~= a + b.drop_last());
        assert(facts_found(a + b) =~= facts_found(a).add(facts_found(b)));
    }
}

proof fn lemma_facts_found_one(e: Effect)
    ensures
        facts_found(seq![e]) == match e {
            Effect::Found(f) => Multiset::singleton(fact_of(f)),
            _ => Multiset::empty(),
        },
{
    assert(seq![e].drop_last() =~= Seq::<Effect>::empty());
    assert(facts_found(Seq::<Effect>::empty()) == Multiset::<Fact>::empty());
    if let Effect::Found(f) = e {
        assert(facts_found(seq![e]) =~= Multiset::singleton(fact_of(f)));
    }
}

proof fn lemma_one_fact(f: Fact, rest: Seq<Fact>)
    ensures
        (seq![f] + rest).to_multiset() == Multiset::singleton(f).add(rest.to_multiset()),
        seq![f].to_multiset() == Multiset::singleton(f),
{
    broadcast use vstd::seq_lib::group_to_multiset_ensures;

    vstd::seq_lib::lemma_multiset_commutative(seq![f], rest);
    assert(Seq::<Fact>::empty().push(f) =~= seq![f]);
    assert(Seq::<Fact>::empty().to_multiset() =~= Multiset::<Fact>::empty());
    assert(seq![f].to_multiset() =~= Multiset::singleton(f));
}

/// The walks say of each file and directory what is to be said, once.
proof fn lemma_walked_at<P>(t: Target<P>, node: Node<P>, depth: nat)
    requires
        fits(facts_at(t, node, depth)),
    ensures
        facts_found(effects_at(fresh(), t, node, depth)).add(facts_apart(t, node, depth))
            == facts_at(t, node, depth).to_multiset(),
    decreases node, 0nat,
{
    broadcast use vstd::seq_lib::group_to_multiset_ensures;

    let known = effects_at(fresh(), t, node, depth);
    let facts = facts_at(t, node, depth);
    let none = Multiset::<Fact>::empty();
    match node {
        Node::Hidden => {
            assert(facts.to_multiset() =~= none);
            assert(none.add(none) =~= none);
        },
        Node::Directory { modified, children } => {
            let told = facts_from(children, 0, depth + 1);
            let own = facts[0];
            assert(facts =~= seq![own] + told);
            assert forall|i: int| 0 <= i < told.len() implies (#[trigger] told[i]).size <= u64::MAX
                && told[i].depth <= usize::MAX by {
                assert(facts[i + 1] == told[i]);
            }
            lemma_one_fact(own, told);
            lemma_walked_from(t, children, 0, depth);
            let entered = Effect::Entered { path: t.path, total: children.len() as usize };
            let left = closing(t, size_from(fresh(), children, 0), change_time(modified), depth);
            lemma_facts_found_one(entered);
            lemma_facts_found_one(left[0]);
            lemma_facts_found_one(left[1]);
            assert(left =~= seq![left[0]] + seq![left[1]]);
            lemma_facts_found_sum(seq![left[0]], seq![left[1]]);
            assert(facts_found(left) =~= Multiset::singleton(own));
            if children.len() > FAN_OUT_ABOVE {
                let (forked, joined) = (Effect::Forked, Effect::Joined);
                lemma_facts_found_one(forked);
                lemma_facts_found_one(joined);
                lemma_facts_found_sum(seq![entered], seq![forked]);
                lemma_facts_found_sum(seq![entered] + seq![forked], seq![joined]);
                lemma_facts_found_sum(seq![entered] + seq![forked] + seq![joined], left);
            } else {
                let inner = effects_from(fresh(), t, children, depth, 0);
                lemma_facts_found_sum(seq![entered], inner);
                lemma_facts_found_sum(seq![entered] + inner, left);
            }
            assert(facts_found(known).add(facts_apart(t, node, depth)) =~= facts.to_multiset());
        },
        _ => {
            lemma_facts_found_one(known[0]);
            assert(known =~= seq![known[0]]);
            assert(facts =~= seq![facts[0]]);
            lemma_one_fact(facts[0], Seq::empty());
            assert(facts_found(known).add(none) =~= facts_found(known));
        },
    }
}

proof fn lemma_walked_from<P>(
    t: Target<P>,
    children: Seq<(Target<P>, Node<P>)>,
    k: nat,
    depth: nat,
)
    requires
        fits(facts_from(children, k, depth + 1)),
    ensures
        (if children.len() > FAN_OUT_ABOVE {
            Multiset::empty()
        } else {
            facts_found(effects_from(fresh(), t, children, depth, k))
        }).add(facts_apart_from(children, k, depth + 1)) == facts_from(
            children,
            k,
            depth + 1,
        ).to_multiset(),
    decreases children, children.len() - k,
{
    broadcast use vstd::seq_lib::group_to_multiset_ensures;

    let facts = facts_from(children, k, depth + 1);
    let none = Multiset::<Fact>::empty();
    if k >= children.len() {
        assert(facts.to_multiset() =~= none);
        assert(none.add(none) =~= none);
    } else {
        let c = children[k as int];
        let first = facts_at(c.0, c.1, depth + 1);
        let rest = facts_from(children, k + 1, depth + 1);
        assert(facts =~= first + rest);
        assert forall|i: int| 0 <= i < first.len() implies (#[trigger] first[i]).size <= u64::MAX
            && first[i].depth <= usize::MAX by {
            assert(facts[i] == first[i]);
        }
        assert forall|i: int| 0 <= i < rest.len() implies (#[trigger] rest[i]).size <= u64::MAX
            && rest[i].depth <= usize::MAX by {
            assert(facts[first.len() + i] == rest[i]);
        }
        lemma_walked_at(c.0, c.1, depth + 1);
        lemma_walked_from(t, children, k + 1, depth);
        vstd::seq_lib::lemma_multiset_commutative(first, rest);
        let here = effects_at(fresh(), c.0, c.1, depth + 1);
        let step = Effect::Advanced { path: t.path, done: (k + 1) as usize };
        let later = effects_from(fresh(), t, children, depth, k + 1);
        lemma_facts_found_one(step);
        lemma_facts_found_sum(here, seq![step]);
        lemma_facts_found_sum(here + seq![step], later);
        let own = if children.len() > FAN_OUT_ABOVE {
            none
        } else {
            facts_found(effects_from(fresh(), t, children, depth, k))
        };
        assert(own.add(facts_apart_from(children, k, depth + 1)) =~= facts.to_multiset());
    }
}

/// No size in a tree is above the length of all its files.
proof fn lemma_sizes_bounded_at<P>(t: Target<P>, node: Node<P>, depth: nat)
    ensures
        forall|i: int|
            0 <= i < facts_at(t, node, depth).len() ==> (#[trigger] facts_at(t, node, depth)[i]).size
                <= totals_at(fresh(), t, node).size,
    decreases node, 0nat,
{
    law_size_is_counted(fresh(), t, node);
    if let Node::Directory { children, .. } = node {
        lemma_sizes_bounded_from(children, 0, depth + 1);
        let facts = facts_at(t, node, depth);
        let told = facts_from(children, 0, depth + 1);
        assert forall|i: int| 0 <= i < facts.len() implies (#[trigger] facts[i]).size <= totals_at(
            fresh(),
            t,
            node,
        ).size by {
            if i > 0 {
                assert(facts[i] == told[i - 1]);
            }
        }
    }
}

proof fn lemma_sizes_bounded_from<P>(children: Seq<(Target<P>, Node<P>)>, k: nat, depth: nat)
    ensures
        forall|i: int|
            0 <= i < facts_from(children, k, depth).len() ==> (#[trigger] facts_from(
                children,
                k,
                depth,
            )[i]).size <= totals_from(fresh(), children, k).size,
    decreases children, children.len() - k,
{
    if k < children.len() {
        let c = children[k as int];
        lemma_sizes_bounded_at(c.0, c.1, depth);
        lemma_sizes_bounded_from(children, k + 1, depth);
        let facts = facts_from(children, k, depth);
        let first = facts_at(c.0, c.1, depth);
        let rest = facts_from(children, k + 1, depth);
        assert forall|i: int| 0 <= i < facts.len() implies (#[trigger] facts[i]).size
            <= totals_from(fresh(), children, k).size by {
            if i < first.len() {
                assert(facts[i] == first[i]);
            } else {
                assert(facts[i] == rest[i - first.len()]);
            }
        }
    }
}

/// What some entries say.
pub open spec fn facts_in(entries: Seq<FileEntry>) -> Multiset<Fact> {
    entries.map_values(|e: FileEntry| fact_of(e)).to_multiset()
}

proof fn lemma_facts_in_effects(effects: Seq<Effect>)
    ensures
        facts_in(entries_in(effects)) == facts_found(effects),
    decreases effects.len(),
{
    broadcast use vstd::seq_lib::group_to_multiset_ensures;

    let say = |e: FileEntry| fact_of(e);
    let entries = entries_in(effects);
    if effects.len() == 0 {
        assert(entries.map_values(say).to_multiset() =~= Multiset::empty());
    } else {
        let rest = effects.skip(1);
        lemma_facts_in_effects(rest);
        assert(effects =~= seq![effects[0]] + rest);
        lemma_facts_found_sum(seq![effects[0]], rest);
        lemma_facts_found_one(effects[0]);
        if let Effect::Found(e) = effects[0] {
            let told = entries_in(rest).map_values(say);
            assert(entries.map_values(say) =~= seq![fact_of(e)] + told);
            lemma_one_fact(fact_of(e), told);
        } else {
            assert(Multiset::empty().add(facts_found(rest)) =~= facts_found(rest));
        }
    }
}

/// What a collector hands on in batches and holds at the end says what the walks made known, each
/// fact as often; one that keeps its entries holds all of them.
pub proof fn law_collected_is_found(start: Gathered, effects: Seq<Effect>)
    requires
        start.buffer.len() == 0,
    ensures
        facts_in(
            unbatched(batches_of(start, effects)) + gathered_after(start, effects).buffer,
        ) == facts_found(effects),
        !start.streaming ==> facts_in(gathered_after(start, effects).buffer) == facts_found(
            effects,
        ),
{
    law_nothing_lost(start, effects);
    lemma_facts_in_effects(effects);
    assert(start.buffer + entries_in(effects) =~= entries_in(effects));
    if !start.streaming {
        let held = gathered_after(start, effects).buffer;
        assert(batches_of(start, effects) =~= Seq::empty());
        assert(unbatched(batches_of(start, effects)) + held =~= held);
    }
}

/// The ways to scan a tree agree. Whether a tree is walked, its list is measured in one go, or
/// parts of its list are measured side by side, the totals are the same, and each file and
/// directory comes out once with the same path, size, kind and depth. A directory's size is the
/// length of all files below it.
pub proof fn law_ways_agree<P>(
    key: spec_fn(Target<P>) -> Seq<char>,
    t: Target<P>,
    node: Node<P>,
    above: Seq<Seq<char>>,
    records: Seq<Record>,
)
    requires
        totals_at(fresh(), t, node).size <= u64::MAX,
        above.no_duplicates(),
        distinct(listing_at(key, t, node, 0, above)),
        apart(listing_at(key, t, node, 0, above), above),
        are_records(records, listing_at(key, t, node, 0, above)),
    ensures
        ({
            let start = WalkState {
                scanned: fresh(),
                base: 0,
                levels: Seq::empty(),
                stage: Stage::Visit(t),
                totals: nothing(),
            };
            let (end, known) = run(start, answers_at(fresh(), t, node));
            let facts = facts_at(t, node, 0);
            &&& end.totals == totals_at(fresh(), t, node)
            &&& end.totals == (Totals {
                size: bytes_in(records),
                files: files_in(records),
                dirs: dirs_in(records),
            })
            &&& records.len() == facts.len() == end.totals.files + end.totals.dirs
            &&& forall|i: int| 0 <= i < records.len() ==> sound(#[trigger] records[i])
            &&& forall|i: int|
                0 <= i < records.len() ==> fact_of(
                    entry_of(#[trigger] records[i], shares(records, records[i].key@)),
                ) == facts[i]
            &&& forall|i: int|
                0 <= i < records.len() ==> fact_of(
                    entry_of(#[trigger] records[i], shares_since(records, records[i].key@)),
                ) == facts[i]
            &&& facts_found(known).add(facts_apart(t, node, 0)) == facts.to_multiset()
        }),
{
    let list = listing_at(key, t, node, 0, above);
    let facts = facts_at(t, node, 0);
    lemma_listing_at(key, t, node, 0, above);
    lemma_records(records, list);
    law_walk(fresh(), t, node, 0);
    lemma_sizes_bounded_at(t, node, 0);
    assert forall|i: int| 0 <= i < facts.len() implies (#[trigger] facts[i]).size <= u64::MAX
        && facts[i].depth <= usize::MAX by {
        assert(is_record(records[i], list[i]));
    }
    lemma_walked_at(t, node, 0);
    assert forall|i: int| 0 <= i < records.len() implies sound(#[trigger] records[i]) by {
        assert(is_record(records[i], list[i]));
        assert(list[i].above.no_duplicates());
    }
    assert forall|i: int| 0 <= i < records.len() implies fact_of(
        entry_of(#[trigger] records[i], shares(records, records[i].key@)),
    ) == facts[i] by {
        assert(is_record(records[i], list[i]));
        assert(facts[i].size <= u64::MAX);
    }
    assert forall|i: int| 0 <= i < records.len() implies fact_of(
        entry_of(#[trigger] records[i], shares_since(records, records[i].key@)),
    ) == facts[i] by {
        let x = records[i].key@;
        assert forall|a: int, b: int|
            0 <= a < b < records.len() && (#[trigger] records[b]).is_dir && records[b].key@
                == x implies share(#[trigger] records[a], x) == 0 by {
            assert(is_record(records[a], list[a]) && is_record(records[b], list[b]));
            assert(times(list[a].above, list[b].key) == 0);
            let len = records[a].len as nat;
            assert(len * 0 == 0);
        }
        law_parents_first(records, x);
        assert(fact_of(entry_of(records[i], shares(records, x))) == facts[i]);
    }
}

} // verus!
