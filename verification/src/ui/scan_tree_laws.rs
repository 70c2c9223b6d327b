//! What holds of every tree of scans.
use vstd::prelude::*;

use vstd::utf8::encode_utf8;

use crate::db::Scan;
use crate::text::{lemma_text_le_antisymmetric, split, trim_end};
use crate::text_laws::law_pieces_make_the_text;
use crate::ui::listing_laws::lemma_text_le_at;
use crate::ui::scan_tree::{
    below_path, collapsed, collapsed_trees, grown, inserted, is_path_list, leaves_of,
    lemma_collapsed_path, lemma_unfolded_path, lines_from, nonempty, path_node, path_parts,
    place_of_path, refolded_from, scanned_path, strictly_before, subscanned, unfolded_tree,
    unfolded_trees, with_path, Refold, Tree,
};

verus! {

/// How often `x` is among the nodes from the `k`th on, and below them.
pub open spec fn held_from(nodes: Seq<Tree>, k: nat, x: Scan) -> nat
    decreases nodes, nodes.len() - k,
{
    if k >= nodes.len() {
        0
    } else {
        (match nodes[k as int] {
            Tree::Path { children, .. } => held_from(children, 0, x),
            Tree::Leaf { scan, .. } => if scan == x {
                1nat
            } else {
                0
            },
        }) + held_from(nodes, k + 1, x)
    }
}

/// How often `x` is at a node or below it.
pub open spec fn held_at(tree: Tree, x: Scan) -> nat {
    match tree {
        Tree::Path { children, .. } => held_from(children, 0, x),
        Tree::Leaf { scan, .. } => if scan == x {
            1nat
        } else {
            0
        },
    }
}

/// How often `x` is among the first `n` scans.
pub open spec fn times_in(scans: Seq<Scan>, n: nat, x: Scan) -> nat
    decreases n,
{
    if n == 0 {
        0
    } else {
        times_in(scans, (n - 1) as nat, x) + if scans[n - 1] == x {
            1nat
        } else {
            0
        }
    }
}

proof fn lemma_held_push(nodes: Seq<Tree>, tree: Tree, k: nat, x: Scan)
    requires
        k <= nodes.len(),
    ensures
        held_from(nodes.push(tree), k, x) == held_from(nodes, k, x) + held_at(tree, x),
    decreases nodes.len() - k,
{
    let more = nodes.push(tree);
    if k < nodes.len() {
        assert(more[k as int] == nodes[k as int]);
        lemma_held_push(nodes, tree, k + 1, x);
    } else {
        assert(more[k as int] == tree);
        assert(held_from(more, k + 1, x) == 0);
        assert(held_from(nodes, k, x) == 0);
    }
}

proof fn lemma_held_update(nodes: Seq<Tree>, p: int, tree: Tree, k: nat, x: Scan)
    requires
        0 <= p < nodes.len(),
        k <= nodes.len(),
    ensures
        held_from(nodes.update(p, tree), k, x) == if k <= p {
            held_from(nodes, k, x) - held_at(nodes[p], x) + held_at(tree, x)
        } else {
            held_from(nodes, k, x) as int
        },
    decreases nodes.len() - k,
{
    let more = nodes.update(p, tree);
    if k < nodes.len() {
        lemma_held_update(nodes, p, tree, k + 1, x);
        if k != p {
            assert(more[k as int] == nodes[k as int]);
        } else {
            assert(more[k as int] == tree);
        }
    }
}

proof fn lemma_place_valid(nodes: Seq<Tree>, path: Seq<char>)
    ensures
        place_of_path(nodes, path) <= nodes.len(),
        place_of_path(nodes, path) < nodes.len() ==> nodes[place_of_path(nodes, path) as int] is Path,
    decreases nodes.len(),
{
    if nodes.len() > 0 && !(nodes[0] is Path && nodes[0].full_path() == path) {
        lemma_place_valid(nodes.skip(1), path);
        let k = place_of_path(nodes.skip(1), path) as int;
        if k < nodes.skip(1).len() {
            assert(nodes.skip(1)[k] == nodes[k + 1]);
        }
    }
}

proof fn lemma_held_inserted(
    nodes: Seq<Tree>,
    parts: Seq<Seq<char>>,
    d: nat,
    current: Seq<char>,
    target: Seq<char>,
    scans: Seq<Tree>,
    x: Scan,
)
    ensures
        held_from(inserted(nodes, parts, d, current, target, scans), 0, x) == held_from(nodes, 0, x)
            + held_from(scans, 0, x),
    decreases parts.len() - d,
{
    if d + 1 >= parts.len() {
        lemma_held_push(nodes, path_node(parts.last(), target, scans), 0, x);
    } else {
        let next = current.push('/') + parts[d as int];
        let k = place_of_path(nodes, next) as int;
        lemma_place_valid(nodes, next);
        if k < nodes.len() {
            let below = inserted(nodes[k].nodes(), parts, d + 1, next, target, scans);
            lemma_held_inserted(nodes[k].nodes(), parts, d + 1, next, target, scans, x);
            lemma_held_update(nodes, k, nodes[k].with_children(below), 0, x);
        } else {
            let below = inserted(Seq::empty(), parts, d + 1, next, target, scans);
            lemma_held_inserted(Seq::empty(), parts, d + 1, next, target, scans, x);
            lemma_held_push(nodes, path_node(parts[d as int], next, below), 0, x);
            assert(held_from(Seq::<Tree>::empty(), 0, x) == 0);
        }
    }
}

proof fn lemma_held_leaves(scans: Seq<Scan>, path: Seq<char>, n: nat, x: Scan)
    requires
        n <= scans.len(),
    ensures
        held_from(leaves_of(scans, path, n), 0, x) == if x.root_path@ == path {
            times_in(scans, n, x)
        } else {
            0
        },
    decreases n,
{
    if n > 0 {
        lemma_held_leaves(scans, path, (n - 1) as nat, x);
        let before = leaves_of(scans, path, (n - 1) as nat);
        if scans[n - 1].root_path@ == path {
            lemma_held_push(before, leaves_of(scans, path, n).last(), 0, x);
            assert(leaves_of(scans, path, n) =~= before.push(leaves_of(scans, path, n).last()));
        }
    }
}

proof fn lemma_held_grown(scans: Seq<Scan>, paths: Seq<Seq<char>>, n: nat, x: Scan)
    requires
        n <= paths.len(),
        is_path_list(scans, paths),
    ensures
        held_from(grown(scans, paths, n), 0, x) == if paths.take(n as int).contains(x.root_path@) {
            times_in(scans, scans.len(), x)
        } else {
            0
        },
    decreases n,
{
    let part = paths.take(n as int);
    let path = x.root_path@;
    if n == 0 {
        assert(!part.contains(path));
    } else {
        let before = grown(scans, paths, (n - 1) as nat);
        let last = paths[n - 1];
        let leaves = leaves_of(scans, last, scans.len());
        lemma_held_grown(scans, paths, (n - 1) as nat, x);
        lemma_held_leaves(scans, last, scans.len(), x);
        let target = crate::text::trim_end(last, '/');
        let parts = path_parts(target);
        if parts.len() == 0 {
            lemma_held_push(before, path_node("/"@, "/"@, leaves), 0, x);
        } else {
            lemma_held_inserted(before, parts, 0, Seq::empty(), target, leaves, x);
        }
        let earlier = paths.take(n - 1);
        if last == path {
            assert(part[n - 1] == path);
            assert(!earlier.contains(path)) by {
                if earlier.contains(path) {
                    let k = choose|k: int| 0 <= k < earlier.len() && earlier[k] == path;
                    assert(strictly_before(paths[k], paths[n - 1]));
                }
            }
        } else if earlier.contains(path) {
            let k = choose|k: int| 0 <= k < earlier.len() && earlier[k] == path;
            assert(part[k] == path);
        } else if part.contains(path) {
            let k = choose|k: int| 0 <= k < part.len() && part[k] == path;
            assert(earlier[k] == path);
        }
    }
}

proof fn lemma_held_collapsed(nodes: Seq<Tree>, k: nat, x: Scan)
    ensures
        held_from(collapsed_trees(nodes), k, x) == held_from(nodes, k, x),
    decreases nodes, nodes.len() - k,
{
    if k < nodes.len() {
        lemma_held_collapsed(nodes, k + 1, x);
        let tree = nodes[k as int];
        assert(collapsed_trees(nodes)[k as int] == collapsed(tree));
        match tree {
            Tree::Path { children, .. } => {
                lemma_held_collapsed(children, 0, x);
                lemma_collapsed_path(tree);
                let inner = collapsed_trees(children);
                if inner.len() == 1 && inner[0] is Path {
                    assert(held_from(inner, 1, x) == 0);
                    assert(held_from(inner, 0, x) == held_at(inner[0], x));
                }
                assert(held_at(collapsed(tree), x) == held_at(tree, x));
            },
            Tree::Leaf { .. } => {},
        }
        assert(held_from(collapsed_trees(nodes), k, x) == held_at(collapsed(tree), x) + held_from(
            collapsed_trees(nodes),
            k + 1,
            x,
        ));
    }
}

/// The tree holds each scan as often as it was given.
pub proof fn law_every_scan_in_tree(scans: Seq<Scan>, paths: Seq<Seq<char>>, x: Scan)
    requires
        is_path_list(scans, paths),
    ensures
        held_from(collapsed_trees(grown(scans, paths, paths.len())), 0, x) == times_in(
            scans,
            scans.len(),
            x,
        ),
{
    lemma_held_collapsed(grown(scans, paths, paths.len()), 0, x);
    lemma_held_grown(scans, paths, paths.len(), x);
    assert(paths.take(paths.len() as int) =~= paths);
    if !paths.contains(x.root_path@) {
        assert(!scanned_path(scans, x.root_path@));
        lemma_never(scans, scans.len(), x);
    }
}

proof fn lemma_never(scans: Seq<Scan>, n: nat, x: Scan)
    requires
        n <= scans.len(),
        !scanned_path(scans, x.root_path@),
    ensures
        times_in(scans, n, x) == 0,
    decreases n,
{
    if n > 0 {
        lemma_never(scans, (n - 1) as nat, x);
        assert(scans[n - 1].root_path@ != x.root_path@);
    }
}

/// There is only one list of the scanned paths.
pub proof fn law_path_list_determined(scans: Seq<Scan>, a: Seq<Seq<char>>, b: Seq<Seq<char>>)
    requires
        is_path_list(scans, a),
        is_path_list(scans, b),
    ensures
        a == b,
{
    lemma_no_longer(scans, a, b);
    lemma_no_longer(scans, b, a);
    assert forall|p: int| 0 <= p < a.len() implies a[p] == b[p] by {
        lemma_same_path_at(scans, a, b, p);
    }
    assert(a =~= b);
}

proof fn lemma_same_path_at(scans: Seq<Scan>, a: Seq<Seq<char>>, b: Seq<Seq<char>>, p: int)
    requires
        is_path_list(scans, a),
        is_path_list(scans, b),
        0 <= p < a.len(),
        p < b.len(),
    ensures
        a[p] == b[p],
    decreases p,
{
    if a[p] != b[p] {
        assert(a.contains(a[p]) && b.contains(b[p]));
        assert(b.contains(a[p]) && a.contains(b[p]));
        let q = choose|q: int| 0 <= q < b.len() && b[q] == a[p];
        let r = choose|r: int| 0 <= r < a.len() && a[r] == b[p];
        if q < p {
            lemma_same_path_at(scans, a, b, q);
            assert(strictly_before(a[q], a[p]));
        }
        if r < p {
            lemma_same_path_at(scans, a, b, r);
            assert(strictly_before(b[r], b[p]));
        }
        assert(strictly_before(a[p], a[r]));
        assert(strictly_before(b[p], b[q]));
        lemma_text_le_antisymmetric(a[p], b[p]);
    }
}

proof fn lemma_no_longer(scans: Seq<Scan>, a: Seq<Seq<char>>, b: Seq<Seq<char>>)
    requires
        is_path_list(scans, a),
        is_path_list(scans, b),
    ensures
        a.len() <= b.len(),
{
    if a.len() > b.len() {
        let x = a[b.len() as int];
        assert(a.contains(x));
        assert(b.contains(x));
        let q = choose|q: int| 0 <= q < b.len() && b[q] == x;
        lemma_same_path_at(scans, a, b, q);
        assert(strictly_before(a[q], a[b.len() as int]));
    }
}

/// No directory of the tree holds a single directory and nothing else.
pub open spec fn tight(tree: Tree) -> bool
    decreases tree,
{
    match tree {
        Tree::Path { children, .. } => {
            &&& !(children.len() == 1 && children[0] is Path)
            &&& forall|i: int| 0 <= i < children.len() ==> tight(#[trigger] children[i])
        },
        Tree::Leaf { .. } => true,
    }
}

/// After chains have been drawn together, no directory holds a single directory and nothing else.
pub proof fn law_chains_drawn_together(tree: Tree)
    ensures
        tight(collapsed(tree)),
    decreases tree,
{
    match tree {
        Tree::Path { children, .. } => {
            lemma_collapsed_path(tree);
            let inner = collapsed_trees(children);
            assert forall|i: int| 0 <= i < inner.len() implies tight(#[trigger] inner[i]) by {
                law_chains_drawn_together(children[i]);
            }
        },
        Tree::Leaf { .. } => {},
    }
}

/// Every directory of the tree is folded.
pub open spec fn all_folded(tree: Tree) -> bool
    decreases tree,
{
    match tree {
        Tree::Path { children, folded, .. } => {
            &&& folded
            &&& forall|i: int| 0 <= i < children.len() ==> all_folded(#[trigger] children[i])
        },
        Tree::Leaf { .. } => true,
    }
}

/// Every tree of the list is folded.
pub open spec fn all_nodes_folded(nodes: Seq<Tree>) -> bool {
    forall|i: int| 0 <= i < nodes.len() ==> all_folded(#[trigger] nodes[i])
}

proof fn lemma_inserted_folded(
    nodes: Seq<Tree>,
    parts: Seq<Seq<char>>,
    d: nat,
    current: Seq<char>,
    target: Seq<char>,
    scans: Seq<Tree>,
)
    requires
        all_nodes_folded(nodes),
        all_nodes_folded(scans),
    ensures
        all_nodes_folded(inserted(nodes, parts, d, current, target, scans)),
    decreases parts.len() - d,
{
    let more = inserted(nodes, parts, d, current, target, scans);
    if d + 1 >= parts.len() {
        assert forall|i: int| 0 <= i < more.len() implies all_folded(#[trigger] more[i]) by {
            if i < nodes.len() {
                assert(more[i] == nodes[i]);
            }
        }
    } else {
        let next = current.push('/') + parts[d as int];
        let k = place_of_path(nodes, next) as int;
        lemma_place_valid(nodes, next);
        if k < nodes.len() {
            assert(all_folded(nodes[k]));
            lemma_inserted_folded(nodes[k].nodes(), parts, d + 1, next, target, scans);
        } else {
            lemma_inserted_folded(Seq::empty(), parts, d + 1, next, target, scans);
        }
        assert forall|i: int| 0 <= i < more.len() implies all_folded(#[trigger] more[i]) by {
            if i < nodes.len() && i != k {
                assert(more[i] == nodes[i]);
            }
        }
    }
}

proof fn lemma_grown_folded(scans: Seq<Scan>, paths: Seq<Seq<char>>, n: nat)
    requires
        n <= paths.len(),
    ensures
        all_nodes_folded(grown(scans, paths, n)),
    decreases n,
{
    if n > 0 {
        let before = grown(scans, paths, (n - 1) as nat);
        let last = paths[n - 1];
        lemma_grown_folded(scans, paths, (n - 1) as nat);
        lemma_leaves_folded(scans, last, scans.len());
        let leaves = leaves_of(scans, last, scans.len());
        let target = crate::text::trim_end(last, '/');
        if path_parts(target).len() == 0 {
            let more = grown(scans, paths, n);
            assert forall|i: int| 0 <= i < more.len() implies all_folded(#[trigger] more[i]) by {
                if i < before.len() {
                    assert(more[i] == before[i]);
                }
            }
        } else {
            lemma_inserted_folded(before, path_parts(target), 0, Seq::empty(), target, leaves);
        }
    }
}

proof fn lemma_leaves_folded(scans: Seq<Scan>, path: Seq<char>, n: nat)
    ensures
        all_nodes_folded(leaves_of(scans, path, n)),
    decreases n,
{
    if n > 0 {
        lemma_leaves_folded(scans, path, (n - 1) as nat);
        let before = leaves_of(scans, path, (n - 1) as nat);
        let all = leaves_of(scans, path, n);
        assert forall|i: int| 0 <= i < all.len() implies all_folded(#[trigger] all[i]) by {
            if i < before.len() {
                assert(all[i] == before[i]);
            }
        }
    }
}

proof fn lemma_collapsed_folded(tree: Tree)
    requires
        all_folded(tree),
    ensures
        all_folded(collapsed(tree)),
    decreases tree,
{
    match tree {
        Tree::Path { children, .. } => {
            lemma_collapsed_path(tree);
            let inner = collapsed_trees(children);
            assert forall|i: int| 0 <= i < inner.len() implies all_folded(#[trigger] inner[i]) by {
                assert(all_folded(children[i]));
                lemma_collapsed_folded(children[i]);
            }
        },
        Tree::Leaf { .. } => {},
    }
}

/// A new tree is folded everywhere.
pub proof fn law_starts_folded(scans: Seq<Scan>, paths: Seq<Seq<char>>)
    requires
        is_path_list(scans, paths),
    ensures
        all_nodes_folded(collapsed_trees(grown(scans, paths, paths.len()))),
{
    let nodes = grown(scans, paths, paths.len());
    lemma_grown_folded(scans, paths, paths.len());
    assert forall|i: int| 0 <= i < nodes.len() implies all_folded(
        #[trigger] collapsed_trees(nodes)[i],
    ) by {
        assert(all_folded(nodes[i]));
        lemma_collapsed_folded(nodes[i]);
    }
}

/// The lines for the children of the node, unless they are folded away.
pub open spec fn lines_below(tree: Tree, depth: nat, index: nat) -> nat {
    match tree {
        Tree::Path { children, folded, .. } => if folded {
            0
        } else {
            lines_from(children, 0, depth, index).len()
        },
        Tree::Leaf { .. } => 0,
    }
}

/// Unfolding everything hides no line: a list never gets shorter by it.
pub proof fn law_unfolding_shows_more(
    nodes: Seq<Tree>,
    k: nat,
    depth: nat,
    index: nat,
    other: nat,
)
    ensures
        lines_from(nodes, k, depth, index).len() <= lines_from(
            unfolded_trees(nodes),
            k,
            depth,
            other,
        ).len(),
    decreases nodes, nodes.len() - k,
{
    if k < nodes.len() {
        let tree = nodes[k as int];
        let open = unfolded_trees(nodes);
        assert(open[k as int] == unfolded_tree(tree));
        let few = lines_below(tree, depth + 1, index + 1);
        let many = lines_below(unfolded_tree(tree), depth + 1, other + 1);
        match tree {
            Tree::Path { children, .. } => {
                lemma_unfolded_path(tree);
                law_unfolding_shows_more(children, 0, depth + 1, index + 1, other + 1);
            },
            Tree::Leaf { .. } => {},
        }
        law_unfolding_shows_more(nodes, k + 1, depth, index + 1 + few, other + 1 + many);
    }
}

proof fn lemma_refold_twice(nodes: Seq<Tree>, k: nat, path: Seq<char>)
    requires
        refolded_from(nodes, k, path, Refold::Toggle).1,
    ensures
        ({
            let once = refolded_from(nodes, k, path, Refold::Toggle).0;
            refolded_from(once, k, path, Refold::Toggle) == (nodes, true)
        }),
    decreases nodes, nodes.len() - k,
{
    let once = refolded_from(nodes, k, path, Refold::Toggle).0;
    let tree = nodes[k as int];
    if tree.full_path() == path {
        assert(once =~= nodes.update(k as int, tree.refolded(Refold::Toggle)));
        assert(once.update(k as int, once[k as int].refolded(Refold::Toggle)) =~= nodes);
    } else {
        match tree {
            Tree::Path { children, .. } => {
                let (below, hit) = refolded_from(children, 0, path, Refold::Toggle);
                if hit {
                    lemma_refold_twice(children, 0, path);
                    assert(once[k as int] == tree.with_children(below));
                    assert(once.update(k as int, once[k as int].with_children(children)) =~= nodes);
                } else {
                    lemma_refold_twice(nodes, k + 1, path);
                    lemma_refold_keeps(nodes, k + 1, path, Refold::Toggle);
                    assert(once[k as int] == tree);
                }
            },
            Tree::Leaf { .. } => {
                lemma_refold_twice(nodes, k + 1, path);
                lemma_refold_keeps(nodes, k + 1, path, Refold::Toggle);
                assert(once[k as int] == tree);
            },
        }
    }
}

proof fn lemma_refold_keeps(nodes: Seq<Tree>, k: nat, path: Seq<char>, how: Refold)
    ensures
        refolded_from(nodes, k, path, how).0.len() == nodes.len(),
        forall|i: int|
            0 <= i < k && i < nodes.len() ==> refolded_from(nodes, k, path, how).0[i]
                == #[trigger] nodes[i],
    decreases nodes.len() - k,
{
    if k < nodes.len() {
        lemma_refold_keeps(nodes, k + 1, path, how);
    }
}

/// Folding or unfolding a directory twice leaves the tree as it was.
pub proof fn law_toggle_fold_twice(nodes: Seq<Tree>, path: Seq<char>)
    requires
        refolded_from(nodes, 0, path, Refold::Toggle).1,
    ensures
        refolded_from(
            refolded_from(nodes, 0, path, Refold::Toggle).0,
            0,
            path,
            Refold::Toggle,
        ) == (nodes, true),
{
    lemma_refold_twice(nodes, 0, path);
}

/// Where no node has the path, nothing changes.
pub proof fn law_refold_miss(nodes: Seq<Tree>, k: nat, path: Seq<char>, how: Refold)
    requires
        !refolded_from(nodes, k, path, how).1,
    ensures
        refolded_from(nodes, k, path, how).0 == nodes,
    decreases nodes.len() - k,
{
    if k < nodes.len() {
        law_refold_miss(nodes, k + 1, path, how);
    }
}

/// Whether one path lies below another, with the slashes at their ends left aside.
pub open spec fn lies_under(path: Seq<char>, above: Seq<char>) -> bool {
    let (p, q) = (trim_end(path, '/'), trim_end(above, '/'));
    &&& encode_utf8(path).len() > encode_utf8(above).len()
    &&& p.len() > q.len()
    &&& p.take(q.len() as int) == q
    &&& p[q.len() as int] == '/'
}

proof fn lemma_lies_under(path: Seq<char>, above: Seq<char>)
    ensures
        below_path(path, above) <==> lies_under(path, above),
{
    let (p, q) = (trim_end(path, '/'), trim_end(above, '/'));
    let start = q.push('/');
    let n = q.len() as int;
    if start.is_prefix_of(p) {
        assert(p[n] == start[n]);
        assert(p.take(n) =~= q) by {
            assert forall|k: int| 0 <= k < n implies p[k] == q[k] by {
                assert(p[k] == start[k]);
            }
        }
    }
    if p.len() > n && p.take(n) == q && p[n] == '/' {
        assert(p.subrange(0, n + 1) =~= start);
    }
}

/// A path lies below another exactly where it goes on after that one and a slash; without slashes
/// at the ends, nothing more is to be said.
pub proof fn law_subpath(above: Seq<char>, rest: Seq<char>)
    requires
        above.len() > 0,
        above.last() != '/',
        rest.len() > 0,
        rest.last() != '/',
    ensures
        below_path(above.push('/') + rest, above),
        !below_path(above + rest, above) || rest[0] == '/',
        !below_path(above, above),
        !below_path(above, above.push('/') + rest),
{
    let path = above.push('/') + rest;
    let other = above + rest;
    lemma_lies_under(path, above);
    lemma_lies_under(other, above);
    lemma_lies_under(above, above);
    lemma_lies_under(above, path);
    assert(trim_end(path, '/') == path);
    assert(trim_end(other, '/') == other);
    assert(trim_end(above, '/') == above);
    lemma_longer(above, seq!['/'] + rest);
    assert(above + (seq!['/'] + rest) =~= path);
    assert(path.take(above.len() as int) =~= above);
    if lies_under(other, above) {
        assert(other[above.len() as int] == rest[0]);
    }
}

proof fn lemma_longer(a: Seq<char>, b: Seq<char>)
    requires
        b.len() > 0,
    ensures
        encode_utf8(a + b).len() > encode_utf8(a).len(),
    decreases a.len(),
{
    if a.len() > 0 {
        lemma_longer(a.drop_first(), b);
        assert((a + b).drop_first() =~= a.drop_first() + b);
    } else {
        assert(a + b =~= b);
        vstd::utf8::char_is_scalar(b[0]);
    }
}

/// Every scan in the tree stands right under the directory that it is of, and says of itself that
/// there are scans below it exactly where another one is of a path below its own.
pub open spec fn at_home(scans: Seq<Scan>, tree: Tree, dir: Option<Seq<char>>) -> bool
    decreases tree,
{
    match tree {
        Tree::Path { path, children, .. } => forall|i: int|
            0 <= i < children.len() ==> at_home(scans, #[trigger] children[i], Some(path)),
        Tree::Leaf { scan, has_subscans } => {
            &&& dir is Some
            &&& dir->0 == trim_end(scan.root_path@, '/') || (dir->0 == "/"@ && path_parts(
                trim_end(scan.root_path@, '/'),
            ).len() == 0)
            &&& has_subscans <==> exists|j: int|
                0 <= j < scans.len() && (#[trigger] scans[j]).root_path@ != scan.root_path@
                    && lies_under(scans[j].root_path@, scan.root_path@)
        },
    }
}

/// The same of some nodes under one directory.
pub open spec fn all_at_home(scans: Seq<Scan>, nodes: Seq<Tree>, dir: Option<Seq<char>>) -> bool {
    forall|i: int| 0 <= i < nodes.len() ==> at_home(scans, #[trigger] nodes[i], dir)
}

/// Every directory of the tree is called what its path ends with, and the root is called by a
/// slash.
pub open spec fn well_named(tree: Tree) -> bool
    decreases tree,
{
    match tree {
        Tree::Path { name, path, children, .. } => {
            &&& path_parts(path).len() > 0 ==> name == path_parts(path).last()
            &&& path_parts(path).len() == 0 ==> name == "/"@ && path == "/"@
            &&& forall|i: int| 0 <= i < children.len() ==> well_named(#[trigger] children[i])
        },
        Tree::Leaf { .. } => true,
    }
}

/// The same of some nodes.
pub open spec fn all_well_named(nodes: Seq<Tree>) -> bool {
    forall|i: int| 0 <= i < nodes.len() ==> well_named(#[trigger] nodes[i])
}

proof fn lemma_leaves_at_home(scans: Seq<Scan>, path: Seq<char>, n: nat, dir: Seq<char>)
    requires
        n <= scans.len(),
        dir == trim_end(path, '/') || (dir == "/"@ && path_parts(trim_end(path, '/')).len() == 0),
    ensures
        all_at_home(scans, leaves_of(scans, path, n), Some(dir)),
        all_well_named(leaves_of(scans, path, n)),
    decreases n,
{
    if n > 0 {
        lemma_leaves_at_home(scans, path, (n - 1) as nat, dir);
        let x = scans[n - 1];
        if x.root_path@ == path {
            if subscanned(scans, path) {
                let j = choose|j: int|
                    0 <= j < scans.len() && (#[trigger] scans[j]).root_path@ != path && below_path(
                        scans[j].root_path@,
                        path,
                    );
                lemma_lies_under(scans[j].root_path@, path);
            }
            if exists|j: int|
                0 <= j < scans.len() && (#[trigger] scans[j]).root_path@ != path && lies_under(
                    scans[j].root_path@,
                    path,
                ) {
                let j = choose|j: int|
                    0 <= j < scans.len() && (#[trigger] scans[j]).root_path@ != path && lies_under(
                        scans[j].root_path@,
                        path,
                    );
                lemma_lies_under(scans[j].root_path@, path);
                assert(scans[j].root_path@ != path);
            }
        }
    }
}

proof fn lemma_last_piece(s: Seq<char>, part: Seq<char>)
    requires
        !part.contains('/'),
    ensures
        split(s.push('/') + part, '/').last() == part,
        split(s.push('/') + part, '/').len() >= 2,
    decreases part.len(),
{
    let t = s.push('/') + part;
    if part.len() == 0 {
        assert(t =~= s.push('/'));
        assert(t.drop_last() =~= s);
        law_pieces_make_the_text(s, '/');
        assert(split(t, '/').last() =~= part);
    } else {
        let rest = part.drop_last();
        assert(!rest.contains('/')) by {
            if rest.contains('/') {
                let k = choose|k: int| 0 <= k < rest.len() && rest[k] == '/';
                assert(part[k] == '/');
            }
        }
        lemma_last_piece(s, rest);
        assert(t.drop_last() =~= s.push('/') + rest);
        assert(part.contains(part[part.len() - 1]));
        assert(t.last() == part.last());
        assert(split(t, '/').last() =~= part);
    }
}

proof fn lemma_parts_are_names(parts: Seq<Seq<char>>)
    requires
        forall|i: int| 0 <= i < parts.len() ==> !(#[trigger] parts[i]).contains('/'),
    ensures
        forall|i: int|
            0 <= i < nonempty(parts).len() ==> (#[trigger] nonempty(parts)[i]).len() > 0
                && !nonempty(parts)[i].contains('/'),
    decreases parts.len(),
{
    if parts.len() > 0 {
        let rest = parts.drop_last();
        assert forall|i: int| 0 <= i < rest.len() implies !(#[trigger] rest[i]).contains('/') by {
            assert(rest[i] == parts[i]);
        }
        lemma_parts_are_names(rest);
        assert(!parts[parts.len() - 1].contains('/'));
        let before = nonempty(rest);
        assert forall|i: int| 0 <= i < nonempty(parts).len() implies (
        #[trigger] nonempty(parts)[i]).len() > 0 && !nonempty(parts)[i].contains('/') by {
            if i < before.len() {
                assert(nonempty(parts)[i] == before[i]);
            }
        }
    }
}

proof fn lemma_inserted_at_home(
    all: Seq<Scan>,
    dir: Option<Seq<char>>,
    nodes: Seq<Tree>,
    parts: Seq<Seq<char>>,
    d: nat,
    current: Seq<char>,
    target: Seq<char>,
    scans: Seq<Tree>,
)
    requires
        d < parts.len(),
        all_at_home(all, nodes, dir),
        all_at_home(all, scans, Some(target)),
        all_well_named(nodes),
        all_well_named(scans),
        parts == path_parts(target),
        forall|i: int|
            0 <= i < parts.len() ==> (#[trigger] parts[i]).len() > 0 && !parts[i].contains('/'),
    ensures
        all_at_home(all, inserted(nodes, parts, d, current, target, scans), dir),
        all_well_named(inserted(nodes, parts, d, current, target, scans)),
    decreases parts.len() - d,
{
    let r = inserted(nodes, parts, d, current, target, scans);
    if d + 1 >= parts.len() {
        let node = path_node(parts.last(), target, scans);
        assert(at_home(all, node, dir)) by {
            assert forall|i: int| 0 <= i < scans.len() implies at_home(
                all,
                #[trigger] scans[i],
                Some(target),
            ) by {}
        }
        assert(well_named(node));
        assert forall|i: int| 0 <= i < r.len() implies at_home(all, #[trigger] r[i], dir)
            && well_named(r[i]) by {
            if i < nodes.len() {
                assert(r[i] == nodes[i]);
            }
        }
    } else {
        let part = parts[d as int];
        let next = current.push('/') + part;
        let k = place_of_path(nodes, next) as int;
        if k < nodes.len() {
            lemma_found_is_path(nodes, next);
            let node = nodes[k];
            assert(at_home(all, node, dir) && well_named(node));
            let inner = inserted(node.nodes(), parts, d + 1, next, target, scans);
            lemma_inserted_at_home(
                all,
                Some(node->path),
                node.nodes(),
                parts,
                d + 1,
                next,
                target,
                scans,
            );
            assert(at_home(all, node.with_children(inner), dir));
            assert(well_named(node.with_children(inner)));
            assert forall|i: int| 0 <= i < r.len() implies at_home(all, #[trigger] r[i], dir)
                && well_named(r[i]) by {
                if i != k {
                    assert(r[i] == nodes[i]);
                }
            }
        } else {
            let none = Seq::<Tree>::empty();
            let inner = inserted(none, parts, d + 1, next, target, scans);
            lemma_inserted_at_home(all, Some(next), none, parts, d + 1, next, target, scans);
            let node = path_node(part, next, inner);
            lemma_last_piece(current, part);
            assert(parts[d as int].len() > 0);
            assert(path_parts(next).last() == part);
            assert(at_home(all, node, dir));
            assert(well_named(node));
            assert forall|i: int| 0 <= i < r.len() implies at_home(all, #[trigger] r[i], dir)
                && well_named(r[i]) by {
                if i < nodes.len() {
                    assert(r[i] == nodes[i]);
                }
            }
        }
    }
}

proof fn lemma_found_is_path(nodes: Seq<Tree>, path: Seq<char>)
    requires
        place_of_path(nodes, path) < nodes.len(),
    ensures
        nodes[place_of_path(nodes, path) as int] is Path,
        nodes[place_of_path(nodes, path) as int].full_path() == path,
    decreases nodes.len(),
{
    if !(nodes[0] is Path && nodes[0].full_path() == path) {
        lemma_found_is_path(nodes.skip(1), path);
    }
}

proof fn lemma_grown_at_home(scans: Seq<Scan>, paths: Seq<Seq<char>>, n: nat)
    requires
        n <= paths.len(),
    ensures
        all_at_home(scans, grown(scans, paths, n), None),
        all_well_named(grown(scans, paths, n)),
    decreases n,
{
    if n > 0 {
        let before = grown(scans, paths, (n - 1) as nat);
        let path = paths[n - 1];
        let leaves = leaves_of(scans, path, scans.len());
        let target = trim_end(path, '/');
        let parts = path_parts(target);
        lemma_grown_at_home(scans, paths, (n - 1) as nat);
        if parts.len() == 0 {
            lemma_leaves_at_home(scans, path, scans.len(), "/"@);
            let node = path_node("/"@, "/"@, leaves);
            assert(at_home(scans, node, None));
            assert(path_parts("/"@).len() == 0) by {
                reveal_strlit("/");
                assert("/"@ =~= seq!['/']);
                let pieces = split(seq!['/'], '/');
                assert(seq!['/'].drop_last() =~= Seq::empty());
                assert(split(Seq::<char>::empty(), '/') =~= seq![Seq::<char>::empty()]);
                assert(pieces =~= seq![Seq::<char>::empty(), Seq::<char>::empty()]);
                assert(pieces.len() == 2 && pieces[0].len() == 0 && pieces[1].len() == 0);
                assert(pieces.drop_last().drop_last() =~= Seq::empty());
                assert(nonempty(pieces.drop_last().drop_last()).len() == 0);
                assert(nonempty(pieces.drop_last()).len() == 0);
            }
            assert(well_named(node));
            let r = with_path(before, path, leaves);
            assert forall|i: int| 0 <= i < r.len() implies at_home(scans, #[trigger] r[i], None)
                && well_named(r[i]) by {
                if i < before.len() {
                    assert(r[i] == before[i]);
                }
            }
        } else {
            lemma_leaves_at_home(scans, path, scans.len(), target);
            law_pieces_make_the_text(target, '/');
            lemma_parts_are_names(split(target, '/'));
            lemma_inserted_at_home(scans, None, before, parts, 0, Seq::empty(), target, leaves);
        }
    }
}

proof fn lemma_collapsed_at_home(scans: Seq<Scan>, tree: Tree, dir: Option<Seq<char>>)
    requires
        at_home(scans, tree, dir),
        well_named(tree),
    ensures
        at_home(scans, collapsed(tree), dir),
        well_named(collapsed(tree)),
    decreases tree,
{
    match tree {
        Tree::Path { path, children, .. } => {
            lemma_collapsed_path(tree);
            let inner = collapsed_trees(children);
            assert forall|i: int| 0 <= i < inner.len() implies at_home(
                scans,
                #[trigger] inner[i],
                Some(path),
            ) && well_named(inner[i]) by {
                assert(at_home(scans, children[i], Some(path)));
                assert(well_named(children[i]));
                lemma_collapsed_at_home(scans, children[i], Some(path));
            }
            if inner.len() == 1 && inner[0] is Path {
                assert(at_home(scans, inner[0], Some(path)));
                assert(well_named(inner[0]));
            }
        },
        Tree::Leaf { .. } => {},
    }
}

/// In the tree of some scans, every scan stands right under the directory that it is of and knows
/// whether scans of directories below are there, and every directory has the name that its path
/// ends with.
pub proof fn law_scans_under_their_directories(scans: Seq<Scan>, paths: Seq<Seq<char>>)
    requires
        is_path_list(scans, paths),
    ensures
        all_at_home(scans, collapsed_trees(grown(scans, paths, paths.len())), None),
        all_well_named(collapsed_trees(grown(scans, paths, paths.len()))),
{
    let nodes = grown(scans, paths, paths.len());
    lemma_grown_at_home(scans, paths, paths.len());
    assert forall|i: int| 0 <= i < nodes.len() implies at_home(
        scans,
        #[trigger] collapsed_trees(nodes)[i],
        None,
    ) && well_named(collapsed_trees(nodes)[i]) by {
        assert(at_home(scans, nodes[i], None));
        assert(well_named(nodes[i]));
        lemma_collapsed_at_home(scans, nodes[i], None);
    }
}

/// The scanned paths are gone through in dictionary order, each one once.
pub proof fn law_paths_in_dictionary_order(
    scans: Seq<Scan>,
    paths: Seq<Seq<char>>,
    p: int,
    q: int,
) -> (k: int)
    requires
        is_path_list(scans, paths),
        0 <= p < q < paths.len(),
    ensures
        ({
            let (a, b) = (paths[p], paths[q]);
            &&& a != b
            &&& 0 <= k <= a.len()
            &&& k <= b.len()
            &&& a.take(k) == b.take(k)
            &&& k < a.len() ==> k < b.len() && (a[k] as u32) < (b[k] as u32)
        }),
        exists|i: int| 0 <= i < scans.len() && (#[trigger] scans[i]).root_path@ == paths[p],
{
    assert(strictly_before(paths[p], paths[q]));
    assert(paths.contains(paths[p]));
    lemma_text_le_at(paths[p], paths[q])
}

/// A tree without its folding.
pub open spec fn bare(tree: Tree) -> Tree
    decreases tree,
{
    match tree {
        Tree::Path { name, path, children, .. } => Tree::Path {
            name,
            path,
            children: Seq::new(
                children.len(),
                |i: int|
                    if 0 <= i < children.len() {
                        bare(children[i])
                    } else {
                        arbitrary()
                    },
            ),
            folded: true,
        },
        Tree::Leaf { .. } => tree,
    }
}

/// Whether the first node with `path`, each node before what is below it, is folded; `None` where
/// there is no such node.
pub open spec fn fold_at(nodes: Seq<Tree>, k: nat, path: Seq<char>) -> Option<bool>
    decreases nodes, nodes.len() - k,
{
    if k >= nodes.len() {
        None
    } else {
        match nodes[k as int] {
            Tree::Path { path: own, children, folded, .. } => if own == path {
                Some(folded)
            } else {
                match fold_at(children, 0, path) {
                    Some(folded) => Some(folded),
                    None => fold_at(nodes, k + 1, path),
                }
            },
            Tree::Leaf { scan, .. } => if scan.root_path@ == path {
                Some(false)
            } else {
                fold_at(nodes, k + 1, path)
            },
        }
    }
}

/// How many nodes there are from the `k`th on with what is below them whose folding differs.
pub open spec fn differences(a: Seq<Tree>, b: Seq<Tree>, k: nat) -> nat
    decreases a, a.len() - k,
{
    if k >= a.len() {
        0
    } else {
        (match (a[k as int], b[k as int]) {
            (
                Tree::Path { children, folded, .. },
                Tree::Path { children: others, folded: other, .. },
            ) => differences(children, others, 0) + if folded == other {
                0nat
            } else {
                1
            },
            _ => 0,
        }) + differences(a, b, k + 1)
    }
}

proof fn lemma_no_differences(a: Seq<Tree>, b: Seq<Tree>, k: nat)
    requires
        a.len() == b.len(),
        forall|i: int| k <= i < a.len() ==> #[trigger] a[i] == b[i],
    ensures
        differences(a, b, k) == 0,
    decreases a, a.len() - k,
{
    if k < a.len() {
        lemma_no_differences(a, b, k + 1);
        assert(a[k as int] == b[k as int]);
        if let Tree::Path { children, .. } = a[k as int] {
            lemma_no_differences(children, children, 0);
        }
    }
}

proof fn lemma_refolded(nodes: Seq<Tree>, k: nat, path: Seq<char>, how: Refold)
    ensures
        refolded_from(nodes, k, path, how).1 <==> fold_at(nodes, k, path) is Some,
        refolded_from(nodes, k, path, how).0.len() == nodes.len(),
        forall|i: int|
            0 <= i < nodes.len() ==> bare(#[trigger] refolded_from(nodes, k, path, how).0[i])
                == bare(nodes[i]),
        differences(nodes, refolded_from(nodes, k, path, how).0, k) <= 1,
    decreases nodes, nodes.len() - k,
{
    let (next, hit) = refolded_from(nodes, k, path, how);
    if k >= nodes.len() {
        assert(differences(nodes, next, k) == 0);
    } else {
        let tree = nodes[k as int];
        if tree.full_path() == path {
            assert forall|i: int| 0 <= i < nodes.len() implies bare(#[trigger] next[i]) == bare(
                nodes[i],
            ) by {
                if i == k {
                    lemma_bare_of_fold(tree, how == Refold::Toggle && !tree.is_folded());
                }
            }
            lemma_no_differences(nodes, next, k + 1);
            if let Tree::Path { children, .. } = tree {
                lemma_no_differences(children, children, 0);
            }
        } else {
            lemma_refold_keeps(nodes, k + 1, path, how);
            lemma_refolded(nodes, k + 1, path, how);
            match tree {
                Tree::Path { children, .. } => {
                    lemma_refolded(children, 0, path, how);
                    let (below, inside) = refolded_from(children, 0, path, how);
                    if inside {
                        assert(next =~= nodes.update(k as int, tree.with_children(below)));
                        assert(bare(tree.with_children(below)) == bare(tree)) by {
                            assert(bare(tree.with_children(below))->children =~= bare(
                                tree,
                            )->children);
                        }
                        assert forall|i: int| 0 <= i < nodes.len() implies bare(
                            #[trigger] next[i],
                        ) == bare(nodes[i]) by {}
                        lemma_no_differences(nodes, next, k + 1);
                    } else {
                        assert(next[k as int] == tree);
                        lemma_no_differences(children, children, 0);
                    }
                },
                Tree::Leaf { .. } => {
                    assert(next[k as int] == tree);
                },
            }
        }
    }
}

proof fn lemma_bare_of_fold(tree: Tree, fold: bool)
    ensures
        bare(tree.with_fold(fold)) == bare(tree),
{
    if tree is Path {
        assert(bare(tree.with_fold(fold))->children =~= bare(tree)->children);
    }
}

proof fn lemma_fold_after(nodes: Seq<Tree>, k: nat, path: Seq<char>, how: Refold)
    requires
        fold_at(nodes, k, path) is Some,
    ensures
        ({
            let next = refolded_from(nodes, k, path, how).0;
            &&& fold_at(next, k, path) is Some
            &&& how == Refold::Unfold ==> fold_at(next, k, path) == Some(false)
            &&& how == Refold::Toggle && fold_at(nodes, k, path) == Some(true) ==> fold_at(
                next,
                k,
                path,
            ) == Some(false)
        }),
    decreases nodes, nodes.len() - k,
{
    let next = refolded_from(nodes, k, path, how).0;
    let tree = nodes[k as int];
    lemma_refolded(nodes, k, path, how);
    if tree.full_path() != path {
        match tree {
            Tree::Path { children, .. } => {
                lemma_refolded(children, 0, path, how);
                if fold_at(children, 0, path) is Some {
                    lemma_fold_after(children, 0, path, how);
                } else {
                    lemma_fold_after(nodes, k + 1, path, how);
                    lemma_refold_keeps(nodes, k + 1, path, how);
                    assert(next[k as int] == tree);
                }
            },
            Tree::Leaf { .. } => {
                lemma_fold_after(nodes, k + 1, path, how);
                lemma_refold_keeps(nodes, k + 1, path, how);
                assert(next[k as int] == tree);
            },
        }
    }
}

/// Folding or unfolding by path finds the first node with that path. A folded one is unfolded by
/// either, and unfolding never folds; no other node is folded or unfolded, and nothing else in the
/// tree changes.
pub proof fn law_one_node_is_refolded(nodes: Seq<Tree>, path: Seq<char>, how: Refold)
    ensures
        ({
            let (next, hit) = refolded_from(nodes, 0, path, how);
            &&& hit <==> fold_at(nodes, 0, path) is Some
            &&& next.len() == nodes.len()
            &&& forall|i: int|
                0 <= i < nodes.len() ==> bare(#[trigger] next[i]) == bare(nodes[i])
            &&& differences(nodes, next, 0) <= 1
            &&& hit && how == Refold::Unfold ==> fold_at(next, 0, path) == Some(false)
            &&& hit && how == Refold::Toggle && fold_at(nodes, 0, path) == Some(true) ==> fold_at(
                next,
                0,
                path,
            ) == Some(false)
        }),
{
    lemma_refolded(nodes, 0, path, how);
    if fold_at(nodes, 0, path) is Some {
        lemma_fold_after(nodes, 0, path, how);
    }
}

/// Unfolding everything leaves no directory folded, and nothing else changes.
pub proof fn law_nothing_stays_folded(tree: Tree)
    ensures
        bare(unfolded_tree(tree)) == bare(tree),
        tree is Path ==> unfolded_tree(tree) is Path && !unfolded_tree(tree)->folded && forall|i: int|
            0 <= i < tree->children.len() ==> #[trigger] unfolded_tree(tree)->children[i]
                == unfolded_tree(tree->children[i]),
        tree is Leaf ==> unfolded_tree(tree) == tree,
    decreases tree,
{
    if let Tree::Path { children, .. } = tree {
        assert forall|i: int| 0 <= i < children.len() implies bare(
            #[trigger] unfolded_tree(children[i]),
        ) == bare(children[i]) by {
            law_nothing_stays_folded(children[i]);
        }
        let open = unfolded_tree(tree);
        assert(open->children.len() == children.len());
        assert forall|i: int| 0 <= i < children.len() implies bare(open)->children[i] == bare(
            tree,
        )->children[i] by {
            assert(open->children[i] == unfolded_tree(children[i]));
            assert(bare(open)->children[i] == bare(open->children[i]));
        }
        assert(bare(open)->children =~= bare(tree)->children);
    }
}

/// The lines of a tree are numbered in order, and none lies less deep than the nodes that it was
/// made from.
pub proof fn law_lines_are_numbered(nodes: Seq<Tree>, k: nat, depth: nat, index: nat)
    ensures
        forall|i: int|
            0 <= i < lines_from(nodes, k, depth, index).len() ==> (#[trigger] lines_from(
                nodes,
                k,
                depth,
                index,
            )[i]).index == index + i && lines_from(nodes, k, depth, index)[i].depth >= depth,
        k < nodes.len() ==> lines_from(nodes, k, depth, index).len() > 0 && lines_from(
            nodes,
            k,
            depth,
            index,
        )[0].tree == nodes[k as int] && lines_from(nodes, k, depth, index)[0].depth == depth,
    decreases nodes, nodes.len() - k,
{
    if k < nodes.len() {
        let all = lines_from(nodes, k, depth, index);
        let below = match nodes[k as int] {
            Tree::Path { children, folded, .. } => if folded {
                Seq::empty()
            } else {
                lines_from(children, 0, depth + 1, index + 1)
            },
            Tree::Leaf { .. } => Seq::empty(),
        };
        let later = lines_from(nodes, k + 1, depth, index + 1 + below.len());
        if let Tree::Path { children, folded, .. } = nodes[k as int] {
            if !folded {
                law_lines_are_numbered(children, 0, depth + 1, index + 1);
            }
        }
        law_lines_are_numbered(nodes, k + 1, depth, index + 1 + below.len());
        assert forall|i: int| 0 <= i < all.len() implies (#[trigger] all[i]).index == index + i
            && all[i].depth >= depth by {
            if 1 <= i <= below.len() {
                assert(all[i] == below[i - 1]);
            } else if i > below.len() {
                assert(all[i] == later[i - 1 - below.len()]);
            }
        }
    }
}

/// What stands right below a line: an unfolded directory is followed by the first node in it, one
/// deeper; after a scan, a folded directory or an empty one nothing deeper follows.
pub proof fn law_next_line(nodes: Seq<Tree>, k: nat, depth: nat, index: nat, i: int)
    requires
        0 <= i < lines_from(nodes, k, depth, index).len(),
    ensures
        ({
            let all = lines_from(nodes, k, depth, index);
            let line = all[i];
            if line.tree is Path && !line.tree->folded && line.tree->children.len() > 0 {
                &&& i + 1 < all.len()
                &&& all[i + 1].tree == line.tree->children[0]
                &&& all[i + 1].depth == line.depth + 1
            } else {
                i + 1 < all.len() ==> all[i + 1].depth <= line.depth
            }
        }),
    decreases nodes, nodes.len() - k,
{
    let all = lines_from(nodes, k, depth, index);
    let below = match nodes[k as int] {
        Tree::Path { children, folded, .. } => if folded {
            Seq::empty()
        } else {
            lines_from(children, 0, depth + 1, index + 1)
        },
        Tree::Leaf { .. } => Seq::empty(),
    };
    let later = lines_from(nodes, k + 1, depth, index + 1 + below.len());
    let n = below.len() as int;
    law_lines_are_numbered(nodes, k + 1, depth, index + 1 + below.len());
    if let Tree::Path { children, folded, .. } = nodes[k as int] {
        if !folded {
            law_lines_are_numbered(children, 0, depth + 1, index + 1);
        }
    }
    assert(forall|m: int| 1 <= m <= n ==> all[m] == #[trigger] below[m - 1]);
    assert(forall|m: int| 0 <= m < later.len() ==> all[m + 1 + n] == #[trigger] later[m]);
    if i == 0 {
        if n > 0 {
            assert(all[1] == below[0]);
        } else if all.len() > 1 {
            assert(all[1] == later[0]);
        }
    } else if i <= n {
        if let Tree::Path { children, folded, .. } = nodes[k as int] {
            law_next_line(children, 0, depth + 1, index + 1, i - 1);
            assert(all[i] == below[i - 1]);
            if i < n {
                assert(all[i + 1] == below[i]);
            } else if i + 1 < all.len() {
                assert(all[i + 1] == later[0]);
            }
        }
    } else {
        law_next_line(nodes, k + 1, depth, index + 1 + below.len(), i - 1 - n);
        assert(all[i] == later[i - 1 - n]);
        if i + 1 < all.len() {
            assert(all[i + 1] == later[i - n]);
        }
    }
}

} // verus!
