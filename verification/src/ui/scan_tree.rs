//! Scans arranged by the directories that they are of.
use vstd::hash_map::StringHashMap;
use vstd::prelude::*;
use vstd::string::*;

use crate::db::Scan;
use crate::sort::{goes_before, sorted_order, Alphabetical, SortKey};
use crate::text::{
    begins_with, split, split_text, text_eq, text_le, texts, to_chars, trim_end, trim_end_of,
};

verus! {

/// A node of the tree of scans.
#[derive(Debug)]
pub enum ScanTreeNode {
    /// A directory that groups scans.
    PathNode {
        /// The last part of the path.
        name: String,
        full_path: String,
        children: Vec<ScanTreeNode>,
        folded: bool,
    },
    /// A scan.
    ScanNode {
        scan: Scan,
        /// Whether directories below the scanned one have scans too.
        has_subscans: bool,
    },
}

/// A node, with sequences in place of strings and vectors.
pub ghost enum Tree {
    Path { name: Seq<char>, path: Seq<char>, children: Seq<Tree>, folded: bool },
    Leaf { scan: Scan, has_subscans: bool },
}

/// The tree that a node holds.
pub open spec fn tree_of(node: ScanTreeNode) -> Tree
    decreases node,
{
    match node {
        ScanTreeNode::PathNode { name, full_path, children, folded } => Tree::Path {
            name: name@,
            path: full_path@,
            children: Seq::new(
                children@.len(),
                |i: int|
                    if 0 <= i < children@.len() {
                        tree_of(children@[i])
                    } else {
                        arbitrary()
                    },
            ),
            folded,
        },
        ScanTreeNode::ScanNode { scan, has_subscans } => Tree::Leaf { scan, has_subscans },
    }
}

impl View for ScanTreeNode {
    type V = Tree;

    open spec fn view(&self) -> Tree {
        tree_of(*self)
    }
}

/// The trees of some nodes.
pub open spec fn trees(nodes: Seq<ScanTreeNode>) -> Seq<Tree> {
    Seq::new(nodes.len(), |i: int| nodes[i]@)
}

proof fn lemma_path_node_view(node: ScanTreeNode)
    requires
        node is PathNode,
    ensures
        node@ == (Tree::Path {
            name: node->name@,
            path: node->full_path@,
            children: trees(node->children@),
            folded: node->folded,
        }),
{
    match node {
        ScanTreeNode::PathNode { name, full_path, children, folded } => {
            assert(node@->children =~= trees(children@));
        },
        _ => {},
    }
}

impl Tree {
    /// The path that the node stands for.
    pub open spec fn full_path(self) -> Seq<char> {
        match self {
            Tree::Path { path, .. } => path,
            Tree::Leaf { scan, .. } => scan.root_path@,
        }
    }

    /// Whether the node's children are folded away.
    pub open spec fn is_folded(self) -> bool {
        self is Path && self->folded
    }

    /// The node, folded or not. A scan stays as it is.
    pub open spec fn with_fold(self, fold: bool) -> Tree {
        match self {
            Tree::Path { name, path, children, .. } => Tree::Path {
                name,
                path,
                children,
                folded: fold,
            },
            Tree::Leaf { .. } => self,
        }
    }

    /// The node with other children. A scan stays as it is.
    pub open spec fn with_children(self, children: Seq<Tree>) -> Tree {
        match self {
            Tree::Path { name, path, folded, .. } => Tree::Path { name, path, children, folded },
            Tree::Leaf { .. } => self,
        }
    }

    /// The node's children: none for a scan.
    pub open spec fn nodes(self) -> Seq<Tree> {
        match self {
            Tree::Path { children, .. } => children,
            Tree::Leaf { .. } => Seq::empty(),
        }
    }
}

impl ScanTreeNode {
    /// The path that the node stands for.
    pub fn full_path(&self) -> (path: &str)
        ensures
            path@ == self@.full_path(),
    {
        match self {
            ScanTreeNode::PathNode { full_path, .. } => full_path.as_str(),
            ScanTreeNode::ScanNode { scan, .. } => scan.root_path.as_str(),
        }
    }

    /// Whether the node's children are folded away.
    pub fn is_folded(&self) -> (b: bool)
        ensures
            b == self@.is_folded(),
    {
        match self {
            ScanTreeNode::PathNode { folded, .. } => *folded,
            ScanTreeNode::ScanNode { .. } => false,
        }
    }

    /// Folds or unfolds the node; a scan stays as it is.
    pub fn set_folded(&mut self, fold: bool)
        ensures
            final(self)@ == old(self)@.with_fold(fold),
            final(self).nodes() == old(self).nodes(),
    {
        match self {
            ScanTreeNode::PathNode { folded, .. } => {
                *folded = fold;
            },
            ScanTreeNode::ScanNode { .. } => {},
        }
        proof {
            if *self is PathNode {
                lemma_path_node_view(*old(self));
                lemma_path_node_view(*self);
            }
        }
    }

    /// The node's children as they stand in memory.
    pub open spec fn nodes(&self) -> Seq<ScanTreeNode> {
        match self {
            ScanTreeNode::PathNode { children, .. } => children@,
            ScanTreeNode::ScanNode { .. } => Seq::empty(),
        }
    }

    /// The node's children; none for a scan.
    pub fn children(&self) -> (children: &[ScanTreeNode])
        ensures
            children@ == self.nodes(),
            trees(children@) == self@.nodes(),
    {
        match self {
            ScanTreeNode::PathNode { children, .. } => {
                proof {
                    lemma_path_node_view(*self);
                }
                children.as_slice()
            },
            ScanTreeNode::ScanNode { .. } => {
                let none: &[ScanTreeNode] = &[];
                assert(none@ =~= Seq::empty());
                assert(trees(none@) =~= Seq::empty());
                none
            },
        }
    }

    /// The node's children, to be changed; a scan has none.
    pub fn children_mut(&mut self) -> (children: Option<&mut Vec<ScanTreeNode>>)
        ensures
            match children {
                Some(c) => {
                    &&& *old(self) is PathNode
                    &&& *c == old(self)->children
                    &&& *final(self) == (ScanTreeNode::PathNode {
                        name: old(self)->name,
                        full_path: old(self)->full_path,
                        children: *final(c),
                        folded: old(self)->folded,
                    })
                },
                None => *old(self) is ScanNode && *final(self) == *old(self),
            },
    {
        match self {
            ScanTreeNode::PathNode { children, .. } => Some(children),
            ScanTreeNode::ScanNode { .. } => None,
        }
    }
}

/// What is done to the first node with a path.
#[derive(Debug, Clone, Copy, PartialEq, Eq, Structural)]
pub enum Refold {
    Toggle,
    Unfold,
}

impl Tree {
    /// The node after a change of its folding.
    pub open spec fn refolded(self, how: Refold) -> Tree {
        self.with_fold(how == Refold::Toggle && !self.is_folded())
    }
}

/// The nodes from the `k`th on after the first one with `path`, each node before what is below
/// it, has been folded or unfolded; and whether there is one.
pub open spec fn refolded_from(nodes: Seq<Tree>, k: nat, path: Seq<char>, how: Refold) -> (
    Seq<Tree>,
    bool,
)
    decreases nodes, nodes.len() - k,
{
    if k >= nodes.len() {
        (nodes, false)
    } else if nodes[k as int].full_path() == path {
        (nodes.update(k as int, nodes[k as int].refolded(how)), true)
    } else {
        match nodes[k as int] {
            Tree::Path { children, .. } => {
                let (below, hit) = refolded_from(children, 0, path, how);
                if hit {
                    (nodes.update(k as int, nodes[k as int].with_children(below)), true)
                } else {
                    refolded_from(nodes, k + 1, path, how)
                }
            },
            Tree::Leaf { .. } => refolded_from(nodes, k + 1, path, how),
        }
    }
}

fn refold(nodes: &mut Vec<ScanTreeNode>, path: &str, how: Refold) -> (hit: bool)
    ensures
        (trees(final(nodes)@), hit) == refolded_from(trees(old(nodes)@), 0, path@, how),
        !hit ==> trees(final(nodes)@) == trees(old(nodes)@),
    decreases old(nodes)@,
{
    let ghost start = trees(nodes@);
    let mut k: usize = 0;
    while k < nodes.len()
        invariant
            k <= nodes@.len(),
            nodes@.len() == old(nodes)@.len(),
            forall|j: int| k <= j < nodes@.len() ==> #[trigger] nodes@[j] == old(nodes)@[j],
            start == trees(old(nodes)@),
            trees(nodes@) == start,
            refolded_from(start, 0, path@, how) == refolded_from(start, k as nat, path@, how),
        decreases nodes@.len() - k,
    {
        let ghost tree = start[k as int];
        if text_eq(nodes[k].full_path(), path) {
            let fold = match how {
                Refold::Toggle => !nodes[k].is_folded(),
                Refold::Unfold => false,
            };
            assert(start[k as int] == trees(nodes@)[k as int]);
            let node: &mut ScanTreeNode = &mut nodes[k];
            node.set_folded(fold);
            assert(trees(nodes@) =~= start.update(k as int, tree.refolded(how)));
            return true;
        }
        let ghost before = nodes@[k as int];
        proof {
            assert(start[k as int] == trees(nodes@)[k as int]);
            if before is PathNode {
                lemma_path_node_view(before);
            }
        }
        let node: &mut ScanTreeNode = &mut nodes[k];
        match node.children_mut() {
            Some(children) => {
                let hit = refold(children, path, how);
                if hit {
                    proof {
                        lemma_path_node_view(nodes@[k as int]);
                        assert(trees(nodes@) =~= start.update(
                            k as int,
                            tree.with_children(trees(nodes@[k as int]->children@)),
                        ));
                    }
                    return true;
                }
                proof {
                    lemma_path_node_view(nodes@[k as int]);
                    assert(trees(nodes@) =~= start);
                }
            },
            None => {
                assert(trees(nodes@) =~= start);
            },
        }
        k = k + 1;
    }
    false
}

/// Folds or unfolds the first node with `path`; whether there is one.
pub fn toggle_fold(tree: &mut Vec<ScanTreeNode>, path: &str) -> (hit: bool)
    ensures
        (trees(final(tree)@), hit) == refolded_from(
            trees(old(tree)@),
            0,
            path@,
            Refold::Toggle,
        ),
{
    refold(tree, path, Refold::Toggle)
}

/// Unfolds the first node with `path`; whether there is one.
pub fn unfold(tree: &mut Vec<ScanTreeNode>, path: &str) -> (hit: bool)
    ensures
        (trees(final(tree)@), hit) == refolded_from(
            trees(old(tree)@),
            0,
            path@,
            Refold::Unfold,
        ),
{
    refold(tree, path, Refold::Unfold)
}

/// The tree with every node unfolded.
pub open spec fn unfolded_tree(tree: Tree) -> Tree
    decreases tree,
{
    match tree {
        Tree::Path { name, path, children, .. } => Tree::Path {
            name,
            path,
            children: Seq::new(
                children.len(),
                |i: int|
                    if 0 <= i < children.len() {
                        unfolded_tree(children[i])
                    } else {
                        arbitrary()
                    },
            ),
            folded: false,
        },
        Tree::Leaf { .. } => tree,
    }
}

/// The trees with every node unfolded.
pub open spec fn unfolded_trees(nodes: Seq<Tree>) -> Seq<Tree> {
    Seq::new(nodes.len(), |i: int| unfolded_tree(nodes[i]))
}

pub proof fn lemma_unfolded_path(tree: Tree)
    requires
        tree is Path,
    ensures
        unfolded_tree(tree) == tree.with_fold(false).with_children(
            unfolded_trees(tree->children),
        ),
{
    assert(unfolded_tree(tree)->children =~= unfolded_trees(tree->children));
}

/// Unfolds every node.
pub fn unfold_all(tree: &mut Vec<ScanTreeNode>)
    ensures
        trees(final(tree)@) == unfolded_trees(trees(old(tree)@)),
    decreases old(tree)@,
{
    let ghost start = trees(tree@);
    let mut k: usize = 0;
    while k < tree.len()
        invariant
            k <= tree@.len(),
            tree@.len() == old(tree)@.len(),
            start == trees(old(tree)@),
            forall|j: int| k <= j < tree@.len() ==> #[trigger] tree@[j] == old(tree)@[j],
            forall|j: int| 0 <= j < k ==> (#[trigger] tree@[j])@ == unfolded_tree(start[j]),
        decreases tree@.len() - k,
    {
        let ghost before = tree@[k as int];
        proof {
            assert(start[k as int] == before@);
            if before is PathNode {
                lemma_path_node_view(before);
                lemma_unfolded_path(before@);
            }
        }
        let node: &mut ScanTreeNode = &mut tree[k];
        match node {
            ScanTreeNode::PathNode { children, folded, .. } => {
                *folded = false;
                unfold_all(children);
            },
            ScanTreeNode::ScanNode { .. } => {},
        }
        proof {
            if before is PathNode {
                lemma_path_node_view(tree@[k as int]);
            }
        }
        k = k + 1;
    }
    assert(trees(tree@) =~= unfolded_trees(start));
}

fn copy_nodes(nodes: &Vec<ScanTreeNode>) -> (copy: Vec<ScanTreeNode>)
    ensures
        trees(copy@) == trees(nodes@),
    decreases nodes@,
{
    let mut copy: Vec<ScanTreeNode> = Vec::new();
    let mut k: usize = 0;
    while k < nodes.len()
        invariant
            k <= nodes@.len(),
            copy@.len() == k,
            forall|j: int| 0 <= j < k ==> (#[trigger] copy@[j])@ == nodes@[j]@,
        decreases nodes@.len() - k,
    {
        let one = copy_node(&nodes[k]);
        copy.push(one);
        k = k + 1;
    }
    assert(trees(copy@) =~= trees(nodes@));
    copy
}

fn copy_node(node: &ScanTreeNode) -> (copy: ScanTreeNode)
    ensures
        copy@ == node@,
    decreases *node,
{
    match node {
        ScanTreeNode::PathNode { name, full_path, children, folded } => {
            let copy = ScanTreeNode::PathNode {
                name: name.clone(),
                full_path: full_path.clone(),
                children: copy_nodes(children),
                folded: *folded,
            };
            proof {
                lemma_path_node_view(*node);
                lemma_path_node_view(copy);
            }
            copy
        },
        ScanTreeNode::ScanNode { scan, has_subscans } => ScanTreeNode::ScanNode {
            scan: scan.clone(),
            has_subscans: *has_subscans,
        },
    }
}

impl Clone for ScanTreeNode {
    fn clone(&self) -> (copy: Self)
        ensures
            copy@ == self@,
    {
        copy_node(self)
    }
}

/// A node of the tree, as one line of a list.
#[derive(Debug)]
pub struct FlatScanNode {
    pub node: ScanTreeNode,
    /// How deep the node lies.
    pub depth: usize,
    /// Which line of the list this is.
    pub index: usize,
}

/// A line of the list, with the tree that stands there.
pub ghost struct Line {
    pub tree: Tree,
    pub depth: nat,
    pub index: nat,
}

/// The lines that some nodes hold.
pub open spec fn lines(flat: Seq<FlatScanNode>) -> Seq<Line> {
    Seq::new(
        flat.len(),
        |i: int|
            Line { tree: flat[i].node@, depth: flat[i].depth as nat, index: flat[i].index as nat },
    )
}

/// The lines for the nodes from the `k`th on: each node, then what is below it unless that is
/// folded away. The first line is number `index`.
pub open spec fn lines_from(nodes: Seq<Tree>, k: nat, depth: nat, index: nat) -> Seq<Line>
    decreases nodes, nodes.len() - k,
{
    if k >= nodes.len() {
        Seq::empty()
    } else {
        let own = seq![Line { tree: nodes[k as int], depth, index }];
        let below = match nodes[k as int] {
            Tree::Path { children, folded, .. } => if folded {
                Seq::empty()
            } else {
                lines_from(children, 0, depth + 1, index + 1)
            },
            Tree::Leaf { .. } => Seq::empty(),
        };
        own + below + lines_from(nodes, k + 1, depth, index + 1 + below.len())
    }
}

/// The tree as a list; what is folded away is left out.
pub fn flatten_tree(tree: &Vec<ScanTreeNode>) -> (flat: Vec<FlatScanNode>)
    ensures
        lines(flat@) == lines_from(trees(tree@), 0, 0, 0),
{
    let mut flat: Vec<FlatScanNode> = Vec::new();
    flatten_into(tree, &mut flat, 0);
    assert(lines(flat@) =~= lines_from(trees(tree@), 0, 0, 0));
    flat
}

fn flatten_into(nodes: &Vec<ScanTreeNode>, flat: &mut Vec<FlatScanNode>, depth: usize)
    requires
        depth <= old(flat)@.len(),
    ensures
        lines(final(flat)@) == lines(old(flat)@) + lines_from(
            trees(nodes@),
            0,
            depth as nat,
            old(flat)@.len(),
        ),
    decreases nodes@,
{
    let ghost all = trees(nodes@);
    let ghost start = lines(flat@);
    let mut k: usize = 0;
    while k < nodes.len()
        invariant
            k <= nodes@.len(),
            all == trees(nodes@),
            depth <= flat@.len(),
            lines(flat@) + lines_from(all, k as nat, depth as nat, flat@.len()) == start
                + lines_from(all, 0, depth as nat, start.len()),
        decreases nodes@.len() - k,
    {
        let ghost before = lines(flat@);
        let node = &nodes[k];
        let ghost own = Line { tree: node@, depth: depth as nat, index: flat@.len() };
        let index: usize = flat.len();
        flat.push(FlatScanNode { node: copy_node(node), depth, index });
        assert(lines(flat@) =~= before.push(own));
        let ghost mid = lines(flat@);
        let count: usize = flat.len();
        assert(depth < count);
        match node {
            ScanTreeNode::PathNode { children, folded, .. } => {
                proof {
                    lemma_path_node_view(*node);
                }
                if !*folded {
                    flatten_into(children, flat, depth + 1);
                }
            },
            ScanTreeNode::ScanNode { .. } => {},
        }
        proof {
            let below = match all[k as int] {
                Tree::Path { children, folded, .. } => if folded {
                    Seq::empty()
                } else {
                    lines_from(children, 0, (depth + 1) as nat, before.len() + 1)
                },
                Tree::Leaf { .. } => Seq::empty(),
            };
            assert(lines(flat@) =~= mid + below);
            let rest = lines_from(all, (k + 1) as nat, depth as nat, flat@.len());
            assert(lines_from(all, k as nat, depth as nat, before.len()) =~= seq![own] + below
                + rest);
            assert(lines(flat@) + rest =~= before + (seq![own] + below + rest));
        }
        k = k + 1;
    }
    assert(lines(flat@) + lines_from(all, k as nat, depth as nat, flat@.len()) =~= lines(flat@));
}

/// Whether `path` lies below `parent`, whatever slashes the two end with. A path that takes no
/// more bytes than the other does not.
pub open spec fn below_path(path: Seq<char>, parent: Seq<char>) -> bool {
    let p = trim_end(path, '/');
    let q = trim_end(parent, '/');
    &&& vstd::utf8::encode_utf8(path).len() > vstd::utf8::encode_utf8(parent).len()
    &&& q.push('/').is_prefix_of(p)
}

/// Whether `path` lies below `parent`: "/a/b/c" lies below "/a/b".
pub fn is_subpath(path: &str, parent: &str) -> (b: bool)
    ensures
        b == below_path(path@, parent@),
{
    if path.as_bytes().len() <= parent.as_bytes().len() {
        return false;
    }
    let p = trim_end_of(path, '/');
    let mut q = trim_end_of(parent, '/');
    q.push('/');
    begins_with(p.as_str(), q.as_str())
}

/// Whether some scan is of a directory below `path`.
pub open spec fn subscanned(scans: Seq<Scan>, path: Seq<char>) -> bool {
    exists|j: int|
        0 <= j < scans.len() && (#[trigger] scans[j]).root_path@ != path && below_path(
            scans[j].root_path@,
            path,
        )
}

/// Whether some scan is of `path`.
pub open spec fn scanned_path(scans: Seq<Scan>, path: Seq<char>) -> bool {
    exists|i: int| 0 <= i < scans.len() && (#[trigger] scans[i]).root_path@ == path
}

/// For each scanned path, whether directories below it have scans too.
pub fn build_subscan_map(scans: &[Scan]) -> (map: StringHashMap<bool>)
    ensures
        forall|p: Seq<char>| #[trigger] map@.contains_key(p) <==> scanned_path(scans@, p),
        forall|p: Seq<char>| #[trigger]
            map@.contains_key(p) ==> map@[p] == subscanned(scans@, p),
{
    let mut map: StringHashMap<bool> = StringHashMap::new();
    let mut i: usize = 0;
    while i < scans.len()
        invariant
            i <= scans@.len(),
            forall|p: Seq<char>| #[trigger]
                map@.contains_key(p) <==> exists|k: int|
                    0 <= k < i && (#[trigger] scans@[k]).root_path@ == p,
            forall|p: Seq<char>| #[trigger]
                map@.contains_key(p) ==> map@[p] == subscanned(scans@, p),
        decreases scans@.len() - i,
    {
        let ghost path = scans@[i as int].root_path@;
        let mut any = false;
        let mut j: usize = 0;
        while j < scans.len()
            invariant
                i < scans@.len(),
                j <= scans@.len(),
                path == scans@[i as int].root_path@,
                any <==> exists|k: int|
                    0 <= k < j && (#[trigger] scans@[k]).root_path@ != path && below_path(
                        scans@[k].root_path@,
                        path,
                    ),
            decreases scans@.len() - j,
        {
            if !text_eq(scans[j].root_path.as_str(), scans[i].root_path.as_str()) && is_subpath(
                scans[j].root_path.as_str(),
                scans[i].root_path.as_str(),
            ) {
                assert(scans@[j as int].root_path@ != path);
                any = true;
            }
            j = j + 1;
        }
        assert(any == subscanned(scans@, path));
        let ghost before = map@;
        map.insert(scans[i].root_path.clone(), any);
        assert forall|p: Seq<char>| #[trigger] map@.contains_key(p) <==> exists|k: int|
            0 <= k < i + 1 && (#[trigger] scans@[k]).root_path@ == p by {
            if before.contains_key(p) {
                let k = choose|k: int| 0 <= k < i && (#[trigger] scans@[k]).root_path@ == p;
                assert(scans@[k].root_path@ == p);
            }
            if p == path {
                assert(scans@[i as int].root_path@ == p);
            }
        }
        i = i + 1;
    }
    map
}

/// The parts that are not empty.
pub open spec fn nonempty(parts: Seq<Seq<char>>) -> Seq<Seq<char>>
    decreases parts.len(),
{
    if parts.len() == 0 {
        Seq::empty()
    } else {
        let before = nonempty(parts.drop_last());
        if parts.last().len() > 0 {
            before.push(parts.last())
        } else {
            before
        }
    }
}

/// The names on the way from the file system's root to `path`.
pub open spec fn path_parts(path: Seq<char>) -> Seq<Seq<char>> {
    nonempty(split(path, '/'))
}

fn parts_of(path: &str) -> (parts: Vec<String>)
    ensures
        texts(parts@) == path_parts(path@),
{
    let all = split_text(path, '/');
    let mut parts: Vec<String> = Vec::new();
    let mut i: usize = 0;
    assert(texts(all@).take(0) =~= Seq::empty());
    assert(texts(parts@) =~= Seq::empty());
    while i < all.len()
        invariant
            i <= all@.len(),
            texts(parts@) == nonempty(texts(all@).take(i as int)),
        decreases all@.len() - i,
    {
        let ghost before = texts(parts@);
        assert(texts(all@).take(i + 1).drop_last() =~= texts(all@).take(i as int));
        if !all[i].as_str().is_empty() {
            parts.push(all[i].clone());
            assert(texts(parts@) =~= before.push(all@[i as int]@));
        }
        i = i + 1;
    }
    assert(texts(all@).take(i as int) =~= texts(all@));
    parts
}

/// The node for a path with scans: it starts folded.
pub open spec fn path_node(name: Seq<char>, path: Seq<char>, children: Seq<Tree>) -> Tree {
    Tree::Path { name, path, children, folded: true }
}

/// Where the directory at `path` stands among the nodes, or how many there are.
pub open spec fn place_of_path(nodes: Seq<Tree>, path: Seq<char>) -> nat
    decreases nodes.len(),
{
    if nodes.len() == 0 {
        0
    } else if nodes[0] is Path && nodes[0].full_path() == path {
        0
    } else {
        1 + place_of_path(nodes.skip(1), path)
    }
}

/// The nodes after a directory with scans was put in under the directories in `parts`, from the
/// `d`th on; those that are missing are made.
pub open spec fn inserted(
    nodes: Seq<Tree>,
    parts: Seq<Seq<char>>,
    d: nat,
    current: Seq<char>,
    target: Seq<char>,
    scans: Seq<Tree>,
) -> Seq<Tree>
    decreases parts.len() - d,
{
    if d + 1 >= parts.len() {
        nodes.push(path_node(parts.last(), target, scans))
    } else {
        let next = current.push('/') + parts[d as int];
        let k = place_of_path(nodes, next) as int;
        if k < nodes.len() {
            nodes.update(
                k,
                nodes[k].with_children(
                    inserted(nodes[k].nodes(), parts, d + 1, next, target, scans),
                ),
            )
        } else {
            nodes.push(
                path_node(
                    parts[d as int],
                    next,
                    inserted(Seq::empty(), parts, d + 1, next, target, scans),
                ),
            )
        }
    }
}

/// The nodes after the directory at `path` was put in with its scans.
pub open spec fn with_path(nodes: Seq<Tree>, path: Seq<char>, scans: Seq<Tree>) -> Seq<Tree> {
    let target = trim_end(path, '/');
    let parts = path_parts(target);
    if parts.len() == 0 {
        nodes.push(path_node("/"@, "/"@, scans))
    } else {
        inserted(nodes, parts, 0, Seq::empty(), target, scans)
    }
}

proof fn lemma_place_of_path(nodes: Seq<Tree>, path: Seq<char>, k: nat)
    requires
        k <= nodes.len(),
        forall|i: int|
            0 <= i < k ==> !((#[trigger] nodes[i]) is Path && nodes[i].full_path() == path),
        k < nodes.len() ==> nodes[k as int] is Path && nodes[k as int].full_path() == path,
    ensures
        place_of_path(nodes, path) == k,
    decreases k,
{
    if k > 0 {
        assert forall|i: int| 0 <= i < k - 1 implies !((#[trigger] nodes.skip(1)[i]) is Path
            && nodes.skip(1)[i].full_path() == path) by {
            assert(nodes.skip(1)[i] == nodes[i + 1]);
        }
        assert(!(nodes[0] is Path && nodes[0].full_path() == path));
        lemma_place_of_path(nodes.skip(1), path, (k - 1) as nat);
    }
}

fn find_path(nodes: &Vec<ScanTreeNode>, path: &str) -> (k: usize)
    ensures
        k <= nodes@.len(),
        k == place_of_path(trees(nodes@), path@),
        k < nodes@.len() ==> nodes@[k as int] is PathNode,
{
    let ghost all = trees(nodes@);
    let mut k: usize = 0;
    while k < nodes.len()
        invariant
            k <= nodes@.len(),
            all == trees(nodes@),
            forall|i: int|
                0 <= i < k ==> !((#[trigger] all[i]) is Path && all[i].full_path() == path@),
        decreases nodes@.len() - k,
    {
        assert(all[k as int] == nodes@[k as int]@);
        match &nodes[k] {
            ScanTreeNode::PathNode { full_path, .. } => {
                if text_eq(full_path.as_str(), path) {
                    proof {
                        lemma_place_of_path(all, path@, k as nat);
                    }
                    return k;
                }
            },
            ScanTreeNode::ScanNode { .. } => {},
        }
        k = k + 1;
    }
    proof {
        lemma_place_of_path(all, path@, k as nat);
    }
    k
}

fn make_path_node(name: &str, path: &str, children: Vec<ScanTreeNode>) -> (node: ScanTreeNode)
    ensures
        node@ == path_node(name@, path@, trees(children@)),
{
    let node = ScanTreeNode::PathNode {
        name: name.to_owned(),
        full_path: path.to_owned(),
        children,
        folded: true,
    };
    proof {
        lemma_path_node_view(node);
    }
    node
}

fn insert_path_recursive(
    nodes: &mut Vec<ScanTreeNode>,
    parts: &Vec<String>,
    d: usize,
    current: &str,
    target: &str,
    scans: Vec<ScanTreeNode>,
)
    requires
        d < parts@.len(),
    ensures
        trees(final(nodes)@) == inserted(
            trees(old(nodes)@),
            texts(parts@),
            d as nat,
            current@,
            target@,
            trees(scans@),
        ),
    decreases parts@.len() - d,
{
    let ghost start = trees(nodes@);
    let ghost names = texts(parts@);
    if d == parts.len() - 1 {
        let node = make_path_node(parts[d].as_str(), target, scans);
        nodes.push(node);
        assert(trees(nodes@) =~= start.push(node@));
        return;
    }
    let mut next = current.to_owned();
    next.push('/');
    next.append(parts[d].as_str());
    assert(next@ =~= current@.push('/') + names[d as int]);
    let k: usize = find_path(nodes, next.as_str());
    if k < nodes.len() {
        let ghost before = nodes@[k as int];
        proof {
            lemma_path_node_view(before);
            assert(start[k as int] == before@);
        }
        let node: &mut ScanTreeNode = &mut nodes[k];
        match node.children_mut() {
            Some(children) => {
                insert_path_recursive(children, parts, d + 1, next.as_str(), target, scans);
            },
            None => {},
        }
        proof {
            lemma_path_node_view(nodes@[k as int]);
            assert(trees(nodes@) =~= start.update(k as int, nodes@[k as int]@));
        }
    } else {
        let mut children: Vec<ScanTreeNode> = Vec::new();
        assert(trees(children@) =~= Seq::empty());
        insert_path_recursive(&mut children, parts, d + 1, next.as_str(), target, scans);
        let node = make_path_node(parts[d].as_str(), next.as_str(), children);
        nodes.push(node);
        assert(trees(nodes@) =~= start.push(node@));
    }
}

fn insert_path_into_tree(nodes: &mut Vec<ScanTreeNode>, path: &str, scans: Vec<ScanTreeNode>)
    ensures
        trees(final(nodes)@) == with_path(trees(old(nodes)@), path@, trees(scans@)),
{
    let ghost start = trees(nodes@);
    let target = trim_end_of(path, '/');
    let parts = parts_of(target.as_str());
    assert(texts(parts@).len() == parts@.len());
    if parts.len() == 0 {
        let node = make_path_node("/", "/", scans);
        nodes.push(node);
        assert(trees(nodes@) =~= start.push(node@));
    } else {
        assert(""@ =~= Seq::empty()) by {
            reveal_strlit("");
        }
        insert_path_recursive(nodes, &parts, 0, "", target.as_str(), scans);
    }
}

/// The first `n` scans, as far as they are of `path`, each as a leaf.
pub open spec fn leaves_of(scans: Seq<Scan>, path: Seq<char>, n: nat) -> Seq<Tree>
    decreases n,
{
    if n == 0 {
        Seq::empty()
    } else {
        let before = leaves_of(scans, path, (n - 1) as nat);
        if scans[n - 1].root_path@ == path {
            before.push(Tree::Leaf { scan: scans[n - 1], has_subscans: subscanned(scans, path) })
        } else {
            before
        }
    }
}

fn scan_leaves(scans: &[Scan], path: &str, subscans: &StringHashMap<bool>) -> (leaves: Vec<
    ScanTreeNode,
>)
    requires
        scanned_path(scans@, path@) ==> subscans@.contains_key(path@) && subscans@[path@]
            == subscanned(scans@, path@),
    ensures
        trees(leaves@) == leaves_of(scans@, path@, scans@.len()),
{
    let has_subscans = match subscans.get(path) {
        Some(b) => *b,
        None => false,
    };
    let mut leaves: Vec<ScanTreeNode> = Vec::new();
    let mut n: usize = 0;
    assert(trees(leaves@) =~= Seq::empty());
    while n < scans.len()
        invariant
            n <= scans@.len(),
            scanned_path(scans@, path@) ==> has_subscans == subscanned(scans@, path@),
            trees(leaves@) == leaves_of(scans@, path@, n as nat),
        decreases scans@.len() - n,
    {
        let ghost before = trees(leaves@);
        if text_eq(scans[n].root_path.as_str(), path) {
            assert(scans@[n as int].root_path@ == path@);
            let leaf = ScanTreeNode::ScanNode { scan: scans[n].clone(), has_subscans };
            leaves.push(leaf);
            assert(trees(leaves@) =~= before.push(leaf@));
        }
        n = n + 1;
    }
    leaves
}

/// Whether `a` comes before `b` in dictionary order.
pub open spec fn strictly_before(a: Seq<char>, b: Seq<char>) -> bool {
    text_le(a, b) && a != b
}

/// `paths` lists every path that has a scan once, in dictionary order.
pub open spec fn is_path_list(scans: Seq<Scan>, paths: Seq<Seq<char>>) -> bool {
    &&& forall|p: int, q: int|
        0 <= p < q < paths.len() ==> strictly_before(#[trigger] paths[p], #[trigger] paths[q])
    &&& forall|s: Seq<char>| #[trigger] paths.contains(s) <==> scanned_path(scans, s)
}

fn path_list(scans: &[Scan]) -> (paths: Vec<String>)
    ensures
        is_path_list(scans@, texts(paths@)),
{
    let mut keys: Vec<Alphabetical> = Vec::new();
    let mut i: usize = 0;
    while i < scans.len()
        invariant
            i <= scans@.len(),
            keys@.len() == i,
            forall|j: int| 0 <= j < i ==> (#[trigger] keys@[j]).chars@ == scans@[j].root_path@,
        decreases scans@.len() - i,
    {
        keys.push(Alphabetical { chars: to_chars(scans[i].root_path.as_str()) });
        i = i + 1;
    }
    let order = sorted_order(&keys);
    let mut paths: Vec<String> = Vec::new();
    let mut n: usize = 0;
    while n < order.len()
        invariant
            n <= order@.len(),
            order@.len() == scans@.len(),
            keys@.len() == scans@.len(),
            forall|j: int|
                0 <= j < scans@.len() ==> (#[trigger] keys@[j]).chars@ == scans@[j].root_path@,
            forall|p: int| 0 <= p < order@.len() ==> (#[trigger] order@[p]) < scans@.len(),
            forall|p: int, q: int|
                0 <= p < q < order@.len() ==> goes_before(
                    keys@,
                    #[trigger] order@[p] as int,
                    #[trigger] order@[q] as int,
                ),
            forall|p: int, q: int|
                0 <= p < q < paths@.len() ==> strictly_before(
                    #[trigger] texts(paths@)[p],
                    #[trigger] texts(paths@)[q],
                ),
            n > 0 <==> paths@.len() > 0,
            n > 0 ==> texts(paths@).last() == scans@[order@[n - 1] as int].root_path@,
            forall|p: int|
                0 <= p < n ==> texts(paths@).contains(
                    scans@[#[trigger] order@[p] as int].root_path@,
                ),
            forall|k: int| 0 <= k < paths@.len() ==> scanned_path(scans@, #[trigger] texts(paths@)[k]),
        decreases order@.len() - n,
    {
        let c: usize = order[n];
        let ghost before = texts(paths@);
        let ghost path = scans@[c as int].root_path@;
        let known = paths.len() > 0 && text_eq(
            paths[paths.len() - 1].as_str(),
            scans[c].root_path.as_str(),
        );
        if !known {
            paths.push(scans[c].root_path.clone());
            proof {
                let after = texts(paths@);
                assert(after =~= before.push(path));
                assert(after[before.len() as int] == path);
                assert forall|p: int, q: int| 0 <= p < q < paths@.len() implies strictly_before(
                    #[trigger] after[p],
                    #[trigger] after[q],
                ) by {
                    if q < before.len() {
                        assert(after[p] == before[p] && after[q] == before[q]);
                    } else {
                        assert(goes_before(keys@, order@[n - 1] as int, order@[n as int] as int));
                        assert(strictly_before(before.last(), path));
                        if p < before.len() - 1 {
                            assert(strictly_before(before[p], before[before.len() - 1]));
                            crate::text::lemma_text_le_transitive(
                                before[p],
                                before.last(),
                                path,
                            );
                            if before[p] == path {
                                crate::text::lemma_text_le_antisymmetric(before[p], before.last());
                            }
                        }
                    }
                }
                assert forall|p: int| 0 <= p < n + 1 implies after.contains(
                    scans@[#[trigger] order@[p] as int].root_path@,
                ) by {
                    if p < n {
                        let s = scans@[order@[p] as int].root_path@;
                        let k = choose|k: int| 0 <= k < before.len() && before[k] == s;
                        assert(after[k] == s);
                    }
                }
                assert(scanned_path(scans@, path)) by {
                    assert(scans@[c as int].root_path@ == path);
                }
                assert forall|k: int| 0 <= k < paths@.len() implies scanned_path(
                    scans@,
                    #[trigger] after[k],
                ) by {
                    if k < before.len() {
                        assert(after[k] == before[k]);
                    }
                }
            }
        } else {
            assert(before[before.len() - 1] == path);
        }
        n = n + 1;
    }
    proof {
        let all = texts(paths@);
        assert forall|s: Seq<char>| #[trigger] all.contains(s) <==> scanned_path(scans@, s) by {
            if all.contains(s) {
                let k = choose|k: int| 0 <= k < all.len() && all[k] == s;
                assert(scanned_path(scans@, all[k]));
            }
            if scanned_path(scans@, s) {
                let i = choose|i: int| 0 <= i < scans@.len() && (#[trigger] scans@[i]).root_path@ == s;
                assert(order@.contains(i as usize));
                let p = choose|p: int| 0 <= p < order@.len() && order@[p] == i as usize;
                assert(all.contains(scans@[order@[p] as int].root_path@));
            }
        }
    }
    paths
}

/// The tree of the first `n` paths with their scans.
pub open spec fn grown(scans: Seq<Scan>, paths: Seq<Seq<char>>, n: nat) -> Seq<Tree>
    decreases n,
{
    if n == 0 {
        Seq::empty()
    } else {
        with_path(
            grown(scans, paths, (n - 1) as nat),
            paths[n - 1],
            leaves_of(scans, paths[n - 1], scans.len()),
        )
    }
}

/// The tree with every directory that holds a single directory replaced by that one.
pub open spec fn collapsed(tree: Tree) -> Tree
    decreases tree,
{
    match tree {
        Tree::Path { name, path, children, folded } => if children.len() == 1 && collapsed(
            children[0],
        ) is Path {
            collapsed(children[0])
        } else {
            Tree::Path {
                name,
                path,
                children: Seq::new(
                    children.len(),
                    |i: int|
                        if 0 <= i < children.len() {
                            collapsed(children[i])
                        } else {
                            arbitrary()
                        },
                ),
                folded,
            }
        },
        Tree::Leaf { .. } => tree,
    }
}

/// Several trees collapsed.
pub open spec fn collapsed_trees(nodes: Seq<Tree>) -> Seq<Tree> {
    Seq::new(nodes.len(), |i: int| collapsed(nodes[i]))
}

pub proof fn lemma_collapsed_path(tree: Tree)
    requires
        tree is Path,
    ensures
        ({
            let inner = collapsed_trees(tree->children);
            collapsed(tree) == if inner.len() == 1 && inner[0] is Path {
                inner[0]
            } else {
                tree.with_children(inner)
            }
        }),
{
    let inner = collapsed_trees(tree->children);
    if !(inner.len() == 1 && inner[0] is Path) {
        assert(collapsed(tree)->children =~= inner);
    }
}

fn collapse_node(node: ScanTreeNode) -> (r: ScanTreeNode)
    ensures
        r@ == collapsed(node@),
    decreases node,
{
    proof {
        if node is PathNode {
            lemma_path_node_view(node);
            lemma_collapsed_path(node@);
        }
    }
    match node {
        ScanTreeNode::PathNode { name, full_path, children, folded } => {
            let ghost before = trees(children@);
            let mut inner = collapse_single_child_paths(children);
            let alone = inner.len() == 1 && match &inner[0] {
                ScanTreeNode::PathNode { .. } => true,
                ScanTreeNode::ScanNode { .. } => false,
            };
            assert(alone ==> trees(inner@)[0] == inner@[0]@);
            assert(inner@.len() == 1 ==> trees(inner@)[0] == inner@[0]@);
            if alone {
                inner.remove(0)
            } else {
                let r = ScanTreeNode::PathNode { name, full_path, children: inner, folded };
                proof {
                    lemma_path_node_view(r);
                }
                r
            }
        },
        ScanTreeNode::ScanNode { scan, has_subscans } => ScanTreeNode::ScanNode {
            scan,
            has_subscans,
        },
    }
}

/// Replaces every directory that holds a single directory by that one, at every depth.
pub fn collapse_single_child_paths(nodes: Vec<ScanTreeNode>) -> (r: Vec<ScanTreeNode>)
    ensures
        trees(r@) == collapsed_trees(trees(nodes@)),
    decreases nodes@,
{
    let ghost all = nodes@;
    let mut rest = nodes;
    let mut done: Vec<ScanTreeNode> = Vec::new();
    while rest.len() > 0
        invariant
            rest@.len() + done@.len() == all.len(),
            rest@ == all.skip(done@.len() as int),
            forall|k: int| 0 <= k < done@.len() ==> (#[trigger] done@[k])@ == collapsed(all[k]@),
            nodes@ == all,
        decreases rest@.len(),
    {
        let ghost k = done@.len() as int;
        let first = rest.remove(0);
        assert(first == all[k]);
        assert(rest@ =~= all.skip(k + 1));
        done.push(collapse_node(first));
    }
    assert(trees(done@) =~= collapsed_trees(trees(all)));
    done
}

/// The scans as a tree: one directory for each scanned path, under the directories that it lies in,
/// with chains of single directories drawn together. Everything starts folded.
pub fn build_scan_tree(scans: &[Scan]) -> (tree: Vec<ScanTreeNode>)
    ensures
        exists|paths: Seq<Seq<char>>| #[trigger]
            is_path_list(scans@, paths) && trees(tree@) == collapsed_trees(
                grown(scans@, paths, paths.len()),
            ),
{
    let paths = path_list(scans);
    let subscans = build_subscan_map(scans);
    let ghost names = texts(paths@);
    let mut nodes: Vec<ScanTreeNode> = Vec::new();
    let mut n: usize = 0;
    assert(trees(nodes@) =~= Seq::empty());
    while n < paths.len()
        invariant
            n <= paths@.len(),
            names == texts(paths@),
            is_path_list(scans@, names),
            forall|p: Seq<char>| #[trigger]
                subscans@.contains_key(p) <==> scanned_path(scans@, p),
            forall|p: Seq<char>| #[trigger]
                subscans@.contains_key(p) ==> subscans@[p] == subscanned(scans@, p),
            trees(nodes@) == grown(scans@, names, n as nat),
        decreases paths@.len() - n,
    {
        let ghost path = names[n as int];
        assert(scanned_path(scans@, path) ==> subscans@.contains_key(path));
        let leaves = scan_leaves(scans, paths[n].as_str(), &subscans);
        insert_path_into_tree(&mut nodes, paths[n].as_str(), leaves);
        n = n + 1;
    }
    collapse_single_child_paths(nodes)
}

} // verus!
