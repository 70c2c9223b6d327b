//! Paths as texts: the home directory, when two mean one place, and sets of them.
use vstd::hash_set::StringHashSet;
use vstd::prelude::*;

use crate::text::{begins_with, seen, split, split_text, text_eq, texts};

verus! {

/// A set of paths that can be asked for a member quickly and walked when members have to go.
pub struct PathSet {
    index: StringHashSet,
    members: Vec<String>,
}

impl View for PathSet {
    type V = Set<Seq<char>>;

    closed spec fn view(&self) -> Set<Seq<char>> {
        self.index@
    }
}

/// What the paths below the directory at `top` start with.
pub open spec fn inside(top: Seq<char>) -> Seq<char> {
    if top == "/"@ {
        top
    } else {
        top.push('/')
    }
}

/// Whether `path` lies below the directory at `top`. Below the root of the file system lies every
/// other path that starts there.
pub open spec fn lies_below(path: Seq<char>, top: Seq<char>) -> bool {
    path != top && inside(top).is_prefix_of(path)
}

/// Whether `path` is `top` itself or lies below it.
pub open spec fn at_or_below(path: Seq<char>, top: Seq<char>) -> bool {
    path == top || lies_below(path, top)
}

/// What the paths below the directory at `top` start with.
pub fn inside_of(top: &str) -> (start: String)
    ensures
        start@ == inside(top@),
{
    let mut start = top.to_owned();
    if !text_eq(top, "/") {
        start.push('/');
    }
    start
}

impl PathSet {
    /// Every path of the set is listed among the members that a walk passes.
    pub closed spec fn well_formed(&self) -> bool {
        forall|s: Seq<char>| #[trigger] self.index@.contains(s) ==> texts(self.members@).contains(s)
    }

    /// The set without members.
    pub fn new() -> (set: PathSet)
        ensures
            set@ == Set::<Seq<char>>::empty(),
            set.well_formed(),
    {
        PathSet { index: StringHashSet::new(), members: Vec::new() }
    }

    /// Whether `path` is a member.
    pub fn contains(&self, path: &str) -> (b: bool)
        ensures
            b == self@.contains(path@),
    {
        self.index.contains(path)
    }

    /// How many members there are.
    pub fn len(&self) -> (n: usize)
        ensures
            n == self@.len(),
    {
        self.index.len()
    }

    /// Makes `path` a member.
    pub fn insert(&mut self, path: String)
        requires
            old(self).well_formed(),
        ensures
            final(self).well_formed(),
            final(self)@ == old(self)@.insert(path@),
    {
        let ghost before = texts(self.members@);
        let copy = path.clone();
        let added = self.index.insert(path);
        if added {
            self.members.push(copy);
            proof {
                let after = texts(self.members@);
                assert(after =~= before.push(copy@));
                assert forall|s: Seq<char>| #[trigger] self.index@.contains(s) implies after.contains(
                    s,
                ) by {
                    if s == copy@ {
                        assert(after[before.len() as int] == s);
                    } else {
                        let k = choose|k: int| 0 <= k < before.len() && before[k] == s;
                        assert(after[k] == s);
                    }
                }
            }
        } else {
            assert(self.index@ =~= old(self).index@);
        }
    }

    /// Takes `path` out.
    pub fn remove(&mut self, path: &str)
        requires
            old(self).well_formed(),
        ensures
            final(self).well_formed(),
            final(self)@ == old(self)@.remove(path@),
    {
        let known = self.index.remove(path);
        if known {
            let ghost all = texts(self.members@);
            let mut kept: Vec<String> = Vec::new();
            let mut i: usize = 0;
            while i < self.members.len()
                invariant
                    i <= self.members@.len(),
                    all == texts(self.members@),
                    forall|k: int|
                        0 <= k < i && all[k] != path@ ==> #[trigger] texts(kept@).contains(all[k]),
                decreases self.members@.len() - i,
            {
                if !text_eq(self.members[i].as_str(), path) {
                    let ghost before = texts(kept@);
                    kept.push(self.members[i].clone());
                    proof {
                        let after = texts(kept@);
                        assert(after =~= before.push(all[i as int]));
                        assert(after[before.len() as int] == all[i as int]);
                        assert forall|k: int|
                            0 <= k < i + 1 && all[k] != path@ implies #[trigger] after.contains(
                            all[k],
                        ) by {
                            if k < i {
                                assert(before.contains(all[k]));
                                let j = choose|j: int| 0 <= j < before.len() && before[j] == all[k];
                                assert(after[j] == all[k]);
                            }
                        }
                    }
                }
                i = i + 1;
            }
            self.members = kept;
            proof {
                assert forall|s: Seq<char>| #[trigger] self.index@.contains(s) implies texts(
                    self.members@,
                ).contains(s) by {
                    assert(old(self).index@.contains(s));
                    let k = choose|k: int| 0 <= k < all.len() && all[k] == s;
                    assert(texts(kept@).contains(all[k]));
                }
            }
        } else {
            assert(self.index@ =~= old(self).index@);
        }
    }

    /// Takes out `top` and every path below it.
    pub fn remove_subtree(&mut self, top: &str)
        requires
            old(self).well_formed(),
        ensures
            final(self).well_formed(),
            final(self)@ == old(self)@.filter(|s: Seq<char>| !at_or_below(s, top@)),
    {
        let below = inside_of(top);
        let ghost all = texts(self.members@);
        let mut kept: Vec<String> = Vec::new();
        let mut i: usize = 0;
        while i < self.members.len()
            invariant
                i <= self.members@.len(),
                self.members@ == old(self).members@,
                all == texts(self.members@),
                below@ == inside(top@),
                forall|k: int|
                    0 <= k < i && !at_or_below(all[k], top@) ==> #[trigger] texts(kept@).contains(
                        all[k],
                    ),
                forall|s: Seq<char>| #[trigger]
                    self.index@.contains(s) <==> old(self).index@.contains(s) && !(exists|k: int|
                        0 <= k < i && #[trigger] all[k] == s && at_or_below(s, top@)),
            decreases self.members@.len() - i,
        {
            let ghost before_index = self.index@;
            let gone = text_eq(self.members[i].as_str(), top) || begins_with(
                self.members[i].as_str(),
                below.as_str(),
            );
            if gone {
                let _known = self.index.remove(self.members[i].as_str());
                proof {
                    assert forall|s: Seq<char>| #[trigger]
                        self.index@.contains(s) <==> old(self).index@.contains(s) && !(exists|k: int|
                            0 <= k < i + 1 && #[trigger] all[k] == s && at_or_below(s, top@)) by {
                        if s == all[i as int] {
                        } else if before_index.contains(s) {
                        } else if old(self).index@.contains(s) {
                            assert(!before_index.contains(s));
                            let k = choose|k: int|
                                0 <= k < i && #[trigger] all[k] == s && at_or_below(s, top@);
                            assert(all[k] == s);
                        }
                    }
                }
            } else {
                let ghost before = texts(kept@);
                kept.push(self.members[i].clone());
                proof {
                    let after = texts(kept@);
                    assert(after =~= before.push(all[i as int]));
                    assert(after[before.len() as int] == all[i as int]);
                    assert forall|k: int|
                        0 <= k < i + 1 && !at_or_below(all[k], top@) implies #[trigger] after.contains(
                        all[k],
                    ) by {
                        if k < i {
                            assert(before.contains(all[k]));
                            let j = choose|j: int| 0 <= j < before.len() && before[j] == all[k];
                            assert(after[j] == all[k]);
                        }
                    }
                    assert forall|s: Seq<char>| #[trigger]
                        self.index@.contains(s) <==> old(self).index@.contains(s) && !(exists|k: int|
                            0 <= k < i + 1 && #[trigger] all[k] == s && at_or_below(s, top@)) by {
                        if old(self).index@.contains(s) && !before_index.contains(s) {
                            let k = choose|k: int|
                                0 <= k < i && #[trigger] all[k] == s && at_or_below(s, top@);
                            assert(all[k] == s);
                        }
                    }
                }
            }
            i = i + 1;
        }
        self.members = kept;
        proof {
            assert forall|s: Seq<char>| #[trigger] self.index@.contains(s) implies texts(
                self.members@,
            ).contains(s) by {
                assert(old(self).index@.contains(s));
                let k = choose|k: int| 0 <= k < all.len() && all[k] == s;
                assert(all[k] == s);
                assert(!at_or_below(all[k], top@));
                assert(texts(kept@).contains(all[k]));
            }
            assert forall|s: Seq<char>| #[trigger] self.index@.contains(s) == old(self).index@.filter(
                |s: Seq<char>| !at_or_below(s, top@),
            ).contains(s) by {
                if old(self).index@.contains(s) && at_or_below(s, top@) {
                    let k = choose|k: int| 0 <= k < all.len() && all[k] == s;
                    assert(all[k] == s);
                }
            }
            assert(self.index@ =~= old(self).index@.filter(
                |s: Seq<char>| !at_or_below(s, top@),
            ));
        }
    }

    /// Takes every member out.
    pub fn clear(&mut self)
        ensures
            final(self).well_formed(),
            final(self)@ == Set::<Seq<char>>::empty(),
    {
        self.index.clear();
        self.members = Vec::new();
    }
}

/// Whether a path starts with the sign for the home directory.
pub open spec fn names_home(path: Seq<char>) -> bool {
    path.len() > 0 && path[0] == '~' && (path.len() == 1 || path[1] == '/')
}

/// Whether a path starts with the sign for the home directory before a backslash, which only some
/// systems take for a separator.
pub open spec fn may_name_home(path: Seq<char>) -> bool {
    path.len() > 1 && path[0] == '~' && path[1] == '\\'
}

/// `expanded` is `path` with `home` in place of the sign for the home directory. Without a home
/// directory, or without the sign, it is `path` itself.
pub open spec fn is_expansion(path: Seq<char>, home: Option<Seq<char>>, expanded: Seq<char>) -> bool {
    match home {
        Some(h) => if names_home(path) {
            expanded == h + path.skip(1)
        } else if may_name_home(path) {
            expanded == h + path.skip(1) || expanded == path
        } else {
            expanded == path
        },
        None => expanded == path,
    }
}

/// Calls `shellexpand::tilde_with_context` with `home` as the home directory. A path that starts
/// with `~`, alone or before a slash, has `home` in its place, where there is one; every other
/// path stays as it is. Before a backslash the sign is replaced on Windows only, which the
/// contract leaves open.
#[verifier::external_body]
fn tilde(path: &str, home: Option<&str>) -> (expanded: String)
    ensures
        is_expansion(path@, seen(home), expanded@),
{
    shellexpand::tilde_with_context(path, || home).to_string()
}

/// The path with the home directory in place of the sign for it.
pub fn expand_home(path: &str, home: Option<&str>) -> (expanded: String)
    ensures
        is_expansion(path@, seen(home), expanded@),
{
    tilde(path, home)
}

/// The parts of a path that count when it is compared: empty ones do not, and a single dot counts
/// only as the very first.
pub open spec fn counting_parts(parts: Seq<Seq<char>>) -> Seq<Seq<char>>
    decreases parts.len(),
{
    if parts.len() == 0 {
        Seq::empty()
    } else {
        let before = counting_parts(parts.drop_last());
        let last = parts.last();
        if last.len() > 0 && (last != "."@ || parts.len() == 1) {
            before.push(last)
        } else {
            before
        }
    }
}

/// Whether a path starts at the root of the file system.
pub open spec fn rooted(path: Seq<char>) -> bool {
    path.len() > 0 && path[0] == '/'
}

/// Whether two paths are written for one place: they have the same parts, and both or none start
/// at the root.
pub open spec fn same_place(a: Seq<char>, b: Seq<char>) -> bool {
    rooted(a) == rooted(b) && counting_parts(split(a, '/')) == counting_parts(split(b, '/'))
}

fn parts_that_count(path: &str) -> (parts: Vec<String>)
    ensures
        texts(parts@) == counting_parts(split(path@, '/')),
{
    let all = split_text(path, '/');
    let mut parts: Vec<String> = Vec::new();
    let mut i: usize = 0;
    assert(texts(all@).take(0) =~= Seq::empty());
    assert(texts(parts@) =~= Seq::empty());
    while i < all.len()
        invariant
            i <= all@.len(),
            texts(parts@) == counting_parts(texts(all@).take(i as int)),
        decreases all@.len() - i,
    {
        let ghost before = texts(parts@);
        assert(texts(all@).take(i + 1).drop_last() =~= texts(all@).take(i as int));
        if !all[i].as_str().is_empty() && (!text_eq(all[i].as_str(), ".") || i == 0) {
            parts.push(all[i].clone());
            assert(texts(parts@) =~= before.push(all@[i as int]@));
        }
        i = i + 1;
    }
    assert(texts(all@).take(i as int) =~= texts(all@));
    parts
}

/// Whether two paths are written for one place.
pub fn same_path(a: &str, b: &str) -> (same: bool)
    ensures
        same == same_place(a@, b@),
{
    let x = parts_that_count(a);
    let y = parts_that_count(b);
    let ghost p = texts(x@);
    let ghost q = texts(y@);
    let slash = "/";
    proof {
        reveal_strlit("/");
        assert("/"@ =~= seq!['/']);
    }
    let first = begins_with(a, slash);
    let second = begins_with(b, slash);
    proof {
        assert(first == rooted(a@)) by {
            if first {
                assert(a@[0] == "/"@[0]);
            } else if rooted(a@) {
                assert(a@.take(1) =~= "/"@);
                assert("/"@.is_prefix_of(a@));
            }
        }
        assert(second == rooted(b@)) by {
            if second {
                assert(b@[0] == "/"@[0]);
            } else if rooted(b@) {
                assert(b@.take(1) =~= "/"@);
                assert("/"@.is_prefix_of(b@));
            }
        }
    }
    if first != second || x.len() != y.len() {
        assert(p.len() == x@.len() && q.len() == y@.len());
        return false;
    }
    let mut i: usize = 0;
    while i < x.len()
        invariant
            i <= x@.len(),
            x@.len() == y@.len(),
            p == texts(x@),
            q == texts(y@),
            p == counting_parts(split(a@, '/')),
            q == counting_parts(split(b@, '/')),
            forall|k: int| 0 <= k < i ==> p[k] == q[k],
        decreases x@.len() - i,
    {
        if !text_eq(x[i].as_str(), y[i].as_str()) {
            assert(p[i as int] != q[i as int]);
            return false;
        }
        i = i + 1;
    }
    assert(p =~= q);
    true
}

} // verus!
